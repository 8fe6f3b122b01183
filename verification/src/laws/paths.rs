//! Paths: what their components are, and how paths are put together and taken apart.

use vstd::prelude::*;

use crate::path::{
    absolute, body, chain, components, file_name, first_slash, is_absolute, is_step, join_path,
    joined_path, lemma_absolute_steps, lemma_body_joined, lemma_body_steps, lemma_first_slash,
    lemma_first_slash_is, lemma_joined_parts, lemma_steps_read_back, lemma_steps_text,
    lemma_tidied_is_tidy, parent, parts, parts_of, path_text, same_path, starts_with_path,
    strip_prefix, tidy, Component, Part,
};
use crate::text::texts;

verus! {

broadcast use vstd::string::group_string_axioms;

/// A path without a slash is one component: nothing where it is empty, the place itself for `.`, the one
/// above for `..`, and else a name.
pub proof fn lemma_one_component(path: &str, r: Vec<Component>)
    requires
        call_ensures(components, (path,), r),
        !path@.contains('/'),
    ensures
        path@.len() == 0 ==> r@.len() == 0,
        path@ == seq!['.'] ==> parts(r@) == seq![Part::Here],
        path@ == seq!['.', '.'] ==> parts(r@) == seq![Part::Up],
        path@.len() > 0 && path@ != seq!['.'] && path@ != seq!['.', '.'] ==> parts(r@) == seq![
            Part::Name(path@),
        ],
{
    assert(parts(r@).len() == r@.len());
    assert forall|i: int| 0 <= i < path@.len() implies path@[i] != '/' by {
        assert(path@.contains(path@[i]));
    }
    lemma_first_slash_is(path@, path@.len() as int);
    assert(path@.take(path@.len() as int) =~= path@);
    if path@ == seq!['.'] {
        assert(parts_of(path@) =~= seq![Part::Here]);
    }
    if path@ == seq!['.', '.'] {
        assert(path@ != seq!['.']) by {
            assert(path@.len() == 2);
        }
        assert(parts_of(path@) =~= seq![Part::Up]);
    }
    if path@.len() > 0 && path@ != seq!['.'] && path@ != seq!['.', '.'] {
        assert(parts_of(path@) =~= seq![Part::Name(path@)]);
    }
}

/// The components without the start of the path.
pub open spec fn below_start(all: Seq<Part>) -> Seq<Part> {
    if all.len() > 0 && (all[0] is Root || all[0] is Here) {
        all.skip(1)
    } else {
        all
    }
}

proof fn lemma_below_start(path: Seq<char>)
    ensures
        below_start(parts_of(path)) == body(path),
{
    lemma_body_steps(path);
    if body(path).len() > 0 {
        assert(is_step(body(path)[0]));
    }
    assert(below_start(parts_of(path)) =~= body(path));
}

/// What stands on the two sides of a slash is read on its own, but the start of what stands behind it
/// does not count. What begins with a slash begins at the root.
pub proof fn lemma_slash_divides(
    path: &str,
    front: &str,
    back: &str,
    r: Vec<Component>,
    before: Vec<Component>,
    after: Vec<Component>,
)
    requires
        call_ensures(components, (path,), r),
        call_ensures(components, (front,), before),
        call_ensures(components, (back,), after),
        path@ == front@ + seq!['/'] + back@,
    ensures
        front@.len() > 0 ==> parts(r@) == parts(before@) + below_start(parts(after@)),
        front@.len() == 0 ==> parts(r@) == seq![Part::Root] + below_start(parts(after@)),
{
    lemma_below_start(back@);
    lemma_body_joined(front@, back@);
    if front@.len() > 0 {
        assert(path@[0] == front@[0]);
        lemma_first_slash(front@);
        let n = first_slash(front@);
        assert forall|i: int| 0 <= i < n implies path@[i] != '/' by {
            assert(path@[i] == front@[i]);
        }
        assert(path@[n] == '/');
        lemma_first_slash_is(path@, n);
        assert(path@.take(n) =~= front@.take(n));
        assert(parts_of(path@) =~= parts_of(front@) + body(back@));
    } else {
        assert(path@[0] == '/');
        assert(body(front@) =~= Seq::<Part>::empty());
        assert(parts_of(path@) =~= seq![Part::Root] + body(back@));
    }
}

/// A path is absolute exactly where it begins with a slash, and two paths are the same exactly where
/// their components are; one is below the other exactly where its components begin with the other's.
pub proof fn lemma_compared(
    a: &str,
    b: &str,
    x: Vec<Component>,
    y: Vec<Component>,
    rooted: bool,
    same: bool,
    below: bool,
)
    requires
        call_ensures(components, (a,), x),
        call_ensures(components, (b,), y),
        call_ensures(is_absolute, (a,), rooted),
        call_ensures(same_path, (a, b), same),
        call_ensures(starts_with_path, (a, b), below),
    ensures
        rooted <==> a@.len() > 0 && a@[0] == '/',
        same <==> parts(x@) == parts(y@),
        below <==> exists|rest: Seq<Part>| parts(x@) == #[trigger] (parts(y@) + rest),
{
    let all = parts(x@);
    let front = parts(y@);
    if below {
        let rest = all.skip(front.len() as int);
        assert(all =~= front + rest);
    }
    if exists|rest: Seq<Part>| all == #[trigger] (front + rest) {
        let rest = choose|rest: Seq<Part>| all == #[trigger] (front + rest);
        assert(all.subrange(0, front.len() as int) =~= front);
    }
}

/// A path that begins with a slash replaces the one it is read against; any other follows it behind one
/// slash.
pub proof fn lemma_put_together(base: &str, rest: &str, r: String)
    requires
        call_ensures(join_path, (base, rest), r),
    ensures
        rest@.len() > 0 && rest@[0] == '/' ==> r@ == rest@,
        !(rest@.len() > 0 && rest@[0] == '/') && base@.len() == 0 ==> r@ == rest@,
        !(rest@.len() > 0 && rest@[0] == '/') && base@.len() > 0 && base@.last() == '/' ==> r@
            == base@ + rest@,
        !(rest@.len() > 0 && rest@[0] == '/') && base@.len() > 0 && base@.last() != '/' ==> r@
            == base@ + "/"@ + rest@,
{
    reveal_strlit("/");
    assert("/"@ =~= seq!['/']);
    if base@.len() == 0 {
        assert(base@ + rest@ =~= rest@);
    }
}

pub(crate) proof fn lemma_absolute_text(all: Seq<Part>)
    requires
        all.len() > 0,
        all[0] is Root,
        forall|i: int| 1 <= i < all.len() ==> is_step(#[trigger] all[i]),
    ensures
        parts_of(path_text(all)) == all,
        absolute(path_text(all)),
{
    let steps = all.skip(1);
    assert(all =~= seq![Part::Root] + steps);
    assert forall|i: int| 0 <= i < steps.len() implies is_step(#[trigger] steps[i]) by {
        assert(steps[i] == all[i + 1]);
    }
    if steps.len() > 0 {
        lemma_steps_text(steps);
    } else {
        let text = path_text(all);
        lemma_body_joined(Seq::empty(), Seq::empty());
        assert(body(Seq::<char>::empty()) =~= Seq::<Part>::empty());
        assert(text =~= Seq::<char>::empty() + seq!['/'] + Seq::<char>::empty());
    }
    assert(parts_of(path_text(all)) =~= all);
}

proof fn lemma_front_text(path: Seq<char>, n: int)
    requires
        absolute(path),
        1 <= n <= parts_of(path).len(),
    ensures
        parts_of(path_text(parts_of(path).take(n))) == parts_of(path).take(n),
        absolute(path_text(parts_of(path).take(n))),
{
    lemma_absolute_steps(path);
    let front = parts_of(path).take(n);
    assert(parts_of(path)[0] == Part::Root);
    assert forall|i: int| 1 <= i < front.len() implies is_step(#[trigger] front[i]) by {
        assert(front[i] == parts_of(path)[i]);
    }
    lemma_absolute_text(front);
}

/// The directory that holds an absolute path lacks its last component, and only the root is held by none;
/// the name of a path is its last component where that is one.
pub proof fn lemma_taken_apart(
    path: &str,
    all: Vec<Component>,
    above: Option<String>,
    name: Option<String>,
)
    requires
        path@.len() > 0 && path@[0] == '/',
        call_ensures(components, (path,), all),
        call_ensures(parent, (path,), above),
        call_ensures(file_name, (path,), name),
    ensures
        above is None <==> all@.len() == 1,
        above matches Some(p) ==> p@.len() > 0 && p@[0] == '/' && parts_of(p@) == parts(
            all@,
        ).drop_last(),
        name is None <==> !(parts(all@).last() is Name),
        name matches Some(n) ==> parts(all@).last() == Part::Name(n@),
{
    lemma_absolute_steps(path@);
    assert(parts(all@).len() == all@.len());
    let whole = parts_of(path@);
    if whole.len() > 1 {
        assert(is_step(whole[whole.len() - 1]));
        lemma_front_text(path@, whole.len() - 1);
        assert(whole.drop_last() =~= whole.take(whole.len() - 1));
    }
}

/// What is left of an absolute path below another, read against that other, is the path again; it is
/// owed exactly where the path is below.
pub proof fn lemma_rest_read_back(path: &str, base: &str, r: Option<String>)
    requires
        path@.len() > 0 && path@[0] == '/',
        base@.len() > 0 && base@[0] == '/',
        call_ensures(strip_prefix, (path, base), r),
    ensures
        r is Some <==> exists|rest: Seq<Part>|
            parts_of(path@) == #[trigger] (parts_of(base@) + rest),
        r matches Some(rest) ==> !(rest@.len() > 0 && rest@[0] == '/') && parts_of(
            joined_path(base@, rest@),
        ) == parts_of(path@),
{
    let all = parts_of(path@);
    let front = parts_of(base@);
    lemma_absolute_steps(path@);
    lemma_absolute_steps(base@);
    if r is Some {
        let rest = all.skip(front.len() as int);
        assert(all =~= front + rest);
        assert forall|i: int| 0 <= i < rest.len() implies is_step(#[trigger] rest[i]) by {
            assert(rest[i] == all[front.len() + i]);
        }
        lemma_steps_read_back(rest);
        lemma_joined_parts(base@, r->0@);
    }
    if exists|rest: Seq<Part>| all == #[trigger] (front + rest) {
        let rest = choose|rest: Seq<Part>| all == #[trigger] (front + rest);
        assert(all.subrange(0, front.len() as int) =~= front);
    }
}

/// The directories above an absolute path are listed from the root down to the path itself, each with one
/// component more.
pub proof fn lemma_listed_from_the_root(path: &str, all: Vec<Component>, r: Vec<String>)
    requires
        path@.len() > 0 && path@[0] == '/',
        call_ensures(components, (path,), all),
        call_ensures(chain, (path,), r),
    ensures
        r@.len() == all@.len(),
        forall|i: int|
            0 <= i < r@.len() ==> parts_of((#[trigger] r@[i])@) == parts(all@).take(i + 1),
{
    lemma_chain(path@);
    assert(parts(all@).len() == all@.len());
    assert(texts(r@).len() == r@.len());
    assert forall|i: int| 0 <= i < r@.len() implies parts_of((#[trigger] r@[i])@) == parts(
        all@,
    ).take(i + 1) by {
        assert(texts(r@)[i] == r@[i]@);
    }
}

pub(crate) proof fn lemma_chain(path: Seq<char>)
    requires
        absolute(path),
    ensures
        crate::path::chain_texts(path).len() == parts_of(path).len(),
        forall|i: int|
            0 <= i < parts_of(path).len() ==> parts_of(
                #[trigger] crate::path::chain_texts(path)[i],
            ) == parts_of(path).take(i + 1),
        forall|i: int|
            0 <= i < parts_of(path).len() ==> absolute(
                #[trigger] crate::path::chain_texts(path)[i],
            ),
{
    lemma_absolute_steps(path);
    assert(parts_of(path)[0] == Part::Root);
    let r = crate::path::chain_texts(path);
    assert(r.len() == parts_of(path).len());
    assert forall|i: int| 0 <= i < parts_of(path).len() implies parts_of(#[trigger] r[i])
        == parts_of(path).take(i + 1) && absolute(r[i]) by {
        lemma_front_text(path, i + 1);
        assert(r[i] == path_text(parts_of(path).take(1 + i)));
    }
}

/// Tidying keeps the components, is not undone by doing it again, and gives one text to paths that have
/// the same components and begin and end with slashes alike.
pub proof fn lemma_tidied(a: &str, b: &str, x: String, y: String)
    requires
        a@.len() > 0 && a@[0] == '/',
        b@.len() > 0 && b@[0] == '/',
        call_ensures(tidy, (a,), x),
        call_ensures(tidy, (b,), y),
    ensures
        parts_of(x@) == parts_of(a@),
        x@.len() > 0 && x@[0] == '/',
        x@.last() == '/' <==> a@.last() == '/' || parts_of(a@).len() == 1,
        parts_of(a@) == parts_of(b@) && (a@.last() == '/' <==> b@.last() == '/') && !(a@.len() > 1
            && a@[1] == '/') && !(b@.len() > 1 && b@[1] == '/') ==> x@ == y@,
        b@ == x@ ==> y@ == x@,
{
    lemma_tidied_is_tidy(a@);
    lemma_tidied_is_tidy(b@);
    lemma_absolute_steps(a@);
    let plain = path_text(parts_of(a@));
    if parts_of(a@).len() > 1 {
        let steps = body(a@);
        lemma_body_steps(a@);
        lemma_steps_text(steps);
    } else {
        assert(parts_of(a@) =~= seq![Part::Root]);
    }
    if !(a@.len() > 1 && a@[1] == '/') {
        assert(!crate::text::has_prefix(a@, seq!['/', '/'])) by {
            if crate::text::has_prefix(a@, seq!['/', '/']) {
                assert(a@.subrange(0, 2)[1] == '/');
            }
        }
    }
    if !(b@.len() > 1 && b@[1] == '/') {
        assert(!crate::text::has_prefix(b@, seq!['/', '/'])) by {
            if crate::text::has_prefix(b@, seq!['/', '/']) {
                assert(b@.subrange(0, 2)[1] == '/');
            }
        }
    }
}

} // verus!
