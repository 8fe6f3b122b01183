//! Paths as text, as Unix writes them: with `/` between their components, and at the front of those
//! that are absolute.
//!
//! What a project records of its paths stands in TOML files, so a path is UTF-8 text here. The names
//! in a directory need not be text; they are the bytes of `raw`.

use vstd::prelude::*;

use crate::text::{chars_of, has_prefix, joined, plus, same, starts_with};

verus! {

broadcast use vstd::string::group_string_axioms;

/// A component of a path.
pub enum Part {
    /// The leading `/` of an absolute path.
    Root,
    /// A leading `.`.
    Here,
    /// `..`.
    Up,
    /// An entry's name.
    Name(Seq<char>),
}

/// A component of a path.
#[derive(Debug)]
pub enum Component {
    /// The leading `/` of an absolute path.
    Root,
    /// A leading `.`.
    Here,
    /// `..`.
    Up,
    /// An entry's name.
    Name(String),
}

impl View for Component {
    type V = Part;

    open spec fn view(&self) -> Part {
        match self {
            Component::Root => Part::Root,
            Component::Here => Part::Here,
            Component::Up => Part::Up,
            Component::Name(name) => Part::Name(name@),
        }
    }
}

/// The parts that components stand for.
pub open spec fn parts(components: Seq<Component>) -> Seq<Part> {
    components.map_values(|c: Component| c@)
}

/// Where the first `/` stands, or the length if there is none.
pub open spec fn first_slash(path: Seq<char>) -> int
    decreases path.len(),
{
    if path.len() == 0 || path[0] == '/' {
        0
    } else {
        1 + first_slash(path.drop_first())
    }
}

/// The part that a segment between slashes stands for; an empty one and `.` stand for none.
pub open spec fn segment_part(segment: Seq<char>) -> Seq<Part> {
    if segment.len() == 0 || segment == seq!['.'] {
        Seq::empty()
    } else if segment == seq!['.', '.'] {
        seq![Part::Up]
    } else {
        seq![Part::Name(segment)]
    }
}

/// The parts of `path` below its start.
pub open spec fn body(path: Seq<char>) -> Seq<Part>
    decreases path.len(),
    via body_decreases
{
    let n = first_slash(path);
    if path.len() == 0 {
        Seq::empty()
    } else if n >= path.len() {
        segment_part(path)
    } else {
        segment_part(path.take(n)) + body(path.skip(n + 1))
    }
}

#[via_fn]
proof fn body_decreases(path: Seq<char>) {
    lemma_first_slash(path);
}

/// What stands before the first `/` holds none.
pub proof fn lemma_first_slash(path: Seq<char>)
    ensures
        0 <= first_slash(path) <= path.len(),
        forall|i: int| 0 <= i < first_slash(path) ==> path[i] != '/',
        first_slash(path) < path.len() ==> path[first_slash(path)] == '/',
    decreases path.len(),
{
    if path.len() > 0 && path[0] != '/' {
        lemma_first_slash(path.drop_first());
        assert forall|i: int| 0 <= i < first_slash(path) implies path[i] != '/' by {
            if i > 0 {
                assert(path.drop_first()[i - 1] == path[i]);
            }
        }
    }
}

/// The first `/` is where one stands with none before it.
pub(crate) proof fn lemma_first_slash_is(path: Seq<char>, n: int)
    requires
        0 <= n <= path.len(),
        forall|i: int| 0 <= i < n ==> path[i] != '/',
        n < path.len() ==> path[n] == '/',
    ensures
        first_slash(path) == n,
{
    lemma_first_slash(path);
    if first_slash(path) < n {
        assert(path[first_slash(path)] != '/');
    }
    if n < first_slash(path) {
        assert(path[n] != '/');
    }
}

/// A name that can stand as one component of a path.
pub open spec fn plain_name(name: Seq<char>) -> bool {
    name.len() > 0 && !name.contains('/') && name != seq!['.'] && name != seq!['.', '.']
}

/// A path that begins with `/`.
pub open spec fn absolute(path: Seq<char>) -> bool {
    path.len() > 0 && path[0] == '/'
}

/// The part that the start of a path stands for.
pub open spec fn lead(path: Seq<char>) -> Seq<Part> {
    if absolute(path) {
        seq![Part::Root]
    } else if path.len() > 0 && path.take(first_slash(path)) == seq!['.'] {
        seq![Part::Here]
    } else {
        Seq::empty()
    }
}

/// The components of `path`. Repeated slashes, a slash at the end and any `.` but a leading one
/// do not count.
pub open spec fn parts_of(path: Seq<char>) -> Seq<Part> {
    lead(path) + body(path)
}

/// The two texts name the same path.
pub open spec fn equal_paths(a: Seq<char>, b: Seq<char>) -> bool {
    parts_of(a) == parts_of(b)
}

/// `base` or something below it.
pub open spec fn within(path: Seq<char>, base: Seq<char>) -> bool {
    parts_of(base).is_prefix_of(parts_of(path))
}

/// `rest` below `base`, or `rest` itself if it is absolute.
pub open spec fn joined_path(base: Seq<char>, rest: Seq<char>) -> Seq<char> {
    if absolute(rest) {
        rest
    } else if base.len() == 0 || base.last() == '/' {
        base + rest
    } else {
        base + seq!['/'] + rest
    }
}

/// The text of one component.
pub open spec fn part_text(part: Part) -> Seq<char> {
    match part {
        Part::Root => Seq::empty(),
        Part::Here => seq!['.'],
        Part::Up => seq!['.', '.'],
        Part::Name(name) => name,
    }
}

/// The path with these components, without a slash too many.
pub open spec fn path_text(parts: Seq<Part>) -> Seq<char> {
    if parts.len() == 1 && parts[0] is Root {
        seq!['/']
    } else {
        joined(parts.map_values(|p: Part| part_text(p)), seq!['/'])
    }
}

/// The path of the directory that holds `path`, if its last component is not the root.
pub open spec fn parent_text(path: Seq<char>) -> Option<Seq<char>> {
    let all = parts_of(path);
    if all.len() == 0 || all.last() is Root {
        None
    } else {
        Some(path_text(all.drop_last()))
    }
}

/// The name that `path` ends with.
pub open spec fn name_text(path: Seq<char>) -> Option<Seq<char>> {
    let all = parts_of(path);
    if all.len() > 0 && all.last() is Name {
        Some(all.last()->0)
    } else {
        None
    }
}

/// `path` and the directories above it, from the top down.
pub open spec fn chain_texts(path: Seq<char>) -> Seq<Seq<char>> {
    let all = parts_of(path);
    let top: int = if all.len() > 0 && all[0] is Root {
        1
    } else {
        0
    };
    Seq::new((all.len() - top + 1) as nat, |i: int| path_text(all.take(top + i)))
}

/// The absolute path without `.` components and repeated slashes. `..` stays, and so does a
/// slash at the end; exactly two slashes at the front stay two.
pub open spec fn tidied(path: Seq<char>) -> Seq<char> {
    let all = parts_of(path);
    let double = has_prefix(path, seq!['/', '/']) && !has_prefix(path, seq!['/', '/', '/']);
    let plain = path_text(all);
    let front = if double {
        seq!['/'] + plain
    } else {
        plain
    };
    if path.last() == '/' && plain.last() != '/' {
        front.push('/')
    } else {
        front
    }
}

/// Whether `path` begins with `/`.
pub fn is_absolute(path: &str) -> (r: bool)
    ensures
        r == absolute(path@),
{
    let chars = chars_of(path);
    chars.len() > 0 && chars[0] == '/'
}

/// A component of a path, by where its name stands in the path.
#[derive(Clone, Copy, Debug)]
pub enum Span {
    Root,
    Here,
    Up,
    Name(usize, usize),
}

/// The part that a span of `path` stands for.
pub open spec fn span_part(path: Seq<char>, span: Span) -> Part {
    match span {
        Span::Root => Part::Root,
        Span::Here => Part::Here,
        Span::Up => Part::Up,
        Span::Name(start, end) => Part::Name(path.subrange(start as int, end as int)),
    }
}

/// The parts that spans of `path` stand for.
pub open spec fn span_parts(path: Seq<char>, spans: Seq<Span>) -> Seq<Part> {
    spans.map_values(|span: Span| span_part(path, span))
}

/// The span of a name lies in a path of that length.
pub open spec fn span_fits(span: Span, len: nat) -> bool {
    span matches Span::Name(start, end) ==> start <= end <= len
}

/// The spans of the names lie in a path of that length.
pub open spec fn spans_fit(spans: Seq<Span>, len: nat) -> bool {
    forall|i: int| 0 <= i < spans.len() ==> span_fits(#[trigger] spans[i], len)
}

/// The span of a segment that is not dropped.
fn segment_span(chars: &Vec<char>, start: usize, end: usize) -> (r: Option<Span>)
    requires
        start <= end <= chars@.len(),
    ensures
        match r {
            Some(span) => span_fits(span, chars@.len()) && segment_part(
                chars@.subrange(start as int, end as int),
            ) == seq![span_part(chars@, span)],
            None => segment_part(chars@.subrange(start as int, end as int)) == Seq::<Part>::empty(),
        },
{
    let ghost segment = chars@.subrange(start as int, end as int);
    if start == end {
        return None;
    }
    let one = end - start == 1 && chars[start] == '.';
    let two = end - start == 2 && chars[start] == '.' && chars[start + 1] == '.';
    proof {
        assert(segment[0] == chars@[start as int]);
        if one {
            assert(segment =~= seq!['.']);
        }
        if two {
            assert(segment[1] == chars@[start + 1]);
            assert(segment =~= seq!['.', '.']);
        }
        if segment == seq!['.'] {
            assert(segment.len() == 1 && segment[0] == '.');
        }
        if segment == seq!['.', '.'] {
            assert(segment.len() == 2 && segment[0] == '.' && segment[1] == '.');
            assert(segment[1] == chars@[start + 1]);
        }
    }
    if one {
        None
    } else if two {
        Some(Span::Up)
    } else {
        Some(Span::Name(start, end))
    }
}

/// Where the components of a path stand.
pub fn spans(chars: &Vec<char>) -> (r: Vec<Span>)
    ensures
        span_parts(chars@, r@) == parts_of(chars@),
        spans_fit(r@, chars@.len()),
{
    let mut r: Vec<Span> = Vec::new();
    let ghost all = chars@;
    let mut start: usize = 0;
    let mut done = chars.len() == 0;
    proof {
        lemma_first_slash(all);
        assert(all.skip(0) =~= all);
        assert(span_parts(all, r@) =~= Seq::<Part>::empty());
    }
    let mut first = true;
    if chars.len() > 0 && chars[0] == '/' {
        r.push(Span::Root);
        first = false;
        assert(span_parts(all, r@) =~= lead(all));
    }
    while !done
        invariant
            chars@ == all,
            start <= chars@.len(),
            spans_fit(r@, chars@.len()),
            first ==> start == 0 && span_parts(all, r@) == Seq::<Part>::empty() && !absolute(all),
            !first && !done ==> span_parts(all, r@) + body(all.skip(start as int)) == parts_of(all),
            first && !done ==> all.len() > 0,
            done ==> span_parts(all, r@) == parts_of(all),
        decreases chars@.len() - start + (if done {
            0int
        } else {
            1int
        }),
    {
        let ghost rest = all.skip(start as int);
        let mut end: usize = start;
        while end < chars.len() && chars[end] != '/'
            invariant
                chars@ == all,
                start <= end <= chars@.len(),
                forall|i: int| start <= i < end ==> chars@[i] != '/',
            decreases chars@.len() - end,
        {
            end = end + 1;
        }
        let ghost segment = all.subrange(start as int, end as int);
        proof {
            assert forall|i: int| 0 <= i < end - start implies rest[i] != '/' by {
                assert(rest[i] == all[start + i]);
            }
            lemma_first_slash_is(rest, end - start);
            assert(rest.take(end - start) =~= segment);
            assert(end == chars@.len() ==> rest =~= segment);
            if first {
                assert(rest =~= all);
            }
        }
        if first && end == 1 && chars[0] == '.' {
            r.push(Span::Here);
            assert(segment =~= seq!['.']);
            assert(span_parts(all, r@) =~= lead(all));
        }
        let ghost with_lead = span_parts(all, r@);
        proof {
            if first && segment == seq!['.'] {
                assert(segment[0] == chars@[0]);
            }
        }
        match segment_span(chars, start, end) {
            Some(span) => {
                r.push(span);
            },
            None => {},
        }
        proof {
            assert(span_parts(all, r@) =~= with_lead + segment_part(segment));
        }
        if end < chars.len() {
            proof {
                assert(rest.skip(end - start + 1) =~= all.skip(end as int + 1));
                assert(with_lead + (segment_part(segment) + body(all.skip(end as int + 1)))
                    =~= with_lead + segment_part(segment) + body(all.skip(end as int + 1)));
                if first {
                    assert(with_lead =~= lead(all));
                    assert(parts_of(all) =~= with_lead + body(rest));
                }
                if rest.len() == 0 {
                    assert(false);
                }
            }
            start = end + 1;
        } else {
            proof {
                if rest.len() == 0 {
                    assert(segment_part(segment) =~= Seq::<Part>::empty());
                    assert(body(rest) =~= Seq::<Part>::empty());
                } else {
                    assert(body(rest) == segment_part(rest));
                }
                if first {
                    assert(with_lead =~= lead(all));
                    assert(parts_of(all) =~= with_lead + body(rest));
                }
                assert(span_parts(all, r@) =~= parts_of(all));
            }
            done = true;
        }
        first = false;
    }
    r
}

/// The components of `path`.
pub fn components(path: &str) -> (r: Vec<Component>)
    ensures
        parts(r@) == parts_of(path@),
{
    let chars = chars_of(path);
    let found = spans(&chars);
    let mut r: Vec<Component> = Vec::new();
    let mut i: usize = 0;
    while i < found.len()
        invariant
            chars@ == path@,
            i <= found@.len(),
            spans_fit(found@, chars@.len()),
            parts(r@) == span_parts(path@, found@.take(i as int)),
        decreases found@.len() - i,
    {
        assert(span_fits(found@[i as int], chars@.len()));
        let ghost before = r@;
        let component = match found[i] {
            Span::Root => Component::Root,
            Span::Here => Component::Here,
            Span::Up => Component::Up,
            Span::Name(start, end) => Component::Name(path.substring_char(start, end).to_owned()),
        };
        r.push(component);
        proof {
            assert(found@.take(i + 1) =~= found@.take(i as int).push(found@[i as int]));
            let now = span_parts(path@, found@.take(i as int)).push(component@);
            assert(component@ == span_part(path@, found@[i as int]));
            assert(parts(r@) =~= parts(before).push(component@));
            assert(span_parts(path@, found@.take(i + 1)) =~= now);
            assert(parts(r@) =~= span_parts(path@, found@.take(i + 1)));
        }
        i = i + 1;
    }
    assert(found@.take(i as int) =~= found@);
    r
}

/// Whether two components are the same.
fn same_component(a: &Component, b: &Component) -> (r: bool)
    ensures
        r == (a@ == b@),
{
    match (a, b) {
        (Component::Root, Component::Root) => true,
        (Component::Here, Component::Here) => true,
        (Component::Up, Component::Up) => true,
        (Component::Name(x), Component::Name(y)) => same(x.as_str(), y.as_str()),
        _ => false,
    }
}

/// Whether `front` begins `all`.
fn begins(all: &Vec<Component>, front: &Vec<Component>) -> (r: bool)
    ensures
        r == parts(front@).is_prefix_of(parts(all@)),
{
    if front.len() > all.len() {
        return false;
    }
    let mut i: usize = 0;
    while i < front.len()
        invariant
            i <= front@.len() <= all@.len(),
            forall|j: int| 0 <= j < i ==> parts(front@)[j] == parts(all@)[j],
        decreases front@.len() - i,
    {
        if !same_component(&all[i], &front[i]) {
            assert(parts(front@)[i as int] != parts(all@)[i as int]);
            assert(parts(all@).subrange(0, front@.len() as int)[i as int]
                == parts(all@)[i as int]);
            return false;
        }
        i = i + 1;
    }
    assert(parts(front@) =~= parts(all@).subrange(0, front@.len() as int));
    true
}

/// Whether the two texts name the same path.
pub fn same_path(a: &str, b: &str) -> (r: bool)
    ensures
        r == equal_paths(a@, b@),
{
    let x = components(a);
    let y = components(b);
    let r = x.len() == y.len() && begins(&x, &y);
    proof {
        if r {
            assert(parts(y@) =~= parts(x@));
        } else if parts(x@) == parts(y@) {
            assert(parts(x@).len() == x@.len());
            assert(parts(y@).len() == y@.len());
            assert(parts(y@) =~= parts(x@).subrange(0, y@.len() as int));
        }
    }
    r
}

/// Whether `path` is `base` or below it.
pub fn starts_with_path(path: &str, base: &str) -> (r: bool)
    ensures
        r == within(path@, base@),
{
    begins(&components(path), &components(base))
}

/// `rest` below `base`, or `rest` itself if it is absolute.
pub fn join_path(base: &str, rest: &str) -> (r: String)
    ensures
        r@ == joined_path(base@, rest@),
{
    if is_absolute(rest) {
        return rest.to_owned();
    }
    let chars = chars_of(base);
    let mut r = base.to_owned();
    if chars.len() > 0 && chars[chars.len() - 1] != '/' {
        proof {
            reveal_strlit("/");
            assert("/"@ =~= seq!['/']);
        }
        r.append("/");
    }
    r.append(rest);
    r
}

/// The path with the components from `from` up to `to`.
fn text_between(all: &Vec<Component>, from: usize, to: usize) -> (r: String)
    requires
        from <= to <= all@.len(),
    ensures
        r@ == path_text(parts(all@).subrange(from as int, to as int)),
{
    let ghost chosen = parts(all@).subrange(from as int, to as int);
    let ghost words = chosen.map_values(|p: Part| part_text(p));
    proof {
        reveal_strlit("/");
        reveal_strlit(".");
        reveal_strlit("..");
        assert("/"@ =~= seq!['/']);
        assert("."@ =~= seq!['.']);
        assert(".."@ =~= seq!['.', '.']);
    }
    if to - from == 1 {
        match &all[from] {
            Component::Root => {
                assert(chosen[0] is Root);
                return "/".to_owned();
            },
            _ => {},
        }
    }
    let mut r = String::new();
    let mut i: usize = from;
    while i < to
        invariant
            from <= i <= to <= all@.len(),
            chosen == parts(all@).subrange(from as int, to as int),
            words == chosen.map_values(|p: Part| part_text(p)),
            "/"@ == seq!['/'],
            "."@ == seq!['.'],
            ".."@ == seq!['.', '.'],
            r@ == joined(words.take(i - from), seq!['/']),
        decreases to - i,
    {
        let ghost before = r@;
        if i > from {
            r.append("/");
        }
        match &all[i] {
            Component::Root => {},
            Component::Here => r.append("."),
            Component::Up => r.append(".."),
            Component::Name(name) => r.append(name.as_str()),
        }
        proof {
            let word = part_text(all@[i as int]@);
            assert(words[i - from] == word);
            assert(words.take(i - from + 1).drop_last() =~= words.take(i - from));
            assert(words.take(i - from + 1).last() == word);
            if i > from {
                assert(r@ =~= before + seq!['/'] + word);
            } else {
                assert(before =~= Seq::<char>::empty());
                assert(r@ =~= word);
            }
        }
        i = i + 1;
    }
    assert(words.take(to - from) =~= words);
    r
}

/// The directory that holds `path`.
pub fn parent(path: &str) -> (r: Option<String>)
    ensures
        match r {
            Some(p) => parent_text(path@) == Some(p@),
            None => parent_text(path@) is None,
        },
{
    let all = components(path);
    assert(parts(all@).len() == all@.len());
    if all.len() == 0 {
        return None;
    }
    assert(parts(all@).last() == all@.last()@);
    match &all[all.len() - 1] {
        Component::Root => None,
        _ => {
            assert(parts(all@).drop_last() =~= parts(all@).subrange(0, all@.len() - 1));
            Some(text_between(&all, 0, all.len() - 1))
        },
    }
}

/// The name that `path` ends with.
pub fn file_name(path: &str) -> (r: Option<String>)
    ensures
        match r {
            Some(p) => name_text(path@) == Some(p@),
            None => name_text(path@) is None,
        },
{
    let all = components(path);
    assert(parts(all@).len() == all@.len());
    if all.len() == 0 {
        return None;
    }
    assert(parts(all@).last() == all@.last()@);
    match &all[all.len() - 1] {
        Component::Name(name) => Some(name.clone()),
        _ => None,
    }
}

/// What of `path` stands below `base`.
pub fn strip_prefix(path: &str, base: &str) -> (r: Option<String>)
    ensures
        match r {
            Some(rest) => within(path@, base@) && rest@ == path_text(
                parts_of(path@).skip(parts_of(base@).len() as int),
            ),
            None => !within(path@, base@),
        },
{
    let all = components(path);
    let front = components(base);
    if begins(&all, &front) {
        assert(parts(front@).len() == front@.len());
        assert(parts(all@).len() == all@.len());
        assert(parts(all@).skip(front@.len() as int) =~= parts(all@).subrange(
            front@.len() as int,
            all@.len() as int,
        ));
        Some(text_between(&all, front.len(), all.len()))
    } else {
        None
    }
}

/// The absolute path without `.` components and repeated slashes.
pub fn tidy(path: &str) -> (r: String)
    requires
        absolute(path@),
    ensures
        r@ == tidied(path@),
{
    proof {
        reveal_strlit("/");
        reveal_strlit("//");
        reveal_strlit("///");
        assert("/"@ =~= seq!['/']);
        assert("//"@ =~= seq!['/', '/']);
        assert("///"@ =~= seq!['/', '/', '/']);
    }
    let all = components(path);
    assert(parts(all@).subrange(0, all@.len() as int) =~= parts_of(path@));
    let plain = text_between(&all, 0, all.len());
    let double = starts_with(path, "//") && !starts_with(path, "///");
    let mut r = if double {
        plus("/", plain.as_str())
    } else {
        plain.clone()
    };
    let whole = chars_of(path);
    let bare = chars_of(plain.as_str());
    if whole[whole.len() - 1] == '/' && (bare.len() == 0 || bare[bare.len() - 1] != '/') {
        proof {
            lemma_absolute_text(path@);
        }
        r.append("/");
        assert(r@ =~= tidied(path@));
    } else {
        proof {
            lemma_absolute_text(path@);
        }
    }
    r
}

/// The text of an absolute path's components is not empty.
proof fn lemma_absolute_text(path: Seq<char>)
    requires
        absolute(path),
    ensures
        path_text(parts_of(path)).len() > 0,
{
    let all = parts_of(path);
    let words = all.map_values(|p: Part| part_text(p));
    assert(all[0] is Root);
    if all.len() > 1 {
        lemma_joined_long(words, seq!['/']);
    }
}

/// Two or more texts joined hold a separator.
proof fn lemma_joined_long(texts: Seq<Seq<char>>, separator: Seq<char>)
    requires
        texts.len() >= 2,
    ensures
        joined(texts, separator).len() >= separator.len(),
{
}

/// `path` and the directories above it, from the top down.
pub fn chain(path: &str) -> (r: Vec<String>)
    ensures
        crate::text::texts(r@) == chain_texts(path@),
{
    let all = components(path);
    let ghost names = parts(all@);
    assert(names.len() == all@.len());
    let mut top: usize = 0;
    if all.len() > 0 {
        assert(names[0] == all@[0]@);
        match &all[0] {
            Component::Root => {
                top = 1;
            },
            _ => {},
        }
    }
    let mut r: Vec<String> = Vec::new();
    let mut i: usize = top;
    let ghost expected = chain_texts(path@);
    while i < all.len()
        invariant
            top <= i <= all@.len(),
            names == parts(all@),
            names == parts_of(path@),
            top == (if names.len() > 0 && names[0] is Root {
                1int
            } else {
                0int
            }),
            expected == chain_texts(path@),
            names.len() == all@.len(),
            crate::text::texts(r@) == expected.take(i - top),
        decreases all@.len() - i,
    {
        let text = text_between(&all, 0, i);
        proof {
            assert(names.subrange(0, i as int) =~= names.take(i as int));
            assert(expected[i - top] == path_text(names.take(i as int)));
            crate::text::lemma_texts_push(r@, text);
            assert(expected.take(i - top + 1) =~= expected.take(i - top).push(
                expected[i - top],
            ));
        }
        r.push(text);
        i = i + 1;
    }
    let text = text_between(&all, 0, all.len());
    proof {
        assert(names.subrange(0, all@.len() as int) =~= names.take(all@.len() as int));
        assert(expected[all@.len() - top] == path_text(names.take(all@.len() as int)));
        crate::text::lemma_texts_push(r@, text);
        assert(expected =~= expected.take(all@.len() - top).push(expected[all@.len() - top]));
    }
    r.push(text);
    r
}

/// A name is a path with one component.
pub(crate) proof fn lemma_name_body(name: Seq<char>)
    requires
        plain_name(name),
    ensures
        body(name) == seq![Part::Name(name)],
{
    assert forall|i: int| 0 <= i < name.len() implies name[i] != '/' by {
        assert(name.contains(name[i]));
    }
    lemma_first_slash_is(name, name.len() as int);
}

/// A name and what follows it behind a slash.
pub(crate) proof fn lemma_name_then(name: Seq<char>, rest: Seq<char>)
    requires
        plain_name(name),
    ensures
        body(name + seq!['/'] + rest) == seq![Part::Name(name)] + body(rest),
        first_slash(name + seq!['/'] + rest) == name.len(),
{
    let path = name + seq!['/'] + rest;
    let n = name.len() as int;
    assert forall|i: int| 0 <= i < n implies path[i] != '/' by {
        assert(path[i] == name[i]);
        assert(name.contains(name[i]));
    }
    assert(path[n] == '/');
    lemma_first_slash_is(path, n);
    assert(path.take(n) =~= name);
    assert(path.skip(n + 1) =~= rest);
}

/// Three names behind slashes are the three components of their path.
pub proof fn lemma_three_names(a: Seq<char>, b: Seq<char>, c: Seq<char>)
    requires
        plain_name(a),
        plain_name(b),
        plain_name(c),
    ensures
        parts_of(a + seq!['/'] + b + seq!['/'] + c) == seq![
            Part::Name(a),
            Part::Name(b),
            Part::Name(c),
        ],
{
    let path = a + seq!['/'] + b + seq!['/'] + c;
    let rest = b + seq!['/'] + c;
    assert(path =~= a + seq!['/'] + rest);
    lemma_name_then(a, rest);
    lemma_name_then(b, c);
    lemma_name_body(c);
    assert(path[0] == a[0]);
    assert(a.contains(a[0]));
    assert(path.take(a.len() as int) =~= a);
    assert(lead(path) =~= Seq::<Part>::empty());
    assert(parts_of(path) =~= seq![Part::Name(a), Part::Name(b), Part::Name(c)]);
}

/// A component other than the start of a path: `..` or a name that can stand between slashes.
pub open spec fn is_step(part: Part) -> bool {
    match part {
        Part::Up => true,
        Part::Name(name) => plain_name(name),
        _ => false,
    }
}

/// What stands between slashes is read the same on its own.
pub(crate) proof fn lemma_body_joined(x: Seq<char>, y: Seq<char>)
    ensures
        body(x + seq!['/'] + y) == body(x) + body(y),
    decreases x.len(),
{
    let path = x + seq!['/'] + y;
    let n = first_slash(x);
    lemma_first_slash(x);
    assert forall|i: int| 0 <= i < n implies path[i] != '/' by {
        assert(path[i] == x[i]);
    }
    assert(path[n] == '/');
    lemma_first_slash_is(path, n);
    assert(path.take(n) =~= x.take(n));
    if n < x.len() {
        let rest = x.skip(n + 1);
        lemma_body_joined(rest, y);
        assert(path.skip(n + 1) =~= rest + seq!['/'] + y);
        assert(segment_part(x.take(n)) + (body(rest) + body(y)) =~= body(x) + body(y));
    } else {
        assert(path.skip(n + 1) =~= y);
        assert(x.take(n) =~= x);
        assert(x.len() == 0 ==> segment_part(x) =~= Seq::<Part>::empty());
        assert(body(path) =~= body(x) + body(y));
    }
}

/// Below its start a path has only steps.
pub(crate) proof fn lemma_body_steps(path: Seq<char>)
    ensures
        forall|i: int| 0 <= i < body(path).len() ==> is_step(#[trigger] body(path)[i]),
    decreases path.len(),
{
    lemma_first_slash(path);
    let n = first_slash(path);
    if path.len() > 0 {
        let segment = path.take(n);
        assert(!segment.contains('/'));
        let front = segment_part(segment);
        assert forall|i: int| 0 <= i < front.len() implies is_step(#[trigger] front[i]) by {}
        if n < path.len() {
            let rest = body(path.skip(n + 1));
            lemma_body_steps(path.skip(n + 1));
            assert forall|i: int| 0 <= i < body(path).len() implies is_step(
                #[trigger] body(path)[i],
            ) by {
                if i < front.len() {
                    assert(body(path)[i] == front[i]);
                } else {
                    assert(body(path)[i] == rest[i - front.len()]);
                }
            }
        } else {
            assert(segment =~= path);
        }
    }
}

/// The text of a step is read as that step, and no slash begins it.
pub(crate) proof fn lemma_step_text(part: Part)
    requires
        is_step(part),
    ensures
        body(part_text(part)) == seq![part],
        part_text(part).len() > 0,
        part_text(part)[0] != '/',
        part_text(part).last() != '/',
{
    let text = part_text(part);
    match part {
        Part::Name(name) => {
            lemma_name_body(name);
            assert(name.contains(name[0]) && name.contains(name.last()));
        },
        _ => {
            assert forall|i: int| 0 <= i < text.len() implies text[i] != '/' by {}
            lemma_first_slash_is(text, text.len() as int);
            assert(text != seq!['.']) by {
                assert(text.len() == 2);
            }
            assert(body(text) =~= seq![Part::Up]);
        },
    }
}

/// The text of the root and of steps below it is read as these, and has no slash too many.
pub(crate) proof fn lemma_steps_text(steps: Seq<Part>)
    requires
        steps.len() > 0,
        forall|i: int| 0 <= i < steps.len() ==> is_step(#[trigger] steps[i]),
    ensures
        ({
            let text = path_text(seq![Part::Root] + steps);
            &&& body(text) == steps
            &&& text.len() >= 2
            &&& text[0] == '/'
            &&& text[1] != '/'
            &&& text.last() != '/'
        }),
    decreases steps.len(),
{
    let all = seq![Part::Root] + steps;
    let front = steps.drop_last();
    let before = seq![Part::Root] + front;
    let last = part_text(steps.last());
    let words = all.map_values(|p: Part| part_text(p));
    let fewer = before.map_values(|p: Part| part_text(p));
    assert(is_step(steps[steps.len() - 1]));
    lemma_step_text(steps.last());
    assert(words.drop_last() =~= fewer);
    assert(words.last() == last);
    let start = joined(fewer, seq!['/']);
    let text = path_text(all);
    assert(text == start + seq!['/'] + last);
    lemma_body_joined(start, last);
    if front.len() > 0 {
        assert forall|i: int| 0 <= i < front.len() implies is_step(#[trigger] front[i]) by {
            assert(front[i] == steps[i]);
        }
        lemma_steps_text(front);
        assert(start == path_text(before));
        assert(text[0] == start[0] && text[1] == start[1]);
    } else {
        assert(fewer[0] =~= Seq::<char>::empty());
        assert(start =~= Seq::<char>::empty());
        assert(body(start) =~= Seq::<Part>::empty());
        assert(text =~= seq!['/'] + last);
        assert(text[1] == last[0]);
    }
    assert(text.last() == last.last());
    assert(body(text) =~= steps) by {
        assert(front.push(steps.last()) =~= steps);
    }
}

/// An absolute path that was tidied is tidy, and has the components it had.
pub proof fn lemma_tidied_is_tidy(path: Seq<char>)
    requires
        absolute(path),
    ensures
        absolute(tidied(path)),
        parts_of(tidied(path)) == parts_of(path),
        tidied(tidied(path)) == tidied(path),
{
    let steps = body(path);
    let all = parts_of(path);
    let plain = path_text(all);
    let tidy = tidied(path);
    let double = has_prefix(path, seq!['/', '/']) && !has_prefix(path, seq!['/', '/', '/']);
    let front = if double {
        seq!['/'] + plain
    } else {
        plain
    };
    lemma_body_steps(path);
    assert(all == seq![Part::Root] + steps);
    if steps.len() > 0 {
        lemma_steps_text(steps);
    } else {
        assert(all =~= seq![Part::Root]);
        assert(plain == seq!['/']);
        lemma_body_joined(Seq::empty(), Seq::empty());
        assert(plain =~= Seq::<char>::empty() + seq!['/'] + Seq::<char>::empty());
    }
    assert(body(plain) =~= steps);
    lemma_body_joined(Seq::empty(), plain);
    assert(seq!['/'] + plain =~= Seq::<char>::empty() + seq!['/'] + plain);
    assert(body(front) =~= steps);
    lemma_body_joined(front, Seq::empty());
    assert(front.push('/') =~= front + seq!['/'] + Seq::<char>::empty());
    assert(body(tidy) =~= steps);
    assert(absolute(tidy));
    assert(parts_of(tidy) =~= all);
    assert(has_prefix(tidy, seq!['/', '/']) == double) by {
        if double {
            assert(tidy.subrange(0, 2) =~= seq!['/', '/']);
        } else if has_prefix(tidy, seq!['/', '/']) {
            assert(tidy.subrange(0, 2)[1] == '/');
            assert(tidy[1] == '/');
        }
    }
    assert(!has_prefix(tidy, seq!['/', '/', '/'])) by {
        if has_prefix(tidy, seq!['/', '/', '/']) {
            assert(tidy.subrange(0, 3)[1] == '/' && tidy.subrange(0, 3)[2] == '/');
            assert(tidy[1] == '/' && tidy[2] == '/');
        }
    }
    assert(front.last() == plain.last());
    assert(tidied(tidy) =~= tidy);
}

/// A path that is read against an absolute one is that path followed by its own steps; an absolute path
/// stays what it is.
pub proof fn lemma_joined_parts(base: Seq<char>, rest: Seq<char>)
    requires
        absolute(base),
    ensures
        absolute(joined_path(base, rest)),
        rest.len() > 0 && rest[0] == '/' ==> joined_path(base, rest) == rest,
        !(rest.len() > 0 && rest[0] == '/') ==> parts_of(joined_path(base, rest)) == parts_of(base)
            + body(rest),
{
    if !absolute(rest) {
        let path = joined_path(base, rest);
        assert(path[0] == base[0]);
        if base.last() == '/' {
            let front = base.drop_last();
            assert(path =~= front + seq!['/'] + rest);
            assert(base =~= front + seq!['/'] + Seq::<char>::empty());
            lemma_body_joined(front, rest);
            lemma_body_joined(front, Seq::empty());
            assert(body(Seq::<char>::empty()) =~= Seq::<Part>::empty());
        } else {
            lemma_body_joined(base, rest);
        }
        assert(parts_of(path) =~= parts_of(base) + body(rest));
    }
}

/// The text of steps is a path that is not absolute and is read as these steps.
pub proof fn lemma_steps_read_back(steps: Seq<Part>)
    requires
        forall|i: int| 0 <= i < steps.len() ==> is_step(#[trigger] steps[i]),
    ensures
        body(path_text(steps)) == steps,
        !absolute(path_text(steps)),
    decreases steps.len(),
{
    let words = steps.map_values(|p: Part| part_text(p));
    if steps.len() == 0 {
        assert(path_text(steps) =~= Seq::<char>::empty());
        assert(body(path_text(steps)) =~= steps);
    } else if steps.len() == 1 {
        assert(is_step(steps[0]));
        lemma_step_text(steps[0]);
        assert(words[0] == part_text(steps[0]));
        assert(steps =~= seq![steps[0]]);
    } else {
        let front = steps.drop_last();
        let last = part_text(steps.last());
        let fewer = front.map_values(|p: Part| part_text(p));
        assert forall|i: int| 0 <= i < front.len() implies is_step(#[trigger] front[i]) by {
            assert(front[i] == steps[i]);
        }
        lemma_steps_read_back(front);
        assert(is_step(steps[steps.len() - 1]));
        lemma_step_text(steps.last());
        assert(words.drop_last() =~= fewer);
        assert(words.last() == last);
        assert(is_step(front[0]));
        let start = joined(fewer, seq!['/']);
        assert(start == path_text(front));
        lemma_body_joined(start, last);
        assert(front.push(steps.last()) =~= steps);
        assert(path_text(steps) == start + seq!['/'] + last);
        assert(start.len() > 0) by {
            if start.len() == 0 {
                assert(body(start) =~= Seq::<Part>::empty());
            }
        }
        assert(path_text(steps)[0] == start[0]);
        assert(body(path_text(steps)) =~= steps);
    }
}

/// Below its start an absolute path has only steps, so that these can be told on their own.
pub proof fn lemma_absolute_steps(path: Seq<char>)
    requires
        absolute(path),
    ensures
        parts_of(path) == seq![Part::Root] + body(path),
        forall|i: int| 1 <= i < parts_of(path).len() ==> is_step(#[trigger] parts_of(path)[i]),
{
    lemma_body_steps(path);
    assert forall|i: int| 1 <= i < parts_of(path).len() implies is_step(
        #[trigger] parts_of(path)[i],
    ) by {
        assert(parts_of(path)[i] == body(path)[i - 1]);
    }
}

} // verus!
