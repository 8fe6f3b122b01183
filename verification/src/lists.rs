//! Lists: what comes first in one, what is there, and what one more item adds.

use vstd::prelude::*;

verus! {

/// The first that is there.
pub open spec fn first_some<T>(options: Seq<Option<T>>) -> Option<T>
    decreases options.len(),
{
    if options.len() == 0 {
        None
    } else if options[0] is Some {
        options[0]
    } else {
        first_some(options.skip(1))
    }
}

/// The first of two lists, one after the other.
pub proof fn lemma_first_some_plus<T>(a: Seq<Option<T>>, b: Seq<Option<T>>)
    ensures
        first_some(a + b) == (if first_some(a) is Some {
            first_some(a)
        } else {
            first_some(b)
        }),
    decreases a.len(),
{
    if a.len() == 0 {
        assert(a + b =~= b);
    } else {
        assert((a + b)[0] == a[0]);
        assert((a + b).skip(1) =~= a.skip(1) + b);
        lemma_first_some_plus(a.skip(1), b);
    }
}

/// The first of a list in which nothing comes before the end of `n` places but at that end.
pub proof fn lemma_first_some_at<T>(options: Seq<Option<T>>, n: int)
    requires
        0 <= n < options.len(),
        first_some(options.take(n)) is None,
        options[n] is Some,
    ensures
        first_some(options) == options[n],
{
    assert(options =~= options.take(n) + options.skip(n));
    lemma_first_some_plus(options.take(n), options.skip(n));
    assert(options.skip(n)[0] == options[n]);
}

/// A list in which nothing comes up to `n` and nothing at `n` has nothing up to the next place.
pub proof fn lemma_first_some_next<T>(options: Seq<Option<T>>, n: int)
    requires
        0 <= n < options.len(),
        first_some(options.take(n)) is None,
        options[n] is None,
    ensures
        first_some(options.take(n + 1)) is None,
{
    let one = seq![options[n]];
    assert(options.take(n + 1) =~= options.take(n) + one);
    lemma_first_some_plus(options.take(n), one);
    assert(one.skip(1) =~= Seq::<Option<T>>::empty());
    assert(first_some(one.skip(1)) is None);
    assert(one[0] is None);
}

/// A list of nothing has no first.
pub proof fn lemma_all_none<T>(options: Seq<Option<T>>)
    requires
        forall|i: int| 0 <= i < options.len() ==> (#[trigger] options[i]) is None,
    ensures
        first_some(options) is None,
    decreases options.len(),
{
    if options.len() > 0 {
        assert(options[0] is None);
        assert forall|i: int| 0 <= i < options.skip(1).len() implies (#[trigger] options.skip(
            1,
        )[i]) is None by {
            assert(options.skip(1)[i] == options[i + 1]);
        }
        lemma_all_none(options.skip(1));
    }
}

/// A list without a first has nothing anywhere.
pub proof fn lemma_none_is_some<T>(options: Seq<Option<T>>, k: int)
    requires
        first_some(options) is None,
        0 <= k < options.len(),
    ensures
        options[k] is None,
    decreases k,
{
    if k > 0 {
        lemma_none_is_some(options.skip(1), k - 1);
        assert(options.skip(1)[k - 1] == options[k]);
    }
}

/// What is there, in order.
pub open spec fn present<T>(options: Seq<Option<T>>) -> Seq<T>
    decreases options.len(),
{
    if options.len() == 0 {
        Seq::empty()
    } else {
        let front = present(options.drop_last());
        match options.last() {
            Some(x) => front.push(x),
            None => front,
        }
    }
}

/// One item more at the end of a list.
pub proof fn lemma_present_next<T>(options: Seq<Option<T>>, i: int)
    requires
        0 <= i < options.len(),
    ensures
        present(options.take(i + 1)) == (match options[i] {
            Some(x) => present(options.take(i)).push(x),
            None => present(options.take(i)),
        }),
{
    assert(options.take(i + 1).drop_last() =~= options.take(i));
    assert(options.take(i + 1).last() == options[i]);
}

/// In a list of nothing nothing is there.
pub proof fn lemma_present_none<T>(options: Seq<Option<T>>)
    requires
        forall|i: int| 0 <= i < options.len() ==> (#[trigger] options[i]) is None,
    ensures
        present(options) == Seq::<T>::empty(),
    decreases options.len(),
{
    if options.len() > 0 {
        let front = options.drop_last();
        assert forall|i: int| 0 <= i < front.len() implies (#[trigger] front[i]) is None by {
            assert(front[i] == options[i]);
        }
        lemma_present_none(front);
        assert(options[options.len() - 1] is None);
    }
}

/// Where in the list something stands that is there.
pub open spec fn place_in<T>(options: Seq<Option<T>>, i: int) -> int
    decreases options.len(),
{
    if options.len() == 0 {
        0
    } else if i < present(options.drop_last()).len() {
        place_in(options.drop_last(), i)
    } else {
        options.len() - 1
    }
}

/// What is there, stands somewhere in the list.
pub proof fn lemma_present_from<T>(options: Seq<Option<T>>, i: int) -> (k: int)
    requires
        0 <= i < present(options).len(),
    ensures
        k == place_in(options, i),
        0 <= k < options.len(),
        options[k] == Some(present(options)[i]),
    decreases options.len(),
{
    let front = options.drop_last();
    let last = options.len() - 1;
    if i < present(front).len() {
        let k = lemma_present_from(front, i);
        assert(options[k] == front[k]);
        k
    } else {
        assert(options[last] == options.last());
        last
    }
}

/// What comes earlier among what is there stands earlier in the list.
pub proof fn lemma_place_in_order<T>(options: Seq<Option<T>>, i: int, j: int)
    requires
        0 <= i < j < present(options).len(),
    ensures
        place_in(options, i) < place_in(options, j),
    decreases options.len(),
{
    let front = options.drop_last();
    if j < present(front).len() {
        lemma_place_in_order(front, i, j);
    } else {
        let k = lemma_present_from(front, i);
    }
}

/// What stands somewhere in the list is there.
pub proof fn lemma_present_at<T>(options: Seq<Option<T>>, k: int) -> (i: int)
    requires
        0 <= k < options.len(),
        options[k] is Some,
    ensures
        0 <= i < present(options).len(),
        present(options)[i] == options[k]->0,
    decreases options.len(),
{
    let front = options.drop_last();
    let last = options.len() - 1;
    if k < last {
        assert(front[k] == options[k]);
        lemma_present_at(front, k)
    } else {
        assert(options.last() == options[k]);
        present(front).len() as int
    }
}

/// What a list with one item more contains.
pub proof fn lemma_push_contains<T>(list: Seq<T>, added: T, other: T)
    ensures
        list.push(added).contains(other) <==> list.contains(other) || other == added,
{
    let longer = list.push(added);
    if list.contains(other) {
        let k = choose|k: int| 0 <= k < list.len() && list[k] == other;
        assert(longer[k] == other);
    }
    if other == added {
        assert(longer[list.len() as int] == other);
    }
    if longer.contains(other) && other != added {
        let k = choose|k: int| 0 <= k < longer.len() && longer[k] == other;
        assert(list[k] == other);
    }
}

} // verus!
