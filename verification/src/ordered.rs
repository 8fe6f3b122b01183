//! Maps that keep their keys in lexicographic order.

use vstd::prelude::*;

use crate::text::{chars_of, lemma_texts_push, texts};

verus! {

/// How one key stands to another.
#[derive(Clone, Copy, Debug, PartialEq, Eq, Structural)]
pub enum Order {
    Less,
    Equal,
    Greater,
}

/// `a` comes before `b`: it is smaller where they first differ, or it is a proper prefix.
pub open spec fn precedes(a: Seq<int>, b: Seq<int>) -> bool
    decreases a.len(),
{
    if b.len() == 0 {
        false
    } else if a.len() == 0 {
        true
    } else if a[0] != b[0] {
        a[0] < b[0]
    } else {
        precedes(a.drop_first(), b.drop_first())
    }
}

/// The order in which `a` and `b` stand.
pub open spec fn order_of(a: Seq<int>, b: Seq<int>) -> Order {
    if a == b {
        Order::Equal
    } else if precedes(a, b) {
        Order::Less
    } else {
        Order::Greater
    }
}

/// Nothing comes before itself.
pub proof fn lemma_irreflexive(a: Seq<int>)
    ensures
        !precedes(a, a),
    decreases a.len(),
{
    if a.len() > 0 {
        lemma_irreflexive(a.drop_first());
    }
}

/// The order is transitive.
pub proof fn lemma_transitive(a: Seq<int>, b: Seq<int>, c: Seq<int>)
    requires
        precedes(a, b),
        precedes(b, c),
    ensures
        precedes(a, c),
    decreases a.len(),
{
    if a.len() > 0 && a[0] == b[0] && b[0] == c[0] {
        lemma_transitive(a.drop_first(), b.drop_first(), c.drop_first());
    }
}

/// Of two different sequences one comes first.
pub proof fn lemma_total(a: Seq<int>, b: Seq<int>)
    ensures
        a == b || precedes(a, b) || precedes(b, a),
    decreases a.len(),
{
    if a.len() == 0 || b.len() == 0 {
        assert(a.len() == 0 && b.len() == 0 ==> a =~= b);
    } else if a[0] == b[0] {
        lemma_total(a.drop_first(), b.drop_first());
        if a.drop_first() == b.drop_first() {
            assert(a =~= seq![a[0]] + a.drop_first());
            assert(b =~= seq![b[0]] + b.drop_first());
        }
    }
}

/// A common front does not matter for the order.
pub proof fn lemma_common_front(a: Seq<int>, b: Seq<int>, n: int)
    requires
        0 <= n <= a.len(),
        n <= b.len(),
        forall|i: int| 0 <= i < n ==> a[i] == b[i],
    ensures
        precedes(a, b) == precedes(a.skip(n), b.skip(n)),
    decreases n,
{
    if n == 0 {
        assert(a.skip(0) =~= a);
        assert(b.skip(0) =~= b);
    } else {
        let x = a.drop_first();
        let y = b.drop_first();
        assert forall|i: int| 0 <= i < n - 1 implies x[i] == y[i] by {
            assert(a[i + 1] == b[i + 1]);
        }
        lemma_common_front(x, y, n - 1);
        assert(x.skip(n - 1) =~= a.skip(n));
        assert(y.skip(n - 1) =~= b.skip(n));
    }
}

/// What a map can be keyed by: values whose views have distinct ranks.
pub trait Key: View + Sized {
    /// The numbers by which keys are ordered, lexicographically.
    spec fn rank(v: Self::V) -> Seq<int>;

    /// Different keys have different ranks.
    proof fn lemma_rank_injective(a: Self::V, b: Self::V)
        requires
            Self::rank(a) == Self::rank(b),
        ensures
            a == b,
    ;

    /// How `self` stands to `other`.
    fn compare(&self, other: &Self) -> (r: Order)
        ensures
            r == order_of(Self::rank(self@), Self::rank(other@)),
    ;
}

/// The code points of a text.
pub open spec fn codes(text: Seq<char>) -> Seq<int> {
    text.map_values(|c: char| c as int)
}

/// Two texts with the same code points are the same.
pub proof fn lemma_codes_injective(a: Seq<char>, b: Seq<char>)
    requires
        codes(a) == codes(b),
    ensures
        a == b,
{
    assert(a.len() == codes(a).len());
    assert(b.len() == codes(b).len());
    assert forall|i: int| 0 <= i < a.len() implies a[i] == b[i] by {
        assert(codes(a)[i] == a[i] as int);
        assert(codes(b)[i] == b[i] as int);
    }
    assert(a =~= b);
}

/// How the text `a` stands to the text `b`.
pub fn compare_texts(a: &str, b: &str) -> (r: Order)
    ensures
        r == order_of(codes(a@), codes(b@)),
{
    let x = chars_of(a);
    let y = chars_of(b);
    let ghost p = codes(a@);
    let ghost q = codes(b@);
    let mut i: usize = 0;
    while i < x.len() && i < y.len()
        invariant
            x@ == a@,
            y@ == b@,
            p == codes(a@),
            q == codes(b@),
            i <= x@.len(),
            i <= y@.len(),
            forall|j: int| 0 <= j < i ==> p[j] == q[j],
        decreases x@.len() - i,
    {
        if x[i] != y[i] {
            proof {
                lemma_common_front(p, q, i as int);
                assert(p.skip(i as int)[0] == x@[i as int] as int);
                assert(q.skip(i as int)[0] == y@[i as int] as int);
                assert(p[i as int] != q[i as int]);
            }
            return if x[i] < y[i] {
                Order::Less
            } else {
                Order::Greater
            };
        }
        i = i + 1;
    }
    proof {
        lemma_common_front(p, q, i as int);
    }
    if x.len() == y.len() {
        assert(p =~= q);
        Order::Equal
    } else if x.len() < y.len() {
        Order::Less
    } else {
        Order::Greater
    }
}

impl Key for String {
    open spec fn rank(v: Seq<char>) -> Seq<int> {
        codes(v)
    }

    proof fn lemma_rank_injective(a: Seq<char>, b: Seq<char>) {
        lemma_codes_injective(a, b);
    }

    fn compare(&self, other: &Self) -> (r: Order) {
        compare_texts(self.as_str(), other.as_str())
    }
}

/// A map from keys to values, walked in the order of the keys.
pub struct Table<K: Key, V> {
    entries: Vec<(K, V)>,
}

impl<K: Key, V> View for Table<K, V> {
    type V = Map<K::V, V>;

    closed spec fn view(&self) -> Map<K::V, V> {
        Map::new(
            |k: K::V| exists|i: int| 0 <= i < self.entries@.len() && #[trigger] self.entries@[i].0@ == k,
            |k: K::V|
                self.entries@[choose|i: int|
                    0 <= i < self.entries@.len() && #[trigger] self.entries@[i].0@ == k].1,
        )
    }
}

/// Every key comes before those that follow it.
pub open spec fn ascending<K: Key>(keys: Seq<K::V>) -> bool {
    forall|i: int, j: int|
        0 <= i < j < keys.len() ==> precedes(
            K::rank(#[trigger] keys[i]),
            K::rank(#[trigger] keys[j]),
        )
}

/// There is one way only to put the same keys in order.
pub proof fn lemma_order_is_unique<K: Key>(a: Seq<K::V>, b: Seq<K::V>)
    requires
        ascending::<K>(a),
        ascending::<K>(b),
        forall|k: K::V| #[trigger] a.contains(k) <==> b.contains(k),
    ensures
        a == b,
    decreases a.len(),
{
    if a.len() == 0 {
        if b.len() > 0 {
            assert(b.contains(b[0]));
            assert(a.contains(b[0]));
        }
        assert(a =~= b);
    } else {
        let x = a.last();
        assert(a.contains(x));
        let j = choose|j: int| 0 <= j < b.len() && b[j] == x;
        let y = b.last();
        assert(b.contains(y));
        assert(a.contains(y));
        let i = choose|i: int| 0 <= i < a.len() && a[i] == y;
        if x != y {
            assert(precedes(K::rank(a[i]), K::rank(a[a.len() - 1])));
            assert(precedes(K::rank(b[j]), K::rank(b[b.len() - 1])));
            lemma_transitive(K::rank(x), K::rank(y), K::rank(x));
            lemma_irreflexive(K::rank(x));
        }
        let p = a.drop_last();
        let q = b.drop_last();
        lemma_last_is_once::<K>(a);
        lemma_last_is_once::<K>(b);
        assert forall|k: K::V| #[trigger] p.contains(k) <==> q.contains(k) by {
            if p.contains(k) {
                let m = choose|m: int| 0 <= m < p.len() && p[m] == k;
                assert(a[m] == k);
                assert(a.contains(k));
                let l = choose|l: int| 0 <= l < b.len() && b[l] == k;
                assert(q[l] == k);
            }
            if q.contains(k) {
                let m = choose|m: int| 0 <= m < q.len() && q[m] == k;
                assert(b[m] == k);
                assert(a.contains(k));
                let l = choose|l: int| 0 <= l < a.len() && a[l] == k;
                assert(p[l] == k);
            }
        }
        assert forall|m: int, l: int| 0 <= m < l < p.len() implies precedes(
            K::rank(#[trigger] p[m]),
            K::rank(#[trigger] p[l]),
        ) by {
            assert(precedes(K::rank(a[m]), K::rank(a[l])));
        }
        assert forall|m: int, l: int| 0 <= m < l < q.len() implies precedes(
            K::rank(#[trigger] q[m]),
            K::rank(#[trigger] q[l]),
        ) by {
            assert(precedes(K::rank(b[m]), K::rank(b[l])));
        }
        lemma_order_is_unique::<K>(p, q);
        assert(a =~= p.push(x));
        assert(b =~= q.push(y));
    }
}

/// The last of keys in order does not come before.
proof fn lemma_last_is_once<K: Key>(a: Seq<K::V>)
    requires
        ascending::<K>(a),
        a.len() > 0,
    ensures
        !a.drop_last().contains(a.last()),
{
    if a.drop_last().contains(a.last()) {
        let m = choose|m: int| 0 <= m < a.len() - 1 && a.drop_last()[m] == a.last();
        assert(precedes(K::rank(a[m]), K::rank(a[a.len() - 1])));
        lemma_irreflexive(K::rank(a.last()));
    }
}

impl<K: Key, V> Table<K, V> {
    /// The keys in order.
    pub closed spec fn keys(&self) -> Seq<K::V> {
        self.entries@.map_values(|e: (K, V)| e.0@)
    }

    #[verifier::type_invariant]
    closed spec fn well_formed(&self) -> bool {
        ascending::<K>(self.keys())
    }

    proof fn lemma_distinct(&self, i: int, j: int)
        requires
            self.well_formed(),
            0 <= i < self.entries@.len(),
            0 <= j < self.entries@.len(),
            self.entries@[i].0@ == self.entries@[j].0@,
        ensures
            i == j,
    {
        let keys = self.keys();
        assert(keys[i] == self.entries@[i].0@);
        assert(keys[j] == self.entries@[j].0@);
        lemma_irreflexive(K::rank(keys[i]));
        if i < j {
            assert(precedes(K::rank(keys[i]), K::rank(keys[j])));
        }
        if j < i {
            assert(precedes(K::rank(keys[j]), K::rank(keys[i])));
        }
    }

    proof fn lemma_entry(&self, i: int)
        requires
            self.well_formed(),
            0 <= i < self.entries@.len(),
        ensures
            self@.contains_key(self.entries@[i].0@),
            self@[self.entries@[i].0@] == self.entries@[i].1,
            self.keys().len() == self.entries@.len(),
            self.keys()[i] == self.entries@[i].0@,
    {
        let k = self.entries@[i].0@;
        let c = choose|j: int| 0 <= j < self.entries@.len() && #[trigger] self.entries@[j].0@ == k;
        self.lemma_distinct(c, i);
    }

    /// The keys in order are the keys of the map, each once.
    proof fn lemma_keys(&self)
        requires
            self.well_formed(),
        ensures
            forall|k: K::V| self@.contains_key(k) <==> #[trigger] self.keys().contains(k),
            self.keys().no_duplicates(),
    {
        assert forall|k: K::V| self@.contains_key(k) <==> #[trigger] self.keys().contains(k) by {
            if self@.contains_key(k) {
                let i = choose|i: int|
                    0 <= i < self.entries@.len() && #[trigger] self.entries@[i].0@ == k;
                assert(self.keys()[i] == k);
            }
            if self.keys().contains(k) {
                let i = choose|i: int| 0 <= i < self.keys().len() && self.keys()[i] == k;
                assert(self.entries@[i].0@ == k);
            }
        }
        assert forall|i: int, j: int|
            0 <= i < self.keys().len() && 0 <= j < self.keys().len() && i != j implies self.keys()[i]
            != self.keys()[j] by {
            if self.keys()[i] == self.keys()[j] {
                self.lemma_distinct(i, j);
            }
        }
    }

    /// A map without entries.
    pub fn new() -> (r: Self)
        ensures
            r@ == Map::<K::V, V>::empty(),
            r.keys() == Seq::<K::V>::empty(),
    {
        let r = Table { entries: Vec::new() };
        assert(r@ =~= Map::<K::V, V>::empty());
        assert(r.keys() =~= Seq::<K::V>::empty());
        r
    }

    /// The number of entries.
    pub fn len(&self) -> (r: usize)
        ensures
            r == self.keys().len(),
            ascending::<K>(self.keys()),
            self.keys().no_duplicates(),
            forall|k: K::V| self@.contains_key(k) <==> #[trigger] self.keys().contains(k),
    {
        proof {
            use_type_invariant(self);
            self.lemma_keys();
        }
        self.entries.len()
    }

    /// Whether there is no entry.
    pub fn is_empty(&self) -> (r: bool)
        ensures
            r == (self.keys().len() == 0),
            r == (self@ == Map::<K::V, V>::empty()),
    {
        proof {
            use_type_invariant(self);
            self.lemma_keys();
        }
        if self.entries.len() == 0 {
            assert(self@ =~= Map::<K::V, V>::empty());
            true
        } else {
            proof {
                self.lemma_entry(0);
            }
            assert(self@.contains_key(self.entries@[0].0@));
            false
        }
    }

    /// The key at position `i`.
    pub fn key_at(&self, i: usize) -> (r: &K)
        requires
            i < self.keys().len(),
        ensures
            r@ == self.keys()[i as int],
            self@.contains_key(r@),
    {
        proof {
            use_type_invariant(self);
            self.lemma_entry(i as int);
        }
        &self.entries[i].0
    }

    /// The value at position `i`.
    pub fn value_at(&self, i: usize) -> (r: &V)
        requires
            i < self.keys().len(),
        ensures
            *r == self@[self.keys()[i as int]],
            self@.contains_key(self.keys()[i as int]),
    {
        proof {
            use_type_invariant(self);
            self.lemma_entry(i as int);
        }
        &self.entries[i].1
    }

    /// Where `key` stands, or where it would have to be put.
    fn position(&self, key: &K) -> (r: (usize, bool))
        ensures
            r.0 <= self.entries@.len(),
            r.1 ==> r.0 < self.entries@.len() && self.entries@[r.0 as int].0@ == key@,
            r.1 == self@.contains_key(key@),
            forall|i: int|
                0 <= i < r.0 ==> precedes(
                    K::rank((#[trigger] self.entries@[i]).0@),
                    K::rank(key@),
                ),
            !r.1 ==> forall|i: int|
                r.0 <= i < self.entries@.len() ==> precedes(
                    K::rank(key@),
                    K::rank((#[trigger] self.entries@[i]).0@),
                ),
    {
        proof {
            use_type_invariant(self);
        }
        let mut i: usize = 0;
        while i < self.entries.len()
            invariant
                i <= self.entries@.len(),
                self.well_formed(),
                forall|j: int|
                    0 <= j < i ==> precedes(
                        K::rank((#[trigger] self.entries@[j]).0@),
                        K::rank(key@),
                    ),
            decreases self.entries@.len() - i,
        {
            let order = self.entries[i].0.compare(key);
            match order {
                Order::Equal => {
                    proof {
                        K::lemma_rank_injective(self.entries@[i as int].0@, key@);
                        self.lemma_entry(i as int);
                    }
                    return (i, true);
                },
                Order::Greater => {
                    proof {
                        self.lemma_absent(key@, i as int);
                    }
                    return (i, false);
                },
                Order::Less => {},
            }
            i = i + 1;
        }
        proof {
            self.lemma_absent(key@, i as int);
        }
        (i, false)
    }

    /// A key between two neighbours is not in the map.
    proof fn lemma_absent(&self, key: K::V, at: int)
        requires
            self.well_formed(),
            0 <= at <= self.entries@.len(),
            forall|j: int|
                0 <= j < at ==> precedes(K::rank((#[trigger] self.entries@[j]).0@), K::rank(key)),
            at < self.entries@.len() ==> order_of(K::rank(self.entries@[at].0@), K::rank(key))
                == Order::Greater,
        ensures
            !self@.contains_key(key),
            forall|i: int|
                at <= i < self.entries@.len() ==> precedes(
                    K::rank(key),
                    K::rank((#[trigger] self.entries@[i]).0@),
                ),
    {
        let keys = self.keys();
        if at < self.entries@.len() {
            lemma_total(K::rank(self.entries@[at].0@), K::rank(key));
        }
        assert forall|i: int| at <= i < self.entries@.len() implies precedes(
            K::rank(key),
            K::rank((#[trigger] self.entries@[i]).0@),
        ) by {
            if at < i {
                assert(precedes(K::rank(keys[at]), K::rank(keys[i])));
                lemma_transitive(
                    K::rank(key),
                    K::rank(self.entries@[at].0@),
                    K::rank(self.entries@[i].0@),
                );
            }
        }
        if self@.contains_key(key) {
            let i = choose|i: int|
                0 <= i < self.entries@.len() && #[trigger] self.entries@[i].0@ == key;
            lemma_irreflexive(K::rank(key));
        }
    }

    /// Whether `key` is in the map.
    pub fn contains_key(&self, key: &K) -> (r: bool)
        ensures
            r == self@.contains_key(key@),
    {
        self.position(key).1
    }

    /// The value of `key`.
    pub fn get(&self, key: &K) -> (r: Option<&V>)
        ensures
            match r {
                Some(v) => self@.contains_key(key@) && *v == self@[key@],
                None => !self@.contains_key(key@),
            },
    {
        let (i, found) = self.position(key);
        if found {
            proof {
                use_type_invariant(self);
                self.lemma_entry(i as int);
            }
            Some(&self.entries[i].1)
        } else {
            None
        }
    }

    /// Puts `value` under `key`, in place of what was there.
    pub fn insert(&mut self, key: K, value: V) -> (r: bool)
        ensures
            final(self)@ == old(self)@.insert(key@, value),
            r == old(self)@.contains_key(key@),
            r ==> final(self).keys() == old(self).keys(),
            !r ==> exists|at: int|
                0 <= at <= old(self).keys().len() && final(self).keys() == #[trigger] old(
                    self,
                ).keys().insert(at, key@),
    {
        let (i, found) = self.position(&key);
        proof {
            use_type_invariant(&*self);
        }
        let ghost before = *self;
        let ghost k = key@;
        let mut entries: Vec<(K, V)> = Vec::new();
        std::mem::swap(&mut entries, &mut self.entries);
        if found {
            proof {
                before.lemma_entry(i as int);
            }
            let _ = entries.remove(i);
        }
        entries.insert(i, (key, value));
        proof {
            let t = Table::<K, V> { entries };
            if found {
                assert(t.keys() =~= before.keys());
            } else {
                assert(t.keys() =~= before.keys().insert(i as int, k));
                let keys = t.keys();
                assert forall|a: int, b: int| 0 <= a < b < keys.len() implies precedes(
                    K::rank(#[trigger] keys[a]),
                    K::rank(#[trigger] keys[b]),
                ) by {
                    let old_keys = before.keys();
                    if a < i && b == i {
                        assert(keys[a] == before.entries@[a].0@);
                    } else if a == i {
                        assert(keys[b] == before.entries@[b - 1].0@);
                    } else if a < i && b < i {
                        assert(precedes(K::rank(old_keys[a]), K::rank(old_keys[b])));
                    } else if a < i {
                        assert(precedes(K::rank(old_keys[a]), K::rank(old_keys[b - 1])));
                    } else {
                        assert(precedes(K::rank(old_keys[a - 1]), K::rank(old_keys[b - 1])));
                    }
                }
            }
        }
        self.entries = entries;
        proof {
            let now = *self;
            now.lemma_entry(i as int);
            let target = before@.insert(k, value);
            assert forall|x: K::V|
                #![trigger now@[x]]
                #![trigger target[x]]
                #![trigger now@.dom().contains(x)]
                #![trigger target.dom().contains(x)]
                now@.dom().contains(x) == target.dom().contains(x) && (now@.dom().contains(x)
                    ==> now@[x] == target[x]) by {
                if before@.contains_key(x) {
                    let j = choose|j: int|
                        0 <= j < before.entries@.len() && #[trigger] before.entries@[j].0@ == x;
                    before.lemma_entry(j);
                    let m = if found || j < i {
                        j
                    } else {
                        j + 1
                    };
                    now.lemma_entry(m);
                    assert(now.entries@[m].0@ == x || m == i);
                    if found && j == i {
                        assert(x == k);
                    }
                }
                if now@.contains_key(x) {
                    let j = choose|j: int|
                        0 <= j < now.entries@.len() && #[trigger] now.entries@[j].0@ == x;
                    now.lemma_entry(j);
                    if j != i {
                        let m = if found || j < i {
                            j
                        } else {
                            j - 1
                        };
                        assert(before.entries@[m].0@ == x);
                        before.lemma_entry(m);
                    }
                }
            }
            assert(now@.dom() =~= target.dom());
            assert(now@ =~= target);
        }
        found
    }

    /// Takes the entry of `key` out of the map.
    pub fn remove(&mut self, key: &K) -> (r: Option<V>)
        ensures
            final(self)@ == old(self)@.remove(key@),
            match r {
                Some(v) => old(self)@.contains_key(key@) && v == old(self)@[key@],
                None => !old(self)@.contains_key(key@) && final(self).keys() == old(self).keys(),
            },
    {
        let (i, found) = self.position(key);
        proof {
            use_type_invariant(&*self);
        }
        let ghost before = *self;
        if !found {
            assert(before@.remove(key@) =~= before@);
            return None;
        }
        proof {
            before.lemma_entry(i as int);
        }
        let mut entries: Vec<(K, V)> = Vec::new();
        std::mem::swap(&mut entries, &mut self.entries);
        let (_, value) = entries.remove(i);
        proof {
            let t = Table::<K, V> { entries };
            assert(t.keys() =~= before.keys().remove(i as int));
            let keys = t.keys();
            let old_keys = before.keys();
            assert forall|a: int, b: int| 0 <= a < b < keys.len() implies precedes(
                K::rank(#[trigger] keys[a]),
                K::rank(#[trigger] keys[b]),
            ) by {
                let x = if a < i {
                    a
                } else {
                    a + 1
                };
                let y = if b < i {
                    b
                } else {
                    b + 1
                };
                assert(precedes(K::rank(old_keys[x]), K::rank(old_keys[y])));
            }
        }
        self.entries = entries;
        proof {
            let now = *self;
            let target = before@.remove(key@);
            assert forall|x: K::V|
                #![trigger now@[x]]
                #![trigger target[x]]
                #![trigger now@.dom().contains(x)]
                #![trigger target.dom().contains(x)]
                now@.dom().contains(x) == target.dom().contains(x) && (now@.dom().contains(x)
                    ==> now@[x] == target[x]) by {
                if before@.contains_key(x) && x != key@ {
                    let j = choose|j: int|
                        0 <= j < before.entries@.len() && #[trigger] before.entries@[j].0@ == x;
                    before.lemma_entry(j);
                    let m = if j < i {
                        j
                    } else {
                        j - 1
                    };
                    assert(now.entries@[m].0@ == x);
                    now.lemma_entry(m);
                }
                if now@.contains_key(x) {
                    let j = choose|j: int|
                        0 <= j < now.entries@.len() && #[trigger] now.entries@[j].0@ == x;
                    let m = if j < i {
                        j
                    } else {
                        j + 1
                    };
                    now.lemma_entry(j);
                    assert(before.entries@[m].0@ == x);
                    before.lemma_entry(m);
                    if x == key@ {
                        before.lemma_distinct(m, i as int);
                    }
                }
            }
            assert(now@.dom() =~= target.dom());
            assert(now@ =~= target);
        }
        Some(value)
    }
}

/// The keys of a set of texts, in order.
pub fn key_list(table: &Table<String, ()>) -> (r: Vec<String>)
    ensures
        texts(r@) == table.keys(),
        ascending::<String>(texts(r@)),
        forall|k: Seq<char>| table@.contains_key(k) <==> #[trigger] texts(r@).contains(k),
{
    let count = table.len();
    let mut r: Vec<String> = Vec::new();
    let mut k: usize = 0;
    assert(texts(r@) =~= table.keys().take(0));
    while k < count
        invariant
            k <= count,
            count == table.keys().len(),
            texts(r@) == table.keys().take(k as int),
        decreases count - k,
    {
        let key = table.key_at(k).clone();
        proof {
            lemma_texts_push(r@, key);
            assert(table.keys().take(k + 1) =~= table.keys().take(k as int).push(key@));
        }
        r.push(key);
        k = k + 1;
    }
    assert(table.keys().take(k as int) =~= table.keys());
    r
}

} // verus!
