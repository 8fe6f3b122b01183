//! The place of a package link below the directory of all links: namespace, name and version.

use vstd::prelude::*;

use crate::ordered::{codes, compare_texts, lemma_codes_injective, precedes, Key, Order};
use crate::path::{components, lemma_three_names, parts, parts_of, plain_name, Component};
use crate::text::plus3;

verus! {

broadcast use vstd::string::group_string_axioms;

/// The place of a package link.
#[derive(Debug)]
pub struct LinkPath {
    pub namespace: String,
    pub name: String,
    pub version: String,
}

/// The place of a package link, with its texts.
pub struct LinkPathModel {
    pub namespace: Seq<char>,
    pub name: Seq<char>,
    pub version: Seq<char>,
}

impl View for LinkPath {
    type V = LinkPathModel;

    open spec fn view(&self) -> LinkPathModel {
        LinkPathModel {
            namespace: self.namespace@,
            name: self.name@,
            version: self.version@,
        }
    }
}

impl Clone for LinkPath {
    fn clone(&self) -> (r: Self)
        ensures
            r@ == self@,
    {
        LinkPath {
            namespace: self.namespace.clone(),
            name: self.name.clone(),
            version: self.version.clone(),
        }
    }
}

/// The place as a path.
pub open spec fn link_text(m: LinkPathModel) -> Seq<char> {
    m.namespace + "/"@ + m.name + "/"@ + m.version
}

impl LinkPath {
    /// The place as a path.
    pub fn text(&self) -> (r: String)
        ensures
            r@ == link_text(self@),
    {
        let mut r = plus3(self.namespace.as_str(), "/", self.name.as_str());
        r.append("/");
        r.append(self.version.as_str());
        r
    }
}

/// The place that a path of three names stands for; none for any other path.
pub open spec fn link_path_of(path: Seq<char>) -> Option<LinkPathModel> {
    let all = parts_of(path);
    if all.len() == 3 && all[0] is Name && all[1] is Name && all[2] is Name {
        Some(
            LinkPathModel { namespace: all[0]->0, name: all[1]->0, version: all[2]->0 },
        )
    } else {
        None
    }
}

/// The place that a path of three names stands for.
pub fn read_link_path(path: &str) -> (r: Option<LinkPath>)
    ensures
        match r {
            Some(place) => link_path_of(path@) == Some(place@),
            None => link_path_of(path@) is None,
        },
{
    let all = components(path);
    assert(parts(all@).len() == all@.len());
    if all.len() != 3 {
        return None;
    }
    proof {
        assert(parts(all@)[0] == all@[0]@);
        assert(parts(all@)[1] == all@[1]@);
        assert(parts(all@)[2] == all@[2]@);
    }
    match (&all[0], &all[1], &all[2]) {
        (Component::Name(namespace), Component::Name(name), Component::Name(version)) => Some(
            LinkPath {
                namespace: namespace.clone(),
                name: name.clone(),
                version: version.clone(),
            },
        ),
        _ => None,
    }
}

/// The place of a link can be read back from its path.
pub proof fn lemma_link_path_reads_back(m: LinkPathModel)
    requires
        plain_name(m.namespace),
        plain_name(m.name),
        plain_name(m.version),
    ensures
        link_path_of(link_text(m)) == Some(m),
{
    reveal_strlit("/");
    assert("/"@ =~= seq!['/']);
    lemma_three_names(m.namespace, m.name, m.version);
}

/// Numbers, a mark that is smaller than every code point, and more numbers.
pub open spec fn marked(front: Seq<int>, rest: Seq<int>) -> Seq<int> {
    front + seq![-1int] + rest
}

/// All numbers are code points.
pub open spec fn no_mark(s: Seq<int>) -> bool {
    forall|i: int| 0 <= i < s.len() ==> #[trigger] s[i] >= 0
}

/// What stands before a mark decides the order, and only where that is the same does the rest.
proof fn lemma_marked(a: Seq<int>, x: Seq<int>, b: Seq<int>, y: Seq<int>)
    requires
        no_mark(a),
        no_mark(b),
    ensures
        precedes(marked(a, x), marked(b, y)) == (if a == b {
            precedes(x, y)
        } else {
            precedes(a, b)
        }),
        marked(a, x) == marked(b, y) <==> a == b && x == y,
    decreases a.len(),
{
    let p = marked(a, x);
    let q = marked(b, y);
    if a.len() == 0 {
        assert(p[0] == -1);
        if b.len() == 0 {
            assert(a =~= b);
            assert(q[0] == -1);
            assert(p.drop_first() =~= x);
            assert(q.drop_first() =~= y);
        } else {
            assert(q[0] == b[0]);
        }
    } else {
        assert(p[0] == a[0]);
        if b.len() == 0 {
            assert(q[0] == -1);
        } else {
            assert(q[0] == b[0]);
            assert(p.drop_first() =~= marked(a.drop_first(), x));
            assert(q.drop_first() =~= marked(b.drop_first(), y));
            lemma_marked(a.drop_first(), x, b.drop_first(), y);
            if a[0] == b[0] && a.drop_first() == b.drop_first() {
                assert(a =~= seq![a[0]] + a.drop_first());
                assert(b =~= seq![b[0]] + b.drop_first());
            }
        }
    }
}

/// The code points of a text are no marks.
proof fn lemma_codes_no_mark(text: Seq<char>)
    ensures
        no_mark(codes(text)),
{
    assert forall|i: int| 0 <= i < codes(text).len() implies #[trigger] codes(text)[i] >= 0 by {
        lemma_code_point(text[i]);
        assert(codes(text)[i] == text[i] as int);
    }
}

/// A code point is no mark.
proof fn lemma_code_point(c: char)
    ensures
        c as int >= 0,
{
}

/// Places compare by their namespaces, then by their names, then by their versions.
proof fn lemma_link_rank(a: LinkPathModel, b: LinkPathModel)
    ensures
        precedes(link_rank(a), link_rank(b)) == (if codes(a.namespace) != codes(b.namespace) {
            precedes(codes(a.namespace), codes(b.namespace))
        } else if codes(a.name) != codes(b.name) {
            precedes(codes(a.name), codes(b.name))
        } else {
            precedes(codes(a.version), codes(b.version))
        }),
        link_rank(a) == link_rank(b) <==> codes(a.namespace) == codes(b.namespace) && codes(a.name)
            == codes(b.name) && codes(a.version) == codes(b.version),
{
    lemma_codes_no_mark(a.namespace);
    lemma_codes_no_mark(b.namespace);
    lemma_codes_no_mark(a.name);
    lemma_codes_no_mark(b.name);
    let x = marked(codes(a.name), codes(a.version));
    let y = marked(codes(b.name), codes(b.version));
    lemma_marked(codes(a.namespace), x, codes(b.namespace), y);
    lemma_marked(codes(a.name), codes(a.version), codes(b.name), codes(b.version));
}

/// The numbers by which places are ordered: by namespace, then by name, then by version.
pub open spec fn link_rank(m: LinkPathModel) -> Seq<int> {
    marked(codes(m.namespace), marked(codes(m.name), codes(m.version)))
}

impl Key for LinkPath {
    open spec fn rank(v: LinkPathModel) -> Seq<int> {
        link_rank(v)
    }

    proof fn lemma_rank_injective(a: LinkPathModel, b: LinkPathModel) {
        lemma_link_rank(a, b);
        lemma_codes_injective(a.namespace, b.namespace);
        lemma_codes_injective(a.name, b.name);
        lemma_codes_injective(a.version, b.version);
    }

    fn compare(&self, other: &Self) -> (r: Order) {
        proof {
            lemma_link_rank(self@, other@);
        }
        let by_namespace = compare_texts(self.namespace.as_str(), other.namespace.as_str());
        if by_namespace != Order::Equal {
            return by_namespace;
        }
        let by_name = compare_texts(self.name.as_str(), other.name.as_str());
        if by_name != Order::Equal {
            return by_name;
        }
        compare_texts(self.version.as_str(), other.version.as_str())
    }
}

} // verus!
