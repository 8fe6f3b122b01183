//! Names and paths as a directory has them: bytes, which need not be text.

use vstd::prelude::*;
use vstd::utf8::{decode_utf8, valid_utf8};

use crate::hashing::push_bytes;
use crate::ordered::{lemma_common_front, Key, Order};
use crate::path::{
    equal_paths, parts_of, span_fits, span_part, span_parts, spans, spans_fit, Span,
};

verus! {

broadcast use vstd::string::group_string_axioms;

/// The byte of `/`.
pub const SLASH: u8 = 47;

/// The values of bytes.
pub open spec fn byte_values(bytes: Seq<u8>) -> Seq<int> {
    bytes.map_values(|b: u8| b as int)
}

/// Whether the bytes are the same.
pub fn same_bytes(a: &[u8], b: &[u8]) -> (r: bool)
    ensures
        r == (a@ == b@),
{
    if a.len() != b.len() {
        return false;
    }
    let mut i: usize = 0;
    while i < a.len()
        invariant
            i <= a@.len(),
            a@.len() == b@.len(),
            forall|j: int| 0 <= j < i ==> a@[j] == b@[j],
        decreases a@.len() - i,
    {
        if a[i] != b[i] {
            return false;
        }
        i = i + 1;
    }
    assert(a@ =~= b@);
    true
}

/// The same bytes again.
pub fn copy_bytes(bytes: &[u8]) -> (r: Vec<u8>)
    ensures
        r@ == bytes@,
{
    let mut r: Vec<u8> = Vec::new();
    push_bytes(&mut r, bytes);
    assert(r@ =~= bytes@);
    r
}

impl Key for Vec<u8> {
    open spec fn rank(v: Seq<u8>) -> Seq<int> {
        byte_values(v)
    }

    proof fn lemma_rank_injective(a: Seq<u8>, b: Seq<u8>) {
        assert(a.len() == byte_values(a).len());
        assert(b.len() == byte_values(b).len());
        assert forall|i: int| 0 <= i < a.len() implies a[i] == b[i] by {
            assert(byte_values(a)[i] == a[i] as int);
            assert(byte_values(b)[i] == b[i] as int);
        }
        assert(a =~= b);
    }

    fn compare(&self, other: &Self) -> (r: Order) {
        let ghost p = byte_values(self@);
        let ghost q = byte_values(other@);
        let mut i: usize = 0;
        while i < self.len() && i < other.len()
            invariant
                p == byte_values(self@),
                q == byte_values(other@),
                i <= self@.len(),
                i <= other@.len(),
                forall|j: int| 0 <= j < i ==> p[j] == q[j],
            decreases self@.len() - i,
        {
            if self[i] != other[i] {
                proof {
                    lemma_common_front(p, q, i as int);
                    assert(p.skip(i as int)[0] == self@[i as int] as int);
                    assert(q.skip(i as int)[0] == other@[i as int] as int);
                    assert(p[i as int] != q[i as int]);
                }
                return if self[i] < other[i] {
                    Order::Less
                } else {
                    Order::Greater
                };
            }
            i = i + 1;
        }
        proof {
            lemma_common_front(p, q, i as int);
        }
        if self.len() == other.len() {
            assert(p =~= q);
            Order::Equal
        } else if self.len() < other.len() {
            Order::Less
        } else {
            Order::Greater
        }
    }
}

/// Bytes with one character for each: `/` and `.` stand for themselves, so that a path has the same
/// components as its bytes have.
pub open spec fn widened(bytes: Seq<u8>) -> Seq<char> {
    bytes.map_values(|b: u8| b as char)
}

/// The bytes name the same path.
pub open spec fn equal_raw_paths(a: Seq<u8>, b: Seq<u8>) -> bool {
    equal_paths(widened(a), widened(b))
}

/// `rest` below `base`, or `rest` itself if it is absolute.
pub open spec fn joined_raw(base: Seq<u8>, rest: Seq<u8>) -> Seq<u8> {
    if rest.len() > 0 && rest[0] == SLASH {
        rest
    } else if base.len() == 0 || base.last() == SLASH {
        base + rest
    } else {
        base + seq![SLASH] + rest
    }
}

/// Bytes with one character for each.
fn widen(bytes: &[u8]) -> (r: Vec<char>)
    ensures
        r@ == widened(bytes@),
{
    let mut r: Vec<char> = Vec::new();
    let mut i: usize = 0;
    while i < bytes.len()
        invariant
            i <= bytes@.len(),
            r@ == widened(bytes@.take(i as int)),
        decreases bytes@.len() - i,
    {
        r.push(bytes[i] as char);
        proof {
            assert(bytes@.take(i + 1) =~= bytes@.take(i as int).push(bytes@[i as int]));
            assert(r@ =~= widened(bytes@.take(i + 1)));
        }
        i = i + 1;
    }
    assert(bytes@.take(i as int) =~= bytes@);
    r
}

/// Whether two spans stand for the same component.
fn same_span(a: &Vec<char>, x: Span, b: &Vec<char>, y: Span) -> (r: bool)
    requires
        span_fits(x, a@.len()),
        span_fits(y, b@.len()),
    ensures
        r == (span_part(a@, x) == span_part(b@, y)),
{
    match (x, y) {
        (Span::Root, Span::Root) => true,
        (Span::Here, Span::Here) => true,
        (Span::Up, Span::Up) => true,
        (Span::Name(from, to), Span::Name(start, end)) => {
            let ghost p = a@.subrange(from as int, to as int);
            let ghost q = b@.subrange(start as int, end as int);
            if to - from != end - start {
                assert(p.len() != q.len());
                return false;
            }
            let mut i: usize = 0;
            while i < to - from
                invariant
                    x == Span::Name(from, to),
                    y == Span::Name(start, end),
                    from <= to <= a@.len(),
                    start <= end <= b@.len(),
                    to - from == end - start,
                    i <= to - from,
                    p == a@.subrange(from as int, to as int),
                    q == b@.subrange(start as int, end as int),
                    forall|j: int| 0 <= j < i ==> p[j] == q[j],
                decreases to - from - i,
            {
                assert(p[i as int] == a@[from + i] && q[i as int] == b@[start + i]);
                if a[from + i] != b[start + i] {
                    return false;
                }
                i = i + 1;
            }
            assert(p =~= q);
            true
        },
        _ => false,
    }
}

/// Whether the bytes name the same path.
pub fn same_raw_path(a: &[u8], b: &[u8]) -> (r: bool)
    ensures
        r == equal_raw_paths(a@, b@),
{
    let p = widen(a);
    let q = widen(b);
    let x = spans(&p);
    let y = spans(&q);
    let ghost u = parts_of(p@);
    let ghost v = parts_of(q@);
    if x.len() != y.len() {
        assert(u.len() != v.len());
        return false;
    }
    let mut i: usize = 0;
    while i < x.len()
        invariant
            i <= x@.len(),
            x@.len() == y@.len(),
            u == span_parts(p@, x@),
            v == span_parts(q@, y@),
            u == parts_of(p@),
            v == parts_of(q@),
            p@ == widened(a@),
            q@ == widened(b@),
            spans_fit(x@, p@.len()),
            spans_fit(y@, q@.len()),
            forall|j: int| 0 <= j < i ==> u[j] == v[j],
        decreases x@.len() - i,
    {
        assert(span_fits(x@[i as int], p@.len()) && span_fits(y@[i as int], q@.len()));
        if !same_span(&p, x[i], &q, y[i]) {
            assert(u[i as int] != v[i as int]);
            return false;
        }
        assert(u[i as int] == v[i as int]);
        i = i + 1;
    }
    assert(u =~= v);
    true
}

/// `rest` below `base`, or `rest` itself if it is absolute.
pub fn join_raw(base: &[u8], rest: &[u8]) -> (r: Vec<u8>)
    ensures
        r@ == joined_raw(base@, rest@),
{
    if rest.len() > 0 && rest[0] == SLASH {
        return copy_bytes(rest);
    }
    let mut r = copy_bytes(base);
    if base.len() > 0 && base[base.len() - 1] != SLASH {
        r.push(SLASH);
    }
    push_bytes(&mut r, rest);
    assert(r@ =~= joined_raw(base@, rest@));
    r
}

/// The text that bytes are shown as, as `String::from_utf8_lossy` gives it.
pub uninterp spec fn lossy_text(bytes: Seq<u8>) -> Seq<char>;

/// Calls `String::from_utf8_lossy`. The contract claims that the text is a function of the bytes, and
/// the text that they encode where they encode one.
#[verifier::external_body]
pub(crate) fn shown(bytes: &[u8]) -> (r: String)
    ensures
        r@ == lossy_text(bytes@),
        valid_utf8(bytes@) ==> r@ == decode_utf8(bytes@),
{
    String::from_utf8_lossy(bytes).into_owned()
}

} // verus!
