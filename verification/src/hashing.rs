//! Identities: BLAKE3 digests of messages whose parts can be told apart.

use vstd::bytes::{spec_u64_to_le_bytes, u64_to_le_bytes};
use vstd::prelude::*;
use vstd::utf8::encode_utf8;

verus! {

broadcast use vstd::string::group_string_axioms;

/// The BLAKE3 digest of `data` in lower-case hexadecimal, as `blake3::hash` and
/// `blake3::Hash::to_hex` give it.
pub uninterp spec fn blake3_hex(data: Seq<u8>) -> Seq<char>;

/// A lower-case hexadecimal digit.
pub open spec fn is_lower_hex_char(c: char) -> bool {
    ('0' <= c && c <= '9') || ('a' <= c && c <= 'f')
}

/// Sixty-four lower-case hexadecimal digits.
pub open spec fn is_digest(text: Seq<char>) -> bool {
    text.len() == 64 && forall|i: int| 0 <= i < 64 ==> is_lower_hex_char(#[trigger] text[i])
}

/// Calls `blake3::hash` and writes the digest out with `blake3::Hash::to_hex`. The contract
/// claims that the text is a function of the bytes and that it is the 32 bytes of the digest as
/// sixty-four lower-case hexadecimal digits.
#[verifier::external_body]
pub(crate) fn digest(data: &[u8]) -> (r: String)
    ensures
        r@ == blake3_hex(data@),
        is_digest(r@),
{
    blake3::hash(data).to_hex().to_string()
}

/// `bytes` behind their number, in eight bytes from the lowest to the highest.
pub open spec fn frame(bytes: Seq<u8>) -> Seq<u8> {
    spec_u64_to_le_bytes(bytes.len() as u64) + bytes
}

/// The texts one after the other, each behind its length.
pub open spec fn parts_message(parts: Seq<Seq<char>>) -> Seq<u8>
    decreases parts.len(),
{
    if parts.len() == 0 {
        Seq::empty()
    } else {
        parts_message(parts.drop_last()) + frame(encode_utf8(parts.last()))
    }
}

/// A byte sequence that a machine can hold.
pub open spec fn fits(bytes: Seq<u8>) -> bool {
    bytes.len() <= u64::MAX
}

/// A framed message can be read in one way only.
pub proof fn lemma_frame_injective(a: Seq<u8>, x: Seq<u8>, b: Seq<u8>, y: Seq<u8>)
    requires
        fits(a),
        fits(b),
        frame(a) + x == frame(b) + y,
    ensures
        a == b,
        x == y,
{
    vstd::bytes::lemma_auto_spec_u64_to_from_le_bytes();
    let left = frame(a) + x;
    let right = frame(b) + y;
    let la = spec_u64_to_le_bytes(a.len() as u64);
    let lb = spec_u64_to_le_bytes(b.len() as u64);
    assert(la.len() == 8 && lb.len() == 8);
    assert(left.take(8) =~= la);
    assert(right.take(8) =~= lb);
    assert(a.len() as u64 == b.len() as u64);
    assert(a.len() == b.len());
    assert(left.subrange(8, 8 + a.len() as int) =~= a);
    assert(right.subrange(8, 8 + b.len() as int) =~= b);
    assert(left.skip(8 + a.len() as int) =~= x);
    assert(right.skip(8 + b.len() as int) =~= y);
}

/// Texts with the same encoding are the same.
pub proof fn lemma_encoding_injective(a: Seq<char>, b: Seq<char>)
    requires
        encode_utf8(a) == encode_utf8(b),
    ensures
        a == b,
{
    vstd::utf8::encode_utf8_decode_utf8(a);
    vstd::utf8::encode_utf8_decode_utf8(b);
}

/// The message of a list of texts from its first text on.
proof fn lemma_parts_front(parts: Seq<Seq<char>>)
    requires
        parts.len() > 0,
    ensures
        parts_message(parts) == frame(encode_utf8(parts[0])) + parts_message(parts.drop_first()),
    decreases parts.len(),
{
    let last = frame(encode_utf8(parts.last()));
    if parts.len() == 1 {
        assert(parts_message(parts.drop_last()) =~= Seq::<u8>::empty());
        assert(parts_message(parts.drop_first()) =~= Seq::<u8>::empty());
        assert(parts_message(parts) =~= frame(encode_utf8(parts[0])));
    } else {
        lemma_parts_front(parts.drop_last());
        assert(parts.drop_last().drop_first() =~= parts.drop_first().drop_last());
        assert(parts.drop_first().last() == parts.last());
        assert(parts_message(parts) =~= frame(encode_utf8(parts[0])) + (parts_message(
            parts.drop_first().drop_last(),
        ) + last));
    }
}

/// Different lists of texts have different messages: two identities made of texts agree only
/// where the texts do or the digest collides.
pub proof fn lemma_parts_message_injective(a: Seq<Seq<char>>, b: Seq<Seq<char>>)
    requires
        forall|i: int| 0 <= i < a.len() ==> fits(encode_utf8(#[trigger] a[i])),
        forall|i: int| 0 <= i < b.len() ==> fits(encode_utf8(#[trigger] b[i])),
        parts_message(a) == parts_message(b),
    ensures
        a == b,
    decreases a.len(),
{
    vstd::bytes::lemma_auto_spec_u64_to_from_le_bytes();
    if a.len() == 0 {
        if b.len() > 0 {
            lemma_parts_front(b);
            assert(parts_message(b).len() >= 8);
        }
        assert(a =~= b);
    } else {
        lemma_parts_front(a);
        if b.len() == 0 {
            assert(parts_message(a).len() >= 8);
        } else {
            lemma_parts_front(b);
            lemma_frame_injective(
                encode_utf8(a[0]),
                parts_message(a.drop_first()),
                encode_utf8(b[0]),
                parts_message(b.drop_first()),
            );
            lemma_encoding_injective(a[0], b[0]);
            let x = a.drop_first();
            let y = b.drop_first();
            assert forall|i: int| 0 <= i < x.len() implies fits(encode_utf8(#[trigger] x[i])) by {
                assert(x[i] == a[i + 1]);
            }
            assert forall|i: int| 0 <= i < y.len() implies fits(encode_utf8(#[trigger] y[i])) by {
                assert(y[i] == b[i + 1]);
            }
            lemma_parts_message_injective(x, y);
            assert(a =~= seq![a[0]] + x);
            assert(b =~= seq![b[0]] + y);
        }
    }
}

/// Adds `bytes` to `message`.
pub fn push_bytes(message: &mut Vec<u8>, bytes: &[u8])
    ensures
        final(message)@ == old(message)@ + bytes@,
{
    let mut i: usize = 0;
    while i < bytes.len()
        invariant
            i <= bytes@.len(),
            message@ == old(message)@ + bytes@.take(i as int),
        decreases bytes@.len() - i,
    {
        message.push(bytes[i]);
        assert(bytes@.take(i as int + 1) =~= bytes@.take(i as int).push(bytes@[i as int]));
        assert(message@ =~= old(message)@ + bytes@.take(i as int + 1));
        i = i + 1;
    }
    assert(bytes@.take(bytes@.len() as int) =~= bytes@);
}

/// Adds `bytes` to `message`, behind their number.
pub fn push_frame(message: &mut Vec<u8>, bytes: &[u8])
    ensures
        final(message)@ == old(message)@ + frame(bytes@),
{
    let length = u64_to_le_bytes(bytes.len() as u64);
    push_bytes(message, length.as_slice());
    push_bytes(message, bytes);
    assert(message@ =~= old(message)@ + frame(bytes@));
}

/// The identity of a list of texts.
pub fn hash_parts(parts: &[&str]) -> (r: String)
    ensures
        r@ == blake3_hex(parts_message(parts@.map_values(|p: &str| p@))),
        is_digest(r@),
{
    let mut message: Vec<u8> = Vec::new();
    let ghost all = parts@.map_values(|p: &str| p@);
    let mut i: usize = 0;
    while i < parts.len()
        invariant
            i <= parts@.len(),
            all == parts@.map_values(|p: &str| p@),
            message@ == parts_message(all.take(i as int)),
        decreases parts@.len() - i,
    {
        push_frame(&mut message, parts[i].as_bytes());
        proof {
            assert(all.take(i as int + 1).drop_last() =~= all.take(i as int));
            assert(all.take(i as int + 1).last() == parts@[i as int]@);
        }
        i = i + 1;
    }
    assert(all.take(parts@.len() as int) =~= all);
    digest(message.as_slice())
}

} // verus!
