//! The byte encodings of plain values, as the SCALE codec writes them.
use vstd::prelude::*;
use vstd::utf8::encode_utf8;

verus! {

/// The `width` low bytes of `x`, lowest first.
pub open spec fn le_bytes(x: nat, width: nat) -> Seq<u8>
    decreases width,
{
    if width == 0 {
        Seq::empty()
    } else {
        seq![(x % 256) as u8] + le_bytes(x / 256, (width - 1) as nat)
    }
}

/// The compact encoding of a length: in its two low bits the first byte tells
/// how many bytes follow, and the rest holds the number, lowest byte first.
pub open spec fn compact_bytes(n: u32) -> Seq<u8> {
    if n < 0x40 {
        le_bytes((4 * n) as nat, 1)
    } else if n < 0x4000 {
        le_bytes((4 * n + 1) as nat, 2)
    } else if n < 0x4000_0000 {
        le_bytes((4 * n + 2) as nat, 4)
    } else {
        seq![3u8] + le_bytes(n as nat, 4)
    }
}

/// A text can be encoded: the length of its UTF-8 form fits the length prefix.
pub open spec fn text_encodable(text: Seq<char>) -> bool {
    encode_utf8(text).len() <= u32::MAX
}

/// The encoding of a text: the compact length of its UTF-8 form, then that
/// form.
pub open spec fn text_bytes(text: Seq<char>) -> Seq<u8> {
    compact_bytes(encode_utf8(text).len() as u32) + encode_utf8(text)
}

/// The encoding of a truth value: one byte, 1 for true.
pub open spec fn bool_bytes(b: bool) -> Seq<u8> {
    seq![if b { 1u8 } else { 0u8 }]
}

/// How many bytes the compact encoding of a length takes.
pub open spec fn compact_size(n: u32) -> nat {
    if n < 0x40 {
        1
    } else if n < 0x4000 {
        2
    } else if n < 0x4000_0000 {
        4
    } else {
        5
    }
}

/// `le_bytes` gives as many bytes as asked for.
pub proof fn lemma_le_bytes_len(x: nat, width: nat)
    ensures
        le_bytes(x, width).len() == width,
    decreases width,
{
    if width > 0 {
        lemma_le_bytes_len(x / 256, (width - 1) as nat);
    }
}

/// A compact length takes one, two, four or five bytes.
pub proof fn lemma_compact_bytes_len(n: u32)
    ensures
        compact_bytes(n).len() == compact_size(n),
{
    lemma_le_bytes_len((4 * n) as nat, 1);
    lemma_le_bytes_len((4 * n + 1) as nat, 2);
    lemma_le_bytes_len((4 * n + 2) as nat, 4);
    lemma_le_bytes_len(n as nat, 4);
}

/// An encoded text takes the bytes of its UTF-8 form and those of their
/// compact number.
pub proof fn lemma_text_bytes_len(text: Seq<char>)
    ensures
        text_bytes(text).len() == compact_size(encode_utf8(text).len() as u32) + encode_utf8(
            text,
        ).len(),
{
    lemma_compact_bytes_len(encode_utf8(text).len() as u32);
}

/// `parity_scale_codec::Encode::encode` on a `Compact<u32>`. The codec writes
/// `n << 2` in one byte below 2^6, `(n << 2) | 1` in two bytes below 2^14,
/// `(n << 2) | 2` in four bytes below 2^30, and else the byte 3 before the four
/// bytes of `n`; the contract says the same with sums in place of shifts.
#[verifier::external_body]
pub(crate) fn scale_compact(n: u32) -> (bytes: Vec<u8>)
    ensures
        bytes@ == compact_bytes(n),
{
    parity_scale_codec::Encode::encode(&parity_scale_codec::Compact(n))
}

/// `parity_scale_codec::Encode::encode` on a `str`. The codec writes the
/// compact length of the text's bytes and then the bytes, and panics where
/// that length is beyond `u32::MAX`, which `requires` leaves out.
#[verifier::external_body]
pub(crate) fn scale_text(text: &str) -> (bytes: Vec<u8>)
    requires
        text_encodable(text@),
    ensures
        bytes@ == text_bytes(text@),
{
    parity_scale_codec::Encode::encode(text)
}

/// `parity_scale_codec::Encode::encode` on a `u32`: its four bytes, lowest
/// first.
#[verifier::external_body]
pub(crate) fn scale_u32(n: u32) -> (bytes: Vec<u8>)
    ensures
        bytes@ == le_bytes(n as nat, 4),
{
    parity_scale_codec::Encode::encode(&n)
}

/// `parity_scale_codec::Encode::encode` on a `u128`: its sixteen bytes, lowest
/// first.
#[verifier::external_body]
pub(crate) fn scale_u128(n: u128) -> (bytes: Vec<u8>)
    ensures
        bytes@ == le_bytes(n as nat, 16),
{
    parity_scale_codec::Encode::encode(&n)
}

/// `parity_scale_codec::Encode::encode` on a `bool`: the one byte 1 for true
/// and 0 for false.
#[verifier::external_body]
pub(crate) fn scale_bool(b: bool) -> (bytes: Vec<u8>)
    ensures
        bytes@ == bool_bytes(b),
{
    parity_scale_codec::Encode::encode(&b)
}

} // verus!
