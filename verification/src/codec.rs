//! Little-endian 32-bit word codec.
//!
//! Scanning interprets every 4-byte window of a region as a
//! little-endian unsigned 32-bit word; writes encode a word back into
//! 4 bytes. The spec functions here are the single definition both
//! directions are proved against.

use vstd::prelude::*;

verus! {

/// The unsigned 32-bit value encoded little-endian by the bytes
/// `b0` (lowest) through `b3` (highest).
pub open spec fn le_word(b0: u8, b1: u8, b2: u8, b3: u8) -> u32 {
    (b0 + b1 * 0x100 + b2 * 0x1_0000 + b3 * 0x100_0000) as u32
}

/// The word read little-endian from the 4-byte window of `data`
/// starting at offset `i`.
pub open spec fn le_word_at(data: Seq<u8>, i: int) -> u32 {
    le_word(data[i], data[i + 1], data[i + 2], data[i + 3])
}

/// The four little-endian bytes of `v`, lowest first.
pub open spec fn le_bytes_of(v: u32) -> Seq<u8> {
    seq![
        (v & 0xff) as u8,
        ((v >> 8) & 0xff) as u8,
        ((v >> 16) & 0xff) as u8,
        ((v >> 24) & 0xff) as u8,
    ]
}

/// Encoding a word and reading it back yields the word.
pub proof fn lemma_le_word_of_bytes(v: u32)
    ensures
        le_word_at(le_bytes_of(v), 0) == v,
{
    assert(((v & 0xff) as u8) as u64 + ((((v >> 8) & 0xff) as u8) as u64) * 0x100
        + ((((v >> 16) & 0xff) as u8) as u64) * 0x1_0000
        + ((((v >> 24) & 0xff) as u8) as u64) * 0x100_0000 == v as u64) by (bit_vector);
}

/// Reading four bytes as a word and encoding that word yields the
/// same four bytes.
pub proof fn lemma_le_bytes_of_word(b0: u8, b1: u8, b2: u8, b3: u8)
    ensures
        le_bytes_of(le_word(b0, b1, b2, b3)) =~= seq![b0, b1, b2, b3],
{
    let w: u32 = le_word(b0, b1, b2, b3);
    assert(w == b0 + b1 * 0x100 + b2 * 0x1_0000 + b3 * 0x100_0000);
    assert(w & 0xff == b0 as u32) by (bit_vector)
        requires
            w == b0 + b1 * 0x100 + b2 * 0x1_0000 + b3 * 0x100_0000,
    ;
    assert((w >> 8) & 0xff == b1 as u32) by (bit_vector)
        requires
            w == b0 + b1 * 0x100 + b2 * 0x1_0000 + b3 * 0x100_0000,
    ;
    assert((w >> 16) & 0xff == b2 as u32) by (bit_vector)
        requires
            w == b0 + b1 * 0x100 + b2 * 0x1_0000 + b3 * 0x100_0000,
    ;
    assert((w >> 24) & 0xff == b3 as u32) by (bit_vector)
        requires
            w == b0 + b1 * 0x100 + b2 * 0x1_0000 + b3 * 0x100_0000,
    ;
}

/// A 4-byte window holds the word `v` exactly when its bytes are the
/// little-endian encoding of `v`.
pub proof fn lemma_word_matches_bytes(data: Seq<u8>, i: int, v: u32)
    requires
        0 <= i,
        i + 4 <= data.len(),
    ensures
        le_word_at(data, i) == v <==> data.subrange(i, i + 4) =~= le_bytes_of(v),
{
    if le_word_at(data, i) == v {
        lemma_le_bytes_of_word(data[i], data[i + 1], data[i + 2], data[i + 3]);
        assert(data.subrange(i, i + 4) =~= seq![data[i], data[i + 1], data[i + 2], data[i + 3]]);
    }
    if data.subrange(i, i + 4) =~= le_bytes_of(v) {
        lemma_le_word_of_bytes(v);
        assert(data[i] == le_bytes_of(v)[0]);
        assert(data[i + 1] == le_bytes_of(v)[1]);
        assert(data[i + 2] == le_bytes_of(v)[2]);
        assert(data[i + 3] == le_bytes_of(v)[3]);
    }
}

/// Reads the word encoded little-endian by four bytes.
pub fn word_from_le(b0: u8, b1: u8, b2: u8, b3: u8) -> (v: u32)
    ensures
        v == le_word(b0, b1, b2, b3),
{
    b0 as u32 + (b1 as u32) * 0x100 + (b2 as u32) * 0x1_0000 + (b3 as u32) * 0x100_0000
}

/// Encodes `v` as its four little-endian bytes, as a write to the
/// target's memory sends them.
pub fn encode_u32_le(v: u32) -> (r: Vec<u8>)
    ensures
        r@ == le_bytes_of(v),
        r@.len() == 4,
        le_word_at(r@, 0) == v,
{
    proof {
        assert(v & 0xff < 0x100 && (v >> 8) & 0xff < 0x100 && (v >> 16) & 0xff < 0x100 && (v >> 24)
            & 0xff < 0x100) by (bit_vector);
        lemma_le_word_of_bytes(v);
    }
    let mut r: Vec<u8> = Vec::new();
    r.push((v & 0xff) as u8);
    r.push(((v >> 8) & 0xff) as u8);
    r.push(((v >> 16) & 0xff) as u8);
    r.push(((v >> 24) & 0xff) as u8);
    proof {
        assert(r@ =~= le_bytes_of(v));
    }
    r
}

} // verus!
