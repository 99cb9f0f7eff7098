//! Little-endian integers in byte sequences.

use vstd::prelude::*;

verus! {

/// The 16-bit integer at `at`, least significant byte first.
pub open spec fn le16(b: Seq<u8>, at: int) -> u16 {
    (b[at] + 0x100 * b[at + 1]) as u16
}

/// The 32-bit integer at `at`, least significant byte first.
pub open spec fn le32(b: Seq<u8>, at: int) -> u32 {
    (b[at] + 0x100 * b[at + 1] + 0x1_0000 * b[at + 2] + 0x100_0000 * b[at + 3]) as u32
}

/// The 64-bit integer at `at`, least significant byte first.
pub open spec fn le64(b: Seq<u8>, at: int) -> u64 {
    (le32(b, at) + 0x1_0000_0000 * le32(b, at + 4)) as u64
}

/// The number that eight bits stand for in two's complement.
pub open spec fn signed8(b: u8) -> int {
    if b < 0x80 {
        b as int
    } else {
        b - 0x100
    }
}

/// The number that sixteen bits stand for in two's complement.
pub open spec fn signed16(b: u16) -> int {
    if b < 0x8000 {
        b as int
    } else {
        b - 0x1_0000
    }
}

/// The number that thirty-two bits stand for in two's complement.
pub open spec fn signed32(b: u32) -> int {
    if b < 0x8000_0000 {
        b as int
    } else {
        b - 0x1_0000_0000
    }
}

/// The number that sixty-four bits stand for in two's complement.
pub open spec fn signed64(b: u64) -> int {
    if b < 0x8000_0000_0000_0000 {
        b as int
    } else {
        b - 0x1_0000_0000_0000_0000
    }
}

/// The bytes of a word, least significant first.
pub open spec fn word_bytes(w: u32) -> Seq<u8> {
    seq![
        (w % 0x100) as u8,
        (w / 0x100 % 0x100) as u8,
        (w / 0x1_0000 % 0x100) as u8,
        (w / 0x100_0000) as u8,
    ]
}

/// The bytes of a run of words, each least significant first.
pub open spec fn words_bytes(w: Seq<u32>) -> Seq<u8> {
    Seq::new(4 * w.len(), |i: int| word_bytes(w[i / 4])[i % 4])
}

/// A word read back from its bytes is that word.
pub proof fn lemma_word_read_back(w: Seq<u32>, i: int)
    requires
        0 <= i < w.len(),
    ensures
        le32(words_bytes(w), 4 * i) == w[i],
{
    let b = words_bytes(w);
    assert(b[4 * i] == word_bytes(w[i])[0]);
    assert(b[4 * i + 1] == word_bytes(w[i])[1]);
    assert(b[4 * i + 2] == word_bytes(w[i])[2]);
    assert(b[4 * i + 3] == word_bytes(w[i])[3]);
}

/// Reads a 16-bit integer.
pub fn read16(b: &[u8], at: usize) -> (r: u16)
    requires
        at + 2 <= b@.len(),
    ensures
        r == le16(b@, at as int),
{
    b[at] as u16 + 0x100 * b[at + 1] as u16
}

/// Reads a 32-bit integer.
pub fn read32(b: &[u8], at: usize) -> (r: u32)
    requires
        at + 4 <= b@.len(),
    ensures
        r == le32(b@, at as int),
{
    b[at] as u32 + 0x100 * b[at + 1] as u32 + 0x1_0000 * b[at + 2] as u32 + 0x100_0000 * b[at + 3] as u32
}

/// Reads a 64-bit integer.
pub fn read64(b: &[u8], at: usize) -> (r: u64)
    requires
        at + 8 <= b@.len(),
    ensures
        r == le64(b@, at as int),
{
    assert(b@.len() == b.len());
    read32(b, at) as u64 + 0x1_0000_0000 * read32(b, at + 4) as u64
}

/// The number that eight bits stand for in two's complement.
pub fn as_signed8(b: u8) -> (r: i32)
    ensures
        r == signed8(b),
{
    if b < 0x80 {
        b as i32
    } else {
        b as i32 - 0x100
    }
}

/// The number that sixteen bits stand for in two's complement.
pub fn as_signed16(b: u16) -> (r: i64)
    ensures
        r == signed16(b),
{
    if b < 0x8000 {
        b as i64
    } else {
        b as i64 - 0x1_0000
    }
}

/// The number that thirty-two bits stand for in two's complement.
pub fn as_signed32(b: u32) -> (r: i64)
    ensures
        r == signed32(b),
{
    if b < 0x8000_0000 {
        b as i64
    } else {
        b as i64 - 0x1_0000_0000
    }
}

/// The number that sixty-four bits stand for in two's complement.
pub fn as_signed64(b: u64) -> (r: i64)
    ensures
        r == signed64(b),
{
    if b < 0x8000_0000_0000_0000 {
        b as i64
    } else {
        -((u64::MAX - b) as i64) - 1
    }
}

/// Writes words as bytes, each least significant first.
pub fn to_bytes(words: &[u32]) -> (r: Vec<u8>)
    ensures
        r@ == words_bytes(words@),
{
    let mut out: Vec<u8> = Vec::new();
    let mut i: usize = 0;
    while i < words.len()
        invariant
            i <= words@.len(),
            out@ == words_bytes(words@.take(i as int)),
        decreases words@.len() - i,
    {
        let w = words[i];
        out.push((w % 0x100) as u8);
        out.push((w / 0x100 % 0x100) as u8);
        out.push((w / 0x1_0000 % 0x100) as u8);
        out.push((w / 0x100_0000) as u8);
        i = i + 1;
        proof {
            assert(out@ =~= words_bytes(words@.take(i as int)));
        }
    }
    proof {
        assert(words@.take(i as int) =~= words@);
    }
    out
}

} // verus!
