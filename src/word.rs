//! Machine words, alignment and single-byte patching.
//!
//! The tracing interface reads and writes whole machine words. Planting a
//! one-byte trap therefore reads the aligned word that holds the byte,
//! replaces that byte and writes the word back.
use vstd::prelude::*;

verus! {

/// Start of the machine word that holds `addr`.
pub open spec fn word_start(addr: usize) -> usize {
    (addr - addr % 8) as usize
}

/// Position of `addr` inside its machine word, counted in bytes from the
/// least significant end (little-endian).
pub open spec fn word_offset(addr: usize) -> u64 {
    (addr % 8) as u64
}

/// The byte at position `offset` of `word`.
pub open spec fn byte_of(word: u64, offset: u64) -> u8 {
    ((word >> (8 * offset)) & 0xff) as u8
}

/// `word` with the byte at position `offset` replaced by `val`.
pub open spec fn with_byte(word: u64, offset: u64, val: u8) -> u64 {
    (word & !(0xffu64 << (8 * offset))) | ((val as u64) << (8 * offset))
}

/// Rounds `addr` down to the start of its machine word.
pub fn align_addr_to_word(addr: usize) -> (r: usize)
    ensures
        r == word_start(addr),
        r % 8 == 0,
        r <= addr < r + 8,
{
    let r = addr & !7usize;
    assert(r == addr - addr % 8 && r % 8 == 0 && r <= addr && addr - r < 8) by (bit_vector)
        requires
            r == addr & !7usize,
    ;
    r
}

/// Replaces the byte at position `offset` of `word` by `val`. Returns the new
/// word and the byte that was there before.
pub fn patch_word(word: u64, offset: u64, val: u8) -> (r: (u64, u8))
    requires
        offset < 8,
    ensures
        r.0 == with_byte(word, offset, val),
        r.1 == byte_of(word, offset),
{
    let shift: u64 = 8 * offset;
    let orig = (word >> shift) & 0xff;
    let masked = word & !(0xffu64 << shift);
    let updated = masked | ((val as u64) << shift);
    assert(orig < 256) by (bit_vector)
        requires
            orig == (word >> shift) & 0xff,
    ;
    (updated, orig as u8)
}

/// Reading back a byte just written yields the written value.
pub proof fn lemma_with_byte_reads_back(word: u64, offset: u64, val: u8)
    requires
        offset < 8,
    ensures
        byte_of(with_byte(word, offset, val), offset) == val,
{
    let v = val as u64;
    assert((((word & !(0xffu64 << (8 * offset))) | (v << (8 * offset))) >> (8 * offset)) & 0xff
        == v) by (bit_vector)
        requires
            offset < 8,
            v < 256,
    ;
}

/// Writing one byte leaves every other byte of the word as it was.
pub proof fn lemma_with_byte_keeps_others(word: u64, offset: u64, other: u64, val: u8)
    requires
        offset < 8,
        other < 8,
        other != offset,
    ensures
        byte_of(with_byte(word, offset, val), other) == byte_of(word, other),
{
    let v = val as u64;
    assert((((word & !(0xffu64 << (8 * offset))) | (v << (8 * offset))) >> (8 * other)) & 0xff
        == (word >> (8 * other)) & 0xff) by (bit_vector)
        requires
            offset < 8,
            other < 8,
            other != offset,
            v < 256,
    ;
}

/// Planting a byte and then writing back the byte that it displaced restores
/// the word to its exact former bit pattern.
pub proof fn lemma_patch_round_trip(word: u64, offset: u64, val: u8)
    requires
        offset < 8,
    ensures
        with_byte(with_byte(word, offset, val), offset, byte_of(word, offset)) == word,
{
    let v = val as u64;
    let o = ((word >> (8 * offset)) & 0xff) as u8;
    assert(o as u64 == (word >> (8 * offset)) & 0xff) by (bit_vector)
        requires
            o == ((word >> (8 * offset)) & 0xff) as u8,
    ;
    let ou = o as u64;
    assert((((((word & !(0xffu64 << (8 * offset))) | (v << (8 * offset))) & !(0xffu64 << (8
        * offset))) | (ou << (8 * offset)))) == word) by (bit_vector)
        requires
            offset < 8,
            v < 256,
            ou == (word >> (8 * offset)) & 0xff,
    ;
}

} // verus!
