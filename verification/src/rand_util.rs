//! Random value shaping: integers in staircased buckets, biased small
//! lengths, and random text, all bounded by the engine's size caps.

use vstd::prelude::*;

use crate::rng::Rng;

verus! {

/// The longest array a generated argument may hold, unless the field's
/// declared range overrides it.
pub const MAX_ARRAY_LENGTH: u64 = 10;

/// The longest buffer payload or requested output length.
pub const MAX_BUFFER_LENGTH: u64 = 0x1000;

/// Whether `v` fits in `bits` bits.
pub open spec fn fits_bits(v: u64, bits: u8) -> bool {
    bits >= 64 || v < (1u64 << bits)
}

/// How many punctuation characters [`punct_byte`] can produce.
pub const PUNCT_COUNT: usize = 23;

/// The punctuation characters favoured when synthesizing random strings,
/// by index: `! @ # $ % ^ & * ( ) - + \ / : . , - ' [ ] { }`.
pub fn punct_byte(i: usize) -> u8
    requires
        i < PUNCT_COUNT,
{
    match i {
        0 => 33,  // !
        1 => 64,  // @
        2 => 35,  // #
        3 => 36,  // $
        4 => 37,  // %
        5 => 94,  // ^
        6 => 38,  // &
        7 => 42,  // *
        8 => 40,  // (
        9 => 41,  // )
        10 => 45,  // -
        11 => 43,  // +
        12 => 92,  // backslash
        13 => 47,  // /
        14 => 58,  // :
        15 => 46,  // .
        16 => 44,  // ,
        17 => 45,  // -
        18 => 39,  // '
        19 => 91,  // [
        20 => 93,  // ]
        21 => 123,  // {
        _ => 125,  // }
    }
}

/// A draw from `[0, n)` biased toward larger values: the maximum of two
/// uniform draws, so larger outcomes are linearly more likely.
pub fn biased_high(rng: &mut Rng, n: usize) -> (r: usize)
    requires
        n >= 1,
    ensures
        r < n,
{
    let a = rng.below(n);
    let b = rng.below(n);
    if a < b {
        b
    } else {
        a
    }
}

/// A random integer truncated to `bits` bits, shaped into a staircase of
/// buckets (small numbers, byte-sized, page-sized, ...), occasionally
/// negated (wrapping) or shifted left.
pub fn rand_int(rng: &mut Rng, bits: u8) -> (r: u64)
    requires
        1 <= bits <= 64,
    ensures
        fits_bits(r, bits),
{
    let mut val = rng.next();

    // Set the value into a range
    if rng.n_out_of(100, 182) {
        val = val % 10;
    } else if bits >= 8 && rng.n_out_of(50, 82) {
        // Keep the raw draw
    } else if rng.n_out_of(10, 32) {
        val = val % 256;
    } else if rng.n_out_of(10, 22) {
        val = val % 0x1000;
    } else if rng.n_out_of(10, 12) {
        val = val % 0x10000;
    } else {
        val = val % 0x8000_0000;
    }

    // Negate or shift the value
    if rng.n_out_of(100, 107) {
        // Keep it as is
    } else if rng.n_out_of(5, 7) {
        // Two's-complement negation
        val = if val == 0 {
            0
        } else {
            (u64::MAX - val) + 1
        };
    } else {
        let shift = rng.below(bits as usize);
        assert(shift < 64);
        val = val << shift;
    }

    // Truncate the value to the number of bits
    if bits >= 64 {
        val
    } else {
        assert(1u64 << bits >= 1) by (bit_vector)
            requires
                bits < 64,
        ;
        val % (1u64 << bits)
    }
}

/// A random array length, biased toward small values, bounded by
/// [`MAX_ARRAY_LENGTH`].
pub fn rand_array_length(rng: &mut Rng) -> (r: u64)
    ensures
        r <= MAX_ARRAY_LENGTH,
{
    let n = (MAX_ARRAY_LENGTH + 1) as usize;
    let drawn = (biased_high(rng, n) + 1) % n;
    drawn as u64
}

/// A random buffer length: usually small, sometimes the maximum, rarely
/// zero; always bounded by [`MAX_BUFFER_LENGTH`].
pub fn rand_buffer_length(rng: &mut Rng) -> (r: u64)
    ensures
        r <= MAX_BUFFER_LENGTH,
{
    if rng.n_out_of(50, 56) {
        rng.below(256) as u64
    } else if rng.n_out_of(5, 6) {
        MAX_BUFFER_LENGTH
    } else {
        0
    }
}

/// A random requested filename length: near the common target path length,
/// clipped to [`MAX_BUFFER_LENGTH`].
pub fn rand_filename_length(rng: &mut Rng) -> (r: u64)
    ensures
        r <= MAX_BUFFER_LENGTH,
{
    let target: u64 = 4096;
    let off = biased_high(rng, 10) as u64;
    if rng.binary() {
        if target + off > MAX_BUFFER_LENGTH {
            MAX_BUFFER_LENGTH
        } else {
            target + off
        }
    } else {
        if off > target {
            0
        } else {
            target - off
        }
    }
}

/// A random string of bytes with punctuation favoured, of geometrically
/// distributed length, bounded by [`MAX_BUFFER_LENGTH`].
pub fn rand_string(rng: &mut Rng) -> (r: Vec<u8>)
    ensures
        r@.len() <= MAX_BUFFER_LENGTH,
{
    let mut buf: Vec<u8> = Vec::new();
    loop
        invariant_except_break
            buf@.len() < MAX_BUFFER_LENGTH,
        ensures
            buf@.len() <= MAX_BUFFER_LENGTH,
        decreases MAX_BUFFER_LENGTH - buf@.len(),
    {
        if !rng.n_out_of(3, 4) {
            break;
        }
        if rng.n_out_of(10, 11) {
            let idx = rng.below(PUNCT_COUNT);
            buf.push(punct_byte(idx));
        } else {
            buf.push(rng.below(256) as u8);
        }
        if buf.len() >= MAX_BUFFER_LENGTH as usize {
            break;
        }
    }
    buf
}

} // verus!
