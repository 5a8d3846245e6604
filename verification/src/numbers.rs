//! Bit patterns of IEEE-754 single-precision numbers, which stand for the file's
//! numbers throughout the library.
use vstd::prelude::*;

verus! {

/// The single-precision bit pattern of the whole number `n`: sign 0, exponent
/// 127 + e and mantissa (n - 2^e) * 2^(23 - e), where 2^e <= n < 2^(e + 1); all bits 0
/// for n = 0. Each branch below is that formula for one exponent e.
pub open spec fn byte_float_bits(n: u8) -> u32 {
    if n == 0 {
        0
    } else if n < 2 {
        0x3F80_0000
    } else if n < 4 {
        (0x4000_0000 + (n - 2) * 0x40_0000) as u32
    } else if n < 8 {
        (0x4080_0000 + (n - 4) * 0x20_0000) as u32
    } else if n < 16 {
        (0x4100_0000 + (n - 8) * 0x10_0000) as u32
    } else if n < 32 {
        (0x4180_0000 + (n - 16) * 0x8_0000) as u32
    } else if n < 64 {
        (0x4200_0000 + (n - 32) * 0x4_0000) as u32
    } else if n < 128 {
        (0x4280_0000 + (n - 64) * 0x2_0000) as u32
    } else {
        (0x4300_0000 + (n - 128) * 0x1_0000) as u32
    }
}

/// The single-precision bit pattern of the whole number `n` (what `n as f32` holds).
pub fn u8_float_bits(n: u8) -> (r: u32)
    ensures
        r == byte_float_bits(n),
{
    let m = n as u32;
    if n == 0 {
        0
    } else if n < 2 {
        0x3F80_0000
    } else if n < 4 {
        0x4000_0000 + (m - 2) * 0x40_0000
    } else if n < 8 {
        0x4080_0000 + (m - 4) * 0x20_0000
    } else if n < 16 {
        0x4100_0000 + (m - 8) * 0x10_0000
    } else if n < 32 {
        0x4180_0000 + (m - 16) * 0x8_0000
    } else if n < 64 {
        0x4200_0000 + (m - 32) * 0x4_0000
    } else if n < 128 {
        0x4280_0000 + (m - 64) * 0x2_0000
    } else {
        0x4300_0000 + (m - 128) * 0x1_0000
    }
}

/// The big-endian number of the four bytes `s[0..4]`.
pub open spec fn be_u32_of(s: Seq<u8>) -> u32 {
    (s[0] * 0x100_0000 + s[1] * 0x1_0000 + s[2] * 0x100 + s[3]) as u32
}

/// The `n` big-endian words of `s` that start at word `i` (byte `4 * i`).
pub open spec fn be_words(s: Seq<u8>, i: int, n: nat) -> Seq<u32> {
    Seq::new(n, |j: int| be_u32_of(s.subrange(4 * (i + j), 4 * (i + j) + 4)))
}

} // verus!
