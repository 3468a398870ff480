//! Byte extraction and the bit windows used throughout the key search.

use vstd::prelude::*;

verus! {

/// Keeps bits 0..16.
pub const MASK_0_16: u32 = 0x0000_ffff;

/// Keeps bits 26..32.
pub const MASK_26_32: u32 = 0xfc00_0000;

/// Keeps bits 24..32.
pub const MASK_24_32: u32 = 0xff00_0000;

/// Keeps bits 10..32.
pub const MASK_10_32: u32 = 0xffff_fc00;

/// Keeps bits 8..32.
pub const MASK_8_32: u32 = 0xffff_ff00;

/// Keeps bits 2..32.
pub const MASK_2_32: u32 = 0xffff_fffc;

/// Largest value of `a - b[24,32)` when `a = b + byte`.
pub const MAXDIFF_0_24: u32 = 0x00ff_ffff + 0xff;

/// Largest value of `a - b[26,32)` when `a = b + byte`.
pub const MAXDIFF_0_26: u32 = 0x03ff_ffff + 0xff;

/// The least significant byte of a word.
pub open spec fn lsb_spec(x: u32) -> u8 {
    (x & 0xff) as u8
}

/// The most significant byte of a word.
pub open spec fn msb_spec(x: u32) -> u8 {
    (x >> 24) as u8
}

/// The least significant byte of `x`.
#[verifier::when_used_as_spec(lsb_spec)]
pub fn lsb(x: u32) -> (r: u8)
    ensures
        r == lsb_spec(x),
{
    assert(x & 0xff < 0x100) by (bit_vector);
    (x & 0xff) as u8
}

/// The most significant byte of `x`.
#[verifier::when_used_as_spec(msb_spec)]
pub fn msb(x: u32) -> (r: u8)
    ensures
        r == msb_spec(x),
{
    assert(x >> 24 < 0x100) by (bit_vector);
    (x >> 24) as u8
}

} // verus!
