//! Floating-point numbers as the bits that encode them.

use vstd::prelude::*;

verus! {

/// The place of a single-precision number in the total order of the standard: negative
/// numbers in reverse before the others.
pub open spec fn single_order(bits: u32) -> int {
    if bits < 0x8000_0000u32 {
        bits as int
    } else {
        0x7fff_ffff - bits
    }
}

/// The place of a double-precision number in the total order of the standard.
pub open spec fn double_order(bits: u64) -> int {
    if bits < 0x8000_0000_0000_0000u64 {
        bits as int
    } else {
        0x7fff_ffff_ffff_ffff - bits
    }
}

pub fn single_key(bits: u32) -> (result: i64)
    ensures
        result == single_order(bits),
        -0x8000_0000 <= result <= 0x7fff_ffff,
{
    if bits < 0x8000_0000u32 {
        bits as i64
    } else {
        0x7fff_ffff - bits as i64
    }
}

pub fn double_key(bits: u64) -> (result: i64)
    ensures
        result == double_order(bits),
{
    if bits < 0x8000_0000_0000_0000u64 {
        bits as i64
    } else {
        let rest: u64 = bits - 0x8000_0000_0000_0000u64;
        -1 - rest as i64
    }
}

/// A key that puts everything in the reverse order.
pub fn reversed(key: i64) -> (result: i64)
    ensures
        result == -1 - key,
{
    -1 - key
}

/// The bits encode a number between zero and one.
pub open spec fn is_fraction(bits: u32) -> bool {
    bits <= 0x3f80_0000u32 || bits == 0x8000_0000u32
}

pub fn within_fraction(bits: u32) -> (result: bool)
    ensures
        result == is_fraction(bits),
{
    bits <= 0x3f80_0000u32 || bits == 0x8000_0000u32
}

} // verus!
