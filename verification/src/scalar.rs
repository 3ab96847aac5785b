//! Single-precision numbers as the library stores them: by their IEEE-754 bit
//! pattern. The library never computes with them; it keeps them, writes them
//! to snapshots bit for bit, and orders them.

use vstd::prelude::*;

verus! {

/// The bit that holds the sign.
pub const SIGN_BIT: u32 = 0x8000_0000;

/// The pattern of positive infinity: the largest magnitude that is a number.
pub const INFINITY_BITS: u32 = 0x7f80_0000;

/// The pattern with the sign bit cleared.
pub open spec fn magnitude(bits: u32) -> int {
    if bits >= SIGN_BIT {
        bits - SIGN_BIT
    } else {
        bits as int
    }
}

/// Whether the pattern stands for no number at all.
pub open spec fn is_nan(bits: u32) -> bool {
    magnitude(bits) > INFINITY_BITS
}

/// The place of a pattern in the order of the numbers. Two patterns that are
/// numbers have keys in the order of the numbers they stand for, and equal
/// keys exactly when the numbers compare equal, so both zeros share key 0.
/// Every pattern that is no number has the one key above positive infinity.
pub open spec fn order_key(bits: u32) -> int {
    if is_nan(bits) {
        INFINITY_BITS + 1
    } else if bits >= SIGN_BIT {
        -magnitude(bits)
    } else {
        magnitude(bits)
    }
}

/// Whether the pattern is a number that is zero or below it.
pub open spec fn at_most_zero(bits: u32) -> bool {
    !is_nan(bits) && order_key(bits) <= 0
}

/// Computes the key by which a pattern is ordered.
pub fn key_of(bits: u32) -> (key: i64)
    ensures
        key == order_key(bits),
{
    let negative: bool = bits >= SIGN_BIT;
    let mag: u32 = if negative {
        bits - SIGN_BIT
    } else {
        bits
    };
    if mag > INFINITY_BITS {
        0x7f80_0001i64
    } else if negative {
        -(mag as i64)
    } else {
        mag as i64
    }
}

/// Tests whether a pattern is a number not greater than zero.
pub fn is_at_most_zero(bits: u32) -> (b: bool)
    ensures
        b == at_most_zero(bits),
{
    let key: i64 = key_of(bits);
    key <= 0
}

} // verus!
