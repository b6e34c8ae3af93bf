//! Single-precision numbers by their bits.
//!
//! The library compares and tests numbers by their IEEE 754 bit patterns; arithmetic
//! on them is left to its callers.

use vstd::prelude::*;

verus! {

/// The sign bit.
pub const SIGN: u32 = 0x8000_0000;

/// The bits of positive infinity. Larger magnitudes are not numbers.
pub const INFINITY: u32 = 0x7f80_0000;

/// The bits without the sign.
pub open spec fn magnitude(bits: u32) -> int {
    if bits >= SIGN {
        bits - SIGN
    } else {
        bits as int
    }
}

/// Neither infinite nor not a number.
pub open spec fn is_finite(bits: u32) -> bool {
    magnitude(bits) < INFINITY
}

/// Positive or negative zero.
pub open spec fn is_zero(bits: u32) -> bool {
    magnitude(bits) == 0
}

/// A finite number above zero.
pub open spec fn is_positive(bits: u32) -> bool {
    0 < bits < INFINITY
}

/// The place of a number in the IEEE 754 total order: negative numbers by falling
/// magnitude, then positive ones by rising magnitude.
pub open spec fn order_key(bits: u32) -> int {
    if bits >= SIGN {
        -1 - magnitude(bits)
    } else {
        bits as int
    }
}

/// Report whether a number is finite.
pub fn finite(bits: u32) -> (r: bool)
    ensures
        r == is_finite(bits),
{
    if bits >= SIGN {
        bits - SIGN < INFINITY
    } else {
        bits < INFINITY
    }
}

/// Report whether a number is zero.
pub fn zero(bits: u32) -> (r: bool)
    ensures
        r == is_zero(bits),
{
    bits == 0 || bits == SIGN
}

/// Report whether a number is finite and above zero.
pub fn positive(bits: u32) -> (r: bool)
    ensures
        r == is_positive(bits),
{
    0 < bits && bits < INFINITY
}

/// Report whether `a` stands before `b` in the total order.
pub fn total_below(a: u32, b: u32) -> (r: bool)
    ensures
        r == (order_key(a) < order_key(b)),
{
    if a >= SIGN && b >= SIGN {
        a > b
    } else if a >= SIGN {
        true
    } else if b >= SIGN {
        false
    } else {
        a < b
    }
}

/// The total order tells all bit patterns apart.
pub proof fn law_order_is_total(a: u32, b: u32)
    ensures
        order_key(a) == order_key(b) <==> a == b,
{
}

/// Among finite numbers the total order is the order of the numbers: the sign decides
/// first, then the magnitude, against the sign.
pub proof fn law_order_follows_sign_and_magnitude(a: u32, b: u32)
    ensures
        a < SIGN && b < SIGN ==> (order_key(a) < order_key(b) <==> magnitude(a) < magnitude(b)),
        a >= SIGN && b >= SIGN ==> (order_key(a) < order_key(b) <==> magnitude(b) < magnitude(a)),
        a >= SIGN && b < SIGN ==> order_key(a) < order_key(b),
{
}

} // verus!
