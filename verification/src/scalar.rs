//! Single-precision numbers held by their bit patterns, and the questions on
//! them that integer arithmetic answers.
//!
//! A pattern has the sign in its highest bit, the exponent in the next eight
//! and the fraction in the lowest twenty-three.

use vstd::prelude::*;

verus! {

/// The pattern of the sign bit alone, which is also that of negative zero.
pub const SIGN: u32 = 0x8000_0000;

/// The pattern of positive infinity: every exponent bit set, no fraction bit.
pub const INFINITY: u32 = 0x7f80_0000;

/// The pattern of the number one.
pub const ONE: u32 = 0x3f80_0000;

/// The pattern without its sign.
pub open spec fn magnitude(bits: u32) -> u32 {
    if bits >= SIGN {
        (bits - SIGN) as u32
    } else {
        bits
    }
}

/// Whether the pattern is that of zero, positive or negative.
pub open spec fn is_zero(bits: u32) -> bool {
    magnitude(bits) == 0
}

/// Whether the pattern is that of no number: every exponent bit set and some
/// fraction bit.
pub open spec fn is_nan(bits: u32) -> bool {
    magnitude(bits) > INFINITY
}

/// The pattern of the number with the other sign.
pub open spec fn negated(bits: u32) -> u32 {
    if bits >= SIGN {
        (bits - SIGN) as u32
    } else {
        (bits + SIGN) as u32
    }
}

#[verifier::when_used_as_spec(is_zero)]
pub fn zero(bits: u32) -> (b: bool)
    ensures
        b == is_zero(bits),
{
    bits == 0 || bits == SIGN
}

#[verifier::when_used_as_spec(is_nan)]
pub fn nan(bits: u32) -> (b: bool)
    ensures
        b == is_nan(bits),
{
    if bits >= SIGN {
        bits - SIGN > INFINITY
    } else {
        bits > INFINITY
    }
}

#[verifier::when_used_as_spec(negated)]
pub fn negate(bits: u32) -> (r: u32)
    ensures
        r == negated(bits),
{
    if bits >= SIGN {
        bits - SIGN
    } else {
        bits + SIGN
    }
}

} // verus!
