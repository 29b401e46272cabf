//! The single-precision (binary32) number format, read off bit patterns.
//!
//! A single-precision number is carried as its 32-bit pattern: one sign bit, eight
//! exponent bits and twenty-three fraction bits. Every finite number is a whole
//! multiple of `2^-149`, the smallest positive one, so magnitudes are measured here
//! in that unit and are natural numbers. Infinity is given the magnitude that the
//! next exponent would have (`2^128`, that is `2^277` units); this is exactly the
//! value at which rounding to nearest overflows.
use vstd::arithmetic::power2::{lemma2_to64, lemma_pow2_adds, lemma_pow2_pos, pow2};
use vstd::prelude::*;

verus! {

/// The bit pattern of positive infinity; every larger magnitude pattern is a NaN.
pub const INFINITY: u32 = 0x7f80_0000;

/// The quiet NaN that every operation here returns when its result is not a number.
pub const QUIET_NAN: u32 = 0x7fc0_0000;

/// The sign bit.
pub const SIGN: u32 = 0x8000_0000;

/// The pattern without its sign bit. On magnitudes the order of the patterns is
/// the order of the numbers.
pub open spec fn magnitude_bits(b: u32) -> nat {
    (b % 0x8000_0000) as nat
}

/// Whether the sign bit is set.
pub open spec fn is_negative(b: u32) -> bool {
    b >= 0x8000_0000
}

/// Whether the pattern encodes a NaN.
pub open spec fn is_nan(b: u32) -> bool {
    magnitude_bits(b) > 0x7f80_0000
}

/// Whether the pattern encodes positive or negative infinity.
pub open spec fn is_infinite(b: u32) -> bool {
    magnitude_bits(b) == 0x7f80_0000
}

/// Whether the pattern encodes a finite number (zero, subnormal or normal).
pub open spec fn is_finite(b: u32) -> bool {
    magnitude_bits(b) < 0x7f80_0000
}

/// The exponent of the unit in the last place of magnitude pattern `m`, counted
/// from `2^-149`: subnormals and the first normal binade have 0.
pub open spec fn ulp_exponent(m: nat) -> nat {
    if m < 0x0100_0000 {
        0
    } else {
        (m / 0x0080_0000 - 1) as nat
    }
}

/// The significand of magnitude pattern `m` as a whole number: the fraction bits,
/// with the implicit leading bit added for a normal number.
pub open spec fn significand(m: nat) -> nat {
    if m < 0x0080_0000 {
        m
    } else {
        0x0080_0000 + m % 0x0080_0000
    }
}

/// The magnitude that pattern `m` encodes, in units of `2^-149`.
pub open spec fn magnitude(m: nat) -> nat {
    significand(m) * pow2(ulp_exponent(m))
}

/// The number that a non-NaN pattern encodes, in units of `2^-149`. Both zeros
/// have the value 0; the infinities have the values `2^277` and `-2^277`.
pub open spec fn value(b: u32) -> int {
    if is_negative(b) {
        -(magnitude(magnitude_bits(b)) as int)
    } else {
        magnitude(magnitude_bits(b)) as int
    }
}

/// The pattern with the given sign and magnitude pattern.
pub open spec fn with_sign(negative: bool, m: nat) -> u32 {
    if negative {
        (m + 0x8000_0000) as u32
    } else {
        m as u32
    }
}

/// The significand and the exponent of the last place of a magnitude pattern.
pub fn parts(m: u32) -> (r: (u32, u32))
    requires
        m <= 0x7f80_0000,
    ensures
        r.0 == significand(m as nat),
        r.1 == ulp_exponent(m as nat),
        r.0 < 0x0100_0000,
        r.1 <= 254,
        r.1 == 0 || r.0 >= 0x0080_0000,
        m == r.1 * 0x0080_0000 + r.0,
{
    if m < 0x0080_0000 {
        (m, 0)
    } else {
        (0x0080_0000 + m % 0x0080_0000, m / 0x0080_0000 - 1)
    }
}

/// A pattern built from an exponent of the last place `e` and a significand `q`
/// that is normalised for it encodes `q * 2^e` units. A significand of `2^24`
/// is accepted: it is the first number of the next binade.
pub proof fn lemma_magnitude_of_parts(e: nat, q: nat)
    requires
        q <= 0x0100_0000,
        e == 0 || q >= 0x0080_0000,
    ensures
        magnitude(e * 0x0080_0000 + q) == q * pow2(e),
{
    let m = e * 0x0080_0000 + q;
    lemma2_to64();
    if q == 0x0100_0000 {
        assert(m == (e + 2) * 0x0080_0000);
        assert(m / 0x0080_0000 == e + 2);
        assert(m % 0x0080_0000 == 0);
        assert(ulp_exponent(m) == e + 1);
        assert(significand(m) == 0x0080_0000);
        lemma_pow2_adds(e, 1);
        assert(pow2(e + 1) == pow2(e) * 2);
        assert(0x0080_0000 * (pow2(e) * 2) == 0x0100_0000 * pow2(e)) by (nonlinear_arith);
    } else if q >= 0x0080_0000 {
        assert(m == (e + 1) * 0x0080_0000 + (q - 0x0080_0000));
        assert(m / 0x0080_0000 == e + 1);
        assert(m % 0x0080_0000 == q - 0x0080_0000);
        assert(ulp_exponent(m) == e);
        assert(significand(m) == q);
    } else {
        assert(m == q);
        assert(pow2(0) == 1);
    }
}

/// Every magnitude pattern up to infinity is built from its own parts.
pub proof fn lemma_parts_of_magnitude(m: nat)
    requires
        m <= 0x7f80_0000,
    ensures
        m == ulp_exponent(m) * 0x0080_0000 + significand(m),
        significand(m) < 0x0100_0000,
        ulp_exponent(m) == 0 || significand(m) >= 0x0080_0000,
        ulp_exponent(m) <= 254,
        magnitude(m) == significand(m) * pow2(ulp_exponent(m)),
{
}

/// The next pattern encodes a strictly larger magnitude.
pub proof fn lemma_magnitude_step(m: nat)
    requires
        m < 0x7f80_0000,
    ensures
        magnitude(m) < magnitude(m + 1),
{
    let e = ulp_exponent(m);
    let q = significand(m);
    lemma_parts_of_magnitude(m);
    lemma_magnitude_of_parts(e, q + 1);
    lemma_pow2_pos(e);
    assert(q * pow2(e) < (q + 1) * pow2(e)) by (nonlinear_arith)
        requires
            pow2(e) > 0,
    ;
}

/// The magnitude grows strictly with the pattern.
pub proof fn lemma_magnitude_increases(m1: nat, m2: nat)
    requires
        m1 < m2 <= 0x7f80_0000,
    ensures
        magnitude(m1) < magnitude(m2),
    decreases m2 - m1,
{
    lemma_magnitude_step((m2 - 1) as nat);
    if m1 + 1 < m2 {
        lemma_magnitude_increases(m1, (m2 - 1) as nat);
    }
}

/// Only the zero pattern has magnitude zero.
pub proof fn lemma_magnitude_positive(m: nat)
    requires
        m <= 0x7f80_0000,
    ensures
        magnitude(0) == 0,
        m > 0 ==> magnitude(m) > 0,
{
    lemma_magnitude_of_parts(0, 0);
    if m > 0 {
        lemma_magnitude_increases(0, m);
    }
}

/// A larger pattern has the larger magnitude.
pub proof fn lemma_magnitude_order(m: nat, bound: nat)
    requires
        m <= bound <= 0x7f80_0000,
    ensures
        magnitude(m) <= magnitude(bound),
{
    if m < bound {
        lemma_magnitude_increases(m, bound);
    }
}

/// A larger magnitude has the larger pattern.
pub proof fn lemma_pattern_order(m: nat, bound: nat)
    requires
        m <= 0x7f80_0000,
        bound <= 0x7f80_0000,
        magnitude(m) <= magnitude(bound),
    ensures
        m <= bound,
{
    if bound < m {
        lemma_magnitude_increases(bound, m);
    }
}

/// A rounded magnitude keeps its pattern when a sign is put on it.
pub proof fn lemma_with_sign(negative: bool, m: nat)
    requires
        m <= 0x7f80_0000,
    ensures
        magnitude_bits(with_sign(negative, m)) == m,
        is_negative(with_sign(negative, m)) == negative,
        !is_nan(with_sign(negative, m)),
{
}

} // verus!
