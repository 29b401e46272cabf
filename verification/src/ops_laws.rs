//! What holds of the operations: how they treat signs, NaNs, opposite operands
//! and bounds on magnitudes.
use crate::binary32::{
    is_finite, is_infinite, is_nan, is_negative, lemma_magnitude_positive, lemma_with_sign,
    magnitude, magnitude_bits, value,
};
use crate::ops::{spec_difference, spec_negated, spec_product, spec_square_root, spec_sum};
use crate::rounding::{
    lemma_round_at_most, lemma_round_root_to_nearest, lemma_round_to_nearest, round_to_nearest,
};
use vstd::arithmetic::power2::{lemma2_to64, pow2};
use vstd::prelude::*;

verus! {

/// Negation changes the sign and nothing else.
pub proof fn lemma_negated(a: u32)
    ensures
        magnitude_bits(spec_negated(a)) == magnitude_bits(a),
        is_negative(spec_negated(a)) != is_negative(a),
        !is_nan(a) ==> value(spec_negated(a)) == -value(a),
{
}

/// The sum of two finite numbers is a number with the sign of the exact sum,
/// and its magnitude keeps a bound on the exact sum that is a number of the
/// format. An exact sum of zero gives a zero.
pub proof fn lemma_sum_bounded(a: u32, b: u32, bound: nat)
    requires
        is_finite(a),
        is_finite(b),
        bound <= 0x7f80_0000,
        -magnitude(bound) <= value(a) + value(b) <= magnitude(bound),
    ensures
        !is_nan(spec_sum(a, b)),
        magnitude_bits(spec_sum(a, b)) <= bound,
        value(a) + value(b) > 0 ==> !is_negative(spec_sum(a, b)),
        value(a) + value(b) < 0 ==> is_negative(spec_sum(a, b)),
        value(a) + value(b) == 0 ==> magnitude_bits(spec_sum(a, b)) == 0,
        value(a) + value(b) == 0 ==> is_negative(spec_sum(a, b)) == (is_negative(a)
            && is_negative(b)),
{
    let exact = value(a) + value(b);
    lemma2_to64();
    if exact == 0 {
        lemma_with_sign(is_negative(a) && is_negative(b), 0);
    } else if exact < 0 {
        let n = (-exact) as nat;
        lemma_round_to_nearest(n, 0);
        lemma_round_at_most(n, 0, bound);
        lemma_with_sign(true, round_to_nearest(n, 0));
    } else {
        let n = exact as nat;
        lemma_round_to_nearest(n, 0);
        lemma_round_at_most(n, 0, bound);
        lemma_with_sign(false, round_to_nearest(n, 0));
    }
}

/// The sum is a NaN exactly if an operand is a NaN or the operands are
/// infinities of different signs.
pub proof fn lemma_sum_is_nan(a: u32, b: u32)
    ensures
        is_nan(spec_sum(a, b)) <==> is_nan(a) || is_nan(b) || (is_infinite(a) && is_infinite(b)
            && is_negative(a) != is_negative(b)),
{
    if is_finite(a) && is_finite(b) {
        let exact = value(a) + value(b);
        if exact < 0 {
            lemma_round_to_nearest((-exact) as nat, 0);
            lemma_with_sign(true, round_to_nearest((-exact) as nat, 0));
        } else if exact > 0 {
            lemma_round_to_nearest(exact as nat, 0);
            lemma_with_sign(false, round_to_nearest(exact as nat, 0));
        } else {
            lemma_with_sign(is_negative(a) && is_negative(b), 0);
        }
    }
}

/// The sum of two patterns without a sign bit has no sign bit, and is a NaN
/// exactly if one of them is.
pub proof fn lemma_sum_of_unsigned(a: u32, b: u32)
    requires
        !is_negative(a),
        !is_negative(b),
    ensures
        !is_negative(spec_sum(a, b)),
        is_nan(spec_sum(a, b)) <==> is_nan(a) || is_nan(b),
{
    lemma_sum_is_nan(a, b);
    if is_finite(a) && is_finite(b) {
        let exact = value(a) + value(b);
        if exact > 0 {
            lemma_round_to_nearest(exact as nat, 0);
            lemma_with_sign(false, round_to_nearest(exact as nat, 0));
        } else {
            lemma_with_sign(false, 0);
        }
    }
}

/// The square of a pattern has no sign bit, and is a NaN exactly if the
/// pattern is.
pub proof fn lemma_square_is_unsigned(d: u32)
    ensures
        !is_negative(spec_product(d, d)),
        is_nan(spec_product(d, d)) <==> is_nan(d),
{
    if is_finite(d) {
        let n = magnitude(magnitude_bits(d)) * magnitude(magnitude_bits(d));
        lemma_round_to_nearest(n, 149);
        lemma_with_sign(false, round_to_nearest(n, 149));
    } else if is_infinite(d) {
        lemma_with_sign(false, 0x7f80_0000);
    }
}

/// The square of a finite number keeps a bound on the exact square that is a
/// number of the format.
pub proof fn lemma_square_bounded(d: u32, bound: nat)
    requires
        is_finite(d),
        bound <= 0x7f80_0000,
        magnitude(magnitude_bits(d)) * magnitude(magnitude_bits(d))
            <= magnitude(bound) * pow2(149),
    ensures
        !is_negative(spec_product(d, d)),
        magnitude_bits(spec_product(d, d)) <= bound,
{
    let n = magnitude(magnitude_bits(d)) * magnitude(magnitude_bits(d));
    lemma_round_to_nearest(n, 149);
    lemma_round_at_most(n, 149, bound);
    lemma_with_sign(false, round_to_nearest(n, 149));
}

/// The square root of a pattern without a sign bit has no sign bit, and is a
/// NaN exactly if the pattern is.
pub proof fn lemma_root_of_unsigned(a: u32)
    requires
        !is_negative(a),
    ensures
        !is_negative(spec_square_root(a)),
        is_nan(spec_square_root(a)) <==> is_nan(a),
{
    if is_finite(a) && magnitude_bits(a) != 0 {
        lemma_round_root_to_nearest(magnitude(magnitude_bits(a)) * pow2(149));
    }
}

/// Whether two patterns are opposite numbers: their magnitudes are equal and,
/// unless they are zeros or NaNs, their signs differ.
pub open spec fn are_opposite(x: u32, y: u32) -> bool {
    &&& magnitude_bits(x) == magnitude_bits(y)
    &&& (is_nan(x) || magnitude_bits(x) == 0 || is_negative(x) != is_negative(y))
}

/// The sum does not depend on the order of its operands.
pub proof fn lemma_sum_commutes(a: u32, b: u32)
    ensures
        spec_sum(a, b) == spec_sum(b, a),
{
    if is_infinite(a) && is_infinite(b) && is_negative(a) == is_negative(b) {
        assert(a == b);
    }
}

/// The sums of opposite operands are opposite.
pub proof fn lemma_sum_of_opposites(x: u32, y: u32, c: u32, d: u32)
    requires
        are_opposite(x, y),
        are_opposite(c, d),
    ensures
        are_opposite(spec_sum(x, c), spec_sum(y, d)),
{
    if is_finite(x) && is_finite(c) {
        let exact = value(x) + value(c);
        lemma_magnitude_positive(magnitude_bits(x));
        lemma_magnitude_positive(magnitude_bits(c));
        assert(value(y) == -value(x));
        assert(value(d) == -value(c));
        if exact == 0 {
            lemma_with_sign(is_negative(x) && is_negative(c), 0);
            lemma_with_sign(is_negative(y) && is_negative(d), 0);
        } else {
            let n = if exact < 0 {
                (-exact) as nat
            } else {
                exact as nat
            };
            lemma_round_to_nearest(n, 0);
            lemma_with_sign(true, round_to_nearest(n, 0));
            lemma_with_sign(false, round_to_nearest(n, 0));
        }
    }
}

/// The difference changes into its opposite when its operands change places.
pub proof fn lemma_difference_reversed(a: u32, b: u32)
    ensures
        are_opposite(spec_difference(a, b), spec_difference(b, a)),
{
    lemma_negated(a);
    lemma_negated(b);
    lemma_sum_of_opposites(a, spec_negated(a), spec_negated(b), b);
    lemma_sum_commutes(spec_negated(a), b);
}

/// Opposite numbers have the same square.
pub proof fn lemma_square_of_opposites(x: u32, y: u32)
    requires
        are_opposite(x, y),
    ensures
        spec_product(x, x) == spec_product(y, y),
{
}

} // verus!
