//! What holds of every minimum-image distance: its sign, its symmetry, and its
//! bound inside the box.
use crate::arith::lemma_square_le;
use crate::binary32::{
    is_finite, is_infinite, is_nan, is_negative, lemma_magnitude_of_parts, lemma_magnitude_order,
    lemma_magnitude_positive, lemma_pattern_order, lemma_with_sign, magnitude, magnitude_bits,
    value,
};
use crate::min_image::{
    spec_displacement, spec_distance, spec_wrapped, BOX_LENGTH, HALF_BOX_LENGTH,
    MINUS_HALF_BOX_LENGTH,
};
use crate::ops::{
    spec_difference, spec_greater_than, spec_less_than, spec_negated, spec_product,
    spec_square_root, spec_sum,
};
use crate::ops_laws::{
    are_opposite, lemma_difference_reversed, lemma_negated, lemma_root_of_unsigned,
    lemma_square_bounded, lemma_square_is_unsigned, lemma_square_of_opposites, lemma_sum_bounded,
    lemma_sum_is_nan, lemma_sum_of_opposites, lemma_sum_of_unsigned,
};
use crate::rounding::{
    lemma_round_at_most, lemma_round_root_at_most, lemma_round_to_nearest, round_to_nearest,
    twice_midpoint,
};
use vstd::arithmetic::power2::{lemma2_to64, lemma_pow2_adds, lemma_pow2_pos, pow2};
use vstd::prelude::*;

verus! {

/// The largest entry that particles inside the box can have: the root of 0.75,
/// half the diagonal of the box, rounded to single precision.
pub const HALF_DIAGONAL: u32 = 0x3f5d_b3d7;

/// Whether two coordinates have a difference that is a number: neither is a
/// NaN, and they are not the same infinity.
pub open spec fn has_difference(a: u32, b: u32) -> bool {
    &&& !is_nan(a)
    &&& !is_nan(b)
    &&& !(is_infinite(a) && is_infinite(b) && is_negative(a) == is_negative(b))
}

/// Whether two positions have a distance that is a number: their coordinates
/// have a difference on each axis.
pub open spec fn has_distance(p: [u32; 3], q: [u32; 3]) -> bool {
    has_difference(p[0], q[0]) && has_difference(p[1], q[1]) && has_difference(p[2], q[2])
}

/// Whether a coordinate lies in the box: a number that is at least 0 and
/// below the box length.
pub open spec fn is_box_coordinate(c: u32) -> bool {
    !is_nan(c) && 0 <= value(c) < value(BOX_LENGTH)
}

/// Whether the three coordinates lie in the box.
pub open spec fn is_in_box(p: [u32; 3]) -> bool {
    is_box_coordinate(p[0]) && is_box_coordinate(p[1]) && is_box_coordinate(p[2])
}

/// The corrected displacement is a NaN exactly if the two coordinates have no
/// difference.
proof fn lemma_displacement_is_nan(a: u32, b: u32)
    ensures
        is_nan(spec_displacement(a, b)) <==> !has_difference(a, b),
{
    lemma_negated(b);
    lemma_negated(BOX_LENGTH);
    lemma_sum_is_nan(a, spec_negated(b));
    let raw = spec_difference(a, b);
    lemma_sum_is_nan(raw, spec_negated(BOX_LENGTH));
    let lowered = if spec_greater_than(raw, HALF_BOX_LENGTH) {
        spec_difference(raw, BOX_LENGTH)
    } else {
        raw
    };
    lemma_sum_is_nan(lowered, BOX_LENGTH);
}

/// A distance never has its sign bit set, and it is a NaN exactly if the two
/// positions have no distance.
pub proof fn lemma_distance_not_negative(p: [u32; 3], q: [u32; 3])
    ensures
        !is_negative(spec_distance(p, q)),
        is_nan(spec_distance(p, q)) <==> !has_distance(p, q),
{
    let dx = spec_displacement(p[0], q[0]);
    let dy = spec_displacement(p[1], q[1]);
    let dz = spec_displacement(p[2], q[2]);
    lemma_displacement_is_nan(p[0], q[0]);
    lemma_displacement_is_nan(p[1], q[1]);
    lemma_displacement_is_nan(p[2], q[2]);
    lemma_square_is_unsigned(dx);
    lemma_square_is_unsigned(dy);
    lemma_square_is_unsigned(dz);
    lemma_sum_of_unsigned(spec_product(dx, dx), spec_product(dy, dy));
    let partial = spec_sum(spec_product(dx, dx), spec_product(dy, dy));
    lemma_sum_of_unsigned(partial, spec_product(dz, dz));
    lemma_root_of_unsigned(spec_sum(partial, spec_product(dz, dz)));
}

/// The magnitudes of the numbers that bound the steps of a distance inside the
/// box: 1, 0.5, 0.25 and 0.75, and the midpoint above the half diagonal.
proof fn lemma_box_magnitudes()
    ensures
        magnitude(0x3f80_0000) == 4 * pow2(147),
        magnitude(0x3f00_0000) == 2 * pow2(147),
        magnitude(0x3e80_0000) == pow2(147),
        magnitude(0x3f40_0000) == 3 * pow2(147),
        twice_midpoint(0x3f5d_b3d7) == 29058991 * pow2(125),
        pow2(147) == 0x0040_0000 * pow2(125),
        pow2(149) == 0x0100_0000 * pow2(125),
        pow2(147) > 0,
{
    lemma2_to64();
    lemma_pow2_pos(125);
    lemma_pow2_adds(125, 1);
    lemma_pow2_adds(124, 1);
    lemma_pow2_adds(124, 23);
    lemma_pow2_adds(125, 22);
    lemma_pow2_adds(125, 24);
    lemma_magnitude_of_parts(126, 0x0080_0000);
    lemma_magnitude_of_parts(125, 0x0080_0000);
    lemma_magnitude_of_parts(124, 0x0080_0000);
    lemma_magnitude_of_parts(125, 0x00c0_0000);
    lemma_magnitude_of_parts(125, 0x00dd_b3d7);
    lemma_magnitude_of_parts(125, 0x00dd_b3d8);
    assert(126 * 0x0080_0000 + 0x0080_0000 == 0x3f80_0000);
    assert(125 * 0x0080_0000 + 0x0080_0000 == 0x3f00_0000);
    assert(124 * 0x0080_0000 + 0x0080_0000 == 0x3e80_0000);
    assert(125 * 0x0080_0000 + 0x00c0_0000 == 0x3f40_0000);
    assert(125 * 0x0080_0000 + 0x00dd_b3d7 == 0x3f5d_b3d7);
    assert(125 * 0x0080_0000 + 0x00dd_b3d8 == 0x3f5d_b3d8);
}

/// The difference of two coordinates in the box is a number of magnitude at
/// most 1.
proof fn lemma_raw_displacement_bounded(a: u32, b: u32)
    requires
        is_box_coordinate(a),
        is_box_coordinate(b),
    ensures
        !is_nan(spec_difference(a, b)),
        magnitude_bits(spec_difference(a, b)) <= 0x3f80_0000,
{
    lemma_negated(b);
    lemma_pattern_order(magnitude_bits(a), 0x3f80_0000);
    lemma_pattern_order(magnitude_bits(b), 0x3f80_0000);
    lemma_sum_bounded(a, spec_negated(b), 0x3f80_0000);
}

/// The correction brings a displacement of magnitude at most 1 to a magnitude
/// of at most 0.5.
proof fn lemma_wrapped_bounded(d: u32)
    requires
        !is_nan(d),
        magnitude_bits(d) <= 0x3f80_0000,
    ensures
        !is_nan(spec_wrapped(d)),
        magnitude_bits(spec_wrapped(d)) <= 0x3f00_0000,
{
    lemma_box_magnitudes();
    lemma_magnitude_order(magnitude_bits(d), 0x3f80_0000);
    lemma_negated(BOX_LENGTH);
    if spec_greater_than(d, HALF_BOX_LENGTH) {
        lemma_sum_bounded(d, spec_negated(BOX_LENGTH), 0x3f00_0000);
        let lowered = spec_difference(d, BOX_LENGTH);
        lemma_magnitude_order(magnitude_bits(lowered), 0x3f00_0000);
        assert(!spec_less_than(lowered, MINUS_HALF_BOX_LENGTH));
    } else if spec_less_than(d, MINUS_HALF_BOX_LENGTH) {
        lemma_sum_bounded(d, BOX_LENGTH, 0x3f00_0000);
    } else {
        lemma_pattern_order(magnitude_bits(d), 0x3f00_0000);
    }
}

/// The square of a displacement of magnitude at most 0.5 is at most 0.25.
proof fn lemma_squared_displacement_bounded(d: u32)
    requires
        !is_nan(d),
        magnitude_bits(d) <= 0x3f00_0000,
    ensures
        spec_product(d, d) <= 0x3e80_0000,
{
    lemma_box_magnitudes();
    lemma_pow2_adds(147, 149);
    lemma_pow2_adds(148, 148);
    lemma_pow2_adds(147, 1);
    lemma2_to64();
    let m = magnitude(magnitude_bits(d));
    lemma_magnitude_order(magnitude_bits(d), 0x3f00_0000);
    lemma_square_le(m, pow2(148));
    lemma_square_bounded(d, 0x3e80_0000);
}

/// The corrected displacement between two coordinates in the box is a number
/// of magnitude at most 0.5.
proof fn lemma_displacement_bounded(a: u32, b: u32)
    requires
        is_box_coordinate(a),
        is_box_coordinate(b),
    ensures
        !is_nan(spec_displacement(a, b)),
        magnitude_bits(spec_displacement(a, b)) <= 0x3f00_0000,
{
    lemma_raw_displacement_bounded(a, b);
    lemma_wrapped_bounded(spec_difference(a, b));
}

/// The sum of three squares of at most 0.25 each is at most 0.75.
proof fn lemma_sum_of_squares_bounded(sx: u32, sy: u32, sz: u32)
    requires
        sx <= 0x3e80_0000,
        sy <= 0x3e80_0000,
        sz <= 0x3e80_0000,
    ensures
        spec_sum(spec_sum(sx, sy), sz) <= 0x3f40_0000,
{
    lemma_box_magnitudes();
    lemma_magnitude_order(sx as nat, 0x3e80_0000);
    lemma_magnitude_order(sy as nat, 0x3e80_0000);
    lemma_magnitude_order(sz as nat, 0x3e80_0000);
    lemma_sum_bounded(sx, sy, 0x3f00_0000);
    let partial = spec_sum(sx, sy);
    lemma_magnitude_positive(magnitude_bits(partial));
    assert(!is_negative(partial));
    assert(partial <= 0x3f00_0000);
    lemma_magnitude_order(partial as nat, 0x3f00_0000);
    lemma_sum_bounded(partial, sz, 0x3f40_0000);
    let total = spec_sum(partial, sz);
    lemma_magnitude_positive(magnitude_bits(total));
    assert(!is_negative(total));
}

/// The root of a number of at most 0.75 is at most half the diagonal of the box.
proof fn lemma_root_bounded(total: u32)
    requires
        total <= 0x3f40_0000,
    ensures
        spec_square_root(total) <= HALF_DIAGONAL,
{
    lemma_box_magnitudes();
    lemma_magnitude_order(total as nat, 0x3f40_0000);
    if total != 0 {
        let n = magnitude(total as nat) * pow2(149);
        let unit = pow2(125);
        let t = twice_midpoint(0x3f5d_b3d7);
        lemma_pow2_pos(125);
        assert(4 * n < t * t) by (nonlinear_arith)
            requires
                n == magnitude(total as nat) * pow2(149),
                magnitude(total as nat) <= 3 * pow2(147),
                pow2(147) == 0x0040_0000 * unit,
                pow2(149) == 0x0100_0000 * unit,
                t == 29058991 * unit,
                unit > 0,
        ;
        lemma_round_root_at_most(n, 0x3f5d_b3d7);
    }
}

/// The distance between two positions in the box is at most half the diagonal
/// of the box.
pub proof fn lemma_distance_in_box(p: [u32; 3], q: [u32; 3])
    requires
        is_in_box(p),
        is_in_box(q),
    ensures
        spec_distance(p, q) <= HALF_DIAGONAL,
{
    let dx = spec_displacement(p[0], q[0]);
    let dy = spec_displacement(p[1], q[1]);
    let dz = spec_displacement(p[2], q[2]);
    lemma_displacement_bounded(p[0], q[0]);
    lemma_displacement_bounded(p[1], q[1]);
    lemma_displacement_bounded(p[2], q[2]);
    lemma_squared_displacement_bounded(dx);
    lemma_squared_displacement_bounded(dy);
    lemma_squared_displacement_bounded(dz);
    let sx = spec_product(dx, dx);
    let sy = spec_product(dy, dy);
    let sz = spec_product(dz, dz);
    lemma_sum_of_squares_bounded(sx, sy, sz);
    lemma_root_bounded(spec_sum(spec_sum(sx, sy), sz));
}

/// A displacement above half the box, lowered by the box length, is not below
/// minus half the box: the correction never applies twice.
proof fn lemma_lowered_once(d: u32)
    requires
        spec_greater_than(d, HALF_BOX_LENGTH),
    ensures
        !spec_less_than(spec_difference(d, BOX_LENGTH), MINUS_HALF_BOX_LENGTH),
{
    lemma_box_magnitudes();
    lemma_negated(BOX_LENGTH);
    let lowered = spec_difference(d, BOX_LENGTH);
    if is_finite(d) {
        let exact = value(d) + value(spec_negated(BOX_LENGTH));
        if exact < 0 {
            let n = (-exact) as nat;
            lemma2_to64();
            lemma_round_to_nearest(n, 0);
            lemma_round_at_most(n, 0, 0x3f00_0000);
            lemma_with_sign(true, round_to_nearest(n, 0));
            lemma_magnitude_order(round_to_nearest(n, 0), 0x3f00_0000);
        } else if exact > 0 {
            lemma_round_to_nearest(exact as nat, 0);
            lemma_with_sign(false, round_to_nearest(exact as nat, 0));
        } else {
            lemma_with_sign(false, 0);
            lemma_magnitude_positive(0);
        }
    }
}

/// Opposite displacements are corrected to opposite displacements.
proof fn lemma_wrapped_of_opposites(x: u32, y: u32)
    requires
        are_opposite(x, y),
    ensures
        are_opposite(spec_wrapped(x), spec_wrapped(y)),
{
    lemma_box_magnitudes();
    lemma_negated(BOX_LENGTH);
    if !is_nan(x) {
        lemma_magnitude_positive(magnitude_bits(x));
        assert(value(y) == -value(x));
        if spec_greater_than(x, HALF_BOX_LENGTH) {
            lemma_lowered_once(x);
            lemma_sum_of_opposites(x, y, spec_negated(BOX_LENGTH), BOX_LENGTH);
        } else if spec_greater_than(y, HALF_BOX_LENGTH) {
            lemma_lowered_once(y);
            lemma_sum_of_opposites(x, y, BOX_LENGTH, spec_negated(BOX_LENGTH));
        }
    }
}

/// The distance is undirected: it does not depend on the order of the two
/// positions.
pub proof fn lemma_distance_symmetric(p: [u32; 3], q: [u32; 3])
    ensures
        spec_distance(p, q) == spec_distance(q, p),
{
    lemma_difference_reversed(p[0], q[0]);
    lemma_difference_reversed(p[1], q[1]);
    lemma_difference_reversed(p[2], q[2]);
    lemma_wrapped_of_opposites(spec_difference(p[0], q[0]), spec_difference(q[0], p[0]));
    lemma_wrapped_of_opposites(spec_difference(p[1], q[1]), spec_difference(q[1], p[1]));
    lemma_wrapped_of_opposites(spec_difference(p[2], q[2]), spec_difference(q[2], p[2]));
    lemma_square_of_opposites(spec_displacement(p[0], q[0]), spec_displacement(q[0], p[0]));
    lemma_square_of_opposites(spec_displacement(p[1], q[1]), spec_displacement(q[1], p[1]));
    lemma_square_of_opposites(spec_displacement(p[2], q[2]), spec_displacement(q[2], p[2]));
}

} // verus!
