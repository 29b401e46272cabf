//! The minimum-image distance between two particles in the periodic unit box.
use crate::ops::{
    difference, greater_than, less_than, product, spec_difference, spec_greater_than,
    spec_less_than, spec_product, spec_square_root, spec_sum, square_root, sum,
};
use vstd::prelude::*;

verus! {

/// The edge length of the box, 1.0.
pub const BOX_LENGTH: u32 = 0x3f80_0000;

/// Half the edge length of the box, 0.5.
pub const HALF_BOX_LENGTH: u32 = 0x3f00_0000;

/// Minus half the edge length of the box, -0.5.
pub const MINUS_HALF_BOX_LENGTH: u32 = 0xbf00_0000;

/// One step of the minimum-image correction on one axis: a displacement above
/// half the box has the box length taken off, and one that is then below minus
/// half the box has it added.
pub open spec fn spec_wrapped(d: u32) -> u32 {
    let lowered = if spec_greater_than(d, HALF_BOX_LENGTH) {
        spec_difference(d, BOX_LENGTH)
    } else {
        d
    };
    if spec_less_than(lowered, MINUS_HALF_BOX_LENGTH) {
        spec_sum(lowered, BOX_LENGTH)
    } else {
        lowered
    }
}

/// The corrected displacement from coordinate `b` to coordinate `a` on one axis.
pub open spec fn spec_displacement(a: u32, b: u32) -> u32 {
    spec_wrapped(spec_difference(a, b))
}

/// The minimum-image distance between the positions `p` and `q`: the root of
/// the sum of the squares of the three corrected displacements, each step
/// rounded to single precision, the squares summed from the first axis on.
pub open spec fn spec_distance(p: [u32; 3], q: [u32; 3]) -> u32 {
    let dx = spec_displacement(p[0], q[0]);
    let dy = spec_displacement(p[1], q[1]);
    let dz = spec_displacement(p[2], q[2]);
    spec_square_root(
        spec_sum(spec_sum(spec_product(dx, dx), spec_product(dy, dy)), spec_product(dz, dz)),
    )
}

/// Applies the minimum-image correction to one displacement.
pub fn wrapped(d: u32) -> (r: u32)
    ensures
        r == spec_wrapped(d),
{
    let mut r: u32 = d;
    if greater_than(r, HALF_BOX_LENGTH) {
        r = difference(r, BOX_LENGTH);
    }
    if less_than(r, MINUS_HALF_BOX_LENGTH) {
        r = sum(r, BOX_LENGTH);
    }
    r
}

/// The corrected displacement from coordinate `b` to coordinate `a`.
pub fn displacement(a: u32, b: u32) -> (r: u32)
    ensures
        r == spec_displacement(a, b),
{
    wrapped(difference(a, b))
}

/// The minimum-image distance between two positions.
pub fn distance(p: &[u32; 3], q: &[u32; 3]) -> (r: u32)
    ensures
        r == spec_distance(*p, *q),
{
    let dx: u32 = displacement(p[0], q[0]);
    let dy: u32 = displacement(p[1], q[1]);
    let dz: u32 = displacement(p[2], q[2]);
    square_root(sum(sum(product(dx, dx), product(dy, dy)), product(dz, dz)))
}

} // verus!
