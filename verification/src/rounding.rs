//! Rounding to nearest, ties to even: what it is, that it exists and is unique,
//! that it keeps bounds, and how it is read off a floor and a remainder.
use crate::arith::{lemma_scale_lt, lemma_square_le, lemma_square_lt};
use crate::binary32::{
    lemma_magnitude_increases, lemma_magnitude_of_parts, lemma_magnitude_step, magnitude,
};
use vstd::arithmetic::power2::{lemma_pow2_adds, lemma_pow2_pos, pow2};
use vstd::prelude::*;

verus! {

/// Twice the midpoint between the magnitudes of the neighbouring patterns `m`
/// and `m + 1`.
pub open spec fn twice_midpoint(m: nat) -> nat {
    magnitude(m) + magnitude(m + 1)
}

/// Round to nearest, ties to even: whether magnitude pattern `m` is the rounding
/// of the exact magnitude `n / 2^s` units.
///
/// The exact value lies between the midpoints towards the two neighbours of `m`;
/// a value on a midpoint belongs to the neighbour whose pattern is even. Zero has
/// no lower neighbour. Infinity has no upper one, so every value at or above the
/// midpoint between the largest finite number and `2^128` rounds to infinity.
pub open spec fn rounds_to(n: nat, s: nat, m: nat) -> bool {
    &&& m <= 0x7f80_0000
    &&& (m == 0 || twice_midpoint((m - 1) as nat) * pow2(s) < 2 * n || (twice_midpoint(
        (m - 1) as nat,
    ) * pow2(s) == 2 * n && m % 2 == 0))
    &&& (m == 0x7f80_0000 || 2 * n < twice_midpoint(m) * pow2(s) || (2 * n == twice_midpoint(m)
        * pow2(s) && m % 2 == 0))
}

/// The magnitude pattern nearest to the exact magnitude `n / 2^s` units.
pub open spec fn round_to_nearest(n: nat, s: nat) -> nat {
    choose|m: nat| rounds_to(n, s, m)
}

/// Whether magnitude pattern `m` is the rounding, to nearest with ties to even,
/// of the square root of `n` units (`n` a whole number). Midpoints are compared
/// by their squares.
pub open spec fn root_rounds_to(n: nat, m: nat) -> bool {
    &&& m <= 0x7f80_0000
    &&& (m == 0 || twice_midpoint((m - 1) as nat) * twice_midpoint((m - 1) as nat) < 4 * n || (
    twice_midpoint((m - 1) as nat) * twice_midpoint((m - 1) as nat) == 4 * n && m % 2 == 0))
    &&& (m == 0x7f80_0000 || 4 * n < twice_midpoint(m) * twice_midpoint(m) || (4 * n
        == twice_midpoint(m) * twice_midpoint(m) && m % 2 == 0))
}

/// The magnitude pattern nearest to the square root of `n` units.
pub open spec fn round_root_to_nearest(n: nat) -> nat {
    choose|m: nat| root_rounds_to(n, m)
}

/// The midpoints grow strictly with the pattern.
pub proof fn lemma_midpoint_increases(m1: nat, m2: nat)
    requires
        m1 < m2 < 0x7f80_0000,
    ensures
        twice_midpoint(m1) < twice_midpoint(m2),
{
    lemma_magnitude_increases(m1, m2);
    lemma_magnitude_increases(m1 + 1, m2 + 1);
}

/// Climbing from a pattern whose lower midpoint the value has reached ends at a
/// pattern that the value rounds to.
proof fn lemma_climb(n: nat, s: nat, m: nat)
    requires
        m <= 0x7f80_0000,
        m == 0 || twice_midpoint((m - 1) as nat) * pow2(s) < 2 * n || (twice_midpoint(
            (m - 1) as nat,
        ) * pow2(s) == 2 * n && m % 2 == 0),
    ensures
        exists|r: nat| rounds_to(n, s, r),
    decreases 0x7f80_0000 - m,
{
    if rounds_to(n, s, m) {
    } else {
        lemma_climb(n, s, m + 1);
    }
}

/// Every exact magnitude has a rounding, and `round_to_nearest` is one.
pub proof fn lemma_round_to_nearest(n: nat, s: nat)
    ensures
        rounds_to(n, s, round_to_nearest(n, s)),
{
    lemma_climb(n, s, 0);
}

/// An exact magnitude rounds to one pattern only.
pub proof fn lemma_rounding_unique(n: nat, s: nat, m1: nat, m2: nat)
    requires
        rounds_to(n, s, m1),
        rounds_to(n, s, m2),
    ensures
        m1 == m2,
{
    if m1 < m2 {
        lemma_rounding_ordered(n, s, m1, m2);
    } else {
        lemma_rounding_ordered(n, s, m2, m1);
    }
}

proof fn lemma_rounding_ordered(n: nat, s: nat, m1: nat, m2: nat)
    requires
        rounds_to(n, s, m1),
        rounds_to(n, s, m2),
        m1 <= m2,
    ensures
        m1 == m2,
{
    lemma_pow2_pos(s);
    if m1 < m2 {
        let below = (m2 - 1) as nat;
        if m1 < below {
            lemma_midpoint_increases(m1, below);
            lemma_scale_lt(
                twice_midpoint(m1),
                twice_midpoint(below),
                pow2(s),
            );
        }
    }
}

/// A pattern that the value rounds to is the value of `round_to_nearest`.
pub proof fn lemma_rounds_to_nearest(n: nat, s: nat, m: nat)
    requires
        rounds_to(n, s, m),
    ensures
        round_to_nearest(n, s) == m,
{
    lemma_rounding_unique(n, s, m, round_to_nearest(n, s));
}

/// Rounding keeps an upper bound that is itself a number of the format.
pub proof fn lemma_round_at_most(n: nat, s: nat, bound: nat)
    requires
        bound <= 0x7f80_0000,
        n <= magnitude(bound) * pow2(s),
    ensures
        round_to_nearest(n, s) <= bound,
{
    let r = round_to_nearest(n, s);
    lemma_round_to_nearest(n, s);
    lemma_pow2_pos(s);
    if r > bound {
        let below = (r - 1) as nat;
        lemma_magnitude_step(below);
        if bound < below {
            lemma_magnitude_increases(bound, below);
        }
        lemma_scale_lt(2 * magnitude(bound), twice_midpoint(below), pow2(s));
        assert(2 * magnitude(bound) * pow2(s) == 2 * (magnitude(bound) * pow2(s)))
            by (nonlinear_arith);
    }
}

/// Reading a rounding off a floor: `q` is the whole part of the exact value
/// `n / 2^s` in units of the last place `2^e`, normalised for `e`, and `up` says
/// whether the remainder is above half a unit, or on it with `q` odd.
pub proof fn lemma_rounding_of_parts(n: nat, s: nat, e: nat, q: nat, up: bool)
    requires
        q < 0x0100_0000,
        e == 0 || q >= 0x0080_0000,
        q * pow2(e + s) <= n < (q + 1) * pow2(e + s),
        up ==> (2 * q + 1) * pow2(e + s) < 2 * n || ((2 * q + 1) * pow2(e + s) == 2 * n && q % 2
            == 1),
        !up ==> 2 * n < (2 * q + 1) * pow2(e + s) || ((2 * q + 1) * pow2(e + s) == 2 * n && q % 2
            == 0),
        e * 0x0080_0000 + q + (if up { 1nat } else { 0nat }) <= 0x7f80_0000,
    ensures
        rounds_to(n, s, e * 0x0080_0000 + q + (if up { 1nat } else { 0nat })),
{
    let unit = pow2(e + s);
    let floor = e * 0x0080_0000 + q;
    lemma_pow2_pos(s);
    lemma_pow2_pos(e);
    lemma_pow2_adds(e, s);
    lemma_magnitude_of_parts(e, q);
    lemma_magnitude_of_parts(e, q + 1);
    assert(magnitude(floor) * pow2(s) == q * unit) by (nonlinear_arith)
        requires
            magnitude(floor) == q * pow2(e),
            unit == pow2(e) * pow2(s),
    ;
    assert(magnitude(floor + 1) * pow2(s) == (q + 1) * unit) by (nonlinear_arith)
        requires
            magnitude(floor + 1) == (q + 1) * pow2(e),
            unit == pow2(e) * pow2(s),
    ;
    assert(twice_midpoint(floor) * pow2(s) == (2 * q + 1) * unit) by (nonlinear_arith)
        requires
            twice_midpoint(floor) == magnitude(floor) + magnitude(floor + 1),
            magnitude(floor) * pow2(s) == q * unit,
            magnitude(floor + 1) * pow2(s) == (q + 1) * unit,
    ;
    if up {
        let m = floor + 1;
        if m < 0x7f80_0000 {
            lemma_magnitude_step(m);
            lemma_scale_lt(2 * magnitude(m), twice_midpoint(m), pow2(s));
            assert(2 * magnitude(m) * pow2(s) == 2 * (magnitude(m) * pow2(s)))
                by (nonlinear_arith);
        }
    } else {
        let m = floor;
        if m > 0 {
            let below = (m - 1) as nat;
            lemma_magnitude_step(below);
            lemma_scale_lt(twice_midpoint(below), 2 * magnitude(m), pow2(s));
            assert(2 * magnitude(m) * pow2(s) == 2 * (magnitude(m) * pow2(s)))
                by (nonlinear_arith);
        }
    }
}

/// Every value at or above `2^128` rounds to infinity.
pub proof fn lemma_rounding_overflows(n: nat, s: nat)
    requires
        n >= magnitude(0x7f80_0000) * pow2(s),
    ensures
        rounds_to(n, s, 0x7f80_0000),
{
    lemma_pow2_pos(s);
    lemma_magnitude_step(0x7f7f_ffff);
    lemma_scale_lt(
        twice_midpoint(0x7f7f_ffff),
        2 * magnitude(0x7f80_0000),
        pow2(s),
    );
    assert(2 * magnitude(0x7f80_0000) * pow2(s) == 2 * (magnitude(0x7f80_0000) * pow2(s)))
        by (nonlinear_arith);
}

/// Climbing from a pattern whose lower midpoint the root has reached ends at a
/// pattern that the root rounds to.
proof fn lemma_root_climb(n: nat, m: nat)
    requires
        m <= 0x7f80_0000,
        m == 0 || twice_midpoint((m - 1) as nat) * twice_midpoint((m - 1) as nat) < 4 * n || (
        twice_midpoint((m - 1) as nat) * twice_midpoint((m - 1) as nat) == 4 * n && m % 2 == 0),
    ensures
        exists|r: nat| root_rounds_to(n, r),
    decreases 0x7f80_0000 - m,
{
    if root_rounds_to(n, m) {
    } else {
        lemma_root_climb(n, m + 1);
    }
}

/// Every square root has a rounding, and `round_root_to_nearest` is one.
pub proof fn lemma_round_root_to_nearest(n: nat)
    ensures
        root_rounds_to(n, round_root_to_nearest(n)),
{
    lemma_root_climb(n, 0);
}

/// A square root rounds to one pattern only.
pub proof fn lemma_root_rounding_unique(n: nat, m1: nat, m2: nat)
    requires
        root_rounds_to(n, m1),
        root_rounds_to(n, m2),
    ensures
        m1 == m2,
{
    if m1 < m2 {
        lemma_root_rounding_ordered(n, m1, m2);
    } else {
        lemma_root_rounding_ordered(n, m2, m1);
    }
}

proof fn lemma_root_rounding_ordered(n: nat, m1: nat, m2: nat)
    requires
        root_rounds_to(n, m1),
        root_rounds_to(n, m2),
        m1 <= m2,
    ensures
        m1 == m2,
{
    if m1 < m2 {
        let below = (m2 - 1) as nat;
        if m1 < below {
            lemma_midpoint_increases(m1, below);
            lemma_square_lt(twice_midpoint(m1), twice_midpoint(below));
        }
    }
}

/// A pattern that the root rounds to is the value of `round_root_to_nearest`.
pub proof fn lemma_root_rounds_to_nearest(n: nat, m: nat)
    requires
        root_rounds_to(n, m),
    ensures
        round_root_to_nearest(n) == m,
{
    lemma_round_root_to_nearest(n);
    lemma_root_rounding_unique(n, m, round_root_to_nearest(n));
}

/// A root that lies below the midpoint above `bound` rounds to `bound` at most.
pub proof fn lemma_round_root_at_most(n: nat, bound: nat)
    requires
        bound < 0x7f80_0000,
        4 * n < twice_midpoint(bound) * twice_midpoint(bound),
    ensures
        round_root_to_nearest(n) <= bound,
{
    let r = round_root_to_nearest(n);
    lemma_round_root_to_nearest(n);
    if r > bound {
        let below = (r - 1) as nat;
        if bound < below {
            lemma_midpoint_increases(bound, below);
        }
        lemma_square_le(twice_midpoint(bound), twice_midpoint(below));
    }
}

/// Reading the rounding of a square root off its floor: `q` is the whole part
/// of the root of `n` in units of the last place `2^e`, normalised for `e`, and
/// `up` says whether the root is above the midpoint to the next number, or on
/// it with `q` odd.
pub proof fn lemma_root_rounding_of_parts(n: nat, e: nat, q: nat, up: bool)
    requires
        q < 0x0100_0000,
        e == 0 || q >= 0x0080_0000,
        (q * pow2(e)) * (q * pow2(e)) <= n < ((q + 1) * pow2(e)) * ((q + 1) * pow2(e)),
        up ==> ((2 * q + 1) * pow2(e)) * ((2 * q + 1) * pow2(e)) < 4 * n || (((2 * q + 1) * pow2(
            e,
        )) * ((2 * q + 1) * pow2(e)) == 4 * n && q % 2 == 1),
        !up ==> 4 * n < ((2 * q + 1) * pow2(e)) * ((2 * q + 1) * pow2(e)) || (((2 * q + 1) * pow2(
            e,
        )) * ((2 * q + 1) * pow2(e)) == 4 * n && q % 2 == 0),
        e * 0x0080_0000 + q + (if up { 1nat } else { 0nat }) <= 0x7f80_0000,
    ensures
        root_rounds_to(n, e * 0x0080_0000 + q + (if up { 1nat } else { 0nat })),
{
    let floor = e * 0x0080_0000 + q;
    lemma_pow2_pos(e);
    lemma_magnitude_of_parts(e, q);
    lemma_magnitude_of_parts(e, q + 1);
    assert(twice_midpoint(floor) == (2 * q + 1) * pow2(e)) by (nonlinear_arith)
        requires
            twice_midpoint(floor) == magnitude(floor) + magnitude(floor + 1),
            magnitude(floor) == q * pow2(e),
            magnitude(floor + 1) == (q + 1) * pow2(e),
    ;
    if up {
        let m = floor + 1;
        if m < 0x7f80_0000 {
            lemma_magnitude_step(m);
            lemma_square_lt(2 * magnitude(m), twice_midpoint(m));
            assert((2 * magnitude(m)) * (2 * magnitude(m)) == 4 * (magnitude(m) * magnitude(m)))
                by (nonlinear_arith);
        }
    } else {
        let m = floor;
        if m > 0 {
            let below = (m - 1) as nat;
            lemma_magnitude_step(below);
            lemma_square_lt(twice_midpoint(below), 2 * magnitude(m));
            assert((2 * magnitude(m)) * (2 * magnitude(m)) == 4 * (magnitude(m) * magnitude(m)))
                by (nonlinear_arith);
        }
    }
}

} // verus!
