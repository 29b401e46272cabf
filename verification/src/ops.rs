//! Single-precision arithmetic on bit patterns: what each operation returns, as
//! a function of its operands, and the integer code that computes it.
//!
//! Every operation rounds the exact result to nearest, ties to even. An operation
//! with no numerical result (an operand is a NaN, infinity minus infinity, zero
//! times infinity, the root of a negative number) returns `QUIET_NAN`: which NaN
//! a processor returns there differs between processors, and nothing in this
//! library tells two NaNs apart.
use crate::arith::{
    lemma_pow2_increases, lemma_regroup, lemma_scale_le, lemma_scale_lt, lemma_square_le,
    lemma_square_of_product,
};
use crate::binary32::{
    is_infinite, is_nan, is_negative, lemma_magnitude_increases, lemma_magnitude_positive,
    lemma_parts_of_magnitude, magnitude, magnitude_bits, parts, significand, ulp_exponent, value,
    with_sign, INFINITY, QUIET_NAN, SIGN,
};
use crate::pack::{bit_length, integer_root, power_of_two, round_scaled};
use crate::rounding::{
    lemma_root_rounding_of_parts, lemma_root_rounds_to_nearest, lemma_rounding_of_parts,
    lemma_rounds_to_nearest, round_root_to_nearest, round_to_nearest,
};
use vstd::arithmetic::power2::{lemma2_to64, lemma_pow2_adds, lemma_pow2_pos, pow2};
use vstd::prelude::*;

verus! {

/// The pattern with the sign bit flipped.
pub open spec fn spec_negated(a: u32) -> u32 {
    if is_negative(a) {
        (a - 0x8000_0000) as u32
    } else {
        (a + 0x8000_0000) as u32
    }
}

/// Whether `a` is less than `b` as numbers. A NaN is neither less nor greater
/// than anything, and the two zeros are equal.
pub open spec fn spec_less_than(a: u32, b: u32) -> bool {
    !is_nan(a) && !is_nan(b) && value(a) < value(b)
}

/// Whether `a` is greater than `b` as numbers.
pub open spec fn spec_greater_than(a: u32, b: u32) -> bool {
    spec_less_than(b, a)
}

/// The sum of two numbers. An exact sum of zero is `+0`, unless both operands
/// are negative (then both are `-0`, and so is the sum).
pub open spec fn spec_sum(a: u32, b: u32) -> u32 {
    if is_nan(a) || is_nan(b) {
        QUIET_NAN
    } else if is_infinite(a) {
        if is_infinite(b) && is_negative(a) != is_negative(b) {
            QUIET_NAN
        } else {
            a
        }
    } else if is_infinite(b) {
        b
    } else {
        let exact = value(a) + value(b);
        if exact == 0 {
            with_sign(is_negative(a) && is_negative(b), 0)
        } else if exact < 0 {
            with_sign(true, round_to_nearest((-exact) as nat, 0))
        } else {
            with_sign(false, round_to_nearest(exact as nat, 0))
        }
    }
}

/// The difference of two numbers: the sum of the first and the negated second.
pub open spec fn spec_difference(a: u32, b: u32) -> u32 {
    spec_sum(a, spec_negated(b))
}

/// The product of two numbers. Its sign is negative exactly if the signs of the
/// operands differ, also where the product is zero or infinite.
pub open spec fn spec_product(a: u32, b: u32) -> u32 {
    if is_nan(a) || is_nan(b) {
        QUIET_NAN
    } else if is_infinite(a) || is_infinite(b) {
        if magnitude_bits(a) == 0 || magnitude_bits(b) == 0 {
            QUIET_NAN
        } else {
            with_sign(is_negative(a) != is_negative(b), 0x7f80_0000)
        }
    } else {
        with_sign(
            is_negative(a) != is_negative(b),
            round_to_nearest(magnitude(magnitude_bits(a)) * magnitude(magnitude_bits(b)), 149),
        )
    }
}

/// The square root of a number. The root of either zero is that zero.
pub open spec fn spec_square_root(a: u32) -> u32 {
    if is_nan(a) {
        QUIET_NAN
    } else if magnitude_bits(a) == 0 {
        a
    } else if is_negative(a) {
        QUIET_NAN
    } else if is_infinite(a) {
        a
    } else {
        round_root_to_nearest(magnitude(magnitude_bits(a)) * pow2(149)) as u32
    }
}

/// Flips the sign bit.
pub fn negated(a: u32) -> (r: u32)
    ensures
        r == spec_negated(a),
        magnitude_bits(r) == magnitude_bits(a),
        is_negative(r) != is_negative(a),
{
    if a >= SIGN {
        a - SIGN
    } else {
        a + SIGN
    }
}

/// Whether `a` is less than `b` as numbers.
pub fn less_than(a: u32, b: u32) -> (r: bool)
    ensures
        r == spec_less_than(a, b),
{
    let ma: u32 = a % SIGN;
    let mb: u32 = b % SIGN;
    if ma > INFINITY || mb > INFINITY {
        return false;
    }
    proof {
        lemma_magnitude_positive(ma as nat);
        lemma_magnitude_positive(mb as nat);
        if ma < mb {
            lemma_magnitude_increases(ma as nat, mb as nat);
        }
        if mb < ma {
            lemma_magnitude_increases(mb as nat, ma as nat);
        }
    }
    let na: bool = a >= SIGN;
    let nb: bool = b >= SIGN;
    if na {
        if nb {
            ma > mb
        } else {
            ma != 0 || mb != 0
        }
    } else {
        if nb {
            false
        } else {
            ma < mb
        }
    }
}

/// Whether `a` is greater than `b` as numbers.
pub fn greater_than(a: u32, b: u32) -> (r: bool)
    ensures
        r == spec_greater_than(a, b),
{
    less_than(b, a)
}

/// A small operand that lies at least 26 binades below the large one leaves it
/// unchanged: the exact sum or difference still rounds to the large operand.
proof fn lemma_absorbed(big: nat, small: nat, same_sign: bool)
    requires
        small <= big < 0x7f80_0000,
        ulp_exponent(big) >= ulp_exponent(small) + 26,
    ensures
        magnitude(small) <= magnitude(big),
        same_sign ==> round_to_nearest(magnitude(big) + magnitude(small), 0) == big,
        !same_sign ==> round_to_nearest((magnitude(big) - magnitude(small)) as nat, 0) == big,
{
    let eb = ulp_exponent(big);
    let qb = significand(big);
    let es = ulp_exponent(small);
    let qs = significand(small);
    let b = magnitude(big);
    let t = magnitude(small);
    let u = pow2((eb - 2) as nat);
    lemma_parts_of_magnitude(big);
    lemma_parts_of_magnitude(small);
    lemma2_to64();
    lemma_pow2_pos(es);
    lemma_pow2_pos((eb - 2) as nat);
    lemma_pow2_adds(24, es);
    lemma_pow2_increases(24 + es, (eb - 2) as nat);
    lemma_pow2_adds((eb - 2) as nat, 1);
    lemma_pow2_adds((eb - 2) as nat, 2);
    assert(pow2(eb) == 4 * u);
    assert(pow2((eb - 1) as nat) == 2 * u);
    assert(t < u) by (nonlinear_arith)
        requires
            t == qs * pow2(es),
            qs < 0x0100_0000,
            pow2(es) > 0,
            0x0100_0000 * pow2(es) <= u,
    ;
    assert(b == qb * (4 * u));
    assert(b >= 0x0080_0000 * (4 * u)) by (nonlinear_arith)
        requires
            b == qb * (4 * u),
            qb >= 0x0080_0000,
            u > 0,
    ;
    assert(pow2(eb + 0) == 4 * u);
    if same_sign || t == 0 {
        let n = b + t;
        assert((qb + 1) * (4 * u) == b + 4 * u) by (nonlinear_arith)
            requires
                b == qb * (4 * u),
        ;
        assert((2 * qb + 1) * (4 * u) == 2 * b + 4 * u) by (nonlinear_arith)
            requires
                b == qb * (4 * u),
        ;
        lemma_rounding_of_parts(n, 0, eb, qb, false);
        lemma_rounds_to_nearest(n, 0, big);
    } else if qb > 0x0080_0000 {
        let n = (b - t) as nat;
        let q = (qb - 1) as nat;
        assert(q * (4 * u) == b - 4 * u) by (nonlinear_arith)
            requires
                b == qb * (4 * u),
                q == qb - 1,
        ;
        assert((q + 1) * (4 * u) == b) by (nonlinear_arith)
            requires
                b == qb * (4 * u),
                q == qb - 1,
        ;
        assert((2 * q + 1) * (4 * u) == 2 * b - 4 * u) by (nonlinear_arith)
            requires
                b == qb * (4 * u),
                q == qb - 1,
        ;
        lemma_rounding_of_parts(n, 0, eb, q, true);
        lemma_rounds_to_nearest(n, 0, big);
    } else {
        let n = (b - t) as nat;
        let e = (eb - 1) as nat;
        let q: nat = 0x00ff_ffff;
        assert(pow2(e + 0) == 2 * u);
        assert(q * (2 * u) == b - 2 * u) by (nonlinear_arith)
            requires
                b == 0x0080_0000 * (4 * u),
                q == 0x00ff_ffff,
        ;
        assert((q + 1) * (2 * u) == b) by (nonlinear_arith)
            requires
                b == 0x0080_0000 * (4 * u),
                q == 0x00ff_ffff,
        ;
        assert((2 * q + 1) * (2 * u) == 2 * b - 2 * u) by (nonlinear_arith)
            requires
                b == 0x0080_0000 * (4 * u),
                q == 0x00ff_ffff,
        ;
        lemma_rounding_of_parts(n, 0, e, q, true);
        assert(e * 0x0080_0000 + q + 1 == big);
        lemma_rounds_to_nearest(n, 0, big);
    }
}

/// The rounded sum or difference of the magnitudes of two finite numbers, the
/// first at least as large as the second.
fn combine_magnitudes(big: u32, small: u32, same_sign: bool) -> (m: u32)
    requires
        small <= big < 0x7f80_0000,
    ensures
        m <= INFINITY,
        magnitude(small as nat) <= magnitude(big as nat),
        same_sign ==> m == round_to_nearest(
            magnitude(big as nat) + magnitude(small as nat),
            0,
        ),
        !same_sign ==> m == round_to_nearest(
            (magnitude(big as nat) - magnitude(small as nat)) as nat,
            0,
        ),
{
    let (qb, eb) = parts(big);
    let (qs, es) = parts(small);
    let ghost b = magnitude(big as nat);
    let ghost t = magnitude(small as nat);
    proof {
        lemma_parts_of_magnitude(big as nat);
        lemma_parts_of_magnitude(small as nat);
        if small < big {
            lemma_magnitude_increases(small as nat, big as nat);
        }
    }
    let gap: u32 = eb - es;
    if gap > 25 {
        proof {
            lemma_absorbed(big as nat, small as nat, same_sign);
        }
        return big;
    }
    proof {
        lemma2_to64();
        lemma_pow2_increases(gap as nat, 25);
        assert(qb * pow2(gap as nat) < 0x0100_0000 * 0x0200_0000) by (nonlinear_arith)
            requires
                qb < 0x0100_0000,
                pow2(gap as nat) <= 0x0200_0000,
        ;
    }
    let wide: u64 = (qb as u64) * power_of_two(gap);
    proof {
        let f = pow2(es as nat);
        lemma_pow2_pos(es as nat);
        lemma_pow2_adds(gap as nat, es as nat);
        assert(b == wide * f) by (nonlinear_arith)
            requires
                b == qb * pow2(eb as nat),
                pow2(eb as nat) == pow2(gap as nat) * f,
                wide == qb * pow2(gap as nat),
        ;
        assert(t == qs * f);
        assert(wide >= qs) by (nonlinear_arith)
            requires
                wide * f >= qs * f,
                f > 0,
        ;
        assert((wide + qs) * f == b + t) by (nonlinear_arith)
            requires
                b == wide * f,
                t == qs * f,
        ;
        assert((wide - qs) * f == b - t) by (nonlinear_arith)
            requires
                b == wide * f,
                t == qs * f,
        ;
    }
    let p: u64 = if same_sign {
        wide + qs as u64
    } else {
        wide - qs as u64
    };
    round_scaled(p, es, 0)
}

/// The sum of two numbers, rounded to nearest.
pub fn sum(a: u32, b: u32) -> (r: u32)
    ensures
        r == spec_sum(a, b),
{
    let ma: u32 = a % SIGN;
    let mb: u32 = b % SIGN;
    let na: bool = a >= SIGN;
    let nb: bool = b >= SIGN;
    if ma > INFINITY || mb > INFINITY {
        return QUIET_NAN;
    }
    if ma == INFINITY {
        if mb == INFINITY && na != nb {
            return QUIET_NAN;
        }
        return a;
    }
    if mb == INFINITY {
        return b;
    }
    proof {
        lemma_magnitude_positive(ma as nat);
        lemma_magnitude_positive(mb as nat);
        if ma < mb {
            lemma_magnitude_increases(ma as nat, mb as nat);
        }
        if mb < ma {
            lemma_magnitude_increases(mb as nat, ma as nat);
        }
    }
    if na == nb {
        if ma == 0 && mb == 0 {
            return a;
        }
        let m: u32 = if ma >= mb {
            combine_magnitudes(ma, mb, true)
        } else {
            combine_magnitudes(mb, ma, true)
        };
        if na {
            m + SIGN
        } else {
            m
        }
    } else {
        if ma == mb {
            return 0;
        }
        if ma > mb {
            let m: u32 = combine_magnitudes(ma, mb, false);
            if na {
                m + SIGN
            } else {
                m
            }
        } else {
            let m: u32 = combine_magnitudes(mb, ma, false);
            if nb {
                m + SIGN
            } else {
                m
            }
        }
    }
}

/// The difference of two numbers, rounded to nearest.
pub fn difference(a: u32, b: u32) -> (r: u32)
    ensures
        r == spec_difference(a, b),
{
    sum(a, negated(b))
}

/// The product of two numbers, rounded to nearest.
pub fn product(a: u32, b: u32) -> (r: u32)
    ensures
        r == spec_product(a, b),
{
    let ma: u32 = a % SIGN;
    let mb: u32 = b % SIGN;
    let negative: bool = (a >= SIGN) != (b >= SIGN);
    if ma > INFINITY || mb > INFINITY {
        return QUIET_NAN;
    }
    if ma == INFINITY || mb == INFINITY {
        if ma == 0 || mb == 0 {
            return QUIET_NAN;
        }
        return if negative {
            INFINITY + SIGN
        } else {
            INFINITY
        };
    }
    let (qa, ea) = parts(ma);
    let (qb, eb) = parts(mb);
    proof {
        lemma_parts_of_magnitude(ma as nat);
        lemma_parts_of_magnitude(mb as nat);
        lemma_pow2_adds(ea as nat, eb as nat);
        assert(qa * qb < 0x0100_0000 * 0x0100_0000) by (nonlinear_arith)
            requires
                qa < 0x0100_0000,
                qb < 0x0100_0000,
        ;
        assert((qa * pow2(ea as nat)) * (qb * pow2(eb as nat)) == (qa * qb) * (pow2(ea as nat)
            * pow2(eb as nat))) by (nonlinear_arith);
    }
    let m: u32 = round_scaled((qa as u64) * (qb as u64), ea + eb, 149);
    if negative {
        m + SIGN
    } else {
        m
    }
}

/// The operand of a square root, rewritten as a 53-bit number times an even
/// power of two.
proof fn lemma_root_operand(
    q: nat,
    e: nat,
    left: nat,
    qn: nat,
    ee: nat,
    qq: nat,
    e2: nat,
    big: nat,
    half_exp: nat,
)
    requires
        qn == q * pow2(left),
        ee + left == e + 149,
        (qq == 2 * qn && e2 + 1 == ee) || (qq == qn && e2 == ee),
        big == qq * pow2(28),
        e2 == 28 + 2 * half_exp,
    ensures
        (q * pow2(e)) * pow2(149) == big * (pow2(half_exp) * pow2(half_exp)),
{
    let g = pow2(half_exp);
    lemma2_to64();
    lemma_pow2_adds(e, 149);
    lemma_pow2_adds(left, ee);
    lemma_pow2_adds(1, e2);
    lemma_pow2_adds(28, 2 * half_exp);
    lemma_pow2_adds(half_exp, half_exp);
    lemma_regroup(q, pow2(e), pow2(149));
    // q * 2^(e + 149) == qn * 2^ee
    lemma_regroup(q, pow2(left), pow2(ee));
    assert(q * pow2(e + 149) == qn * pow2(ee));
    // qn * 2^ee == qq * 2^e2
    assert(qn * pow2(ee) == qq * pow2(e2)) by (nonlinear_arith)
        requires
            (qq == 2 * qn && pow2(ee) == 2 * pow2(e2)) || (qq == qn && pow2(ee) == pow2(e2)),
    ;
    // qq * 2^e2 == big * 2^(2 * half_exp)
    lemma_regroup(qq, pow2(28), pow2(2 * half_exp));
}

/// Rewrites the magnitude of a positive finite number, times `2^149`, as a
/// number `big` of 52 or 53 bits times the square of `2^half_exp`.
fn root_operand(m: u32) -> (r: (u64, u32))
    requires
        0 < m < 0x7f80_0000,
    ensures
        0x0008_0000_0000_0000 <= r.0 < 0x0020_0000_0000_0000,
        r.1 <= 200,
        magnitude(m as nat) * pow2(149) == r.0 * (pow2(r.1 as nat) * pow2(r.1 as nat)),
{
    let (q, e) = parts(m);
    let len: u32 = bit_length(q as u64);
    proof {
        lemma2_to64();
        lemma_parts_of_magnitude(m as nat);
        if len > 24 {
            lemma_pow2_increases(24, (len - 1) as nat);
        }
        if q >= 0x0080_0000 && len < 24 {
            lemma_pow2_increases(len as nat, 23);
        }
    }
    let left: u32 = 24 - len;
    proof {
        lemma_pow2_adds(len as nat, left as nat);
        lemma_pow2_adds((len - 1) as nat, left as nat);
        lemma_scale_lt(q as nat, pow2(len as nat), pow2(left as nat));
        lemma_scale_le(pow2((len - 1) as nat), q as nat, pow2(left as nat));
        lemma_pow2_pos(left as nat);
    }
    let qn: u64 = (q as u64) * power_of_two(left);
    let ee: u32 = e + 149 - left;
    let odd: bool = ee % 2 == 1;
    let qq: u64 = if odd {
        2 * qn
    } else {
        qn
    };
    let e2: u32 = if odd {
        ee - 1
    } else {
        ee
    };
    let big: u64 = qq * 0x1000_0000;
    let half_exp: u32 = (e2 - 28) / 2;
    proof {
        lemma_root_operand(
            q as nat,
            e as nat,
            left as nat,
            qn as nat,
            ee as nat,
            qq as nat,
            e2 as nat,
            big as nat,
            half_exp as nat,
        );
    }
    (big, half_exp)
}

/// From the whole part `r` of the root of `big`, the rounding of the root of
/// `big * g^2`, where `g` is `2^half_exp`: the leading 24 bits `qf` of `r`, and
/// one more if `big` is above the square of the midpoint `c`.
proof fn lemma_root_from_integer_root(
    big: nat,
    half_exp: nat,
    r: nat,
    sh: nat,
    qf: nat,
    c: nat,
    up: bool,
)
    requires
        r * r <= big < (r + 1) * (r + 1),
        sh >= 1,
        qf * pow2(sh) <= r < (qf + 1) * pow2(sh),
        2 * c == (2 * qf + 1) * pow2(sh),
        0x0080_0000 <= qf < 0x0100_0000,
        half_exp + sh <= 253,
        up == (big > c * c || (big == c * c && qf % 2 == 1)),
    ensures
        round_root_to_nearest(big * (pow2(half_exp) * pow2(half_exp))) == (half_exp + sh)
            * 0x0080_0000 + qf + (if up {
            1nat
        } else {
            0nat
        }),
{
    let g = pow2(half_exp);
    let gg = g * g;
    let w = pow2(sh);
    let e = half_exp + sh;
    let unit = pow2(e);
    let n = big * gg;
    let x = qf * w;
    let y = (qf + 1) * w;
    lemma_pow2_pos(half_exp);
    lemma_pow2_pos(sh);
    lemma_pow2_adds(sh, half_exp);
    assert(gg > 0) by (nonlinear_arith)
        requires
            gg == g * g,
            g > 0,
    ;
    // the floor
    lemma_regroup(qf, w, g);
    assert(qf * unit == x * g);
    lemma_square_of_product(x, g);
    lemma_square_le(x, r);
    lemma_scale_le(x * x, big, gg);
    assert((qf * unit) * (qf * unit) <= n);
    // the next number
    lemma_regroup(qf + 1, w, g);
    assert((qf + 1) * unit == y * g);
    lemma_square_of_product(y, g);
    lemma_square_le(r + 1, y);
    lemma_scale_lt(big, y * y, gg);
    assert(n < ((qf + 1) * unit) * ((qf + 1) * unit));
    // the midpoint
    lemma_regroup(2 * qf + 1, w, g);
    assert((2 * qf + 1) * unit == (2 * c) * g);
    lemma_square_of_product(2 * c, g);
    assert((2 * c) * (2 * c) == 4 * (c * c)) by (nonlinear_arith);
    assert((4 * (c * c)) * gg == 4 * ((c * c) * gg)) by (nonlinear_arith);
    if big > c * c {
        lemma_scale_lt(c * c, big, gg);
    } else if big < c * c {
        lemma_scale_lt(big, c * c, gg);
    }
    lemma_root_rounding_of_parts(n, e, qf, up);
    lemma_root_rounds_to_nearest(
        n,
        e * 0x0080_0000 + qf + (if up {
            1nat
        } else {
            0nat
        }),
    );
}

/// The rounded square root of `big * 2^(2 * half_exp)` units.
fn round_root(big: u64, half_exp: u32) -> (m: u32)
    requires
        0x0008_0000_0000_0000 <= big < 0x0020_0000_0000_0000,
        half_exp <= 200,
    ensures
        m as nat == round_root_to_nearest(
            big as nat * (pow2(half_exp as nat) * pow2(half_exp as nat)),
        ),
        m < 0x7f80_0000,
{
    let root: u64 = integer_root(big);
    proof {
        // 2^51 <= big < 2^53, so 2^25 <= root < 2^27
        lemma2_to64();
        if root < 0x0200_0000 {
            assert((root + 1) * (root + 1) <= 0x0200_0000 * 0x0200_0000) by (nonlinear_arith)
                requires
                    root + 1 <= 0x0200_0000,
            ;
        }
        if root >= 0x0800_0000 {
            assert(root * root >= 0x0800_0000 * 0x0800_0000) by (nonlinear_arith)
                requires
                    root >= 0x0800_0000,
            ;
        }
    }
    let small: bool = root < 0x0400_0000;
    let sh: u32 = if small {
        2
    } else {
        3
    };
    let qf: u64 = if small {
        root / 4
    } else {
        root / 8
    };
    let c: u64 = if small {
        (2 * qf + 1) * 2
    } else {
        (2 * qf + 1) * 4
    };
    proof {
        assert(c * c < 0x0800_0000 * 0x0800_0000) by (nonlinear_arith)
            requires
                c < 0x0800_0000,
        ;
    }
    let square: u64 = c * c;
    let up: bool = big > square || (big == square && qf % 2 == 1);
    proof {
        lemma_root_from_integer_root(
            big as nat,
            half_exp as nat,
            root as nat,
            sh as nat,
            qf as nat,
            c as nat,
            up,
        );
    }
    (half_exp + sh) * 0x0080_0000 + (qf as u32) + (if up {
        1u32
    } else {
        0u32
    })
}

/// The square root of a number, rounded to nearest.
pub fn square_root(a: u32) -> (r: u32)
    ensures
        r == spec_square_root(a),
{
    let ma: u32 = a % SIGN;
    if ma > INFINITY {
        return QUIET_NAN;
    }
    if ma == 0 {
        return a;
    }
    if a >= SIGN {
        return QUIET_NAN;
    }
    if ma == INFINITY {
        return a;
    }
    let (big, half_exp) = root_operand(ma);
    round_root(big, half_exp)
}

} // verus!
