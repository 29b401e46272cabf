//! Rounding exact results that are held in machine integers to magnitude
//! patterns.
use crate::arith::{lemma_pow2_increases, lemma_regroup, lemma_scale_le, lemma_scale_lt};
use crate::binary32::{lemma_magnitude_of_parts, magnitude, INFINITY};
use crate::rounding::{
    lemma_rounding_of_parts, lemma_rounding_overflows, lemma_rounds_to_nearest, round_to_nearest,
};
use vstd::arithmetic::div_mod::lemma_fundamental_div_mod;
use vstd::arithmetic::power2::{
    lemma2_to64, lemma2_to64_rest, lemma_pow2_adds, lemma_pow2_pos, pow2,
};
use vstd::bits::lemma_u64_shl_is_mul;
use vstd::prelude::*;

verus! {

/// `2^k` as a machine word.
pub fn power_of_two(k: u32) -> (r: u64)
    requires
        k < 64,
    ensures
        r == pow2(k as nat),
        r >= 1,
{
    proof {
        lemma_pow2_increases(k as nat, 63);
        lemma2_to64_rest();
        lemma_pow2_pos(k as nat);
        lemma_u64_shl_is_mul(1u64, k as u64);
    }
    1u64 << (k as u64)
}

/// The number of bits of `p` up to its leading one; 0 for 0.
pub fn bit_length(p: u64) -> (len: u32)
    ensures
        len <= 64,
        p == 0 <==> len == 0,
        p > 0 ==> pow2((len - 1) as nat) <= p < pow2(len as nat),
{
    let mut len: u32 = 0;
    let mut rest: u64 = p;
    proof {
        lemma2_to64();
    }
    while rest > 0
        invariant
            len <= 64,
            rest * pow2(len as nat) <= p < (rest + 1) * pow2(len as nat),
            len > 0 ==> pow2((len - 1) as nat) <= p,
            p == 0 <==> (len == 0 && rest == 0),
        decreases rest,
    {
        proof {
            let w = pow2(len as nat);
            lemma2_to64();
            lemma_pow2_pos(len as nat);
            lemma_pow2_adds(len as nat, 1);
            assert(w <= rest * w) by (nonlinear_arith)
                requires
                    rest >= 1,
                    w > 0,
            ;
            if len >= 64 {
                lemma_pow2_increases(64, len as nat);
            }
            let half = rest / 2;
            assert(half * (w * 2) <= rest * w) by (nonlinear_arith)
                requires
                    2 * half <= rest,
                    w > 0,
            ;
            assert((rest + 1) * w <= (half + 1) * (w * 2)) by (nonlinear_arith)
                requires
                    rest + 1 <= 2 * (half + 1),
                    w > 0,
            ;
        }
        rest = rest / 2;
        len = len + 1;
    }
    proof {
        lemma2_to64();
        assert((rest + 1) * pow2(len as nat) == pow2(len as nat)) by (nonlinear_arith)
            requires
                rest == 0,
        ;
    }
    len
}

/// Zero rounds to zero.
proof fn lemma_zero_case(up: nat, s: nat)
    ensures
        round_to_nearest(0 * pow2(up), s) == 0,
{
    lemma_pow2_pos(s);
    assert(0 * pow2(up) == 0) by (nonlinear_arith);
    assert(pow2(0 + s) == pow2(s));
    assert(0 * pow2(s) == 0) by (nonlinear_arith);
    assert((0 + 1) * pow2(s) > 0) by (nonlinear_arith)
        requires
            pow2(s) > 0,
    ;
    assert((2 * 0 + 1) * pow2(s) > 0) by (nonlinear_arith)
        requires
            pow2(s) > 0,
    ;
    lemma_rounding_of_parts(0, s, 0, 0, false);
    lemma_rounds_to_nearest(0, s, 0);
}

/// A value of at least `2^128` rounds to infinity.
proof fn lemma_overflow_case(p: nat, len: nat, up: nat, s: nat)
    requires
        len >= 1,
        pow2((len - 1) as nat) <= p,
        len + up >= 278 + s,
    ensures
        round_to_nearest(p * pow2(up), s) == 0x7f80_0000,
{
    let n = p * pow2(up);
    let low = (len - 1) as nat;
    lemma2_to64();
    lemma_pow2_pos(up);
    lemma_pow2_adds(low, up);
    lemma_scale_le(pow2(low), p, pow2(up));
    lemma_pow2_increases(277 + s, low + up);
    lemma_pow2_adds(277, s);
    lemma_pow2_adds(254, 23);
    lemma_magnitude_of_parts(254, 0x0080_0000);
    assert(magnitude(0x7f80_0000) == pow2(277)) by (nonlinear_arith)
        requires
            magnitude(0x7f80_0000) == 0x0080_0000 * pow2(254),
            pow2(277) == pow2(254) * pow2(23),
            pow2(23) == 0x0080_0000,
    ;
    lemma_rounding_overflows(n, s);
    lemma_rounds_to_nearest(n, s, 0x7f80_0000);
}

/// A value that fits the significand without loss rounds to itself.
proof fn lemma_exact_case(p: nat, len: nat, up: nat, s: nat, e: nat, left: nat)
    requires
        len >= 1,
        pow2((len - 1) as nat) <= p < pow2(len),
        e + s + left == up,
        len + left <= 24,
        e > 0 ==> len + left == 24,
        e <= 253,
    ensures
        p * pow2(left) < 0x0100_0000,
        round_to_nearest(p * pow2(up), s) == e * 0x0080_0000 + p * pow2(left),
{
    let n = p * pow2(up);
    let q = p * pow2(left);
    let unit = pow2(e + s);
    lemma2_to64();
    lemma_pow2_pos(left);
    lemma_pow2_pos(e + s);
    lemma_pow2_adds(len, left);
    lemma_pow2_increases(len + left, 24);
    lemma_scale_lt(p, pow2(len), pow2(left));
    lemma_pow2_adds(left, e + s);
    lemma_regroup(p, pow2(left), unit);
    assert(q * unit == n);
    if e > 0 {
        let low = (len - 1) as nat;
        lemma_pow2_adds(low, left);
        lemma_scale_le(pow2(low), p, pow2(left));
        assert(low + left == 23);
    }
    assert(q * unit < (q + 1) * unit) by (nonlinear_arith)
        requires
            unit > 0,
    ;
    assert(2 * (q * unit) < (2 * q + 1) * unit) by (nonlinear_arith)
        requires
            unit > 0,
    ;
    lemma_rounding_of_parts(n, s, e, q, false);
    lemma_rounds_to_nearest(n, s, e * 0x0080_0000 + q);
}

/// A value below half of the smallest number rounds to zero.
proof fn lemma_tiny_case(p: nat, up: nat, s: nat)
    requires
        p < 0x1_0000_0000_0000_0000,
        s >= up + 65,
    ensures
        round_to_nearest(p * pow2(up), s) == 0,
{
    let n = p * pow2(up);
    let shift = (s - up) as nat;
    lemma2_to64();
    lemma_pow2_pos(up);
    lemma_pow2_adds(shift, up);
    lemma_pow2_adds(64, 1);
    lemma_pow2_increases(65, shift);
    lemma_scale_le(pow2(65), pow2(shift), pow2(up));
    lemma_scale_lt(2 * p, pow2(65), pow2(up));
    assert((2 * p) * pow2(up) == 2 * n) by (nonlinear_arith)
        requires
            n == p * pow2(up),
    ;
    assert(2 * n < pow2(s));
    assert(pow2(0 + s) == pow2(s));
    assert(0 * pow2(s) == 0) by (nonlinear_arith);
    assert((0 + 1) * pow2(s) == pow2(s)) by (nonlinear_arith);
    assert((2 * 0 + 1) * pow2(s) == pow2(s)) by (nonlinear_arith);
    lemma_rounding_of_parts(n, s, 0, 0, false);
    lemma_rounds_to_nearest(n, s, 0);
}

/// A value with more bits than the significand holds rounds by its remainder
/// against half a unit of the last place.
proof fn lemma_inexact_case(
    p: nat,
    len: nat,
    up: nat,
    s: nat,
    e: nat,
    shift: nat,
    q: nat,
    r: nat,
    round_up: bool,
)
    requires
        len >= 1,
        pow2((len - 1) as nat) <= p < pow2(len),
        shift >= 1,
        e + s == shift + up,
        e > 0 ==> shift + 24 == len,
        e == 0 ==> len <= shift + 24,
        e <= 253,
        p == pow2(shift) * q + r,
        r < pow2(shift),
        round_up == (2 * r > pow2(shift) || (2 * r == pow2(shift) && q % 2 == 1)),
    ensures
        q < 0x0100_0000,
        round_to_nearest(p * pow2(up), s) == e * 0x0080_0000 + q + (if round_up {
            1nat
        } else {
            0nat
        }),
{
    let n = p * pow2(up);
    let w = pow2(shift);
    let f = pow2(up);
    lemma2_to64();
    lemma_pow2_pos(up);
    lemma_pow2_pos(shift);
    lemma_pow2_adds(shift, up);
    assert(pow2(e + s) == w * f);
    assert(q * (w * f) <= p * f) by (nonlinear_arith)
        requires
            p == w * q + r,
            f > 0,
    ;
    assert(p * f < (q + 1) * (w * f)) by (nonlinear_arith)
        requires
            p == w * q + r,
            r < w,
            f > 0,
    ;
    assert((2 * q + 1) * (w * f) - 2 * (p * f) == (w - 2 * r) * f) by (nonlinear_arith)
        requires
            p == w * q + r,
    ;
    if 2 * r > w {
        assert((w - 2 * r) * f < 0) by (nonlinear_arith)
            requires
                w - 2 * r < 0,
                f > 0,
        ;
    } else if 2 * r < w {
        assert((w - 2 * r) * f > 0) by (nonlinear_arith)
            requires
                w - 2 * r > 0,
                f > 0,
        ;
    } else {
        assert((w - 2 * r) * f == 0) by (nonlinear_arith)
            requires
                w - 2 * r == 0,
        ;
    }
    lemma_pow2_adds(24, shift);
    if e > 0 {
        lemma_pow2_adds(23, shift);
        assert(q >= 0x0080_0000) by (nonlinear_arith)
            requires
                p == w * q + r,
                r < w,
                p >= 0x0080_0000 * w,
        ;
    } else {
        lemma_pow2_increases(len, 24 + shift);
    }
    assert(q < 0x0100_0000) by (nonlinear_arith)
        requires
            p == w * q + r,
            p < 0x0100_0000 * w,
            w > 0,
    ;
    lemma_rounding_of_parts(n, s, e, q, round_up);
    lemma_rounds_to_nearest(
        n,
        s,
        e * 0x0080_0000 + q + (if round_up {
            1nat
        } else {
            0nat
        }),
    );
}

/// Rounds the exact magnitude `p * 2^up / 2^down`, in units of `2^-149`, to the
/// nearest magnitude pattern, ties to even.
pub fn round_scaled(p: u64, up: u32, down: u32) -> (m: u32)
    ensures
        m <= INFINITY,
        m as nat == round_to_nearest(p as nat * pow2(up as nat), down as nat),
{
    if p == 0 {
        proof {
            lemma_zero_case(up as nat, down as nat);
        }
        return 0;
    }
    let len: i64 = bit_length(p) as i64;
    let k: i64 = up as i64 - down as i64;
    let ideal: i64 = len + k - 24;
    let e: i64 = if ideal > 0 {
        ideal
    } else {
        0
    };
    if e >= 254 {
        proof {
            lemma_overflow_case(p as nat, len as nat, up as nat, down as nat);
        }
        return INFINITY;
    }
    let shift: i64 = e - k;
    if shift <= 0 {
        let left: u32 = (-shift) as u32;
        proof {
            lemma_exact_case(
                p as nat,
                len as nat,
                up as nat,
                down as nat,
                e as nat,
                left as nat,
            );
        }
        let q: u64 = p * power_of_two(left);
        return (e as u32) * 0x0080_0000 + (q as u32);
    }
    if shift >= 65 {
        proof {
            lemma_tiny_case(p as nat, up as nat, down as nat);
        }
        return 0;
    }
    if shift == 64 {
        let round_up: bool = p > 0x8000_0000_0000_0000;
        proof {
            lemma2_to64();
            assert(pow2(64) * 0 == 0) by (nonlinear_arith);
            lemma_inexact_case(
                p as nat,
                len as nat,
                up as nat,
                down as nat,
                0,
                64,
                0,
                p as nat,
                round_up,
            );
        }
        return if round_up {
            1
        } else {
            0
        };
    }
    let weight: u64 = power_of_two(shift as u32);
    let q: u64 = p / weight;
    let r: u64 = p % weight;
    let half: u64 = weight / 2;
    let round_up: bool = r > half || (r == half && q % 2 == 1);
    proof {
        lemma_fundamental_div_mod(p as int, weight as int);
        lemma_pow2_adds((shift - 1) as nat, 1);
        lemma2_to64();
        assert(weight == 2 * half);
        lemma_inexact_case(
            p as nat,
            len as nat,
            up as nat,
            down as nat,
            e as nat,
            shift as nat,
            q as nat,
            r as nat,
            round_up,
        );
    }
    (e as u32) * 0x0080_0000 + (q as u32) + (if round_up {
        1u32
    } else {
        0u32
    })
}

/// The whole part of the square root of `v`.
pub fn integer_root(v: u64) -> (r: u64)
    ensures
        r * r <= v < (r + 1) * (r + 1),
        r < 0x1_0000_0000,
{
    let mut lo: u64 = 0;
    let mut hi: u64 = 0x1_0000_0000;
    while hi - lo > 1
        invariant
            lo < hi <= 0x1_0000_0000,
            lo * lo <= v < hi * hi,
        decreases hi - lo,
    {
        let mid: u64 = lo + (hi - lo) / 2;
        proof {
            assert(mid * mid <= 0xffff_ffff * 0xffff_ffff) by (nonlinear_arith)
                requires
                    mid <= 0xffff_ffff,
            ;
        }
        if mid * mid <= v {
            lo = mid;
        } else {
            hi = mid;
        }
    }
    lo
}

} // verus!
