//! Small facts about products and powers of two that the proofs share.
use vstd::arithmetic::power2::{lemma_pow2_strictly_increases, pow2};
use vstd::prelude::*;

verus! {

/// Multiplying by a positive factor keeps a strict order.
pub proof fn lemma_scale_lt(a: nat, b: nat, c: nat)
    by (nonlinear_arith)
    requires
        a < b,
        c > 0,
    ensures
        a * c < b * c,
{
}

/// Multiplying by a positive factor keeps an order.
pub proof fn lemma_scale_le(a: nat, b: nat, c: nat)
    by (nonlinear_arith)
    requires
        a <= b,
        c > 0,
    ensures
        a * c <= b * c,
{
}

/// Squaring keeps a strict order of natural numbers.
pub proof fn lemma_square_lt(a: nat, b: nat)
    by (nonlinear_arith)
    requires
        a < b,
    ensures
        a * a < b * b,
{
}

/// Squaring keeps an order of natural numbers.
pub proof fn lemma_square_le(a: nat, b: nat)
    by (nonlinear_arith)
    requires
        a <= b,
    ensures
        a * a <= b * b,
{
}

/// The square of a product is the product of the squares.
pub proof fn lemma_square_of_product(x: nat, g: nat)
    by (nonlinear_arith)
    ensures
        (x * g) * (x * g) == (x * x) * (g * g),
{
}

/// A product of three factors, regrouped.
pub proof fn lemma_regroup(a: nat, b: nat, c: nat)
    by (nonlinear_arith)
    ensures
        a * (b * c) == (a * b) * c,
        a * (b * c) == (a * c) * b,
{
}

/// Powers of two grow with the exponent.
pub proof fn lemma_pow2_increases(a: nat, b: nat)
    requires
        a <= b,
    ensures
        pow2(a) <= pow2(b),
{
    if a < b {
        lemma_pow2_strictly_increases(a, b);
    }
}

} // verus!
