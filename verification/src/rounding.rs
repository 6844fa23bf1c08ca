//! Round-half-up division: the integer form of rounding a monetary value to
//! whole cents.

use vstd::arithmetic::div_mod::{
    lemma_div_is_ordered, lemma_div_multiples_vanish_fancy, lemma_div_pos_is_pos,
    lemma_div_nonincreasing,
};
use vstd::prelude::*;

verus! {

/// The nonnegative rational `n / d` rounded to the nearest integer, halves
/// rounded up (away from zero, as all values here are nonnegative). Every
/// divisor used in this crate is even, so adding `d / 2` to the numerator
/// before truncating division lands exactly on that result.
pub open spec fn div_round_half(n: int, d: int) -> int {
    (n + d / 2) / d
}

/// Round-half-up division of a nonnegative value never goes below zero.
pub proof fn lemma_div_round_half_nonneg(n: int, d: int)
    requires
        n >= 0,
        d > 0,
    ensures
        div_round_half(n, d) >= 0,
{
    if n + d / 2 == 0 {
        assert((0int) / d == 0) by {
            lemma_div_pos_is_pos(0, d);
            lemma_div_nonincreasing(0, d);
        }
    } else {
        lemma_div_pos_is_pos(n + d / 2, d);
    }
}

/// Round-half-up division is monotone in the numerator.
pub proof fn lemma_div_round_half_mono(n1: int, n2: int, d: int)
    requires
        n1 <= n2,
        d > 0,
    ensures
        div_round_half(n1, d) <= div_round_half(n2, d),
{
    lemma_div_is_ordered(n1 + d / 2, n2 + d / 2, d);
}

/// The rounded quotient of a nonnegative value never exceeds the numerator.
pub proof fn lemma_div_round_half_le_numerator(n: int, d: int)
    requires
        n >= 0,
        d >= 2,
    ensures
        div_round_half(n, d) <= n,
{
    assert(n + d / 2 < d * (n + 1)) by (nonlinear_arith)
        requires
            n >= 0,
            d >= 2,
    ;
    vstd::arithmetic::div_mod::lemma_multiply_divide_lt(n + d / 2, d, n + 1);
}

/// Rounding stability: a value that is already whole (an exact multiple of
/// the divisor, as every already-rounded monetary amount is) is returned
/// unchanged by the rounding division. In particular, rounding twice gives
/// the same result as rounding once.
pub proof fn lemma_div_round_half_exact(c: int, d: int)
    requires
        c >= 0,
        d > 0,
        d % 2 == 0,
    ensures
        div_round_half(c * d, d) == c,
{
    assert(0 <= d / 2 < d);
    lemma_div_multiples_vanish_fancy(c, d / 2, d);
    assert(d * c == c * d) by (nonlinear_arith);
}

/// Rounding is idempotent: feeding a rounded result back through the same
/// rounding (as the rational `r * d / d`) changes nothing.
pub proof fn lemma_div_round_half_idempotent(n: int, d: int)
    requires
        n >= 0,
        d > 0,
        d % 2 == 0,
    ensures
        div_round_half(div_round_half(n, d) * d, d) == div_round_half(n, d),
{
    lemma_div_round_half_nonneg(n, d);
    lemma_div_round_half_exact(div_round_half(n, d), d);
}

} // verus!
