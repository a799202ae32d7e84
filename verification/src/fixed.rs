//! Fixed-point scalars.
//!
//! Probabilities, rewards, discount factors, learning rates and action values are
//! all held as signed integers counting millionths: the integer `v` stands for the
//! real number `v / SCALE`. Sums and products of such numbers are exact integers;
//! the only rounding in the crate is the single floor division that ends each
//! weighted average.

use vstd::prelude::*;

verus! {

/// The integer that stands for the real number one.
pub const SCALE: i64 = 1_000_000;

/// Largest magnitude a cell reward may have (one million, in real terms).
pub const REWARD_LIMIT: i64 = 1_000_000_000_000;

/// Largest magnitude an action value can reach: `REWARD_LIMIT * SCALE`.
///
/// A discounted sum of rewards bounded by `R` with a discount factor of at most
/// `(SCALE - 1) / SCALE` never exceeds `R * SCALE`.
pub const VALUE_LIMIT: i64 = 1_000_000_000_000_000_000;

/// `p` is a probability: between zero and one inclusive.
pub open spec fn is_probability(p: int) -> bool {
    0 <= p <= SCALE
}

/// `g` is a proper fraction: strictly between zero and one.
pub open spec fn is_proper_fraction(g: int) -> bool {
    0 < g < SCALE
}

/// `r` is an admissible reward.
pub open spec fn is_reward(r: int) -> bool {
    -REWARD_LIMIT <= r <= REWARD_LIMIT
}

/// `v` is an admissible action value.
pub open spec fn is_value(v: int) -> bool {
    -VALUE_LIMIT <= v <= VALUE_LIMIT
}

/// The product of two fixed-point numbers, rounded down to a millionth.
pub open spec fn scaled_product(a: int, b: int) -> int {
    (a * b) / (SCALE as int)
}

/// Floor division of a negative numerator is the negated ceiling of its opposite.
pub proof fn lemma_floor_of_negative(x: int, d: int)
    by (nonlinear_arith)
    requires
        d > 0,
        x < 0,
    ensures
        x / d == -((-x + d - 1) / d),
{
}

/// A quotient by a positive divisor lies between any two integer bounds that,
/// multiplied by the divisor, enclose the numerator.
pub proof fn lemma_floor_between(x: int, d: int, lo: int, hi: int)
    by (nonlinear_arith)
    requires
        d > 0,
        lo * d <= x <= hi * d,
    ensures
        lo <= x / d <= hi,
{
}

/// Floor division is monotone in the numerator and moves by at most `k` when the
/// numerator moves by at most `k * d`.
pub proof fn lemma_floor_step(x: int, y: int, d: int, k: int)
    by (nonlinear_arith)
    requires
        d > 0,
        k >= 0,
        x - y <= k * d,
        y - x <= k * d,
    ensures
        x / d - y / d <= k,
        y / d - x / d <= k,
{
}

/// Floor division by a positive divisor, exact for every sign of the numerator.
pub fn div_floor(x: i128, d: i128) -> (q: i128)
    requires
        0 < d <= 0x1000_0000_0000_0000_0000_0000_0000,
        -0x1000_0000_0000_0000_0000_0000_0000_0000 <= x <= 0x1000_0000_0000_0000_0000_0000_0000_0000,
    ensures
        q == x / d,
{
    if x >= 0 {
        x / d
    } else {
        proof {
            lemma_floor_of_negative(x as int, d as int);
        }
        let up: i128 = (-x) + (d - 1);
        let c: i128 = up / d;
        -c
    }
}

/// `a * b / SCALE`, rounded down, for a fraction `a` and a fraction `b`.
pub fn scale_down(a: i64, b: i64) -> (r: i64)
    requires
        is_probability(a as int),
        is_probability(b as int),
    ensures
        r == scaled_product(a as int, b as int),
        is_probability(r as int),
        r <= b,
        r <= a,
{
    proof {
        assert(0 <= a * b <= SCALE * b && a * b <= a * SCALE) by (nonlinear_arith)
            requires
                0 <= a <= SCALE,
                0 <= b <= SCALE,
        ;
        lemma_floor_between(a * b, SCALE as int, 0, b as int);
        lemma_floor_between(a * b, SCALE as int, 0, a as int);
    }
    let wide: i128 = (a as i128) * (b as i128);
    let q: i128 = wide / (SCALE as i128);
    q as i64
}

} // verus!
