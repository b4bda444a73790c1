//! Fixed-point arithmetic used throughout the engine.
//!
//! A quantity `x` represents the real number `x / SCALE`.  Probabilities,
//! rewards, the discount factor, state values and the convergence tolerance
//! are all carried in this representation.

use vstd::prelude::*;

verus! {

/// One whole unit of probability, reward or value: `SCALE` fixed-point steps.
pub const SCALE: i64 = 1_000_000;

/// Largest reward magnitude the solver accepts (fixed-point).
pub const REWARD_MAX: i64 = 1_000_000_000_000;

/// Bound on every state value the solver ever produces (fixed-point).
pub const VALUE_MAX: i64 = (REWARD_MAX + 1) * SCALE;

/// Absolute value of a mathematical integer.
pub open spec fn abs_i(x: int) -> int {
    if x >= 0 {
        x
    } else {
        -x
    }
}

/// Floor division moves by at most `abs_i(a - b) / d + 1` when the
/// numerator moves by `a - b`.
pub proof fn lemma_div_diff_bound(a: int, b: int, d: int)
    requires
        d > 0,
    ensures
        abs_i(a / d - b / d) <= abs_i(a - b) / d + 1,
{
    vstd::arithmetic::div_mod::lemma_fundamental_div_mod(a, d);
    vstd::arithmetic::div_mod::lemma_fundamental_div_mod(b, d);
    vstd::arithmetic::div_mod::lemma_mod_bound(a, d);
    vstd::arithmetic::div_mod::lemma_mod_bound(b, d);
    let qa = a / d;
    let qb = b / d;
    let k = abs_i(qa - qb);
    // d * k <= abs_i(a - b) + (d - 1)
    assert(d * k <= abs_i(a - b) + d - 1) by (nonlinear_arith)
        requires
            a == d * qa + a % d,
            b == d * qb + b % d,
            0 <= a % d < d,
            0 <= b % d < d,
            k == abs_i(qa - qb),
            d > 0,
    ;
    let x = abs_i(a - b) + d - 1;
    vstd::arithmetic::div_mod::lemma_div_is_ordered(d * k, x, d);
    vstd::arithmetic::div_mod::lemma_div_multiples_vanish(k, d);
    // x / d <= abs_i(a - b) / d + 1
    vstd::arithmetic::div_mod::lemma_div_is_ordered(x, abs_i(a - b) + d, d);
    vstd::arithmetic::div_mod::lemma_hoist_over_denominator(abs_i(a - b), 1, d as nat);
}

/// Floor division by a positive divisor is monotone in the numerator and
/// shrinks magnitudes no worse than `abs_i(x) / d + 1`.
pub proof fn lemma_div_abs_bound(x: int, d: int)
    requires
        d > 0,
    ensures
        abs_i(x / d) <= abs_i(x) / d + 1,
{
    lemma_div_diff_bound(x, 0, d);
    vstd::arithmetic::div_mod::lemma_div_of0(d);
}

} // verus!
