//! Fixed-point numbers and the few operations the analysis needs on them.

use vstd::arithmetic::div_mod::lemma_div_denominator;
use vstd::arithmetic::div_mod::lemma_fundamental_div_mod;
use vstd::arithmetic::div_mod::lemma_fundamental_div_mod_converse;
use vstd::arithmetic::div_mod::lemma_hoist_over_denominator;
use vstd::prelude::*;

verus! {

/// The number of fixed-point units that make one.
pub const SCALE: i128 = 1_000_000;

/// The quotient of `a` by a positive `d`, rounded down.
pub fn div_floor(a: i128, d: i128) -> (q: i128)
    requires
        d > 0,
    ensures
        q == a / d,
{
    if a >= 0 {
        a / d
    } else {
        let m = -(a + 1);
        let q = m / d;
        proof {
            lemma_fundamental_div_mod(m as int, d as int);
            let r = m as int % d as int;
            assert(a == (-q - 1) * d + (d - r - 1)) by (nonlinear_arith)
                requires
                    m == d * q + r,
                    a == -(m + 1),
            ;
            lemma_fundamental_div_mod_converse(a as int, d as int, -q - 1, d - r - 1);
        }
        -q - 1
    }
}

/// The share that `count` has of the ordered pairs of `k` distinct things,
/// as a fixed-point number, rounded down.
pub fn pair_density(count: u128, k: usize) -> (density: i128)
    requires
        k >= 2,
        count <= k * usize::MAX,
    ensures
        density == count * SCALE / (k * (k - 1)),
        0 <= density <= SCALE * usize::MAX,
{
    let scale: u128 = 1_000_000;
    let width: u128 = k as u128;
    let whole: u128 = count / width;
    let rest: u128 = count % width;
    proof {
        lemma_fundamental_div_mod(count as int, k as int);
        assert(whole <= usize::MAX) by (nonlinear_arith)
            requires
                count == k * whole + rest,
                0 <= rest,
                count <= k * usize::MAX,
                k >= 2,
        ;
    }
    let per_first: u128 = whole * scale + (rest * scale) / width;
    let density: u128 = per_first / (width - 1);
    proof {
        lemma_hoist_over_denominator(rest * scale, whole * scale, k as nat);
        assert(rest * scale + (whole * scale) * k == count * SCALE) by (nonlinear_arith)
            requires
                count == k * whole + rest,
                scale == SCALE,
        ;
        lemma_div_denominator(count * SCALE, k as int, k - 1);
        assert(per_first / ((k - 1) as u128) <= usize::MAX * scale) by (nonlinear_arith)
            requires
                per_first == (count * SCALE) / (k as int),
                count <= k * usize::MAX,
                k >= 2,
                scale == SCALE,
                SCALE == 1_000_000,
        ;
    }
    density as i128
}

} // verus!
