//! Integer helpers shared by the layouts of the crate.
use vstd::arithmetic::div_mod::*;
use vstd::arithmetic::mul::*;
use vstd::prelude::*;

verus! {

/// The number of groups of `d` that it takes to hold `n` things.
pub open spec fn groups_of(n: int, d: int) -> int {
    (n + d - 1) / d
}

/// `n / d`, rounded up.
pub fn div_ceil(n: usize, d: usize) -> (r: usize)
    requires
        d > 0,
    ensures
        r == groups_of(n as int, d as int),
        r <= n,
{
    proof {
        lemma_groups_of(n as int, d as int);
    }
    if n % d == 0 {
        n / d
    } else {
        n / d + 1
    }
}

/// Rounding up is truncating division, plus one group for a remainder.
pub proof fn lemma_groups_of(n: int, d: int)
    requires
        n >= 0,
        d > 0,
    ensures
        n % d == 0 ==> groups_of(n, d) == n / d,
        n % d != 0 ==> groups_of(n, d) == n / d + 1,
        0 <= groups_of(n, d) <= n,
        groups_of(n, d) * d >= n,
        n > 0 ==> (groups_of(n, d) - 1) * d < n,
{
    let q = n / d;
    let r = n % d;
    lemma_fundamental_div_mod(n, d);
    assert(n == q * d + r) by {
        lemma_mul_is_commutative(d, q);
    }
    lemma_mod_bound(n, d);
    assert(q >= 0) by {
        lemma_div_pos_is_pos(n, d);
    }
    if r == 0 {
        lemma_fundamental_div_mod_converse(n + d - 1, d, q, d - 1);
    } else {
        assert((q + 1) * d == q * d + d) by (nonlinear_arith);
        lemma_fundamental_div_mod_converse(n + d - 1, d, q + 1, r - 1);
    }
    let g = groups_of(n, d);
    assert(g * d >= n && (n > 0 ==> (g - 1) * d < n)) by (nonlinear_arith)
        requires
            d > 0,
            n == q * d + r,
            0 <= r < d,
            (r == 0 && g == q) || (r != 0 && g == q + 1),
    ;
    assert(g <= n) by (nonlinear_arith)
        requires
            d > 0,
            n >= 0,
            q >= 0,
            n == q * d + r,
            0 <= r < d,
            (r == 0 && g == q) || (r != 0 && g == q + 1),
    ;
}

/// Position `q * d + r` lies in group `q`, at place `r`.
pub proof fn lemma_place(q: int, d: int, r: int)
    requires
        0 <= r < d,
        0 <= q,
    ensures
        (q * d + r) / d == q,
        (q * d + r) % d == r,
        0 <= q * d + r,
{
    lemma_fundamental_div_mod_converse(q * d + r, d, q, r);
    assert(0 <= q * d) by (nonlinear_arith)
        requires
            0 <= q,
            0 < d,
    ;
}

/// A place in one of `n` groups of `d` lies below `n * d`.
pub proof fn lemma_place_below(q: int, n: int, d: int, r: int)
    requires
        0 <= r < d,
        0 <= q < n,
    ensures
        0 <= q * d + r < n * d,
        (q + 1) * d <= n * d,
        (q + 1) * d == q * d + d,
        0 <= q * d,
{
    assert(0 <= q * d + r < n * d && (q + 1) * d <= n * d && (q + 1) * d == q * d + d && 0 <= q * d)
        by (nonlinear_arith)
        requires
            0 <= r < d,
            0 <= q < n,
    ;
}

} // verus!
