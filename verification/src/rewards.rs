use vstd::prelude::*;
use vstd::arithmetic::div_mod::*;
use vstd::arithmetic::mul::*;

verus! {

/// The part of `total` that `part` out of `whole` earns, rounded down; none
/// where `whole` is zero.
pub open spec fn share(part: int, total: int, whole: int) -> int {
    if whole == 0 {
        0
    } else {
        part * total / whole
    }
}

/// Adding a multiple of `c` adds its factor to the quotient by `c`.
pub proof fn lemma_div_plus_multiple(x: int, m: int, c: int)
    requires
        c > 0,
    ensures
        (m * c + x) / c == m + x / c,
{
    lemma_hoist_over_denominator(x, m, c as nat);
}

/// Rounding down each part loses nothing against rounding down the sum.
pub proof fn lemma_floor_sum(x: int, y: int, d: int)
    requires
        d > 0,
    ensures
        x / d + y / d <= (x + y) / d,
{
    lemma_fundamental_div_mod(x, d);
    lemma_fundamental_div_mod(y, d);
    lemma_fundamental_div_mod(x + y, d);
    vstd::arithmetic::div_mod::lemma_mod_bound(x, d);
    vstd::arithmetic::div_mod::lemma_mod_bound(y, d);
    vstd::arithmetic::div_mod::lemma_mod_bound(x + y, d);
    let qx = x / d;
    let qy = y / d;
    let q = (x + y) / d;
    assert(d * (qx + qy) <= d * q + d - 1) by (nonlinear_arith)
        requires
            d * q + (x + y) % d == d * qx + x % d + d * qy + y % d,
            0 <= x % d < d,
            0 <= y % d < d,
            0 <= (x + y) % d < d;
    assert(qx + qy <= q) by (nonlinear_arith)
        requires
            d * (qx + qy) <= d * q + d - 1,
            d > 0;
}

} // verus!
