//! Fixed-point numbers: a real value `x` is held as the integer `x * SCALE`.
use vstd::prelude::*;

verus! {

/// One real unit, in fixed-point units.
pub const SCALE: i64 = 1_000_000;

/// Largest magnitude of a label or of a running prediction during training.
pub const VALUE_LIMIT: i64 = 4_294_967_296;

/// Largest number of rows a training set may hold.
pub const MAX_ROWS: u64 = 1_048_576;

/// Largest number of histogram bins per feature.
pub const MAX_BINS: u32 = 256;

/// Largest magnitude of a leaf weight in a model.
pub const WEIGHT_LIMIT: i64 = 9_007_199_254_740_992;

/// Largest magnitude of the regularisation settings.
pub const PARAM_LIMIT: i64 = 1_099_511_627_776;

/// Integer division rounded toward zero, for a positive divisor.
pub open spec fn trunc_div(a: int, d: int) -> int {
    if a >= 0 {
        a / d
    } else {
        -((-a) / d)
    }
}

pub open spec fn abs(a: int) -> int {
    if a >= 0 {
        a
    } else {
        -a
    }
}

/// Division rounded toward zero never grows the magnitude beyond `|a| / d`.
pub proof fn lemma_trunc_div_bound(a: int, d: int, m: int)
    requires
        d > 0,
        abs(a) <= m * d,
        m >= 0,
    ensures
        abs(trunc_div(a, d)) <= m,
{
    let x = abs(a);
    assert(x / d <= m) by (nonlinear_arith)
        requires
            x <= m * d,
            d > 0,
            x >= 0,
    ;
    assert(x / d >= 0) by (nonlinear_arith)
        requires
            d > 0,
            x >= 0,
    ;
}

/// `a / d` with rounding toward zero, on machine integers.
pub fn div_trunc_i128(a: i128, d: i128) -> (r: i128)
    requires
        d > 0,
        a > i128::MIN,
    ensures
        r == trunc_div(a as int, d as int),
{
    if a >= 0 {
        a / d
    } else {
        let q = (-a) / d;
        -q
    }
}

} // verus!
