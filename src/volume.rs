//! The volume that a change leads to: applied, clamped to `[0, MAX_VOLUME]`
//! and rounded to hundredths.
use vstd::prelude::*;
use vstd::arithmetic::div_mod::{
    lemma_fundamental_div_mod,
    lemma_fundamental_div_mod_converse_div,
};
use crate::change::Change;
use crate::decimal::{
    APPLIED_LIMIT,
    Decimal,
    pow10,
    pow10_u128,
    lemma_pow10_36,
    lemma_pow10_add,
    lemma_pow10_monotone,
    lemma_pow10_positive,
};

verus! {

/// The largest volume written back, in hundredths (2.0).
pub const MAX_VOLUME_HUNDREDTHS: i128 = 200;

/// The number `x` clamped to `[0, 2]` and rounded to the nearest hundredth
/// (a half rounds up), counted in hundredths.
pub open spec fn clamped_hundredths(x: (int, nat)) -> int {
    if x.0 <= 0 {
        0
    } else if x.0 >= 2 * pow10(x.1) {
        MAX_VOLUME_HUNDREDTHS as int
    } else {
        (200 * x.0 + pow10(x.1)) / (2 * pow10(x.1)) as int
    }
}

/// The volume that `change` makes of `current`: `change.apply(current)`,
/// clamped to `[0.0, 2.0]`, rounded to two decimal places. The result has
/// scale 2.
pub fn new_volume(current: Decimal, change: Change) -> (r: Decimal)
    requires
        current.is_bounded(),
        change.is_bounded(),
    ensures
        r.scale == 2,
        r.mantissa == clamped_hundredths(change.spec_apply(current@)),
        0 <= r.mantissa <= MAX_VOLUME_HUNDREDTHS,
{
    let applied = change.apply(current);
    clamp_round(applied)
}

/// `x` clamped to `[0.0, 2.0]` and rounded to hundredths.
pub fn clamp_round(x: Decimal) -> (r: Decimal)
    requires
        x.scale <= 38,
        -APPLIED_LIMIT < x.mantissa < APPLIED_LIMIT,
    ensures
        r.scale == 2,
        r.mantissa == clamped_hundredths(x@),
        0 <= r.mantissa <= MAX_VOLUME_HUNDREDTHS,
{
    proof {
        lemma_clamped_hundredths_in_range(x@);
    }
    if x.mantissa <= 0 {
        return Decimal { mantissa: 0, scale: 2 };
    }
    let m = x.mantissa as u128;
    let p = pow10_u128(x.scale);
    proof {
        lemma_pow10_36();
        lemma_pow10_add(2, 36);
        reveal_with_fuel(pow10, 39);
        assert(pow10(38) == 100_000_000_000_000_000_000_000_000_000_000_000_000);
        lemma_pow10_monotone(x.scale as nat, 38);
        lemma_pow10_monotone(36, 38);
    }
    if m >= 2 * p {
        return Decimal { mantissa: MAX_VOLUME_HUNDREDTHS, scale: 2 };
    }
    let ghost n = 200 * m + p;
    let ghost d = 2 * p;
    let h: u128;
    if x.scale >= 2 {
        let q = pow10_u128(x.scale - 2);
        proof {
            lemma_pow10_add(2, (x.scale - 2) as nat);
            lemma_pow10_positive((x.scale - 2) as nat);
            lemma_fundamental_div_mod(m as int, q as int);
        }
        let h0 = m / q;
        let rem = m % q;
        if 2 * rem >= q {
            h = h0 + 1;
            assert(n == h * d + (n - h * d) && 0 <= n - h * d < d) by (nonlinear_arith)
                requires
                    m == q * h0 + rem,
                    0 <= rem < q,
                    2 * rem >= q,
                    p == 100 * q,
                    n == 200 * m + p,
                    d == 2 * p,
                    h == h0 + 1,
            ;
        } else {
            h = h0;
            assert(n == h * d + (n - h * d) && 0 <= n - h * d < d) by (nonlinear_arith)
                requires
                    m == q * h0 + rem,
                    0 <= rem < q,
                    2 * rem < q,
                    p == 100 * q,
                    n == 200 * m + p,
                    d == 2 * p,
                    h == h0,
            ;
        }
    } else {
        let t = pow10_u128(2 - x.scale);
        proof {
            lemma_pow10_add(x.scale as nat, (2 - x.scale) as nat);
        }
        assert(m * t < 200) by (nonlinear_arith)
            requires
                m < 2 * p,
                p * t == 100,
        ;
        h = m * t;
        assert(n == h * d + (n - h * d) && 0 <= n - h * d < d) by (nonlinear_arith)
            requires
                p * t == 100,
                1 <= p,
                n == 200 * m + p,
                d == 2 * p,
                h == m * t,
        ;
    }
    proof {
        lemma_fundamental_div_mod_converse_div(n, d, h as int, n - h * d);
    }
    Decimal { mantissa: h as i128, scale: 2 }
}

/// A clamped and rounded volume lies in `[0.0, 2.0]`, and within half a
/// hundredth of the clamped value: for `0 < x < 2`, with `h` the result,
/// `h/100 - 1/200 <= x < h/100 + 1/200`.
pub proof fn lemma_clamped_hundredths_in_range(x: (int, nat))
    ensures
        0 <= clamped_hundredths(x) <= MAX_VOLUME_HUNDREDTHS,
        0 < x.0 < 2 * pow10(x.1) ==> {
            let h = clamped_hundredths(x);
            &&& (2 * h - 1) * pow10(x.1) <= 200 * x.0
            &&& 200 * x.0 < (2 * h + 1) * pow10(x.1)
        },
{
    lemma_pow10_positive(x.1);
    if 0 < x.0 < 2 * pow10(x.1) {
        let p = pow10(x.1) as int;
        let n = 200 * x.0 + p;
        let d = 2 * p;
        lemma_fundamental_div_mod(n, d);
        let h = n / d;
        assert(0 <= h <= 200 && (2 * h - 1) * p <= 200 * x.0 && 200 * x.0 < (2 * h + 1) * p)
            by (nonlinear_arith)
            requires
                n == d * h + n % d,
                0 <= n % d < d,
                p >= 1,
                d == 2 * p,
                n == 200 * x.0 + p,
                0 < x.0 < 2 * p,
        ;
    }
}

} // verus!
