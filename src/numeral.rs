//! Decimal numerals: an optional sign, then digits with at most one `.`
//! among them, at least one digit. A float text may add an exponent:
//! `e` or `E`, an optional sign, and digits.
use vstd::prelude::*;
use crate::decimal::{
    Decimal,
    MANTISSA_LIMIT,
    MAX_SCALE,
    pow10,
    pow10_u128,
    lemma_pow10_36,
    lemma_pow10_monotone,
    lemma_pow10_positive,
};

verus! {

pub const PLUS: u8 = 43;

pub const MINUS: u8 = 45;

pub const DOT: u8 = 46;

pub open spec fn is_digit(c: u8) -> bool {
    48 <= c <= 57
}

pub open spec fn is_sign(c: u8) -> bool {
    c == PLUS || c == MINUS
}

/// A character of the part of a numeral after its sign.
pub open spec fn is_digit_or_dot(c: u8) -> bool {
    is_digit(c) || c == DOT
}

pub open spec fn count_dots(d: Seq<u8>) -> nat
    decreases d.len(),
{
    if d.len() == 0 {
        0
    } else {
        count_dots(d.drop_last()) + if d.last() == DOT { 1nat } else { 0nat }
    }
}

pub open spec fn count_digits(d: Seq<u8>) -> nat
    decreases d.len(),
{
    if d.len() == 0 {
        0
    } else {
        count_digits(d.drop_last()) + if is_digit(d.last()) { 1nat } else { 0nat }
    }
}

/// The integer that the digits of `d` spell, dots left out.
pub open spec fn digits_value(d: Seq<u8>) -> nat
    decreases d.len(),
{
    if d.len() == 0 {
        0
    } else if is_digit(d.last()) {
        digits_value(d.drop_last()) * 10 + (d.last() - 48) as nat
    } else {
        digits_value(d.drop_last())
    }
}

/// How many digits of `d` stand after its first dot.
pub open spec fn fraction_len(d: Seq<u8>) -> nat
    decreases d.len(),
{
    if d.len() == 0 {
        0
    } else {
        fraction_len(d.drop_last()) + if is_digit(d.last()) && count_dots(d.drop_last()) > 0 {
            1nat
        } else {
            0nat
        }
    }
}

/// `d` without the zeros that end its fraction: `1.500` is `1.5`, `2.00`
/// is `2.`, and `100` stays as it is.
pub open spec fn drop_fraction_zeros(d: Seq<u8>) -> Seq<u8>
    decreases d.len(),
{
    if d.len() > 0 && d.last() == 48 && count_dots(d.drop_last()) > 0 {
        drop_fraction_zeros(d.drop_last())
    } else {
        d
    }
}

/// Length of the sign at the front of `t`: 1 or 0.
pub open spec fn sign_len(t: Seq<u8>) -> int {
    if t.len() > 0 && is_sign(t[0]) {
        1
    } else {
        0
    }
}

/// The part of `t` after its sign.
pub open spec fn unsigned_part(t: Seq<u8>) -> Seq<u8> {
    t.subrange(sign_len(t), t.len() as int)
}

/// `t` is a numeral: optional sign, then digits and dots only, with at
/// least one digit and at most one dot.
pub open spec fn is_numeral(t: Seq<u8>) -> bool {
    let d = unsigned_part(t);
    &&& forall|i: int| 0 <= i < d.len() ==> is_digit_or_dot(#[trigger] d[i])
    &&& count_digits(d) >= 1
    &&& count_dots(d) <= 1
}

/// The number that the numeral `t` writes, as (mantissa, scale), with no
/// zeros at the end of its fraction.
pub open spec fn numeral_value(t: Seq<u8>) -> (int, nat) {
    let d = drop_fraction_zeros(unsigned_part(t));
    let m = digits_value(d) as int;
    (if t.len() > 0 && t[0] == MINUS { -m } else { m }, fraction_len(d))
}

/// The value of the numeral `t` fits the bounds of `Decimal::is_bounded`.
pub open spec fn numeral_fits(t: Seq<u8>) -> bool {
    let d = drop_fraction_zeros(unsigned_part(t));
    digits_value(d) < MANTISSA_LIMIT && fraction_len(d) <= MAX_SCALE
}

/// Why a text is not a numeral that this library can hold.
#[derive(Clone, Copy, Debug, PartialEq, Eq, Structural)]
pub enum NumeralError {
    /// Not a numeral at all.
    Invalid,
    /// A numeral whose value has too many digits for a `Decimal`.
    TooLong,
}

proof fn lemma_prefix_step(t: Seq<u8>, lo: int, i: int)
    requires
        0 <= lo <= i < t.len(),
    ensures
        t.subrange(lo, i + 1).drop_last() == t.subrange(lo, i),
        t.subrange(lo, i + 1).last() == t[i],
{
    assert(t.subrange(lo, i + 1).drop_last() =~= t.subrange(lo, i));
}

/// Digits only grow the value and the fraction length of a prefix.
proof fn lemma_prefix_monotone(t: Seq<u8>, lo: int, i: int, j: int)
    requires
        0 <= lo <= i <= j <= t.len(),
    ensures
        digits_value(t.subrange(lo, i)) <= digits_value(t.subrange(lo, j)),
        fraction_len(t.subrange(lo, i)) <= fraction_len(t.subrange(lo, j)),
    decreases j - i,
{
    if i < j {
        lemma_prefix_monotone(t, lo, i, j - 1);
        lemma_prefix_step(t, lo, j - 1);
    }
}

/// A dot at `k` is counted in every prefix that reaches past it.
proof fn lemma_dot_counted(t: Seq<u8>, lo: int, k: int, j: int)
    requires
        0 <= lo <= k < j <= t.len(),
        t[k] == DOT,
    ensures
        count_dots(t.subrange(lo, j)) > 0,
    decreases j - k,
{
    lemma_prefix_step(t, lo, j - 1);
    if k < j - 1 {
        lemma_dot_counted(t, lo, k, j - 1);
    }
}

/// Reads the numeral `t[start..end]` as a `Decimal`.
pub fn parse_numeral(t: &[u8], start: usize, end: usize) -> (r: Result<Decimal, NumeralError>)
    requires
        start <= end <= t@.len(),
    ensures
        ({
            let s = t@.subrange(start as int, end as int);
            match r {
                Ok(v) => is_numeral(s) && numeral_fits(s) && v@ == numeral_value(s)
                    && v.is_bounded(),
                Err(NumeralError::Invalid) => !is_numeral(s),
                Err(NumeralError::TooLong) => is_numeral(s) && !numeral_fits(s),
            }
        }),
{
    let ghost s = t@.subrange(start as int, end as int);
    let negative = start < end && t[start] == MINUS;
    let lo: usize = if start < end && (t[start] == PLUS || t[start] == MINUS) {
        start + 1
    } else {
        start
    };
    let ghost d = t@.subrange(lo as int, end as int);
    assert(d =~= unsigned_part(s));
    // shape: digits and dots only, some digit, at most one dot
    let mut dots: usize = 0;
    let mut digits: usize = 0;
    let mut dot_at: usize = lo;
    let mut i: usize = lo;
    while i < end
        invariant
            lo <= i <= end <= t@.len(),
            dots == count_dots(t@.subrange(lo as int, i as int)),
            digits == count_digits(t@.subrange(lo as int, i as int)),
            digits <= i - lo,
            dots <= i - lo,
            forall|k: int| lo <= k < i ==> is_digit_or_dot(#[trigger] t@[k]),
            d == t@.subrange(lo as int, end as int),
            s == t@.subrange(start as int, end as int),
            d == unsigned_part(s),
            dots > 0 ==> lo <= dot_at < i && t@[dot_at as int] == DOT,
        decreases end - i,
    {
        proof {
            lemma_prefix_step(t@, lo as int, i as int);
        }
        let c = t[i];
        if c == DOT {
            dots = dots + 1;
            dot_at = i;
        } else if 48 <= c && c <= 57 {
            digits = digits + 1;
        } else {
            assert(d[i - lo] == t@[i as int]);
            assert(!is_digit_or_dot(d[i - lo]));
            return Err(NumeralError::Invalid);
        }
        i = i + 1;
    }
    assert(t@.subrange(lo as int, end as int) == d);
    if digits == 0 || dots > 1 {
        return Err(NumeralError::Invalid);
    }
    assert(is_numeral(s)) by {
        assert forall|k: int| 0 <= k < d.len() implies is_digit_or_dot(#[trigger] d[k]) by {
            assert(d[k] == t@[lo + k]);
        }
    }
    // the fraction without its trailing zeros
    let mut hi: usize = end;
    if dots == 1 {
        while hi > dot_at + 1 && t[hi - 1] == 48
            invariant
                lo <= dot_at < hi <= end <= t@.len(),
                t@[dot_at as int] == DOT,
                drop_fraction_zeros(t@.subrange(lo as int, hi as int)) == drop_fraction_zeros(d),
                d == t@.subrange(lo as int, end as int),
            decreases hi,
        {
            proof {
                lemma_prefix_step(t@, lo as int, hi - 1);
                lemma_dot_counted(t@, lo as int, dot_at as int, hi - 1);
            }
            hi = hi - 1;
        }
        assert(t@.subrange(lo as int, hi as int).last() == t@[hi - 1]);
    } else {
        assert(d.len() > 0 && count_dots(d.drop_last()) == 0);
    }
    let ghost z = t@.subrange(lo as int, hi as int);
    assert(z == drop_fraction_zeros(d));
    // value
    let mut m: i128 = 0;
    let mut frac: u32 = 0;
    let mut seen_dot = false;
    let mut i: usize = lo;
    while i < hi
        invariant
            lo <= i <= hi <= end <= t@.len(),
            z == t@.subrange(lo as int, hi as int),
            z == drop_fraction_zeros(d),
            0 <= m < MANTISSA_LIMIT,
            frac <= MAX_SCALE,
            m == digits_value(t@.subrange(lo as int, i as int)),
            frac == fraction_len(t@.subrange(lo as int, i as int)),
            seen_dot == (count_dots(t@.subrange(lo as int, i as int)) > 0),
            d == t@.subrange(lo as int, end as int),
            s == t@.subrange(start as int, end as int),
            d == unsigned_part(s),
            is_numeral(s),
        decreases hi - i,
    {
        proof {
            lemma_prefix_step(t@, lo as int, i as int);
            lemma_prefix_monotone(t@, lo as int, i as int + 1, hi as int);
        }
        let c = t[i];
        if c == DOT {
            seen_dot = true;
        } else if 48 <= c && c <= 57 {
            let digit = (c - 48) as i128;
            let ghost next = t@.subrange(lo as int, i + 1);
            assert(digits_value(next) == m * 10 + digit);
            if m > (MANTISSA_LIMIT - 1 - digit) / 10 {
                assert(m * 10 + digit >= MANTISSA_LIMIT) by (nonlinear_arith)
                    requires
                        m > (MANTISSA_LIMIT - 1 - digit) / 10,
                        0 <= digit <= 9,
                ;
                return Err(NumeralError::TooLong);
            }
            assert(m * 10 + digit < MANTISSA_LIMIT) by (nonlinear_arith)
                requires
                    m <= (MANTISSA_LIMIT - 1 - digit) / 10,
                    0 <= digit <= 9,
            ;
            if seen_dot {
                if frac >= MAX_SCALE {
                    assert(fraction_len(next) == frac + 1);
                    return Err(NumeralError::TooLong);
                }
                frac = frac + 1;
            }
            m = m * 10 + digit;
        }
        i = i + 1;
    }
    let mantissa = if negative { -m } else { m };
    Ok(Decimal { mantissa, scale: frac })
}

/// `e` or `E`, which opens the exponent of a float text.
pub open spec fn is_exp_char(c: u8) -> bool {
    c == 101 || c == 69
}

/// The first index at or after `i` that holds `e` or `E`, else `t.len()`.
pub open spec fn exp_at(t: Seq<u8>, i: int) -> int
    decreases t.len() - i,
{
    if 0 <= i < t.len() && !is_exp_char(t[i]) {
        exp_at(t, i + 1)
    } else {
        i
    }
}

/// The part of a float text before its exponent.
pub open spec fn mantissa_part(t: Seq<u8>) -> Seq<u8> {
    t.subrange(0, exp_at(t, 0))
}

/// The exponent of a float text, after `e`; empty where there is none.
pub open spec fn exponent_part(t: Seq<u8>) -> Seq<u8> {
    let p = exp_at(t, 0);
    if p < t.len() {
        t.subrange(p + 1, t.len() as int)
    } else {
        Seq::empty()
    }
}

/// An optional sign, then one or more digits.
pub open spec fn is_exponent(x: Seq<u8>) -> bool {
    let d = unsigned_part(x);
    d.len() > 0 && forall|i: int| 0 <= i < d.len() ==> is_digit(#[trigger] d[i])
}

pub open spec fn exponent_value(x: Seq<u8>) -> int {
    let v = digits_value(unsigned_part(x)) as int;
    if x.len() > 0 && x[0] == MINUS {
        -v
    } else {
        v
    }
}

/// The number `v` times `10^e`.
pub open spec fn scaled(v: (int, nat), e: int) -> (int, nat) {
    if e <= v.1 {
        (v.0, (v.1 - e) as nat)
    } else {
        (v.0 * pow10((e - v.1) as nat), 0)
    }
}

/// `t` is a decimal float text: a numeral, then optionally `e` or `E` and
/// an exponent.
pub open spec fn is_float_text(t: Seq<u8>) -> bool {
    is_numeral(mantissa_part(t)) && (exp_at(t, 0) == t.len() || is_exponent(exponent_part(t)))
}

pub open spec fn float_value(t: Seq<u8>) -> (int, nat) {
    scaled(numeral_value(mantissa_part(t)), exponent_value(exponent_part(t)))
}

/// The numeral before the exponent fits a `Decimal`, and so does the value.
pub open spec fn float_fits(t: Seq<u8>) -> bool {
    let v = float_value(t);
    numeral_fits(mantissa_part(t)) && v.1 <= MAX_SCALE && -MANTISSA_LIMIT < v.0 < MANTISSA_LIMIT
}

/// The largest exponent magnitude told apart: any larger one puts the value
/// beyond the bounds of a `Decimal`, unless the numeral is zero.
pub const EXPONENT_CAP: u32 = 1000;

/// Reads the float text `t[start..end]` as a `Decimal`.
pub fn parse_float_text(t: &[u8], start: usize, end: usize) -> (r: Result<Decimal, NumeralError>)
    requires
        start <= end <= t@.len(),
    ensures
        ({
            let s = t@.subrange(start as int, end as int);
            match r {
                Ok(v) => is_float_text(s) && float_fits(s) && v@ == float_value(s)
                    && v.is_bounded(),
                Err(NumeralError::Invalid) => !is_float_text(s),
                Err(NumeralError::TooLong) => is_float_text(s) && !float_fits(s),
            }
        }),
{
    let ghost s = t@.subrange(start as int, end as int);
    let mut p: usize = start;
    while p < end && !(t[p] == 101 || t[p] == 69)
        invariant
            start <= p <= end <= t@.len(),
            s == t@.subrange(start as int, end as int),
            exp_at(s, p - start) == exp_at(s, 0),
        decreases end - p,
    {
        p = p + 1;
    }
    assert(exp_at(s, p - start) == p - start);
    assert(t@.subrange(start as int, p as int) =~= mantissa_part(s));
    if p == end {
        assert(exponent_part(s) =~= Seq::<u8>::empty());
        assert(unsigned_part(exponent_part(s)) =~= Seq::<u8>::empty());
        return parse_numeral(t, start, end);
    }
    let ghost x = t@.subrange(p + 1, end as int);
    assert(x =~= exponent_part(s));
    // exponent: optional sign, then digits
    let mut q: usize = p + 1;
    let negative = q < end && t[q] == MINUS;
    if q < end && (t[q] == PLUS || t[q] == MINUS) {
        q = q + 1;
    }
    let ghost xd = t@.subrange(q as int, end as int);
    assert(xd =~= unsigned_part(x));
    assert(exp_at(s, 0) < s.len());
    if q == end {
        assert(xd.len() == 0);
        assert(exp_at(s, 0) < s.len());
        return Err(NumeralError::Invalid);
    }
    let mut ev: u32 = 0;
    let mut i: usize = q;
    while i < end
        invariant
            q <= i <= end <= t@.len(),
            xd == t@.subrange(q as int, end as int),
            xd == unsigned_part(x),
            x == exponent_part(s),
            s == t@.subrange(start as int, end as int),
            exp_at(s, 0) < s.len(),
            forall|k: int| q <= k < i ==> is_digit(#[trigger] t@[k]),
            ev == if digits_value(t@.subrange(q as int, i as int)) >= EXPONENT_CAP {
                EXPONENT_CAP as nat
            } else {
                digits_value(t@.subrange(q as int, i as int))
            },
        decreases end - i,
    {
        proof {
            lemma_prefix_step(t@, q as int, i as int);
        }
        let c = t[i];
        if !(48 <= c && c <= 57) {
            assert(xd[i - q] == t@[i as int]);
            assert(!is_digit(xd[i - q]));
            assert(!is_exponent(x));
            return Err(NumeralError::Invalid);
        }
        if ev < EXPONENT_CAP {
            ev = if ev * 10 + (c - 48) as u32 >= EXPONENT_CAP {
                EXPONENT_CAP
            } else {
                ev * 10 + (c - 48) as u32
            };
        }
        i = i + 1;
    }
    assert(is_exponent(x)) by {
        assert forall|k: int| 0 <= k < xd.len() implies is_digit(#[trigger] xd[k]) by {
            assert(xd[k] == t@[q + k]);
        }
    }
    assert(xd == t@.subrange(q as int, end as int));
    let v = match parse_numeral(t, start, p) {
        Ok(v) => v,
        Err(e) => {
            return Err(e);
        },
    };
    let ghost e = exponent_value(x);
    assert(negative <==> x.len() > 0 && x[0] == MINUS);
    proof {
        lemma_pow10_36();
    }
    if negative {
        // the value is v / 10^ev: only its scale grows
        if v.scale + ev > MAX_SCALE {
            return Err(NumeralError::TooLong);
        }
        return Ok(Decimal { mantissa: v.mantissa, scale: v.scale + ev });
    }
    if ev <= v.scale {
        return Ok(Decimal { mantissa: v.mantissa, scale: v.scale - ev });
    }
    let k = ev - v.scale;
    if v.mantissa == 0 {
        assert(0 * pow10((e - v.scale) as nat) == 0);
        return Ok(Decimal { mantissa: 0, scale: 0 });
    }
    if k >= 18 {
        proof {
            lemma_pow10_monotone(18, (e - v.scale) as nat);
            let a = v.mantissa as int;
            let pk = pow10((e - v.scale) as nat) as int;
            assert(a * pk >= MANTISSA_LIMIT || a * pk <= -MANTISSA_LIMIT) by (nonlinear_arith)
                requires
                    a != 0,
                    pk >= MANTISSA_LIMIT,
            ;
        }
        return Err(NumeralError::TooLong);
    }
    let pk = pow10_u128(k) as i128;
    proof {
        lemma_pow10_monotone(k as nat, 18);
        lemma_pow10_positive(k as nat);
    }
    let a = v.mantissa;
    assert(-pow10(36) < a * pk < pow10(36)) by (nonlinear_arith)
        requires
            -pow10(18) < a < pow10(18),
            1 <= pk <= pow10(18),
            pow10(36) == pow10(18) * pow10(18),
    ;
    let m = a * pk;
    if m <= -MANTISSA_LIMIT || m >= MANTISSA_LIMIT {
        return Err(NumeralError::TooLong);
    }
    Ok(Decimal { mantissa: m, scale: 0 })
}

} // verus!
