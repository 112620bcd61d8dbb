//! What the two audio-control tools print and take: wpctl reports a volume
//! as a plain number (`Volume: 0.45`), pactl as a percentage
//! (`Volume: front-left: 29491 /  45% / ...`).
use vstd::prelude::*;
use vstd::string::StringSliceAdditionalSpecFns;
use vstd::utf8::encode_utf8;
use crate::change::PERCENT;
use crate::decimal::{Decimal, MAX_SCALE};
use crate::numeral::{
    DOT,
    NumeralError,
    float_fits,
    float_value,
    is_float_text,
    is_numeral,
    numeral_fits,
    numeral_value,
    parse_float_text,
    parse_numeral,
};

verus! {

/// The line prefix under which both tools report a volume.
pub const VOLUME_PREFIX_LEN: usize = 8;

/// `Volume: `
pub open spec fn volume_prefix() -> Seq<u8> {
    seq![86u8, 111, 108, 117, 109, 101, 58, 32]
}

/// Why a tool's output gave no volume.
#[derive(Clone, Copy, Debug, PartialEq, Eq, Structural)]
pub enum QueryError {
    /// The output does not report a volume where one is expected.
    NoVolume,
    /// The reported volume is not a decimal number.
    InvalidNumber,
    /// The reported volume has more digits than a `Decimal` of this library holds.
    TooLong,
}

pub open spec fn has_volume_prefix(b: Seq<u8>) -> bool {
    b.len() >= VOLUME_PREFIX_LEN && b.subrange(0, VOLUME_PREFIX_LEN as int) == volume_prefix()
}

/// Tab, line feed, vertical tab, form feed, carriage return, space.
pub open spec fn is_ascii_space(c: u8) -> bool {
    (9 <= c <= 13) || c == 32
}

/// The first index at or after `i` that does not hold white space.
pub open spec fn skip_space(b: Seq<u8>, i: int) -> int
    decreases b.len() - i,
{
    if 0 <= i < b.len() && is_ascii_space(b[i]) {
        skip_space(b, i + 1)
    } else {
        i
    }
}

/// The end of `b[lo..j]` once white space at its end is left out.
pub open spec fn trim_end(b: Seq<u8>, lo: int, j: int) -> int
    decreases j - lo,
{
    if lo < j && is_ascii_space(b[j - 1]) {
        trim_end(b, lo, j - 1)
    } else {
        j
    }
}

/// What wpctl reports after `Volume: `, without surrounding white space.
pub open spec fn wpctl_number(b: Seq<u8>) -> Seq<u8> {
    let lo = skip_space(b, VOLUME_PREFIX_LEN as int);
    b.subrange(lo, trim_end(b, lo, b.len() as int))
}

fn starts_with_volume_prefix(b: &[u8]) -> (r: bool)
    ensures
        r == has_volume_prefix(b@),
{
    if b.len() < VOLUME_PREFIX_LEN {
        return false;
    }
    let r = b[0] == 86 && b[1] == 111 && b[2] == 108 && b[3] == 117 && b[4] == 109 && b[5] == 101
        && b[6] == 58 && b[7] == 32;
    assert(r == (b@.subrange(0, VOLUME_PREFIX_LEN as int) =~= volume_prefix()));
    r
}

/// Where pactl's report holds the volume: a percentage, as the first
/// match of this pattern, its digits in the group `number`.
pub const PACTL_VOLUME_PATTERN: &'static str = r"(?<number>\d+(.\d+)?)%";

pub const PACTL_VOLUME_GROUP: &'static str = "number";

/// The text of capture group `group` in the leftmost-first match of the
/// regular expression `pattern` in `text`: `None` where the pattern does not
/// compile, nothing matches, the pattern has no group of that name, or the
/// group took no part in the match.
pub uninterp spec fn regex_capture(pattern: Seq<char>, group: Seq<char>, text: Seq<char>) -> Option<
    Seq<char>,
>;

/// Relies on regex's `Regex::new`, `Regex::captures` and `Captures::name`,
/// which together find the text of a named group in the first match.
#[verifier::external_body]
fn capture_group(pattern: &str, group: &str, text: &str) -> (r: Option<String>)
    ensures
        match r {
            Some(c) => regex_capture(pattern@, group@, text@) == Some(c@),
            None => regex_capture(pattern@, group@, text@) is None,
        },
{
    let re = regex::Regex::new(pattern).ok()?;
    let caps = re.captures(text)?;
    caps.name(group).map(|m| m.as_str().to_owned())
}

fn numeral_error(e: NumeralError) -> (r: QueryError)
    ensures
        e is Invalid ==> r is InvalidNumber,
        e is TooLong ==> r is TooLong,
{
    match e {
        NumeralError::Invalid => QueryError::InvalidNumber,
        NumeralError::TooLong => QueryError::TooLong,
    }
}

/// Reads the volume out of what `wpctl get-volume` printed: `Volume: `,
/// then a decimal number, with an optional exponent (`1e-1`), and optional
/// ASCII white space around it.
pub fn volume_from_wpctl_output(output: &str) -> (r: Result<Decimal, QueryError>)
    ensures
        ({
            let b = output.spec_bytes();
            let t = wpctl_number(b);
            match r {
                Ok(v) => has_volume_prefix(b) && is_float_text(t) && float_fits(t) && v@
                    == float_value(t) && v.is_bounded(),
                Err(QueryError::NoVolume) => !has_volume_prefix(b),
                Err(QueryError::InvalidNumber) => has_volume_prefix(b) && !is_float_text(t),
                Err(QueryError::TooLong) => has_volume_prefix(b) && is_float_text(t) && !float_fits(
                    t,
                ),
            }
        }),
{
    let b = output.as_bytes();
    if !starts_with_volume_prefix(b) {
        return Err(QueryError::NoVolume);
    }
    let mut lo: usize = VOLUME_PREFIX_LEN;
    while lo < b.len() && (9 <= b[lo] && b[lo] <= 13 || b[lo] == 32)
        invariant
            VOLUME_PREFIX_LEN <= lo <= b@.len(),
            skip_space(b@, lo as int) == skip_space(b@, VOLUME_PREFIX_LEN as int),
        decreases b.len() - lo,
    {
        lo = lo + 1;
    }
    let mut hi: usize = b.len();
    while hi > lo && (9 <= b[hi - 1] && b[hi - 1] <= 13 || b[hi - 1] == 32)
        invariant
            lo <= hi <= b@.len(),
            trim_end(b@, lo as int, hi as int) == trim_end(b@, lo as int, b@.len() as int),
        decreases hi,
    {
        hi = hi - 1;
    }
    assert(b@.subrange(lo as int, hi as int) == wpctl_number(b@));
    match parse_float_text(b, lo, hi) {
        Ok(v) => Ok(v),
        Err(e) => Err(numeral_error(e)),
    }
}

/// What pactl's percentage, spelled by the bytes `t`, gives as a volume,
/// where 1.0 is 100%: the number divided by 100. At most `MAX_SCALE - 2`
/// fractional digits, zeros at the end left out, are taken, so that the
/// volume stays bounded.
pub open spec fn pactl_volume_outcome(t: Seq<u8>, r: Result<Decimal, QueryError>) -> bool {
    let fits = numeral_fits(t) && numeral_value(t).1 + 2 <= MAX_SCALE;
    match r {
        Ok(v) => is_numeral(t) && fits && v@ == (numeral_value(t).0, numeral_value(t).1 + 2)
            && v.is_bounded(),
        Err(QueryError::NoVolume) => false,
        Err(QueryError::InvalidNumber) => !is_numeral(t),
        Err(QueryError::TooLong) => is_numeral(t) && !fits,
    }
}

/// pactl's percentage `number` as a volume, where 1.0 is 100%.
pub fn volume_from_pactl_number(number: &str) -> (r: Result<Decimal, QueryError>)
    ensures
        pactl_volume_outcome(number.spec_bytes(), r),
{
    let b = number.as_bytes();
    assert(b@.subrange(0, b@.len() as int) == b@);
    match parse_numeral(b, 0, b.len()) {
        Ok(v) => {
            if v.scale > MAX_SCALE - 2 {
                Err(QueryError::TooLong)
            } else {
                Ok(Decimal { mantissa: v.mantissa, scale: v.scale + 2 })
            }
        },
        Err(e) => Err(numeral_error(e)),
    }
}

/// Reads the volume out of what `pactl get-sink-volume` printed: it starts
/// with `Volume: ` and holds a percentage, the first match of
/// `PACTL_VOLUME_PATTERN`; that percentage divided by 100.
pub fn volume_from_pactl_output(output: &str) -> (r: Result<Decimal, QueryError>)
    ensures
        !has_volume_prefix(output.spec_bytes()) ==> r == Err::<Decimal, QueryError>(
            QueryError::NoVolume,
        ),
        has_volume_prefix(output.spec_bytes()) ==> match regex_capture(
            PACTL_VOLUME_PATTERN@,
            PACTL_VOLUME_GROUP@,
            output@,
        ) {
            None => r == Err::<Decimal, QueryError>(QueryError::NoVolume),
            Some(c) => pactl_volume_outcome(encode_utf8(c), r),
        },
{
    if !starts_with_volume_prefix(output.as_bytes()) {
        return Err(QueryError::NoVolume);
    }
    match capture_group(PACTL_VOLUME_PATTERN, PACTL_VOLUME_GROUP, output) {
        None => Err(QueryError::NoVolume),
        Some(c) => volume_from_pactl_number(c.as_str()),
    }
}

pub open spec fn digit_char(n: nat) -> u8 {
    (48 + n) as u8
}

/// The decimal digits of `n`, without leading zeros.
pub open spec fn decimal_text(n: nat) -> Seq<u8>
    decreases n,
{
    if n < 10 {
        seq![digit_char(n)]
    } else {
        decimal_text(n / 10).push(digit_char(n % 10))
    }
}

/// `h` hundredths as a decimal number, with no zeros at the end of its
/// fraction and no point where the fraction is zero: 45 is `0.45`, 50 is
/// `0.5`, 200 is `2`.
pub open spec fn hundredths_text(h: nat) -> Seq<u8> {
    let whole = decimal_text(h / 100);
    let f = h % 100;
    if f == 0 {
        whole
    } else if f % 10 == 0 {
        whole + seq![DOT, digit_char(f / 10)]
    } else {
        whole + seq![DOT, digit_char(f / 10), digit_char(f % 10)]
    }
}

/// Appends the decimal digits of `n` to `out`.
fn push_decimal(out: &mut Vec<u8>, n: u32)
    requires
        n < 1000,
    ensures
        final(out)@ == old(out)@ + decimal_text(n as nat),
{
    proof {
        reveal_with_fuel(decimal_text, 3);
    }
    if n >= 100 {
        out.push((48 + n / 100) as u8);
        out.push((48 + n / 10 % 10) as u8);
        out.push((48 + n % 10) as u8);
        assert(decimal_text(n as nat) =~= seq![
            digit_char((n / 100) as nat),
            digit_char((n / 10 % 10) as nat),
            digit_char((n % 10) as nat),
        ]);
    } else if n >= 10 {
        out.push((48 + n / 10) as u8);
        out.push((48 + n % 10) as u8);
        assert(decimal_text(n as nat) =~= seq![digit_char((n / 10) as nat), digit_char((n % 10) as nat)]);
    } else {
        out.push((48 + n) as u8);
        assert(decimal_text(n as nat) =~= seq![digit_char(n as nat)]);
    }
}

/// A volume of the shape that `new_volume` gives: hundredths in `[0, 2]`.
pub open spec fn is_written_volume(v: Decimal) -> bool {
    v.scale == 2 && 0 <= v.mantissa <= 200
}

/// The argument that `wpctl set-volume` takes for `v`: the volume itself,
/// as in `0.45`.
pub fn wpctl_volume_text(v: Decimal) -> (r: Vec<u8>)
    requires
        is_written_volume(v),
    ensures
        r@ == hundredths_text(v.mantissa as nat),
{
    let h = v.mantissa as u32;
    let mut r: Vec<u8> = Vec::new();
    push_decimal(&mut r, h / 100);
    let f = h % 100;
    if f != 0 {
        r.push(DOT);
        r.push((48 + f / 10) as u8);
        if f % 10 != 0 {
            r.push((48 + f % 10) as u8);
        }
    }
    assert(r@ =~= hundredths_text(v.mantissa as nat));
    r
}

/// The argument that `pactl set-sink-volume` takes for `v`: the volume in
/// percent, as in `45%`.
pub fn pactl_volume_text(v: Decimal) -> (r: Vec<u8>)
    requires
        is_written_volume(v),
    ensures
        r@ == decimal_text(v.mantissa as nat).push(PERCENT),
{
    let mut r: Vec<u8> = Vec::new();
    push_decimal(&mut r, v.mantissa as u32);
    r.push(PERCENT);
    assert(r@ =~= decimal_text(v.mantissa as nat).push(PERCENT));
    r
}

} // verus!
