//! Change expressions: `+0.1`, `-5`, `+10%`, and what they do to a volume.
use vstd::prelude::*;
use vstd::string::StringSliceAdditionalSpecFns;
use vstd::utf8::{
    encode_utf8,
    encode_utf8_valid_utf8,
    is_char_boundary_iff_not_is_continuation_byte,
    is_char_boundary_start_end_of_seq,
};
use crate::decimal::{
    APPLIED_LIMIT,
    Decimal,
    pow10,
    pow10_u128,
    lemma_pow10_36,
    lemma_pow10_add,
    lemma_pow10_monotone,
    lemma_pow10_positive,
};
use crate::numeral::{
    MINUS,
    PLUS,
    NumeralError,
    is_digit_or_dot,
    is_numeral,
    is_sign,
    numeral_fits,
    numeral_value,
    parse_numeral,
};

verus! {

pub const PERCENT: u8 = 37;

/// A relative change of volume.
#[derive(Clone, Copy, Debug, PartialEq, Eq, Structural)]
pub enum Change {
    /// Rescales: the new volume is `existing * v / 100`.
    Percent(Decimal),
    /// Adds: the new volume is `existing + v`.
    Static(Decimal),
}

/// Why a change expression was refused.
#[derive(Debug)]
pub enum ParseError {
    /// The input is not a sign, then digits and dots, then an optional `%`.
    Malformed { input: String },
    /// The shape is right but the number is not a decimal number
    /// (no digit, or more than one dot). Keeps the number: the input
    /// without its trailing `%`.
    InvalidNumber { substring: String },
    /// The number has more digits than a `Decimal` of this library holds.
    /// Keeps the number, as `InvalidNumber` does.
    TooLong { substring: String },
}

/// Where the numeral of a change expression ends: before a trailing `%`.
pub open spec fn numeral_end(b: Seq<u8>) -> int {
    if b.len() > 0 && b.last() == PERCENT {
        b.len() - 1
    } else {
        b.len() as int
    }
}

/// The numeral of a change expression: all but a trailing `%`.
pub open spec fn numeral_part(b: Seq<u8>) -> Seq<u8> {
    b.subrange(0, numeral_end(b))
}

/// `b` has the shape `[+-][0-9.]+%?`.
pub open spec fn has_change_shape(b: Seq<u8>) -> bool {
    let n = numeral_end(b);
    &&& n >= 2
    &&& is_sign(b[0])
    &&& forall|i: int| 1 <= i < n ==> is_digit_or_dot(#[trigger] b[i])
}

/// `b` ends in `%`.
pub open spec fn is_percent_text(b: Seq<u8>) -> bool {
    b.len() > 0 && b.last() == PERCENT
}

/// Sum of two numbers, written at the larger of their two scales.
pub open spec fn aligned_sum(a: (int, nat), b: (int, nat)) -> (int, nat) {
    let s = if a.1 >= b.1 { a.1 } else { b.1 };
    (a.0 * pow10((s - a.1) as nat) + b.0 * pow10((s - b.1) as nat), s)
}

impl Change {
    /// The number that the change carries.
    pub open spec fn amount(self) -> Decimal {
        match self {
            Change::Percent(v) => v,
            Change::Static(v) => v,
        }
    }

    pub open spec fn is_bounded(self) -> bool {
        self.amount().is_bounded()
    }

    /// The change applied to `existing`, as (mantissa, scale).
    pub open spec fn spec_apply(self, existing: (int, nat)) -> (int, nat) {
        match self {
            Change::Percent(v) => (existing.0 * v@.0, existing.1 + v@.1 + 2),
            Change::Static(v) => aligned_sum(existing, v@),
        }
    }

    /// Reads a change expression: a sign, then digits and dots, then an
    /// optional `%`. With `%` the change rescales, without it it adds.
    pub fn parse(s: &str) -> (r: Result<Change, ParseError>)
        ensures
            ({
                let b = s.spec_bytes();
                let t = numeral_part(b);
                match r {
                    Ok(c) => {
                        &&& has_change_shape(b)
                        &&& is_numeral(t)
                        &&& numeral_fits(t)
                        &&& c.amount()@ == numeral_value(t)
                        &&& (c is Percent <==> is_percent_text(b))
                        &&& c.is_bounded()
                    },
                    Err(ParseError::Malformed { input }) => !has_change_shape(b) && input@ == s@,
                    Err(ParseError::InvalidNumber { substring }) => {
                        has_change_shape(b) && !is_numeral(t) && encode_utf8(substring@) == t
                    },
                    Err(ParseError::TooLong { substring }) => {
                        has_change_shape(b) && is_numeral(t) && !numeral_fits(t) && encode_utf8(
                            substring@,
                        ) == t
                    },
                }
            }),
            ({
                let b = s.spec_bytes();
                let t = numeral_part(b);
                has_change_shape(b) && is_numeral(t) && numeral_fits(t) ==> {
                    if is_percent_text(b) {
                        r matches Ok(Change::Percent(v)) && v@ == numeral_value(t)
                    } else {
                        r matches Ok(Change::Static(v)) && v@ == numeral_value(t)
                    }
                }
            }),
            s.spec_bytes().len() == 0 || !is_sign(s.spec_bytes()[0]) ==> r is Err,
            (exists|i: int|
                1 <= i < numeral_end(s.spec_bytes()) && !is_digit_or_dot(
                    #[trigger] s.spec_bytes()[i],
                )) ==> r is Err,
    {
        let b = s.as_bytes();
        let len = b.len();
        let percent = len > 0 && b[len - 1] == PERCENT;
        let end: usize = if percent { len - 1 } else { len };
        assert(end == numeral_end(b@));
        if end < 2 || !(b[0] == PLUS || b[0] == MINUS) {
            return Err(ParseError::Malformed { input: s.to_owned() });
        }
        let mut i: usize = 1;
        while i < end
            invariant
                1 <= i <= end <= b@.len(),
                end == numeral_end(b@),
                b@ == s.spec_bytes(),
                forall|k: int| 1 <= k < i ==> is_digit_or_dot(#[trigger] b@[k]),
            decreases end - i,
        {
            let c = b[i];
            if !(c == 46 || (48 <= c && c <= 57)) {
                assert(!is_digit_or_dot(b@[i as int]));
                return Err(ParseError::Malformed { input: s.to_owned() });
            }
            i = i + 1;
        }
        assert(b@.subrange(0, end as int) == numeral_part(b@));
        match parse_numeral(b, 0, end) {
            Ok(v) => {
                if percent {
                    Ok(Change::Percent(v))
                } else {
                    Ok(Change::Static(v))
                }
            },
            Err(NumeralError::Invalid) => Err(ParseError::InvalidNumber { substring: numeral_text(s, end) }),
            Err(NumeralError::TooLong) => Err(ParseError::TooLong { substring: numeral_text(s, end) }),
        }
    }

    /// The volume that this change makes of `existing_value`:
    /// `existing_value * v / 100` for `Percent(v)`, `existing_value + v`
    /// for `Static(v)`. The result is exact.
    pub fn apply(&self, existing_value: Decimal) -> (r: Decimal)
        requires
            self.is_bounded(),
            existing_value.is_bounded(),
        ensures
            r@ == self.spec_apply(existing_value@),
            r.scale <= 38,
            -APPLIED_LIMIT < r.mantissa < APPLIED_LIMIT,
    {
        proof {
            lemma_pow10_36();
        }
        match self {
            Change::Percent(v) => {
                let a = existing_value.mantissa;
                let b = v.mantissa;
                assert(-pow10(36) < a * b < pow10(36)) by (nonlinear_arith)
                    requires
                        -pow10(18) < a < pow10(18),
                        -pow10(18) < b < pow10(18),
                        pow10(36) == pow10(18) * pow10(18),
                ;
                Decimal { mantissa: a * b, scale: existing_value.scale + v.scale + 2 }
            },
            Change::Static(v) => {
                let s = if existing_value.scale >= v.scale {
                    existing_value.scale
                } else {
                    v.scale
                };
                let pa = pow10_u128(s - existing_value.scale);
                let pb = pow10_u128(s - v.scale);
                proof {
                    lemma_pow10_monotone((s - existing_value.scale) as nat, 18);
                    lemma_pow10_monotone((s - v.scale) as nat, 18);
                    lemma_pow10_positive((s - existing_value.scale) as nat);
                    lemma_pow10_positive((s - v.scale) as nat);
                }
                let a = existing_value.mantissa;
                let b = v.mantissa;
                let pa = pa as i128;
                let pb = pb as i128;
                assert(-pow10(36) < a * pa < pow10(36)) by (nonlinear_arith)
                    requires
                        -pow10(18) < a < pow10(18),
                        1 <= pa <= pow10(18),
                        pow10(36) == pow10(18) * pow10(18),
                ;
                assert(-pow10(36) < b * pb < pow10(36)) by (nonlinear_arith)
                    requires
                        -pow10(18) < b < pow10(18),
                        1 <= pb <= pow10(18),
                        pow10(36) == pow10(18) * pow10(18),
                ;
                Decimal { mantissa: a * pa + b * pb, scale: s }
            },
        }
    }
}

/// Adding: `Static(v)` applied to `c` is worth `c + v`, written over a
/// common denominator.
pub proof fn lemma_static_adds(c: Decimal, v: Decimal)
    ensures
        ({
            let r = Change::Static(v).spec_apply(c@);
            r.0 * pow10(c@.1) * pow10(v@.1) == (c@.0 * pow10(v@.1) + v@.0 * pow10(c@.1))
                * pow10(r.1)
        }),
{
    let r = Change::Static(v).spec_apply(c@);
    let s = r.1;
    let a = (s - c@.1) as nat;
    let b = (s - v@.1) as nat;
    lemma_pow10_add(a, c@.1);
    lemma_pow10_add(b, v@.1);
    assert(a + c@.1 == s && b + v@.1 == s);
    let pc = pow10(c@.1) as int;
    let pv = pow10(v@.1) as int;
    let pa = pow10(a) as int;
    let pb = pow10(b) as int;
    let ps = pow10(s) as int;
    assert(r.0 == c@.0 * pa + v@.0 * pb);
    let x = c@.0;
    let y = v@.0;
    assert(x * pa * pc * pv == x * pv * ps) by (nonlinear_arith)
        requires
            ps == pa * pc,
    ;
    assert(y * pb * pc * pv == y * pc * ps) by (nonlinear_arith)
        requires
            ps == pb * pv,
    ;
    assert((x * pa + y * pb) * pc * pv == x * pa * pc * pv + y * pb * pc * pv)
        by (nonlinear_arith);
    assert((x * pv + y * pc) * ps == x * pv * ps + y * pc * ps) by (nonlinear_arith);
}

/// Rescaling: `Percent(v)` applied to `c` is worth `c * v / 100`.
pub proof fn lemma_percent_rescales(c: Decimal, v: Decimal)
    ensures
        ({
            let r = Change::Percent(v).spec_apply(c@);
            r.0 * 100 * pow10(c@.1) * pow10(v@.1) == c@.0 * v@.0 * pow10(r.1)
        }),
{
    let r = Change::Percent(v).spec_apply(c@);
    lemma_pow10_add(c@.1 + v@.1, 2);
    lemma_pow10_add(c@.1, v@.1);
    reveal_with_fuel(pow10, 3);
    let pc = pow10(c@.1) as int;
    let pv = pow10(v@.1) as int;
    assert(pow10(r.1) == pc * pv * 100);
    assert(c@.0 * v@.0 * 100 * pc * pv == c@.0 * v@.0 * (pc * pv * 100)) by (nonlinear_arith);
}

/// The first `end` bytes of `s`, where `end` is `numeral_end` of its bytes.
fn numeral_text(s: &str, end: usize) -> (r: String)
    requires
        end == numeral_end(s.spec_bytes()),
    ensures
        encode_utf8(r@) == numeral_part(s.spec_bytes()),
{
    proof {
        let b = s.spec_bytes();
        encode_utf8_valid_utf8(s@);
        is_char_boundary_start_end_of_seq(b);
        if end < b.len() {
            is_char_boundary_iff_not_is_continuation_byte(b, end as int);
        }
    }
    let (head, _) = s.split_at(end);
    let r = head.to_owned();
    assert(head.spec_bytes() == numeral_part(s.spec_bytes()));
    r
}

impl std::str::FromStr for Change {
    type Err = ParseError;

    fn from_str(s: &str) -> Result<Change, ParseError> {
        Change::parse(s)
    }
}

} // verus!
