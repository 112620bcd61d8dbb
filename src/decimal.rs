//! Exact decimal numbers: `mantissa / 10^scale`.
use vstd::prelude::*;

verus! {

/// Largest count of fractional digits that a parsed or queried number carries.
pub const MAX_SCALE: u32 = 18;

/// Bound (exclusive) on the magnitude of the mantissa of a parsed or queried number.
pub const MANTISSA_LIMIT: i128 = 1_000_000_000_000_000_000;

/// Bound (exclusive) on the magnitude of the mantissa of a change applied
/// to a volume, both bounded: twice `10^36`.
pub const APPLIED_LIMIT: i128 = 2_000_000_000_000_000_000_000_000_000_000_000_000;

/// `10^n`.
pub open spec fn pow10(n: nat) -> nat
    decreases n,
{
    if n == 0 {
        1
    } else {
        10 * pow10((n - 1) as nat)
    }
}

pub proof fn lemma_pow10_positive(n: nat)
    ensures
        pow10(n) >= 1,
    decreases n,
{
    if n > 0 {
        lemma_pow10_positive((n - 1) as nat);
    }
}

/// `10^(a + b) == 10^a * 10^b`.
pub proof fn lemma_pow10_add(a: nat, b: nat)
    ensures
        pow10(a + b) == pow10(a) * pow10(b),
    decreases a,
{
    if a == 0 {
        assert(a + b == b);
        assert(pow10(a) == 1);
        assert(pow10(a + b) == pow10(a) * pow10(b));
    } else {
        let p = (a - 1) as nat;
        lemma_pow10_add(p, b);
        assert(a + b == (p + b) + 1);
        assert(pow10(a + b) == 10 * pow10(p + b));
        assert(pow10(a) == 10 * pow10(p));
        assert(10 * (pow10(p) * pow10(b)) == (10 * pow10(p)) * pow10(b)) by (nonlinear_arith);
        assert(pow10(a + b) == pow10(a) * pow10(b));
    }
}

/// `10^a <= 10^b` when `a <= b`.
pub proof fn lemma_pow10_monotone(a: nat, b: nat)
    requires
        a <= b,
    ensures
        pow10(a) <= pow10(b),
    decreases b,
{
    if a < b {
        lemma_pow10_monotone(a, (b - 1) as nat);
    }
}

/// `10^n` for `n <= 38`, the largest power of ten that fits.
pub proof fn lemma_pow10_36()
    ensures
        pow10(18) == MANTISSA_LIMIT,
        pow10(36) == pow10(18) * pow10(18),
        2 * pow10(36) == APPLIED_LIMIT,
{
    reveal_with_fuel(pow10, 37);
    lemma_pow10_add(18, 18);
}

pub fn pow10_u128(n: u32) -> (r: u128)
    requires
        n <= 38,
    ensures
        r == pow10(n as nat),
{
    proof {
        lemma_pow10_monotone(n as nat, 38);
        reveal_with_fuel(pow10, 39);
    }
    let mut r: u128 = 1;
    let mut i: u32 = 0;
    while i < n
        invariant
            i <= n <= 38,
            r == pow10(i as nat),
            pow10(n as nat) <= 100_000_000_000_000_000_000_000_000_000_000_000_000,
        decreases n - i,
    {
        proof {
            lemma_pow10_monotone((i + 1) as nat, n as nat);
        }
        r = r * 10;
        i = i + 1;
    }
    r
}

/// An exact decimal number, worth `mantissa / 10^scale`.
#[derive(Clone, Copy, Debug, PartialEq, Eq, Structural)]
pub struct Decimal {
    pub mantissa: i128,
    pub scale: u32,
}

impl Decimal {
    /// The number as a pair (mantissa, scale).
    pub open spec fn view(self) -> (int, nat) {
        (self.mantissa as int, self.scale as nat)
    }

    /// Bounds of a number read from text: at most `MAX_SCALE` fractional
    /// digits and a mantissa below `MANTISSA_LIMIT` in magnitude.
    pub open spec fn is_bounded(self) -> bool {
        self.scale <= MAX_SCALE && -MANTISSA_LIMIT < self.mantissa < MANTISSA_LIMIT
    }

    pub fn new(mantissa: i128, scale: u32) -> (r: Decimal)
        ensures
            r.mantissa == mantissa,
            r.scale == scale,
    {
        Decimal { mantissa, scale }
    }
}

} // verus!
