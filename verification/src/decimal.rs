//! Exact decimal numbers with nine fractional digits.
//!
//! A `Decimal` is a signed count of 10^-9 units whose magnitude fits in 96
//! bits. Arithmetic between two of them is done by `rust_decimal` on its own
//! values at scale nine; the functions that call it, `decimal_le`,
//! `decimal_add` and `decimal_sub`, carry contracts that the verifier takes on
//! trust.

use vstd::prelude::*;

verus! {

/// Number of fractional digits of every `Decimal`.
pub const SCALE: u32 = 9;

/// Largest magnitude of a mantissa: 2^96 - 1.
pub const MAX_MANTISSA: i128 = 79_228_162_514_264_337_593_543_950_335;

/// True when `m` is a mantissa that a `Decimal` can hold.
pub open spec fn in_range(m: int) -> bool {
    -MAX_MANTISSA <= m <= MAX_MANTISSA
}

/// Ten to the power `n`.
pub open spec fn pow10(n: nat) -> int
    decreases n,
{
    if n == 0 {
        1
    } else {
        10 * pow10((n - 1) as nat)
    }
}

/// The mantissa at scale nine of the number `mantissa / 10^scale`, for a
/// scale of at most nine.
pub open spec fn rescaled(mantissa: int, scale: nat) -> int {
    mantissa * pow10((SCALE - scale) as nat)
}

/// An exact decimal number, `mantissa / 10^9`.
///
/// Two decimals are equal exactly when their mantissas are.
#[derive(Clone, Copy, Debug, PartialEq, Eq, Structural)]
pub struct Decimal {
    mantissa: i128,
}

impl View for Decimal {
    type V = int;

    /// The mantissa: the number's value in units of 10^-9.
    closed spec fn view(&self) -> int {
        self.mantissa as int
    }
}

proof fn lemma_pow10_positive(n: nat)
    ensures
        pow10(n) >= 1,
    decreases n,
{
    if n > 0 {
        lemma_pow10_positive((n - 1) as nat);
    }
}

/// Scaling a mantissa that is already out of range never brings it back.
proof fn lemma_out_of_range_stays(m: int, k: nat)
    requires
        !in_range(m),
    ensures
        !in_range(m * pow10(k)),
{
    lemma_pow10_positive(k);
    let p = pow10(k);
    assert(m > 0 ==> m * p >= m) by (nonlinear_arith)
        requires
            p >= 1,
    ;
    assert(m < 0 ==> m * p <= m) by (nonlinear_arith)
        requires
            p >= 1,
    ;
}

proof fn lemma_pow10_step(m: int, k: nat)
    ensures
        m * pow10(k + 1) == (m * 10) * pow10(k),
{
    assert(pow10(k + 1) == 10 * pow10(k));
    assert(m * (10 * pow10(k)) == (m * 10) * pow10(k)) by (nonlinear_arith);
}

impl Decimal {
    /// Every `Decimal` fits in 96 bits.
    #[verifier::type_invariant]
    pub open spec fn inv(self) -> bool {
        in_range(self@)
    }

    /// The number `mantissa / 10^scale`, where it has at most nine
    /// fractional digits and fits in 96 bits at scale nine.
    pub fn new(mantissa: i128, scale: u32) -> (r: Option<Decimal>)
        ensures
            r is Some <==> scale <= SCALE && in_range(rescaled(mantissa as int, scale as nat)),
            r matches Some(d) ==> d@ == rescaled(mantissa as int, scale as nat),
    {
        if scale > SCALE {
            return None;
        }
        if mantissa < -MAX_MANTISSA || mantissa > MAX_MANTISSA {
            proof {
                lemma_out_of_range_stays(mantissa as int, (SCALE - scale) as nat);
            }
            return None;
        }
        let mut m: i128 = mantissa;
        let mut k: u32 = scale;
        proof {
            assert(pow10(0) == 1);
        }
        while k < SCALE
            invariant
                scale <= k <= SCALE,
                in_range(m as int),
                rescaled(mantissa as int, scale as nat) == m * pow10((SCALE - k) as nat),
            decreases SCALE - k,
        {
            let next: i128 = m * 10;
            proof {
                lemma_pow10_step(m as int, (SCALE - k - 1) as nat);
            }
            if next < -MAX_MANTISSA || next > MAX_MANTISSA {
                proof {
                    lemma_out_of_range_stays(next as int, (SCALE - k - 1) as nat);
                }
                return None;
            }
            m = next;
            k = k + 1;
        }
        proof {
            assert(pow10(0) == 1);
        }
        Some(Decimal { mantissa: m })
    }

    /// The number zero.
    pub fn zero() -> (r: Decimal)
        ensures
            r@ == 0,
    {
        Decimal { mantissa: 0 }
    }

    /// The value in units of 10^-9.
    pub fn mantissa(&self) -> (r: i128)
        ensures
            r == self@,
            in_range(self@),
    {
        proof {
            use_type_invariant(self);
        }
        self.mantissa
    }

    /// The number of fractional digits that `mantissa` counts: always nine.
    pub fn scale(&self) -> (r: u32)
        ensures
            r == SCALE,
    {
        SCALE
    }

    pub fn is_zero(&self) -> (r: bool)
        ensures
            r == (self@ == 0),
    {
        self.mantissa == 0
    }

    pub fn is_positive(&self) -> (r: bool)
        ensures
            r == (self@ > 0),
    {
        self.mantissa > 0
    }
}

/// Compares with `rust_decimal::Decimal`'s `<=`, on the two numbers as values
/// of that crate at scale nine. Trusted: the result is the order of the
/// numbers, which at one common scale is the order of the mantissas. The
/// crate's constructor panics on a mantissa of more than 96 bits, which
/// `requires` leaves out.
#[verifier::external_body]
pub(crate) fn decimal_le(a: Decimal, b: Decimal) -> (r: bool)
    requires
        in_range(a@),
        in_range(b@),
    ensures
        r == (a@ <= b@),
{
    let x = rust_decimal::Decimal::from_i128_with_scale(a.mantissa, SCALE);
    let y = rust_decimal::Decimal::from_i128_with_scale(b.mantissa, SCALE);
    x <= y
}

/// Adds with `rust_decimal::Decimal`'s `+`, on the two numbers as values of
/// that crate at scale nine. Trusted: where the exact sum fits in 96 bits at
/// scale nine, the crate returns it at that scale, unrounded. The crate's `+`
/// panics on overflow, and its constructor on a mantissa of more than 96
/// bits, which `requires` leaves out.
#[verifier::external_body]
pub(crate) fn decimal_add(a: Decimal, b: Decimal) -> (r: Decimal)
    requires
        in_range(a@),
        in_range(b@),
        in_range(a@ + b@),
    ensures
        r@ == a@ + b@,
{
    let x = rust_decimal::Decimal::from_i128_with_scale(a.mantissa, SCALE);
    let y = rust_decimal::Decimal::from_i128_with_scale(b.mantissa, SCALE);
    Decimal { mantissa: (x + y).mantissa() }
}

/// Subtracts with `rust_decimal::Decimal`'s `-`, on the two numbers as values
/// of that crate at scale nine. Trusted: where the exact difference fits in 96
/// bits at scale nine, the crate returns it at that scale, unrounded. The
/// crate's `-` panics on overflow, and its constructor on a mantissa of more
/// than 96 bits, which `requires` leaves out.
#[verifier::external_body]
pub(crate) fn decimal_sub(a: Decimal, b: Decimal) -> (r: Decimal)
    requires
        in_range(a@),
        in_range(b@),
        in_range(a@ - b@),
    ensures
        r@ == a@ - b@,
{
    let x = rust_decimal::Decimal::from_i128_with_scale(a.mantissa, SCALE);
    let y = rust_decimal::Decimal::from_i128_with_scale(b.mantissa, SCALE);
    Decimal { mantissa: (x - y).mantissa() }
}

} // verus!
