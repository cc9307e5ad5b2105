use vstd::prelude::*;
use cosmwasm_std::{Decimal, Decimal256, Uint128, Uint256};

verus! {

/// Atomic units in one whole unit: both decimal types carry 18 fractional digits.
pub open spec fn scale() -> nat {
    1_000_000_000_000_000_000
}

/// One more than the largest atomics value of a `Dec256`.
pub open spec fn dec256_limit() -> nat {
    (u128::MAX as nat + 1) * (u128::MAX as nat + 1)
}

/// The number written by a big-endian byte string.
pub open spec fn be_value(s: Seq<u8>) -> nat
    decreases s.len(),
{
    if s.len() == 0 {
        0
    } else {
        be_value(s.drop_last()) * 256 + s.last() as nat
    }
}

/// 256 to the power `n`.
pub open spec fn pow256(n: nat) -> nat
    decreases n,
{
    if n == 0 {
        1
    } else {
        256 * pow256((n - 1) as nat)
    }
}

pub proof fn lemma_be_value_bound(s: Seq<u8>)
    ensures
        be_value(s) < pow256(s.len()),
    decreases s.len(),
{
    if s.len() > 0 {
        lemma_be_value_bound(s.drop_last());
        let p = pow256(s.drop_last().len());
        let v = be_value(s.drop_last());
        let l = s.last() as nat;
        assert(v * 256 + l < 256 * p) by (nonlinear_arith)
            requires
                v < p,
                l < 256,
        ;
    }
}

/// Every `Dec256` lies below the limit.
pub proof fn lemma_dec256_bound(d: Dec256)
    ensures
        d@ < dec256_limit(),
{
    lemma_be_value_bound(d.bytes@);
    reveal_with_fuel(pow256, 5);
    assert(pow256(4) == 0x1_0000_0000);
    lemma_pow256_add(4, 4);
    assert(pow256(8) == 0x1_0000_0000_0000_0000);
    lemma_pow256_add(8, 8);
    assert(pow256(16) == 0x1_0000_0000_0000_0000 * 0x1_0000_0000_0000_0000);
    assert(pow256(16) == u128::MAX as nat + 1);
    lemma_pow256_add(16, 16);
}

pub proof fn lemma_pow256_add(a: nat, b: nat)
    ensures
        pow256(a + b) == pow256(a) * pow256(b),
    decreases b,
{
    if b > 0 {
        lemma_pow256_add(a, (b - 1) as nat);
        assert((a + b - 1) as nat == a + (b - 1) as nat);
        assert(pow256(a + b) == 256 * pow256((a + b - 1) as nat));
        let x = pow256(a);
        let y = pow256((b - 1) as nat);
        assert(pow256(b) == 256 * y);
        assert(256 * (x * y) == x * (256 * y)) by (nonlinear_arith);
        assert(pow256(a + b) == x * pow256(b));
    } else {
        assert(a + b == a);
        assert(pow256(b) == 1);
        assert(pow256(a) * 1 == pow256(a));
    }
}

/// What `Decimal256::sqrt` returns, as atomics, for a value of the given atomics.
pub uninterp spec fn sqrt_atomics(a: nat) -> nat;

/// A fixed-point number with 18 fractional digits and a 256-bit range,
/// held as the big-endian bytes of its atomics.
#[derive(Clone, Copy, Debug, PartialEq, Eq)]
pub struct Dec256 {
    pub bytes: [u8; 32],
}

impl View for Dec256 {
    type V = nat;

    open spec fn view(&self) -> nat {
        be_value(self.bytes@)
    }
}

/// A fixed-point number with 18 fractional digits and a 128-bit range.
#[derive(Clone, Copy, Debug, PartialEq, Eq)]
pub struct Dec128 {
    pub atomics: u128,
}

impl View for Dec128 {
    type V = nat;

    open spec fn view(&self) -> nat {
        self.atomics as nat
    }
}

impl Dec256 {
    /// Relies on `Decimal256::zero`: zero atomics.
    #[verifier::external_body]
    pub(crate) fn zero() -> (r: Dec256)
        ensures
            r@ == 0,
    {
        Dec256 { bytes: Decimal256::zero().atomics().to_be_bytes() }
    }

    /// Relies on `Decimal256::from_ratio(n, 1)`: the whole number `n`.
    #[verifier::external_body]
    pub(crate) fn from_u128(n: u128) -> (r: Dec256)
        ensures
            r@ == (n as nat) * scale(),
    {
        Dec256 { bytes: Decimal256::from_ratio(n, 1u128).atomics().to_be_bytes() }
    }

    /// Relies on `Decimal256::is_zero`.
    #[verifier::external_body]
    pub(crate) fn is_zero(&self) -> (r: bool)
        ensures
            r == (self@ == 0),
    {
        Decimal256::new(Uint256::from_be_bytes(self.bytes)).is_zero()
    }

    /// Relies on `Decimal256::checked_add`: the exact sum, unless it leaves the range.
    #[verifier::external_body]
    pub(crate) fn checked_add(self, other: Dec256) -> (r: Option<Dec256>)
        ensures
            r.is_some() == (self@ + other@ < dec256_limit()),
            r.is_some() ==> r.unwrap()@ == self@ + other@,
    {
        let a = Decimal256::new(Uint256::from_be_bytes(self.bytes));
        let b = Decimal256::new(Uint256::from_be_bytes(other.bytes));
        a.checked_add(b).ok().map(|d| Dec256 { bytes: d.atomics().to_be_bytes() })
    }

    /// Relies on `Decimal256::checked_sub`: the exact difference, unless it is negative.
    #[verifier::external_body]
    pub(crate) fn checked_sub(self, other: Dec256) -> (r: Option<Dec256>)
        ensures
            r.is_some() == (other@ <= self@),
            r.is_some() ==> r.unwrap()@ == self@ - other@,
    {
        let a = Decimal256::new(Uint256::from_be_bytes(self.bytes));
        let b = Decimal256::new(Uint256::from_be_bytes(other.bytes));
        a.checked_sub(b).ok().map(|d| Dec256 { bytes: d.atomics().to_be_bytes() })
    }

    /// Relies on `Decimal256::checked_mul`: the product of the atomics divided by
    /// the scale, rounded down, unless it leaves the range.
    #[verifier::external_body]
    pub(crate) fn checked_mul(self, other: Dec256) -> (r: Option<Dec256>)
        ensures
            r.is_some() == (self@ * other@ / scale() < dec256_limit()),
            r.is_some() ==> r.unwrap()@ == self@ * other@ / scale(),
    {
        let a = Decimal256::new(Uint256::from_be_bytes(self.bytes));
        let b = Decimal256::new(Uint256::from_be_bytes(other.bytes));
        a.checked_mul(b).ok().map(|d| Dec256 { bytes: d.atomics().to_be_bytes() })
    }

    /// Relies on `Decimal256::checked_div`: the atomics of the dividend times the
    /// scale over those of the divisor, rounded down; none for a zero divisor or
    /// a result out of range.
    #[verifier::external_body]
    pub(crate) fn checked_div(self, other: Dec256) -> (r: Option<Dec256>)
        ensures
            r.is_some() == (other@ != 0 && self@ * scale() / other@ < dec256_limit()),
            r.is_some() ==> r.unwrap()@ == self@ * scale() / other@,
    {
        let a = Decimal256::new(Uint256::from_be_bytes(self.bytes));
        let b = Decimal256::new(Uint256::from_be_bytes(other.bytes));
        a.checked_div(b).ok().map(|d| Dec256 { bytes: d.atomics().to_be_bytes() })
    }

    /// Relies on `Decimal256::sqrt`, which never fails. When the atomics times
    /// 10^18 fit in 256 bits it works at full precision and returns the integer
    /// square root of that product (the largest `r` with `r * r` not above it).
    #[verifier::external_body]
    pub(crate) fn sqrt(&self) -> (r: Dec256)
        ensures
            r@ == sqrt_atomics(self@),
            self@ * scale() < dec256_limit() ==> r@ * r@ <= self@ * scale() && self@ * scale() < (r@ + 1) * (r@ + 1),
    {
        let a = Decimal256::new(Uint256::from_be_bytes(self.bytes));
        Dec256 { bytes: a.sqrt().atomics().to_be_bytes() }
    }

    /// Relies on `Decimal256::floor`: the value rounded down to a whole number.
    #[verifier::external_body]
    pub(crate) fn floor(&self) -> (r: Dec256)
        ensures
            r@ == self@ / scale() * scale(),
    {
        let a = Decimal256::new(Uint256::from_be_bytes(self.bytes));
        Dec256 { bytes: a.floor().atomics().to_be_bytes() }
    }

    /// Relies on `Decimal256::to_uint_floor`: the whole part, if it fits in 128 bits.
    #[verifier::external_body]
    pub(crate) fn to_u128_floor(&self) -> (r: Option<u128>)
        ensures
            r.is_some() == (self@ / scale() <= u128::MAX),
            r.is_some() ==> r.unwrap() == self@ / scale(),
    {
        let a = Decimal256::new(Uint256::from_be_bytes(self.bytes));
        Uint128::try_from(a.to_uint_floor()).ok().map(|u| u.u128())
    }
}

impl Dec128 {
    /// Relies on `Decimal::checked_from_ratio`: `num / den` rounded down to 18
    /// digits; none for a zero denominator or a result out of range.
    #[verifier::external_body]
    pub(crate) fn checked_from_ratio(num: u64, den: u64) -> (r: Option<Dec128>)
        ensures
            r.is_some() == (den != 0 && (num as nat) * scale() / (den as nat) <= u128::MAX),
            r.is_some() ==> r.unwrap()@ == (num as nat) * scale() / (den as nat),
    {
        Decimal::checked_from_ratio(num, den).ok().map(|d| Dec128 { atomics: d.atomics().u128() })
    }

    /// Relies on `Decimal::checked_mul`: the product of the atomics divided by the
    /// scale, rounded down, unless it leaves the range.
    #[verifier::external_body]
    pub(crate) fn checked_mul(self, other: Dec128) -> (r: Option<Dec128>)
        ensures
            r.is_some() == (self@ * other@ / scale() <= u128::MAX),
            r.is_some() ==> r.unwrap()@ == self@ * other@ / scale(),
    {
        let a = Decimal::raw(self.atomics);
        let b = Decimal::raw(other.atomics);
        a.checked_mul(b).ok().map(|d| Dec128 { atomics: d.atomics().u128() })
    }
}

/// Relies on `Uint128::checked_multiply_ratio`: `amount * num / den` rounded down;
/// none for a zero denominator or a result out of range.
#[verifier::external_body]
pub(crate) fn checked_multiply_ratio(amount: u128, num: u128, den: u128) -> (r: Option<u128>)
    ensures
        r.is_some() == (den != 0 && (amount as nat) * (num as nat) / (den as nat) <= u128::MAX),
        r.is_some() ==> r.unwrap() == (amount as nat) * (num as nat) / (den as nat),
{
    Uint128::new(amount).checked_multiply_ratio(num, den).ok().map(|u| u.u128())
}

} // verus!
