use vstd::prelude::*;

use crate::decimal::{dec256_limit, scale, sqrt_atomics, Dec256};
use crate::ContractError;

verus! {

pub open spec fn seconds_per_day() -> nat {
    86_400
}

pub fn days_to_seconds(days: u128) -> (r: u64)
    requires
        days * seconds_per_day() <= u64::MAX,
    ensures
        r == days * seconds_per_day(),
{
    (days * 86_400) as u64
}

/// The fractional part of a decimal, in atomics.
pub fn get_decimals(value: Dec256) -> (r: Dec256)
    ensures
        r@ == value@ % scale(),
{
    let whole = value.floor();
    proof {
        vstd::arithmetic::div_mod::lemma_fundamental_div_mod(value@ as int, scale() as int);
    }
    value.checked_sub(whole).unwrap()
}

/// Atomics of the weight of `amount` staked for `duration` days: the square root
/// of the duration times the amount.
pub open spec fn weight_of(amount: nat, duration: nat) -> nat {
    sqrt_atomics(duration * scale()) * (amount * scale()) / scale()
}

/// The integer square root of `x`.
pub open spec fn is_isqrt(r: nat, x: nat) -> bool {
    r * r <= x && x < (r + 1) * (r + 1)
}

pub fn calculate_weight(amount: u128, duration: u128) -> (r: Result<Dec256, ContractError>)
    ensures
        is_isqrt(sqrt_atomics(duration as nat * scale()), duration as nat * scale() * scale()),
        r.is_ok() == (weight_of(amount as nat, duration as nat) < dec256_limit()),
        r.is_ok() ==> r.unwrap()@ == weight_of(amount as nat, duration as nat),
        r.is_err() ==> r == Err::<Dec256, ContractError>(ContractError::OverflowError {}),
{
    let d = Dec256::from_u128(duration);
    proof {
        let x = duration as nat;
        assert(x * scale() * scale() < dec256_limit()) by (nonlinear_arith)
            requires
                x <= u128::MAX,
                scale() == 1_000_000_000_000_000_000nat,
                dec256_limit() == (u128::MAX as nat + 1) * (u128::MAX as nat + 1),
        ;
    }
    let root = d.sqrt();
    match root.checked_mul(Dec256::from_u128(amount)) {
        Some(w) => Ok(w),
        None => Err(ContractError::OverflowError {}),
    }
}

} // verus!
