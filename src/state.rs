use vstd::prelude::*;

use crate::decimal::{Dec128, Dec256};
use crate::ContractError;

verus! {

/// Nanoseconds in one second: timestamps are kept in nanoseconds.
pub const NANOS_PER_SECOND: u64 = 1_000_000_000;

/// The whole seconds of a timestamp in nanoseconds.
pub open spec fn secs(t: u64) -> nat {
    (t / NANOS_PER_SECOND) as nat
}

/// The global reward distribution state.
#[derive(Clone, Copy, Debug, PartialEq, Eq)]
pub struct State {
    pub global_index: Dec256,
    pub total_staked: u128,
    pub total_weight: Dec256,
    pub total_reward_claimed: u128,
    pub last_updated: u64,
}

/// An asset, either a native coin or a token contract.
#[derive(Clone, Debug, PartialEq, Eq)]
pub enum Denom {
    Native(String),
    Cw20(String),
}

impl Denom {
    pub fn duplicate(&self) -> (r: Denom)
        ensures
            r == *self,
    {
        match self {
            Denom::Native(s) => Denom::Native(s.clone()),
            Denom::Cw20(s) => Denom::Cw20(s.clone()),
        }
    }

    pub fn to_string(&self) -> (r: String)
        ensures
            r@ == match self {
                Denom::Native(s) => s@,
                Denom::Cw20(s) => s@,
            },
    {
        match self {
            Denom::Native(s) => s.clone(),
            Denom::Cw20(s) => s.clone(),
        }
    }

    pub fn is_empty(&self) -> (r: bool)
        ensures
            r == (match self {
                Denom::Native(s) => s@,
                Denom::Cw20(s) => s@,
            }.len() == 0),
    {
        match self {
            Denom::Native(s) => s.as_str().unicode_len() == 0,
            Denom::Cw20(s) => s.as_str().unicode_len() == 0,
        }
    }
}

impl Default for Denom {
    /// A native coin with an empty name.
    fn default() -> (r: Denom)
        ensures
            match r {
                Denom::Native(s) => s@.len() == 0,
                Denom::Cw20(_) => false,
            },
    {
        Denom::Native(String::new())
    }
}

/// An instruction to send `amount` of `denom` to `recipient`; the host carries
/// it out.
#[derive(Debug, PartialEq, Eq)]
pub struct Transfer {
    pub denom: Denom,
    pub amount: u128,
    pub recipient: String,
}

/// Principal released by an unbond, payable once `release_at` has passed.
#[derive(Clone, Copy, Debug, PartialEq, Eq)]
pub struct Claim {
    pub amount: u128,
    pub release_at: u64,
    pub unbond_at: u64,
}

/// The ledger's settings.
#[derive(Clone, Debug, PartialEq, Eq)]
pub struct Config {
    pub admin: String,
    pub stake_token_address: String,
    pub reward_token_denom: Denom,
    pub force_claim_ratio: Dec128,
    pub fee_collector: String,
    pub max_bond_duration: u128,
    pub reward_per_second: u128,
}

/// Stake tokens received from a token contract on behalf of `sender`.
#[derive(Clone, Debug, PartialEq, Eq)]
pub struct CW20Balance {
    pub denom: String,
    pub amount: u128,
    pub sender: String,
}

/// One owner's stake for one bond duration.
#[derive(Clone, Copy, Debug, PartialEq, Eq)]
pub struct StakePosition {
    pub staked_amount: u128,
    pub index: Dec256,
    pub bond_time: u64,
    pub unbond_duration_as_days: u128,
    pub pending_rewards: u128,
    pub dec_rewards: Dec256,
    pub last_claimed: u64,
    pub position_weight: Dec256,
}

} // verus!
