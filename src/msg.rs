use vstd::prelude::*;

use crate::decimal::{Dec128, Dec256};
use crate::state::Denom;

verus! {

/// Settings for a new ledger. Exactly one reward token kind is given.
#[derive(Debug)]
pub struct InstantiateMsg {
    pub stake_token_address: String,
    pub reward_token_cw20: Option<String>,
    pub reward_token_native: Option<String>,
    pub admin: Option<String>,
    pub force_claim_ratio: Dec128,
    pub fee_collector: String,
    pub max_bond_duration: u128,
}

/// What a token contract sends along with stake tokens.
#[derive(Clone, Copy, Debug, PartialEq, Eq, Structural)]
pub enum ReceiveMsg {
    Bond { duration_day: u128 },
}

/// The read-only requests.
#[derive(Clone, Debug, PartialEq, Eq)]
pub enum QueryMsg {
    State {},
    Config {},
    StakerForDuration { address: String, duration: u128 },
    StakerForAllDuration { address: String },
    ListClaims { address: String },
}

#[derive(Clone, Copy, Debug, PartialEq, Eq)]
pub struct StateResponse {
    pub global_index: Dec256,
    pub total_staked: u128,
    pub total_weight: Dec256,
    pub total_reward_claimed: u128,
    pub last_updated: u64,
}

#[derive(Debug)]
pub struct ConfigResponse {
    pub stake_token_address: String,
    pub reward_token_address: Denom,
    pub admin: String,
    pub fee_collector: String,
    pub force_claim_ratio: Dec128,
    pub reward_per_second: u128,
}

#[derive(Clone, Copy, Debug, PartialEq, Eq)]
pub struct AccruedRewardsResponse {
    pub rewards: u128,
}

#[derive(Clone, Copy, Debug, PartialEq, Eq)]
pub struct ClaimResponse {
    pub amount: u128,
    pub release_at: u64,
    pub unbond_at: u64,
}

#[derive(Debug)]
pub struct ListClaimsResponse {
    pub claims: Vec<ClaimResponse>,
}

#[derive(Clone, Copy, Debug, PartialEq, Eq)]
pub struct StakerResponse {
    pub staked_amount: u128,
    pub index: Dec256,
    pub bond_time: u64,
    pub unbond_duration_as_days: u128,
    pub pending_rewards: u128,
    pub dec_rewards: Dec256,
    pub last_claimed: u64,
    pub position_weight: Dec256,
}

#[derive(Debug)]
pub struct StakerForAllDurationResponse {
    pub positions: Vec<StakerResponse>,
}

#[derive(Clone, Copy, Debug, PartialEq, Eq)]
pub struct MigrateMsg {}

} // verus!
