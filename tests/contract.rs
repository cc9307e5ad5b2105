use std::str::FromStr;

use cosmwasm_std::{Decimal, Decimal256, Uint256};

use cw_stake::contract::{
    execute_bond, execute_claim, execute_force_claim, execute_receive_reward, execute_set_reward_per_second,
    execute_unbond, execute_update_config, execute_update_reward_index, execute_update_staker_rewards, instantiate,
    query_config, query_list_claims, query_staker_for_all_duration, query_staker_for_duration, query_state,
};
use cw_stake::decimal::{Dec128, Dec256};
use cw_stake::ledger::Ledger;
use cw_stake::msg::{ClaimResponse, InstantiateMsg};
use cw_stake::state::{CW20Balance, Denom, Transfer};
use cw_stake::ContractError;

const GENESIS: u64 = 1_571_797_419_879_305_533;

fn plus_seconds(t: u64, s: u64) -> u64 {
    t + s * 1_000_000_000
}

fn dec(s: &str) -> Dec256 {
    Dec256 { bytes: Decimal256::from_str(s).unwrap().atomics().to_be_bytes() }
}

fn to_decimal256(d: Dec256) -> Decimal256 {
    Decimal256::new(Uint256::from_be_bytes(d.bytes))
}

fn ratio(s: &str) -> Dec128 {
    Dec128 { atomics: Decimal::from_str(s).unwrap().atomics().u128() }
}

fn default_init() -> InstantiateMsg {
    InstantiateMsg {
        stake_token_address: "stake_token_address".to_string(),
        reward_token_cw20: Some("reward_token_address".to_string()),
        reward_token_native: None,
        admin: None,
        force_claim_ratio: ratio("0.1"),
        fee_collector: "fee_collector".to_string(),
        max_bond_duration: 100,
    }
}

fn setup() -> Ledger {
    instantiate(GENESIS, &"creator".to_string(), default_init()).unwrap()
}

fn bond(ledger: &mut Ledger, now: u64, staker: &str, amount: u128, days: u128) -> Result<(), ContractError> {
    let balance = CW20Balance {
        denom: "stake_token_address".to_string(),
        amount,
        sender: staker.to_string(),
    };
    execute_bond(ledger, now, balance, days)
}

fn set_rate(ledger: &mut Ledger, now: u64, rate: u128) {
    execute_set_reward_per_second(ledger, now, &"creator".to_string(), rate).unwrap();
}

fn stake_transfer(amount: u128, recipient: &str) -> Transfer {
    Transfer {
        denom: Denom::Cw20("stake_token_address".to_string()),
        amount,
        recipient: recipient.to_string(),
    }
}

fn reward_transfer(amount: u128, recipient: &str) -> Transfer {
    Transfer {
        denom: Denom::Cw20("reward_token_address".to_string()),
        amount,
        recipient: recipient.to_string(),
    }
}

#[test]
fn proper_init() {
    let ledger = setup();
    let config = query_config(&ledger);
    assert_eq!(config.admin, "creator".to_string());
    assert_eq!(config.stake_token_address, "stake_token_address".to_string());
    assert_eq!(config.reward_token_address, Denom::Cw20("reward_token_address".to_string()));
    assert_eq!(config.force_claim_ratio, ratio("0.1"));
    assert_eq!(config.fee_collector, "fee_collector".to_string());

    let mut msg = default_init();
    msg.admin = Some("admin".to_string());
    let ledger = instantiate(GENESIS, &"creator".to_string(), msg).unwrap();
    let config = query_config(&ledger);
    assert_eq!(config.admin, "admin".to_string());
    assert_eq!(config.stake_token_address, "stake_token_address".to_string());
    assert_eq!(config.reward_token_address, Denom::Cw20("reward_token_address".to_string()));
    assert_eq!(config.force_claim_ratio, ratio("0.1"));
    assert_eq!(config.fee_collector, "fee_collector".to_string());
}

#[test]
fn test_bond() {
    let mut ledger = setup();
    let err = bond(&mut ledger, GENESIS, "staker1", 0, 10).unwrap_err();
    assert_eq!(err, ContractError::NoFund {});

    let balance = CW20Balance {
        denom: "wrong_stake_token_address".to_string(),
        amount: 100,
        sender: "staker1".to_string(),
    };
    let err = execute_bond(&mut ledger, GENESIS, balance, 10).unwrap_err();
    assert_eq!(err, ContractError::InvalidCw20TokenAddress {});

    bond(&mut ledger, GENESIS, "staker1", 100, 10).unwrap();
    let res = query_staker_for_all_duration(&ledger, &"staker1".to_string());
    assert_eq!(res.positions.len(), 1);
    let p = res.positions[0];
    assert_eq!(p.staked_amount, 100);
    assert_eq!(p.index, dec("0"));
    assert_eq!(p.bond_time, 1571797419879305533);
    assert_eq!(p.unbond_duration_as_days, 10);
    assert_eq!(p.pending_rewards, 0);
    assert_eq!(p.dec_rewards, dec("0"));
    assert_eq!(p.last_claimed, 1571797419879305533);
    assert_eq!(p.position_weight, dec("316.2277660168379331"));

    bond(&mut ledger, GENESIS, "staker1", 100, 10).unwrap();
    let res = query_staker_for_all_duration(&ledger, &"staker1".to_string());
    assert_eq!(res.positions[0].position_weight, dec("632.4555320336758662"));
    assert_eq!(res.positions[0].staked_amount, 200);
    assert_eq!(res.positions[0].unbond_duration_as_days, 10);
    assert_eq!(res.positions[0].index, dec("0"));
}

#[test]
fn test_update_reward_index() {
    let mut ledger = setup();
    execute_update_reward_index(&mut ledger, GENESIS).unwrap();
    assert_eq!(query_state(&ledger).global_index, dec("0"));

    bond(&mut ledger, GENESIS, "staker1", 100, 10).unwrap();
    execute_update_reward_index(&mut ledger, plus_seconds(GENESIS, 100)).unwrap();
    assert_eq!(query_state(&ledger).total_reward_claimed, 0);

    // the index already stands at the later time; setting the rate at genesis
    // is a step back in time, which the ledger refuses
    let err = execute_set_reward_per_second(&mut ledger, GENESIS, &"creator".to_string(), 100).unwrap_err();
    assert_eq!(err, ContractError::ClockRegression {});
}

#[test]
fn test_update_reward_index_after_rate() {
    let mut ledger = setup();
    bond(&mut ledger, GENESIS, "staker1", 100, 10).unwrap();
    set_rate(&mut ledger, GENESIS, 100);
    execute_update_reward_index(&mut ledger, plus_seconds(GENESIS, 100)).unwrap();
    let res = query_state(&ledger);
    assert_eq!(res.global_index, dec("31.622776601683793329"));
    assert_eq!(res.total_reward_claimed, 10000);
}

#[test]
fn test_update_staker_rewards() {
    let mut ledger = setup();
    let err = execute_update_staker_rewards(&mut ledger, GENESIS, &"creator".to_string(), None).unwrap_err();
    assert_eq!(err, ContractError::NoBond {});

    bond(&mut ledger, GENESIS, "staker1", 100, 10).unwrap();
    set_rate(&mut ledger, GENESIS, 1000);

    let t1 = plus_seconds(GENESIS, 1000);
    execute_update_staker_rewards(&mut ledger, t1, &"staker1".to_string(), None).unwrap();
    let res = query_staker_for_duration(&ledger, &"staker1".to_string(), 10).unwrap();
    let rounded = to_decimal256(res.dec_rewards).to_uint_ceil();
    let rounded = u128::from_str(&rounded.to_string()).unwrap();
    assert_eq!(res.pending_rewards + rounded, query_state(&ledger).total_reward_claimed);

    bond(&mut ledger, t1, "staker1", 100, 20).unwrap();
    let t2 = plus_seconds(GENESIS, 2000);
    execute_update_staker_rewards(&mut ledger, t2, &"staker1".to_string(), None).unwrap();
    let res = query_staker_for_all_duration(&ledger, &"staker1".to_string());
    let reward = res.positions[0].pending_rewards + res.positions[1].pending_rewards;
    let fraction = to_decimal256(res.positions[0].dec_rewards) + to_decimal256(res.positions[1].dec_rewards);
    let rounded = u128::from_str(&fraction.to_uint_ceil().to_string()).unwrap();
    assert_eq!(reward + rounded, query_state(&ledger).total_reward_claimed);
}

#[test]
fn test_scenario() {
    let mut ledger = setup();
    bond(&mut ledger, GENESIS, "staker1", 100, 16).unwrap();
    bond(&mut ledger, GENESIS, "staker2", 100, 25).unwrap();
    bond(&mut ledger, GENESIS, "staker3", 100, 36).unwrap();
    set_rate(&mut ledger, GENESIS, 1000);

    let t = plus_seconds(GENESIS, 1000);
    for s in ["staker1", "staker2", "staker3"] {
        execute_update_staker_rewards(&mut ledger, t, &s.to_string(), None).unwrap();
    }
    let res = query_staker_for_all_duration(&ledger, &"staker1".to_string());
    assert_eq!(res.positions[0].pending_rewards, 266_666);
    let res = query_staker_for_all_duration(&ledger, &"staker2".to_string());
    assert_eq!(res.positions[0].pending_rewards, 333_333);
    let res = query_staker_for_all_duration(&ledger, &"staker3".to_string());
    assert_eq!(res.positions[0].pending_rewards, 399_999);
}

#[test]
fn test_recieve_rewards() {
    let mut ledger = setup();
    set_rate(&mut ledger, GENESIS, 1000);
    bond(&mut ledger, GENESIS, "staker1", 100, 16).unwrap();

    let res = execute_receive_reward(&mut ledger, plus_seconds(GENESIS, 1000), &"staker1".to_string()).unwrap();
    assert_eq!(res, vec![reward_transfer(1_000_000, "staker1")]);

    bond(&mut ledger, plus_seconds(GENESIS, 2000), "staker1", 100, 36).unwrap();
    let res = execute_receive_reward(&mut ledger, plus_seconds(GENESIS, 3000), &"staker1".to_string()).unwrap();
    assert_eq!(res, vec![reward_transfer(2_000_000, "staker1")]);
}

#[test]
fn test_unbond() {
    let mut ledger = setup();
    set_rate(&mut ledger, GENESIS, 1000);
    let staker = "staker1".to_string();

    let err = execute_unbond(&mut ledger, GENESIS, &staker, None, 16).unwrap_err();
    assert_eq!(err, ContractError::NoBondForThisDuration {});

    bond(&mut ledger, GENESIS, "staker1", 100, 16).unwrap();
    let err = execute_unbond(&mut ledger, GENESIS, &staker, Some(200), 16).unwrap_err();
    assert_eq!(err, ContractError::InsufficientStakedAmount {});
    let err = execute_unbond(&mut ledger, GENESIS, &staker, Some(100), 36).unwrap_err();
    assert_eq!(err, ContractError::NoBondForThisDuration {});

    let state = query_state(&ledger);
    assert_eq!(state.total_staked, 100);
    assert_eq!(state.total_weight, dec("400"));

    let t = plus_seconds(GENESIS, 1000);
    let res = execute_unbond(&mut ledger, t, &staker, Some(100), 16).unwrap();
    assert_eq!(res[0], reward_transfer(1_000_000, "staker1"));

    let state = query_state(&ledger);
    assert_eq!(state.total_staked, 0);
    assert_eq!(state.total_weight, dec("0"));

    let claims = query_list_claims(&ledger, &staker);
    assert_eq!(claims.claims.len(), 1);
    assert_eq!(claims.claims[0].amount, 100);
    assert_eq!(claims.claims[0].release_at, 1573180819879305533);
    assert_eq!(claims.claims[0].unbond_at, 1571798419879305533);
}

#[test]
fn test_claim_unbond() {
    let mut ledger = setup();
    let staker = "staker1".to_string();
    bond(&mut ledger, GENESIS, "staker1", 100, 16).unwrap();
    set_rate(&mut ledger, GENESIS, 1000);

    let err = execute_claim(&mut ledger, plus_seconds(GENESIS, 1500), &staker).unwrap_err();
    assert_eq!(err, ContractError::NoMatureClaim {});

    execute_unbond(&mut ledger, plus_seconds(GENESIS, 1000), &staker, Some(100), 16).unwrap();

    let t = plus_seconds(GENESIS, 2000);
    let err = execute_claim(&mut ledger, t, &staker).unwrap_err();
    assert_eq!(err, ContractError::NoMatureClaim {});
    assert_eq!(query_list_claims(&ledger, &staker).claims.len(), 1);

    let t = plus_seconds(GENESIS, 1382400 + 1000);
    let res = execute_claim(&mut ledger, t, &staker).unwrap();
    assert_eq!(res.len(), 1);
    assert_eq!(res[0], stake_transfer(100, "staker1"));
    assert_eq!(query_list_claims(&ledger, &staker).claims.len(), 0);
}

#[test]
fn test_multiple_claims() {
    let mut ledger = setup();
    let staker = "staker1".to_string();
    bond(&mut ledger, GENESIS, "staker1", 100, 16).unwrap();
    set_rate(&mut ledger, GENESIS, 1000);
    bond(&mut ledger, GENESIS, "staker1", 100, 20).unwrap();

    execute_unbond(&mut ledger, plus_seconds(GENESIS, 1000), &staker, Some(50), 16).unwrap();
    execute_unbond(&mut ledger, plus_seconds(GENESIS, 1000), &staker, Some(100), 20).unwrap();
    execute_unbond(&mut ledger, plus_seconds(GENESIS, 2000), &staker, Some(50), 16).unwrap();

    let t = plus_seconds(GENESIS, 1382400 + 1001);
    let claims = query_list_claims(&ledger, &staker);
    assert_eq!(claims.claims.len(), 3);
    assert_eq!(
        claims.claims,
        vec![
            ClaimResponse { amount: 50, release_at: 1573180819879305533, unbond_at: 1571798419879305533 },
            ClaimResponse { amount: 50, release_at: 1573181819879305533, unbond_at: 1571799419879305533 },
            ClaimResponse { amount: 100, release_at: 1573526419879305533, unbond_at: 1571798419879305533 },
        ]
    );

    let res = execute_claim(&mut ledger, t, &staker).unwrap();
    assert_eq!(res.len(), 1);
    assert_eq!(res[0], stake_transfer(50, "staker1"));

    let claims = query_list_claims(&ledger, &staker);
    assert_eq!(
        claims.claims,
        vec![
            ClaimResponse { amount: 50, release_at: 1573181819879305533, unbond_at: 1571799419879305533 },
            ClaimResponse { amount: 100, release_at: 1573526419879305533, unbond_at: 1571798419879305533 },
        ]
    );
}

#[test]
fn test_force_claim() {
    let mut ledger = setup();
    let staker = "staker1".to_string();
    bond(&mut ledger, GENESIS, "staker1", 100, 16).unwrap();
    set_rate(&mut ledger, GENESIS, 1000);
    execute_unbond(&mut ledger, plus_seconds(GENESIS, 1000), &staker, Some(100), 16).unwrap();

    let now = plus_seconds(GENESIS, 1000);
    let wrong = plus_seconds(now - now % 1_000_000_000, 1382401);
    let err = execute_force_claim(&mut ledger, now, &staker, wrong).unwrap_err();
    assert_eq!(err, ContractError::NoClaimForTimestamp {});

    let res = execute_force_claim(&mut ledger, now, &staker, 1573180819879305533).unwrap();
    assert_eq!(res[0], stake_transfer(10, "fee_collector"));
    assert_eq!(res[1], stake_transfer(90, "staker1"));
    assert_eq!(query_list_claims(&ledger, &staker).claims.len(), 0);
}

#[test]
fn test_update_config() {
    let mut ledger = setup();
    let err = execute_update_config(&mut ledger, &"random".to_string(), None, None, None).unwrap_err();
    assert_eq!(err, ContractError::Unauthorized {});

    execute_update_config(
        &mut ledger,
        &"creator".to_string(),
        Some(Dec128 { atomics: Decimal::percent(20).atomics().u128() }),
        Some("fee_collector2".to_string()),
        Some("admin2".to_string()),
    )
    .unwrap();
    let config = query_config(&ledger);
    assert_eq!(config.force_claim_ratio.atomics, Decimal::percent(20).atomics().u128());
    assert_eq!(config.admin, "admin2".to_string());
    assert_eq!(config.fee_collector, "fee_collector2".to_string());
}

#[test]
fn test_claim_impl() {
    let mut ledger = setup();
    let staker = "staker1".to_string();
    set_rate(&mut ledger, GENESIS, 1000);
    bond(&mut ledger, GENESIS, "staker1", 100, 16).unwrap();
    bond(&mut ledger, GENESIS, "staker1", 100, 15).unwrap();
    execute_unbond(&mut ledger, plus_seconds(GENESIS, 1000), &staker, Some(100), 16).unwrap();
    execute_unbond(&mut ledger, plus_seconds(GENESIS, 1000 + 86400), &staker, Some(100), 15).unwrap();

    let now = plus_seconds(GENESIS, 1000);
    let release_at = plus_seconds(now, 86400 * 16);
    let res = execute_force_claim(&mut ledger, now, &staker, release_at).unwrap();
    assert_eq!(res[0], stake_transfer(20, "fee_collector"));
    assert_eq!(res[1], stake_transfer(180, "staker1"));
}
