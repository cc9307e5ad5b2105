use std::str::FromStr;

use cosmwasm_std::{Decimal, Decimal256};

use cw_stake::contract::{
    execute_bond, execute_claim, execute_force_claim, execute_receive, execute_receive_reward,
    execute_set_reward_per_second, execute_unbond, execute_update_config, execute_update_reward_index, instantiate,
    query_list_claims, query_staker_for_all_duration, query_staker_for_duration, query_state,
};
use cw_stake::decimal::{Dec128, Dec256};
use cw_stake::helper::{calculate_weight, days_to_seconds, get_decimals};
use cw_stake::ledger::Ledger;
use cw_stake::msg::{InstantiateMsg, ReceiveMsg};
use cw_stake::state::{CW20Balance, Denom, Transfer};
use cw_stake::ContractError;

const T0: u64 = 1_571_797_419_879_305_533;
const DAY: u64 = 86_400;

fn at(s: u64) -> u64 {
    T0 + s * 1_000_000_000
}

fn dec(s: &str) -> Dec256 {
    Dec256 { bytes: Decimal256::from_str(s).unwrap().atomics().to_be_bytes() }
}

fn ratio(s: &str) -> Dec128 {
    Dec128 { atomics: Decimal::from_str(s).unwrap().atomics().u128() }
}

fn init_msg() -> InstantiateMsg {
    InstantiateMsg {
        stake_token_address: "stake".to_string(),
        reward_token_cw20: Some("reward".to_string()),
        reward_token_native: None,
        admin: None,
        force_claim_ratio: ratio("0.1"),
        fee_collector: "fees".to_string(),
        max_bond_duration: 100,
    }
}

fn ledger() -> Ledger {
    instantiate(T0, &"admin".to_string(), init_msg()).unwrap()
}

fn bond(l: &mut Ledger, now: u64, who: &str, amount: u128, days: u128) -> Result<(), ContractError> {
    let balance = CW20Balance { denom: "stake".to_string(), amount, sender: who.to_string() };
    execute_bond(l, now, balance, days)
}

#[test]
fn days_to_seconds_counts_whole_days() {
    assert_eq!(days_to_seconds(16), 1_382_400);
    assert_eq!(days_to_seconds(0), 0);
}

#[test]
fn get_decimals_keeps_fraction_only() {
    assert_eq!(get_decimals(dec("12.345")), dec("0.345"));
    assert_eq!(get_decimals(dec("7")), dec("0"));
    assert_eq!(get_decimals(dec("0.000000000000000001")), dec("0.000000000000000001"));
}

#[test]
fn weight_is_root_of_duration_times_amount() {
    assert_eq!(calculate_weight(100, 10).unwrap(), dec("316.2277660168379331"));
    assert_eq!(calculate_weight(100, 16).unwrap(), dec("400"));
    assert_eq!(calculate_weight(0, 16).unwrap(), dec("0"));
    assert_eq!(calculate_weight(7, 1).unwrap(), dec("7"));
}

#[test]
fn instantiate_rejects_bad_settings() {
    let mut m = init_msg();
    m.max_bond_duration = 0;
    assert_eq!(instantiate(T0, &"admin".to_string(), m).err(), Some(ContractError::InvalidMaxBondDuration {}));
    let mut m = init_msg();
    m.force_claim_ratio = ratio("1");
    assert_eq!(instantiate(T0, &"admin".to_string(), m).err(), Some(ContractError::InvalidForceClaimRatio {}));
    let mut m = init_msg();
    m.reward_token_cw20 = None;
    assert_eq!(instantiate(T0, &"admin".to_string(), m).err(), Some(ContractError::InvalidRewardTokenDenom {}));
    let mut m = init_msg();
    m.reward_token_native = Some("uatom".to_string());
    assert_eq!(instantiate(T0, &"admin".to_string(), m).err(), Some(ContractError::InvalidRewardTokenDenom {}));
}

#[test]
fn bond_duration_bounds() {
    let mut l = ledger();
    assert_eq!(bond(&mut l, T0, "a", 10, 0), Err(ContractError::InvalidBondDuration {}));
    assert_eq!(bond(&mut l, T0, "a", 10, 101), Err(ContractError::InvalidBondDuration {}));
    assert_eq!(bond(&mut l, T0, "a", 10, 1), Ok(()));
    assert_eq!(bond(&mut l, T0, "a", 10, 100), Ok(()));
    assert_eq!(query_state(&l).total_staked, 20);
    assert_eq!(query_state(&l).total_weight, dec("110"));
}

#[test]
fn bond_through_receive() {
    let mut l = ledger();
    execute_receive(&mut l, T0, "stake".to_string(), "a".to_string(), 100, ReceiveMsg::Bond { duration_day: 25 }).unwrap();
    assert_eq!(query_state(&l).total_weight, dec("500"));
    let err = execute_receive(&mut l, T0, "other".to_string(), "a".to_string(), 100, ReceiveMsg::Bond { duration_day: 25 });
    assert_eq!(err, Err(ContractError::InvalidCw20TokenAddress {}));
}

#[test]
fn stake_overflow_is_refused_and_leaves_ledger_alone() {
    let mut l = ledger();
    bond(&mut l, T0, "a", u128::MAX, 1).unwrap();
    assert_eq!(bond(&mut l, T0, "b", 1, 1), Err(ContractError::OverflowError {}));
    assert_eq!(query_state(&l).total_staked, u128::MAX);
    assert!(query_staker_for_duration(&l, &"b".to_string(), 1).is_err());
}

#[test]
fn clock_regression_is_refused() {
    let mut l = ledger();
    execute_update_reward_index(&mut l, at(100)).unwrap();
    assert_eq!(execute_update_reward_index(&mut l, at(50)), Err(ContractError::ClockRegression {}));
    assert_eq!(query_state(&l).last_updated, at(100));
}

#[test]
fn reward_rate_needs_admin_and_positive_rate() {
    let mut l = ledger();
    assert_eq!(
        execute_set_reward_per_second(&mut l, T0, &"someone".to_string(), 5),
        Err(ContractError::Unauthorized {})
    );
    assert_eq!(
        execute_set_reward_per_second(&mut l, T0, &"admin".to_string(), 0),
        Err(ContractError::InvalidRewardPerSecond {})
    );
}

#[test]
fn update_config_rejects_ratio_of_one() {
    let mut l = ledger();
    let r = execute_update_config(&mut l, &"admin".to_string(), Some(ratio("1")), None, None);
    assert_eq!(r, Err(ContractError::InvalidForceClaimRatio {}));
}

#[test]
fn index_stays_while_nothing_is_staked() {
    let mut l = ledger();
    execute_set_reward_per_second(&mut l, T0, &"admin".to_string(), 1000).unwrap();
    execute_update_reward_index(&mut l, at(500)).unwrap();
    let st = query_state(&l);
    assert_eq!(st.global_index, dec("0"));
    assert_eq!(st.total_reward_claimed, 0);
    assert_eq!(st.last_updated, at(500));
}

#[test]
fn repeated_update_at_same_time_changes_nothing() {
    let mut l = ledger();
    bond(&mut l, T0, "a", 100, 16).unwrap();
    execute_set_reward_per_second(&mut l, T0, &"admin".to_string(), 1000).unwrap();
    execute_update_reward_index(&mut l, at(10)).unwrap();
    let first = query_state(&l);
    execute_update_reward_index(&mut l, at(10)).unwrap();
    assert_eq!(query_state(&l), first);
    assert_eq!(first.global_index, dec("25"));
}

#[test]
fn settlement_conserves_reward() {
    // weights 3 (duration 9, amount 1) and 7: thirds and sevenths leave fractions
    let mut l = ledger();
    bond(&mut l, T0, "a", 1, 9).unwrap();
    bond(&mut l, T0, "b", 7, 1).unwrap();
    execute_set_reward_per_second(&mut l, T0, &"admin".to_string(), 1).unwrap();
    for s in 1..=7u64 {
        execute_receive_reward(&mut l, at(s), &"a".to_string()).ok();
    }
    let pos = query_staker_for_duration(&l, &"a".to_string(), 9).unwrap();
    // 7 seconds at rate 1 shared 3:7 gives "a" 2.1 units: 2 paid out so far, 0.1 carried
    assert_eq!(pos.pending_rewards, 0);
    assert_eq!(pos.dec_rewards, dec("0.1"));
    assert_eq!(query_state(&l).total_reward_claimed, 7);
}

#[test]
fn receive_reward_pays_whole_units_over_time() {
    let mut l = ledger();
    bond(&mut l, T0, "a", 1, 9).unwrap();
    bond(&mut l, T0, "b", 7, 1).unwrap();
    execute_set_reward_per_second(&mut l, T0, &"admin".to_string(), 1).unwrap();
    let mut total: u128 = 0;
    for s in 1..=10u64 {
        let t = execute_receive_reward(&mut l, at(s), &"a".to_string()).unwrap();
        total += t[0].amount;
    }
    assert_eq!(total, 3);
    let pos = query_staker_for_duration(&l, &"a".to_string(), 9).unwrap();
    assert_eq!(pos.dec_rewards, dec("0"));
}

#[test]
fn full_unbond_removes_position_and_weight() {
    let mut l = ledger();
    bond(&mut l, T0, "a", 100, 16).unwrap();
    let transfers = execute_unbond(&mut l, T0, &"a".to_string(), None, 16).unwrap();
    assert!(transfers.is_empty());
    assert_eq!(query_state(&l).total_weight, dec("0"));
    assert_eq!(query_state(&l).total_staked, 0);
    assert!(query_staker_for_duration(&l, &"a".to_string(), 16).is_err());
    let claims = query_list_claims(&l, &"a".to_string()).claims;
    assert_eq!(claims.len(), 1);
    assert_eq!(claims[0].amount, 100);
    assert_eq!(claims[0].unbond_at, T0);
    assert_eq!(claims[0].release_at, at(16 * DAY));
}

#[test]
fn partial_unbond_recomputes_weight() {
    let mut l = ledger();
    bond(&mut l, T0, "a", 100, 16).unwrap();
    bond(&mut l, T0, "b", 10, 4).unwrap();
    execute_unbond(&mut l, T0, &"a".to_string(), Some(64), 16).unwrap();
    let pos = query_staker_for_duration(&l, &"a".to_string(), 16).unwrap();
    assert_eq!(pos.staked_amount, 36);
    assert_eq!(pos.position_weight, dec("144"));
    assert_eq!(query_state(&l).total_weight, dec("164"));
    assert_eq!(query_state(&l).total_staked, 46);
}

#[test]
fn claim_succeeds_once_at_release() {
    let mut l = ledger();
    bond(&mut l, T0, "a", 100, 1).unwrap();
    execute_unbond(&mut l, T0, &"a".to_string(), None, 1).unwrap();
    assert_eq!(execute_claim(&mut l, at(DAY - 1), &"a".to_string()), Err(ContractError::NoMatureClaim {}));
    let paid = execute_claim(&mut l, at(DAY), &"a".to_string()).unwrap();
    assert_eq!(paid, vec![Transfer { denom: Denom::Cw20("stake".to_string()), amount: 100, recipient: "a".to_string() }]);
    assert_eq!(execute_claim(&mut l, at(DAY), &"a".to_string()), Err(ContractError::NoMatureClaim {}));
    assert_eq!(execute_claim(&mut l, at(10 * DAY), &"a".to_string()), Err(ContractError::NoMatureClaim {}));
}

#[test]
fn claims_of_others_are_untouched() {
    let mut l = ledger();
    bond(&mut l, T0, "a", 100, 1).unwrap();
    bond(&mut l, T0, "b", 50, 1).unwrap();
    execute_unbond(&mut l, T0, &"a".to_string(), None, 1).unwrap();
    execute_unbond(&mut l, T0, &"b".to_string(), None, 1).unwrap();
    execute_claim(&mut l, at(DAY), &"a".to_string()).unwrap();
    assert_eq!(query_list_claims(&l, &"b".to_string()).claims.len(), 1);
    assert_eq!(query_list_claims(&l, &"a".to_string()).claims.len(), 0);
}

#[test]
fn force_claim_after_release_is_refused() {
    let mut l = ledger();
    bond(&mut l, T0, "a", 100, 1).unwrap();
    execute_unbond(&mut l, T0, &"a".to_string(), None, 1).unwrap();
    let release = at(DAY);
    let r = execute_force_claim(&mut l, at(DAY + 1), &"a".to_string(), release);
    assert_eq!(r, Err(ContractError::InvalidReleaseTime {}));
    assert_eq!(query_list_claims(&l, &"a".to_string()).claims.len(), 1);
}

#[test]
fn force_claim_at_release_costs_nothing() {
    let mut l = ledger();
    bond(&mut l, T0, "a", 100, 1).unwrap();
    execute_unbond(&mut l, T0, &"a".to_string(), None, 1).unwrap();
    let r = execute_force_claim(&mut l, at(DAY), &"a".to_string(), at(DAY)).unwrap();
    assert_eq!(r[0].amount, 0);
    assert_eq!(r[1].amount, 100);
}

#[test]
fn force_claim_penalty_shrinks_linearly() {
    // ratio 0.1, 16 day claim, 1000 of 1_382_400 seconds gone: the cut is
    // 100 * 0.1 * 1_381_400 / 1_382_400 = 9.99..., rounded down to 9
    let mut l = ledger();
    bond(&mut l, T0, "a", 100, 16).unwrap();
    execute_unbond(&mut l, T0, &"a".to_string(), None, 16).unwrap();
    let r = execute_force_claim(&mut l, at(1000), &"a".to_string(), at(16 * DAY)).unwrap();
    assert_eq!(r[0], Transfer { denom: Denom::Cw20("stake".to_string()), amount: 9, recipient: "fees".to_string() });
    assert_eq!(r[1], Transfer { denom: Denom::Cw20("stake".to_string()), amount: 91, recipient: "a".to_string() });
    // forced out at the moment of unbonding, the whole ratio applies
    let mut l = ledger();
    bond(&mut l, T0, "a", 100, 16).unwrap();
    execute_unbond(&mut l, T0, &"a".to_string(), None, 16).unwrap();
    let r = execute_force_claim(&mut l, T0, &"a".to_string(), at(16 * DAY)).unwrap();
    assert_eq!(r[0].amount, 10);
    assert_eq!(r[1].amount, 90);
}

#[test]
fn force_claim_halfway_cuts_half_the_ratio() {
    let mut l = ledger();
    bond(&mut l, T0, "a", 1000, 2).unwrap();
    execute_unbond(&mut l, T0, &"a".to_string(), None, 2).unwrap();
    let r = execute_force_claim(&mut l, at(DAY), &"a".to_string(), at(2 * DAY)).unwrap();
    assert_eq!(r[0].amount, 50);
    assert_eq!(r[1].amount, 950);
}

#[test]
fn bucket_collision_keeps_both_claims() {
    let mut l = ledger();
    bond(&mut l, T0, "a", 100, 2).unwrap();
    bond(&mut l, T0, "a", 1000, 1).unwrap();
    execute_unbond(&mut l, T0, &"a".to_string(), None, 2).unwrap();
    execute_unbond(&mut l, at(DAY), &"a".to_string(), None, 1).unwrap();
    let claims = query_list_claims(&l, &"a".to_string()).claims;
    assert_eq!(claims.len(), 2);
    assert_eq!(claims[0].release_at, claims[1].release_at);
    assert_eq!(l.claims.entries[0].seq, 1);
    assert_eq!(l.claims.entries[1].seq, 2);
    // at half a day before release: the two day claim has a quarter of its
    // span left, the one day claim half of it
    let r = execute_force_claim(&mut l, at(DAY + DAY / 2), &"a".to_string(), at(2 * DAY)).unwrap();
    assert_eq!(r[0].amount, 2 + 50);
    assert_eq!(r[1].amount, 98 + 950);
    assert!(query_list_claims(&l, &"a".to_string()).claims.is_empty());
}

#[test]
fn native_reward_denom_is_used_for_rewards() {
    let mut m = init_msg();
    m.reward_token_cw20 = None;
    m.reward_token_native = Some("uatom".to_string());
    let mut l = instantiate(T0, &"admin".to_string(), m).unwrap();
    bond(&mut l, T0, "a", 100, 16).unwrap();
    execute_set_reward_per_second(&mut l, T0, &"admin".to_string(), 10).unwrap();
    let t = execute_unbond(&mut l, at(10), &"a".to_string(), None, 16).unwrap();
    assert_eq!(t, vec![Transfer { denom: Denom::Native("uatom".to_string()), amount: 100, recipient: "a".to_string() }]);
}

#[test]
fn positions_listed_per_owner() {
    let mut l = ledger();
    bond(&mut l, T0, "a", 1, 4).unwrap();
    bond(&mut l, T0, "b", 2, 4).unwrap();
    bond(&mut l, T0, "a", 3, 9).unwrap();
    let res = query_staker_for_all_duration(&l, &"a".to_string());
    assert_eq!(res.positions.len(), 2);
    assert_eq!(res.positions[0].unbond_duration_as_days, 4);
    assert_eq!(res.positions[1].unbond_duration_as_days, 9);
    assert_eq!(res.positions[1].position_weight, dec("9"));
}

#[test]
fn positions_listed_in_ascending_duration() {
    let mut l = ledger();
    bond(&mut l, T0, "a", 1, 20).unwrap();
    bond(&mut l, T0, "b", 1, 15).unwrap();
    bond(&mut l, T0, "a", 1, 10).unwrap();
    bond(&mut l, T0, "a", 1, 30).unwrap();
    bond(&mut l, T0, "a", 1, 15).unwrap();
    let res = query_staker_for_all_duration(&l, &"a".to_string());
    let days: Vec<u128> = res.positions.iter().map(|p| p.unbond_duration_as_days).collect();
    assert_eq!(days, vec![10, 15, 20, 30]);
    assert!(l.is_consistent());
}

#[test]
fn consistency_check_spots_bad_ratio_weight_and_order() {
    let mut l = ledger();
    bond(&mut l, T0, "a", 100, 16).unwrap();
    bond(&mut l, T0, "a", 100, 25).unwrap();
    assert!(l.is_consistent());
    l.config.force_claim_ratio = ratio("1");
    assert!(!l.is_consistent());
    l.config.force_claim_ratio = ratio("0.1");
    l.stakers[0].position.position_weight = dec("401");
    l.state.total_weight = dec("901");
    assert!(!l.is_consistent());
    l.stakers[0].position.position_weight = dec("400");
    l.state.total_weight = dec("900");
    assert!(l.is_consistent());
    l.stakers.swap(0, 1);
    assert!(!l.is_consistent());
}

#[test]
fn consistency_check_spots_tampering() {
    let mut l = ledger();
    bond(&mut l, T0, "a", 100, 16).unwrap();
    bond(&mut l, T0, "b", 10, 4).unwrap();
    execute_unbond(&mut l, T0, &"a".to_string(), Some(50), 16).unwrap();
    assert!(l.is_consistent());
    l.state.total_staked += 1;
    assert!(!l.is_consistent());
    l.state.total_staked -= 1;
    l.stakers[1].owner = "a".to_string();
    l.stakers[1].duration = 16;
    l.stakers[1].position.unbond_duration_as_days = 16;
    assert!(!l.is_consistent());
}

#[test]
fn denom_text() {
    assert_eq!(Denom::Native("uatom".to_string()).to_string(), "uatom".to_string());
    assert_eq!(Denom::Cw20("token".to_string()).to_string(), "token".to_string());
    assert!(Denom::Native(String::new()).is_empty());
    assert!(!Denom::Cw20("x".to_string()).is_empty());
}
