use vstd::arithmetic::div_mod::{lemma_div_by_multiple, lemma_div_is_ordered};
use vstd::prelude::*;

use crate::claims::{
    claims_in, in_bucket, last_seq, lemma_filter_step, mature_of, not_in_bucket, not_mature_of, of_owner, ClaimEntry,
    Claims,
};
use crate::decimal::{checked_multiply_ratio, dec256_limit, scale, Dec128, Dec256};
use crate::helper::{calculate_weight, days_to_seconds, get_decimals, seconds_per_day, weight_of};
use crate::ledger::{
    has_key, key_at, key_index, keys_unique, lemma_sums_insert, lemma_sums_pointwise, lemma_sums_remove, lemma_sums_update,
    sum_staked, sum_weights, Ledger, StakerEntry,
};
use crate::msg::{
    ClaimResponse, ConfigResponse, InstantiateMsg, ListClaimsResponse, ReceiveMsg, StakerForAllDurationResponse,
    StakerResponse, StateResponse,
};
use crate::state::{secs, CW20Balance, Claim, Config, Denom, StakePosition, State, Transfer, NANOS_PER_SECOND};
use crate::ContractError;

verus! {

/// Reward released between the last update and `now`: whole seconds elapsed
/// times the reward per second.
pub open spec fn new_distribution(st: State, now: u64, rate: u128) -> int {
    (secs(now) - secs(st.last_updated)) * rate
}

/// Growth of the global index (atomics) when `dist` reward is shared by `weight`.
pub open spec fn index_increment(dist: nat, weight: nat) -> nat {
    dist * scale() * scale() / weight
}

/// The index update at `now` succeeds: time does not run backwards and no
/// quantity leaves its range.
pub open spec fn reward_index_ok(st: State, now: u64, rate: u128) -> bool {
    let dist = new_distribution(st, now, rate);
    &&& secs(st.last_updated) <= secs(now)
    &&& dist <= u128::MAX
    &&& st.total_weight@ != 0 ==> {
        &&& index_increment(dist as nat, st.total_weight@) < dec256_limit()
        &&& st.global_index@ + index_increment(dist as nat, st.total_weight@) < dec256_limit()
        &&& st.total_reward_claimed + dist <= u128::MAX
    }
}

/// The error of a failed index update.
pub open spec fn reward_index_error(st: State, now: u64) -> ContractError {
    if secs(now) < secs(st.last_updated) {
        ContractError::ClockRegression {}
    } else {
        ContractError::OverflowError {}
    }
}

/// The error of an operation that failed after its own checks passed: the
/// index update's, or else an overflow.
pub open spec fn failed_update_error(st: State, now: u64, rate: u128) -> ContractError {
    if reward_index_ok(st, now, rate) {
        ContractError::OverflowError {}
    } else {
        reward_index_error(st, now)
    }
}

/// The global index (atomics) after the update at `now`. While nothing is
/// staked the index stays, and the reward of that window is not distributed.
pub open spec fn index_after(st: State, now: u64, rate: u128) -> nat {
    if st.total_weight@ == 0 {
        st.global_index@
    } else {
        st.global_index@ + index_increment(new_distribution(st, now, rate) as nat, st.total_weight@)
    }
}

/// `new` is `old` after a successful index update at `now`.
pub open spec fn reward_index_updated(old: State, new: State, now: u64, rate: u128) -> bool {
    &&& new.global_index@ == index_after(old, now, rate)
    &&& new.total_reward_claimed == if old.total_weight@ == 0 {
        old.total_reward_claimed as int
    } else {
        old.total_reward_claimed + new_distribution(old, now, rate)
    }
    &&& new.last_updated == now
    &&& new.total_staked == old.total_staked
    &&& new.total_weight == old.total_weight
}

pub fn update_reward_index(state: &mut State, now: u64, config: &Config) -> (r: Result<(), ContractError>)
    ensures
        r.is_ok() == reward_index_ok(*old(state), now, config.reward_per_second),
        r.is_ok() ==> reward_index_updated(*old(state), *final(state), now, config.reward_per_second),
        r.is_err() ==> *final(state) == *old(state) && r == Err::<(), ContractError>(reward_index_error(*old(state), now)),
{
    let now_secs = now / NANOS_PER_SECOND;
    let last_secs = state.last_updated / NANOS_PER_SECOND;
    if now_secs < last_secs {
        return Err(ContractError::ClockRegression {});
    }
    let dist = match ((now_secs - last_secs) as u128).checked_mul(config.reward_per_second) {
        Some(d) => d,
        None => return Err(ContractError::OverflowError {}),
    };
    if !state.total_weight.is_zero() {
        let adding_index = match Dec256::from_u128(dist).checked_div(state.total_weight) {
            Some(a) => a,
            None => return Err(ContractError::OverflowError {}),
        };
        let global_index = match state.global_index.checked_add(adding_index) {
            Some(g) => g,
            None => return Err(ContractError::OverflowError {}),
        };
        let claimed = match state.total_reward_claimed.checked_add(dist) {
            Some(c) => c,
            None => return Err(ContractError::OverflowError {}),
        };
        state.global_index = global_index;
        state.total_reward_claimed = claimed;
    }
    state.last_updated = now;
    Ok(())
}

/// Reward of a position (atomics) when settled against global index `g`: the
/// index growth times the position weight, plus the carried fraction.
pub open spec fn gross_reward(g: nat, pos: StakePosition) -> nat {
    index_share(g, pos) + pos.dec_rewards@
}

/// Reward (atomics) that the growth of the global index up to `g` brings to
/// the position, before the carried fraction is added.
pub open spec fn index_share(g: nat, pos: StakePosition) -> nat {
    (g - pos.index@) as nat * pos.position_weight@ / scale()
}

/// Settling the position against global index `g` stays within range.
pub open spec fn settle_ok(g: nat, pos: StakePosition) -> bool {
    &&& pos.index@ <= g
    &&& index_share(g, pos) < dec256_limit()
    &&& gross_reward(g, pos) < dec256_limit()
    &&& pos.pending_rewards + gross_reward(g, pos) / scale() <= u128::MAX
}

/// `new` is `old` settled against global index `g` at `now`: the whole part of
/// the reward joins the pending rewards and the fraction is carried.
pub open spec fn settled(old: StakePosition, new: StakePosition, g: nat, now: u64) -> bool {
    &&& new.pending_rewards == old.pending_rewards + gross_reward(g, old) / scale()
    &&& new.dec_rewards@ == gross_reward(g, old) % scale()
    &&& new.index@ == g
    &&& new.last_claimed == now
    &&& new.staked_amount == old.staked_amount
    &&& new.position_weight == old.position_weight
    &&& new.bond_time == old.bond_time
    &&& new.unbond_duration_as_days == old.unbond_duration_as_days
}

/// Realizes the position's share of the global index `global_index` at `now`.
/// Returns the whole reward realized by this call.
pub fn settle_position(global_index: Dec256, now: u64, stake_position: &mut StakePosition) -> (r: Result<u128, ContractError>)
    ensures
        r.is_ok() == settle_ok(global_index@, *old(stake_position)),
        r.is_ok() ==> settled(*old(stake_position), *final(stake_position), global_index@, now)
            && final(stake_position).index == global_index
            && r.unwrap() == gross_reward(global_index@, *old(stake_position)) / scale(),
        r.is_err() ==> *final(stake_position) == *old(stake_position) && r == Err::<u128, ContractError>(
            ContractError::OverflowError {},
        ),
{
    let pos = *stake_position;
    let index_diff = match global_index.checked_sub(pos.index) {
        Some(d) => d,
        None => return Err(ContractError::OverflowError {}),
    };
    let share = match index_diff.checked_mul(pos.position_weight) {
        Some(v) => v,
        None => return Err(ContractError::OverflowError {}),
    };
    let gross = match share.checked_add(pos.dec_rewards) {
        Some(v) => v,
        None => return Err(ContractError::OverflowError {}),
    };
    let decimals = get_decimals(gross);
    let reward = match gross.to_u128_floor() {
        Some(v) => v,
        None => return Err(ContractError::OverflowError {}),
    };
    let pending = match pos.pending_rewards.checked_add(reward) {
        Some(v) => v,
        None => return Err(ContractError::OverflowError {}),
    };
    stake_position.dec_rewards = decimals;
    stake_position.pending_rewards = pending;
    stake_position.index = global_index;
    stake_position.last_claimed = now;
    Ok(reward)
}

/// Brings the global index to `now`, then realizes the position's share of it.
/// Returns the whole reward realized by this call.
pub fn update_staker_rewards(
    state: &mut State,
    now: u64,
    stake_position: &mut StakePosition,
    config: &Config,
) -> (r: Result<u128, ContractError>)
    ensures
        r.is_ok() == (reward_index_ok(*old(state), now, config.reward_per_second)
            && settle_ok(index_after(*old(state), now, config.reward_per_second), *old(stake_position))),
        r.is_ok() ==> {
            &&& reward_index_updated(*old(state), *final(state), now, config.reward_per_second)
            &&& settled(*old(stake_position), *final(stake_position), final(state).global_index@, now)
            &&& final(stake_position).index == final(state).global_index
            &&& r.unwrap() == gross_reward(final(state).global_index@, *old(stake_position)) / scale()
        },
        r.is_err() ==> {
            &&& *final(state) == *old(state)
            &&& *final(stake_position) == *old(stake_position)
            &&& r == Err::<u128, ContractError>(
                if reward_index_ok(*old(state), now, config.reward_per_second) {
                    ContractError::OverflowError {}
                } else {
                    reward_index_error(*old(state), now)
                },
            )
        },
{
    let mut st = *state;
    match update_reward_index(&mut st, now, config) {
        Ok(()) => {},
        Err(e) => return Err(e),
    }
    let reward = match settle_position(st.global_index, now, stake_position) {
        Ok(v) => v,
        Err(e) => return Err(e),
    };
    *state = st;
    Ok(reward)
}

/// The check that a bond fails first, if any: the token, the duration, the amount.
pub open spec fn bond_error(l: Ledger, balance: CW20Balance, duration: u128) -> Option<ContractError> {
    if balance.denom@ != l.config.stake_token_address@ {
        Some(ContractError::InvalidCw20TokenAddress {})
    } else if duration < 1 || duration > l.config.max_bond_duration {
        Some(ContractError::InvalidBondDuration {})
    } else if balance.amount == 0 {
        Some(ContractError::NoFund {})
    } else {
        None
    }
}

/// A bond that passed its checks stays within range.
pub open spec fn bond_ok(l: Ledger, owner: Seq<char>, amount: u128, duration: u128, now: u64) -> bool {
    let rate = l.config.reward_per_second;
    let g = index_after(l.state, now, rate);
    &&& reward_index_ok(l.state, now, rate)
    &&& l.state.total_staked + amount <= u128::MAX
    &&& if has_key(l.stakers@, owner, duration) {
        let pos = l.stakers@[key_index(l.stakers@, owner, duration)].position;
        let w = weight_of((pos.staked_amount + amount) as nat, duration as nat);
        &&& settle_ok(g, pos)
        &&& pos.staked_amount + amount <= u128::MAX
        &&& w < dec256_limit()
        &&& pos.position_weight@ <= l.state.total_weight@
        &&& l.state.total_weight@ - pos.position_weight@ + w < dec256_limit()
    } else {
        &&& weight_of(amount as nat, duration as nat) < dec256_limit()
        &&& l.state.total_weight@ + weight_of(amount as nat, duration as nat) < dec256_limit()
    }
}

/// `p` is the position that a first bond of `amount` for `duration` opens at
/// `now`, against global index `g`.
pub open spec fn fresh_position(p: StakePosition, amount: u128, duration: u128, g: nat, now: u64) -> bool {
    &&& p.staked_amount == amount
    &&& p.index@ == g
    &&& p.bond_time == now
    &&& p.unbond_duration_as_days == duration
    &&& p.pending_rewards == 0
    &&& p.dec_rewards@ == 0
    &&& p.last_claimed == now
    &&& p.position_weight@ == weight_of(amount as nat, duration as nat)
}

/// `l1` is `l0` after `owner` bonded `amount` for `duration` days at `now`:
/// the index is brought to `now`, then the position is settled and grown, or
/// opened before the owner's first longer position.
pub open spec fn bonded(l0: Ledger, l1: Ledger, owner: Seq<char>, amount: u128, duration: u128, now: u64) -> bool {
    let rate = l0.config.reward_per_second;
    let g = index_after(l0.state, now, rate);
    &&& l1.config == l0.config
    &&& l1.claims == l0.claims
    &&& l1.state.global_index@ == g
    &&& l1.state.last_updated == now
    &&& l1.state.total_reward_claimed == if l0.state.total_weight@ == 0 {
        l0.state.total_reward_claimed as int
    } else {
        l0.state.total_reward_claimed + new_distribution(l0.state, now, rate)
    }
    &&& l1.state.total_staked == l0.state.total_staked + amount
    &&& if has_key(l0.stakers@, owner, duration) {
        let i = key_index(l0.stakers@, owner, duration);
        let p0 = l0.stakers@[i].position;
        let p1 = l1.stakers@[i].position;
        &&& l1.stakers@.len() == l0.stakers@.len()
        &&& forall|k: int| 0 <= k < l0.stakers@.len() && k != i ==> l1.stakers@[k] == l0.stakers@[k]
        &&& l1.stakers@[i].owner == l0.stakers@[i].owner
        &&& l1.stakers@[i].duration == duration
        &&& p1.pending_rewards == p0.pending_rewards + gross_reward(g, p0) / scale()
        &&& p1.dec_rewards@ == gross_reward(g, p0) % scale()
        &&& p1.index@ == g
        &&& p1.last_claimed == now
        &&& p1.bond_time == p0.bond_time
        &&& p1.unbond_duration_as_days == duration
        &&& p1.staked_amount == p0.staked_amount + amount
        &&& p1.position_weight@ == weight_of(p1.staked_amount as nat, duration as nat)
        &&& l1.state.total_weight@ == l0.state.total_weight@ - p0.position_weight@ + p1.position_weight@
    } else {
        exists|p: int|
            0 <= p <= l0.stakers@.len() && {
                let e = #[trigger] l1.stakers@[p];
                &&& l1.stakers@ == l0.stakers@.insert(p, e)
                &&& e.owner@ == owner
                &&& e.duration == duration
                &&& fresh_position(e.position, amount, duration, g, now)
                &&& l1.state.total_weight@ == l0.state.total_weight@ + e.position.position_weight@
            }
    }
}

/// Where a new position of `owner` for `duration` goes: before the owner's
/// first longer position, or at the end.
fn insert_position(stakers: &Vec<StakerEntry>, owner: &String, duration: u128) -> (p: usize)
    ensures
        p <= stakers@.len(),
        forall|k: int| 0 <= k < p ==> !((#[trigger] stakers@[k]).owner@ == owner@ && stakers@[k].duration > duration),
        p < stakers@.len() ==> stakers@[p as int].owner@ == owner@ && stakers@[p as int].duration > duration,
{
    let mut p: usize = 0;
    while p < stakers.len()
        invariant
            p <= stakers@.len(),
            forall|k: int| 0 <= k < p ==> !((#[trigger] stakers@[k]).owner@ == owner@ && stakers@[k].duration > duration),
        decreases stakers@.len() - p,
    {
        if stakers[p].owner == *owner && stakers[p].duration > duration {
            return p;
        }
        p = p + 1;
    }
    p
}

/// Stakes `balance.amount` for `balance.sender` for `duration` days, opening
/// the position or settling and growing the one that exists.
pub fn execute_bond(ledger: &mut Ledger, now: u64, balance: CW20Balance, duration: u128) -> (r: Result<(), ContractError>)
    requires
        old(ledger).wf(),
    ensures
        final(ledger).wf(),
        bond_error(*old(ledger), balance, duration) is Some ==> r == Err::<(), ContractError>(
            bond_error(*old(ledger), balance, duration).unwrap(),
        ),
        bond_error(*old(ledger), balance, duration) is None ==> r.is_ok() == bond_ok(
            *old(ledger),
            balance.sender@,
            balance.amount,
            duration,
            now,
        ),
        bond_error(*old(ledger), balance, duration) is None && !bond_ok(
            *old(ledger),
            balance.sender@,
            balance.amount,
            duration,
            now,
        ) ==> r == Err::<(), ContractError>(failed_update_error(old(ledger).state, now, old(ledger).config.reward_per_second)),
        r.is_err() ==> *final(ledger) == *old(ledger),
        r.is_ok() ==> bonded(*old(ledger), *final(ledger), balance.sender@, balance.amount, duration, now),
{
    if balance.denom != ledger.config.stake_token_address {
        return Err(ContractError::InvalidCw20TokenAddress {});
    }
    if duration < 1 || duration > ledger.config.max_bond_duration {
        return Err(ContractError::InvalidBondDuration {});
    }
    let amount = balance.amount;
    if amount == 0 {
        return Err(ContractError::NoFund {});
    }
    let mut state = ledger.state;
    let found = ledger.find_position(&balance.sender, duration);
    let mut staker = match found {
        Some(i) => {
            let mut staker = ledger.stakers[i].position;
            match update_staker_rewards(&mut state, now, &mut staker, &ledger.config) {
                Ok(_) => {},
                Err(e) => return Err(e),
            }
            staker
        },
        None => {
            match update_reward_index(&mut state, now, &ledger.config) {
                Ok(()) => {},
                Err(e) => return Err(e),
            }
            StakePosition {
                staked_amount: 0,
                index: state.global_index,
                bond_time: now,
                unbond_duration_as_days: duration,
                pending_rewards: 0,
                dec_rewards: Dec256::zero(),
                last_claimed: now,
                position_weight: Dec256::zero(),
            }
        },
    };
    let total_staked = match state.total_staked.checked_add(amount) {
        Some(v) => v,
        None => return Err(ContractError::OverflowError {}),
    };
    let staked = match staker.staked_amount.checked_add(amount) {
        Some(v) => v,
        None => return Err(ContractError::OverflowError {}),
    };
    let weight = match calculate_weight(staked, duration) {
        Ok(w) => w,
        Err(e) => return Err(e),
    };
    let rest = match state.total_weight.checked_sub(staker.position_weight) {
        Some(v) => v,
        None => return Err(ContractError::OverflowError {}),
    };
    let total_weight = match rest.checked_add(weight) {
        Some(v) => v,
        None => return Err(ContractError::OverflowError {}),
    };
    staker.staked_amount = staked;
    staker.position_weight = weight;
    state.total_weight = total_weight;
    state.total_staked = total_staked;
    let ghost mut ins: int = 0;
    let ghost s0 = ledger.stakers@;
    match found {
        Some(i) => {
            ledger.stakers[i].position = staker;
            proof {
                lemma_sums_update(s0, i as int, ledger.stakers@[i as int]);
                assert(ledger.stakers@ == s0.update(i as int, ledger.stakers@[i as int]));
            }
        },
        None => {
            let p = insert_position(&ledger.stakers, &balance.sender, duration);
            let entry = StakerEntry { owner: balance.sender, duration, position: staker };
            let ghost e = entry;
            ledger.stakers.insert(p, entry);
            proof {
                ins = p as int;
                lemma_sums_insert(s0, p as int, e);
                crate::ledger::lemma_insert_keys(s0, p as int, e);
                assert(ledger.stakers@[p as int] == e);
                let t = ledger.stakers@;
                assert forall|k: int| 0 <= k < t.len() implies (#[trigger] t[k]).position.index@ <= state.global_index@ && t[k].position.unbond_duration_as_days == t[k].duration && t[k].position.position_weight@ == weight_of(t[k].position.staked_amount as nat, t[k].duration as nat) by {
                    if k != p {
                        let a = if k < p { k } else { k - 1 };
                        assert(t[k] == s0[a]);
                    }
                }
            }
        },
    }
    ledger.state = state;
    proof {
        if found.is_none() {
            assert(0 <= ins <= s0.len() && ledger.stakers@ == s0.insert(ins, ledger.stakers@[ins]));
        }
    }
    Ok(())
}

/// The release time (nanoseconds) of a claim unbonded at `now` from a position
/// of `days` days.
pub open spec fn release_time(now: u64, days: u128) -> int {
    now + days * seconds_per_day() * NANOS_PER_SECOND
}

/// The principal that an unbond releases from a position of `staked`.
pub open spec fn unbond_amount(amount: Option<u128>, staked: u128) -> u128 {
    match amount {
        Some(a) => a,
        None => staked,
    }
}

/// An unbond whose position exists, settles, and holds the amount asked for,
/// stays within range.
pub open spec fn unbond_ok(l: Ledger, owner: Seq<char>, amount: Option<u128>, duration: u128, now: u64) -> bool {
    let i = key_index(l.stakers@, owner, duration);
    let pos = l.stakers@[i].position;
    let left = (pos.staked_amount - unbond_amount(amount, pos.staked_amount)) as nat;
    &&& pos.position_weight@ <= l.state.total_weight@
    &&& amount is Some ==> weight_of(left, duration as nat) < dec256_limit()
    &&& amount is Some ==> l.state.total_weight@ - pos.position_weight@ + weight_of(left, duration as nat) < dec256_limit()
    &&& unbond_amount(amount, pos.staked_amount) <= l.state.total_staked
    &&& release_time(now, duration) <= u64::MAX
    &&& last_seq(l.claims.entries@, owner, (release_time(now, duration) / NANOS_PER_SECOND as int) as u64) < u16::MAX
}

/// Takes principal out of the position of `sender` for `duration_as_days`
/// days: all of it when `amount` is none. The principal is queued as a claim
/// released after the duration; the pending reward is paid out now.
pub fn execute_unbond(
    ledger: &mut Ledger,
    now: u64,
    sender: &String,
    amount: Option<u128>,
    duration_as_days: u128,
) -> (r: Result<Vec<Transfer>, ContractError>)
    requires
        old(ledger).wf(),
    ensures
        final(ledger).wf(),
        r.is_err() ==> *final(ledger) == *old(ledger),
        !has_key(old(ledger).stakers@, sender@, duration_as_days) ==> r == Err::<Vec<Transfer>, ContractError>(
            ContractError::NoBondForThisDuration {},
        ),
        has_key(old(ledger).stakers@, sender@, duration_as_days) ==> {
            let l0 = *old(ledger);
            let rate = l0.config.reward_per_second;
            let g = index_after(l0.state, now, rate);
            let i = key_index(l0.stakers@, sender@, duration_as_days);
            let p0 = l0.stakers@[i].position;
            let settles = reward_index_ok(l0.state, now, rate) && settle_ok(g, p0);
            let holds = match amount {
                Some(a) => a <= p0.staked_amount,
                None => true,
            };
            &&& !settles ==> r == Err::<Vec<Transfer>, ContractError>(failed_update_error(l0.state, now, rate))
            &&& settles && !holds ==> r == Err::<Vec<Transfer>, ContractError>(ContractError::InsufficientStakedAmount {})
            &&& settles && holds ==> r.is_ok() == unbond_ok(l0, sender@, amount, duration_as_days, now)
            &&& settles && holds && !r.is_ok() ==> r == Err::<Vec<Transfer>, ContractError>(ContractError::OverflowError {})
        },
        r.is_ok() ==> {
            let l0 = *old(ledger);
            let l1 = *final(ledger);
            let rate = l0.config.reward_per_second;
            let g = index_after(l0.state, now, rate);
            let i = key_index(l0.stakers@, sender@, duration_as_days);
            let p0 = l0.stakers@[i].position;
            let out = unbond_amount(amount, p0.staked_amount);
            let reward = p0.pending_rewards + gross_reward(g, p0) / scale();
            let release = release_time(now, duration_as_days) as u64;
            &&& l1.config == l0.config
            &&& l1.state.global_index@ == g
            &&& l1.state.last_updated == now
            &&& l1.state.total_staked == l0.state.total_staked - out
            &&& match amount {
                Some(a) => {
                    let p1 = l1.stakers@[i].position;
                    &&& l1.stakers@.len() == l0.stakers@.len()
                    &&& forall|k: int| 0 <= k < l0.stakers@.len() && k != i ==> l1.stakers@[k] == l0.stakers@[k]
                    &&& l1.stakers@[i].owner == l0.stakers@[i].owner
                    &&& l1.stakers@[i].duration == duration_as_days
                    &&& p1.pending_rewards == 0
                    &&& p1.dec_rewards@ == gross_reward(g, p0) % scale()
                    &&& p1.index@ == g
                    &&& p1.last_claimed == now
                    &&& p1.bond_time == p0.bond_time
                    &&& p1.unbond_duration_as_days == duration_as_days
                    &&& p1.staked_amount == p0.staked_amount - a
                    &&& p1.position_weight@ == weight_of(p1.staked_amount as nat, duration_as_days as nat)
                    &&& l1.state.total_weight@ == l0.state.total_weight@ - p0.position_weight@ + p1.position_weight@
                },
                None => {
                    &&& l1.stakers@ == l0.stakers@.remove(i)
                    &&& l1.state.total_weight@ == l0.state.total_weight@ - p0.position_weight@
                    &&& l0.stakers@.len() == 1 ==> l1.state.total_weight@ == 0
                },
            }
            &&& l1.claims.entries@.len() == l0.claims.entries@.len() + 1
            &&& exists|k: int|
                0 <= k < l1.claims.entries@.len() && {
                    let e = #[trigger] l1.claims.entries@[k];
                    &&& e.owner@ == sender@
                    &&& e.release_at == release / NANOS_PER_SECOND
                    &&& e.seq == last_seq(l0.claims.entries@, sender@, release / NANOS_PER_SECOND) + 1
                    &&& e.claim == Claim { amount: out, release_at: release, unbond_at: now }
                    &&& l1.claims.entries@.remove(k) == l0.claims.entries@
                }
            &&& r.unwrap()@.len() == if reward > 0 { 1int } else { 0int }
            &&& reward > 0 ==> r.unwrap()@[0] == Transfer {
                denom: l0.config.reward_token_denom,
                amount: reward as u128,
                recipient: *sender,
            }
        },
{
    let i = match ledger.find_position(sender, duration_as_days) {
        Some(i) => i,
        None => return Err(ContractError::NoBondForThisDuration {}),
    };
    let mut state = ledger.state;
    let mut staker = ledger.stakers[i].position;
    match update_staker_rewards(&mut state, now, &mut staker, &ledger.config) {
        Ok(_) => {},
        Err(e) => return Err(e),
    }
    let reward = staker.pending_rewards;
    staker.pending_rewards = 0;
    let old_weight = staker.position_weight;
    let out = match amount {
        Some(a) => {
            if staker.staked_amount < a {
                return Err(ContractError::InsufficientStakedAmount {});
            }
            a
        },
        None => staker.staked_amount,
    };
    let rest = match state.total_weight.checked_sub(old_weight) {
        Some(v) => v,
        None => return Err(ContractError::OverflowError {}),
    };
    let left = staker.staked_amount - out;
    let mut total_weight = rest;
    if amount.is_some() {
        let weight = match calculate_weight(left, duration_as_days) {
            Ok(w) => w,
            Err(e) => return Err(e),
        };
        total_weight = match rest.checked_add(weight) {
            Some(v) => v,
            None => return Err(ContractError::OverflowError {}),
        };
        staker.position_weight = weight;
    }
    staker.staked_amount = left;
    let total_staked = match state.total_staked.checked_sub(out) {
        Some(v) => v,
        None => return Err(ContractError::OverflowError {}),
    };
    if duration_as_days > (u64::MAX / 86_400) as u128 {
        return Err(ContractError::OverflowError {});
    }
    let duration_as_sec = days_to_seconds(duration_as_days);
    let release_at = match duration_as_sec.checked_mul(NANOS_PER_SECOND) {
        Some(d) => match now.checked_add(d) {
            Some(t) => t,
            None => return Err(ContractError::OverflowError {}),
        },
        None => return Err(ContractError::OverflowError {}),
    };
    let claim = Claim { amount: out, release_at, unbond_at: now };
    let ghost claims0 = ledger.claims.entries@;
    match ledger.claims.save(sender, release_at / NANOS_PER_SECOND, &claim) {
        Ok(()) => {},
        Err(e) => return Err(e),
    }
    let ghost claims1 = ledger.claims.entries@;
    let ghost k = choose|k: int|
        0 <= k < claims1.len() && {
            let e = #[trigger] claims1[k];
            &&& e.owner@ == sender@
            &&& e.release_at == release_at / NANOS_PER_SECOND
            &&& e.seq == last_seq(claims0, sender@, release_at / NANOS_PER_SECOND) + 1
            &&& e.claim == claim
            &&& claims1.remove(k) == claims0
        };
    state.total_weight = total_weight;
    state.total_staked = total_staked;
    let ghost s0 = ledger.stakers@;
    if amount.is_some() {
        ledger.stakers[i].position = staker;
        proof {
            lemma_sums_update(s0, i as int, ledger.stakers@[i as int]);
            assert(ledger.stakers@ == s0.update(i as int, ledger.stakers@[i as int]));
        }
    } else {
        ledger.stakers.remove(i);
        proof {
            lemma_sums_remove(s0, i as int);
            if s0.len() == 1 {
                assert(ledger.stakers@ =~= Seq::<StakerEntry>::empty());
            }
        }
    }
    ledger.state = state;
    assert(ledger.claims.entries@ == claims1);
    assert(ledger.claims.entries@[k].claim == claim);
    let mut messages: Vec<Transfer> = Vec::new();
    if reward > 0 {
        messages.push(Transfer { denom: ledger.config.reward_token_denom.duplicate(), amount: reward, recipient: sender.clone() });
    }
    Ok(messages)
}

/// Total principal of a list of claims.
pub open spec fn sum_amounts(s: Seq<Claim>) -> nat
    decreases s.len(),
{
    if s.len() == 0 {
        0
    } else {
        sum_amounts(s.drop_last()) + s.last().amount as nat
    }
}

/// Pays out every claim of `sender` released by `now` and removes them.
pub fn execute_claim(ledger: &mut Ledger, now: u64, sender: &String) -> (r: Result<Vec<Transfer>, ContractError>)
    requires
        old(ledger).wf(),
    ensures
        final(ledger).wf(),
        r.is_err() ==> *final(ledger) == *old(ledger),
        ({
            let mature = claims_in(old(ledger).claims.entries@, mature_of(sender@, now / NANOS_PER_SECOND));
            &&& mature.len() == 0 ==> r == Err::<Vec<Transfer>, ContractError>(ContractError::NoMatureClaim {})
            &&& mature.len() > 0 ==> r.is_ok() == (sum_amounts(mature) <= u128::MAX)
            &&& r.is_ok() ==> {
                &&& final(ledger).config == old(ledger).config
                &&& final(ledger).state == old(ledger).state
                &&& final(ledger).stakers@ == old(ledger).stakers@
                &&& final(ledger).claims.entries@ == old(ledger).claims.entries@.filter(
                    not_mature_of(sender@, now / NANOS_PER_SECOND),
                )
                &&& r.unwrap()@ == seq![Transfer {
                    denom: Denom::Cw20(old(ledger).config.stake_token_address),
                    amount: sum_amounts(mature) as u128,
                    recipient: *sender,
                }]
            }
        }),
{
    let now_secs = now / NANOS_PER_SECOND;
    let mature_claims = ledger.claims.load_mature_claims(sender, now_secs);
    if mature_claims.len() == 0 {
        return Err(ContractError::NoMatureClaim {});
    }
    let mut total: u128 = 0;
    let mut i: usize = 0;
    while i < mature_claims.len()
        invariant
            i <= mature_claims@.len(),
            total == sum_amounts(mature_claims@.subrange(0, i as int)),
            *ledger == *old(ledger),
            old(ledger).wf(),
            mature_claims@ == claims_in(old(ledger).claims.entries@, mature_of(sender@, now_secs)),
            now_secs == now / NANOS_PER_SECOND,
        decreases mature_claims@.len() - i,
    {
        proof {
            assert(mature_claims@.subrange(0, i + 1).drop_last() =~= mature_claims@.subrange(0, i as int));
            lemma_sum_prefix(mature_claims@, i + 1);
        }
        total = match total.checked_add(mature_claims[i].amount) {
            Some(t) => t,
            None => return Err(ContractError::OverflowError {}),
        };
        i = i + 1;
    }
    assert(mature_claims@.subrange(0, i as int) =~= mature_claims@);
    let _ = ledger.claims.remove_mature_claims(sender, now_secs);
    let mut messages: Vec<Transfer> = Vec::new();
    messages.push(Transfer { denom: Denom::Cw20(ledger.config.stake_token_address.clone()), amount: total, recipient: sender.clone() });
    Ok(messages)
}

/// A prefix of a list of claims holds no more principal than the whole list.
pub proof fn lemma_sum_prefix(s: Seq<Claim>, n: int)
    requires
        0 <= n <= s.len(),
    ensures
        sum_amounts(s.subrange(0, n)) <= sum_amounts(s),
    decreases s.len(),
{
    if n < s.len() {
        assert(s.drop_last().subrange(0, n) =~= s.subrange(0, n));
        lemma_sum_prefix(s.drop_last(), n);
    } else {
        assert(s.subrange(0, n) =~= s);
    }
}

/// Whole seconds from unbonding to release of a claim.
pub open spec fn claim_span(c: Claim) -> int {
    secs(c.release_at) - secs(c.unbond_at)
}

/// The share of the principal cut from a claim that is forced out `remaining`
/// seconds before release (18-digit atomics): the force-claim ratio times the
/// part of the claim's span still to run.
pub open spec fn cut_ratio(force_ratio: nat, c: Claim, remaining: nat) -> nat {
    force_ratio * (remaining * scale() / (claim_span(c) as nat)) / scale()
}

/// The principal cut from a claim that is forced out early, rounded down.
pub open spec fn cut_amount(force_ratio: nat, c: Claim, remaining: nat) -> nat {
    (c.amount as nat) * cut_ratio(force_ratio, c, remaining) / scale()
}

/// Computing the cut of one claim stays within range.
pub open spec fn cut_ok(force_ratio: nat, c: Claim, remaining: nat) -> bool {
    &&& claim_span(c) > 0
    &&& remaining * scale() / (claim_span(c) as nat) <= u128::MAX
    &&& cut_ratio(force_ratio, c, remaining) <= u128::MAX
    &&& cut_amount(force_ratio, c, remaining) <= c.amount
}

/// The fee that forcing out a list of claims raises.
pub open spec fn total_cut(s: Seq<Claim>, force_ratio: nat, remaining: nat) -> nat
    decreases s.len(),
{
    if s.len() == 0 {
        0
    } else {
        total_cut(s.drop_last(), force_ratio, remaining) + cut_amount(force_ratio, s.last(), remaining)
    }
}

/// What forcing out a list of claims pays their owner.
pub open spec fn total_payout(s: Seq<Claim>, force_ratio: nat, remaining: nat) -> nat
    decreases s.len(),
{
    if s.len() == 0 {
        0
    } else {
        total_payout(s.drop_last(), force_ratio, remaining) + (s.last().amount - cut_amount(
            force_ratio,
            s.last(),
            remaining,
        )) as nat
    }
}

/// Every cut, and both running totals, stay within range.
pub open spec fn force_ok(s: Seq<Claim>, force_ratio: nat, remaining: nat) -> bool
    decreases s.len(),
{
    if s.len() == 0 {
        true
    } else {
        &&& force_ok(s.drop_last(), force_ratio, remaining)
        &&& cut_ok(force_ratio, s.last(), remaining)
        &&& total_cut(s, force_ratio, remaining) <= u128::MAX
        &&& total_payout(s, force_ratio, remaining) <= u128::MAX
    }
}

/// Releases at once, for a fee, the claims of `sender` maturing in the second
/// of `release_at`: each claim is cut by the force-claim ratio times the part
/// of its own span still to run. The fee goes to the fee collector, the rest
/// to `sender`.
pub fn execute_force_claim(ledger: &mut Ledger, now: u64, sender: &String, release_at: u64) -> (r: Result<
    Vec<Transfer>,
    ContractError,
>)
    requires
        old(ledger).wf(),
    ensures
        final(ledger).wf(),
        r.is_err() ==> *final(ledger) == *old(ledger),
        ({
            let rs = release_at / NANOS_PER_SECOND;
            let ns = now / NANOS_PER_SECOND;
            let bucket = claims_in(old(ledger).claims.entries@, in_bucket(sender@, rs));
            let ratio = old(ledger).config.force_claim_ratio@;
            let remaining = (rs - ns) as nat;
            &&& bucket.len() == 0 ==> r == Err::<Vec<Transfer>, ContractError>(ContractError::NoClaimForTimestamp {})
            &&& bucket.len() > 0 && rs < ns ==> r == Err::<Vec<Transfer>, ContractError>(
                ContractError::InvalidReleaseTime {},
            )
            &&& bucket.len() > 0 && rs >= ns ==> r.is_ok() == force_ok(bucket, ratio, remaining)
            &&& !r.is_ok() && bucket.len() > 0 && rs >= ns ==> r == Err::<Vec<Transfer>, ContractError>(
                ContractError::OverflowError {},
            )
            &&& r.is_ok() ==> {
                &&& final(ledger).config == old(ledger).config
                &&& final(ledger).state == old(ledger).state
                &&& final(ledger).stakers@ == old(ledger).stakers@
                &&& final(ledger).claims.entries@ == old(ledger).claims.entries@.filter(not_in_bucket(sender@, rs))
                &&& r.unwrap()@ == seq![
                    Transfer {
                        denom: Denom::Cw20(old(ledger).config.stake_token_address),
                        amount: total_cut(bucket, ratio, remaining) as u128,
                        recipient: old(ledger).config.fee_collector,
                    },
                    Transfer {
                        denom: Denom::Cw20(old(ledger).config.stake_token_address),
                        amount: total_payout(bucket, ratio, remaining) as u128,
                        recipient: *sender,
                    },
                ]
            }
        }),
{
    let rs = release_at / NANOS_PER_SECOND;
    let ns = now / NANOS_PER_SECOND;
    let claims = ledger.claims.load(sender, rs);
    if claims.len() == 0 {
        return Err(ContractError::NoClaimForTimestamp {});
    }
    if rs < ns {
        return Err(ContractError::InvalidReleaseTime {});
    }
    let remaining = rs - ns;
    let ratio = ledger.config.force_claim_ratio;
    let ghost fr = ratio@;
    let mut total_fee: u128 = 0;
    let mut total_claim_amount: u128 = 0;
    let mut i: usize = 0;
    while i < claims.len()
        invariant
            i <= claims@.len(),
            *ledger == *old(ledger),
            old(ledger).wf(),
            ratio == old(ledger).config.force_claim_ratio,
            fr == ratio@,
            force_ok(claims@.subrange(0, i as int), fr, remaining as nat),
            total_fee == total_cut(claims@.subrange(0, i as int), fr, remaining as nat),
            total_claim_amount == total_payout(claims@.subrange(0, i as int), fr, remaining as nat),
            claims@ == claims_in(old(ledger).claims.entries@, in_bucket(sender@, rs)),
            rs == release_at / NANOS_PER_SECOND,
            ns == now / NANOS_PER_SECOND,
            remaining == rs - ns,
        decreases claims@.len() - i,
    {
        let c = claims[i];
        proof {
            assert(claims@.subrange(0, i + 1).drop_last() =~= claims@.subrange(0, i as int));
            lemma_force_prefix(claims@, i + 1, fr, remaining as nat);
        }
        let rel = c.release_at / NANOS_PER_SECOND;
        let unb = c.unbond_at / NANOS_PER_SECOND;
        if rel <= unb {
            return Err(ContractError::OverflowError {});
        }
        let span = rel - unb;
        let time_ratio = match Dec128::checked_from_ratio(remaining, span) {
            Some(t) => t,
            None => return Err(ContractError::OverflowError {}),
        };
        let cut = match ratio.checked_mul(time_ratio) {
            Some(t) => t,
            None => return Err(ContractError::OverflowError {}),
        };
        let cut_amount = match checked_multiply_ratio(c.amount, cut.atomics, 1_000_000_000_000_000_000) {
            Some(v) => v,
            None => return Err(ContractError::OverflowError {}),
        };
        if cut_amount > c.amount {
            return Err(ContractError::OverflowError {});
        }
        let claim_amount = c.amount - cut_amount;
        total_fee = match total_fee.checked_add(cut_amount) {
            Some(v) => v,
            None => return Err(ContractError::OverflowError {}),
        };
        total_claim_amount = match total_claim_amount.checked_add(claim_amount) {
            Some(v) => v,
            None => return Err(ContractError::OverflowError {}),
        };
        i = i + 1;
    }
    assert(claims@.subrange(0, i as int) =~= claims@);
    let stake = ledger.config.stake_token_address.clone();
    let mut messages: Vec<Transfer> = Vec::new();
    messages.push(Transfer { denom: Denom::Cw20(stake.clone()), amount: total_fee, recipient: ledger.config.fee_collector.clone() });
    messages.push(Transfer { denom: Denom::Cw20(stake), amount: total_claim_amount, recipient: sender.clone() });
    let _ = ledger.claims.remove_for_release_at(sender, rs);
    Ok(messages)
}

/// A list whose force-claim stays in range has every prefix in range too.
pub proof fn lemma_force_prefix(s: Seq<Claim>, n: int, force_ratio: nat, remaining: nat)
    requires
        0 <= n <= s.len(),
    ensures
        force_ok(s, force_ratio, remaining) ==> force_ok(s.subrange(0, n), force_ratio, remaining),
        total_cut(s.subrange(0, n), force_ratio, remaining) <= total_cut(s, force_ratio, remaining),
        total_payout(s.subrange(0, n), force_ratio, remaining) <= total_payout(s, force_ratio, remaining),
    decreases s.len(),
{
    if n < s.len() {
        assert(s.drop_last().subrange(0, n) =~= s.subrange(0, n));
        lemma_force_prefix(s.drop_last(), n, force_ratio, remaining);
    } else {
        assert(s.subrange(0, n) =~= s);
    }
}

/// Reward that settling one position of `owner` against `g` yields: the whole
/// pending reward when it is paid out, else what this settlement realizes.
pub open spec fn owner_reward(e: StakerEntry, owner: Seq<char>, g: nat, pay: bool) -> nat {
    if e.owner@ != owner {
        0
    } else if pay {
        e.position.pending_rewards as nat + gross_reward(g, e.position) / scale()
    } else {
        gross_reward(g, e.position) / scale()
    }
}

pub open spec fn owner_total(s: Seq<StakerEntry>, owner: Seq<char>, g: nat, pay: bool) -> nat
    decreases s.len(),
{
    if s.len() == 0 {
        0
    } else {
        owner_total(s.drop_last(), owner, g, pay) + owner_reward(s.last(), owner, g, pay)
    }
}

/// Settling every position of `owner` against `g` stays within range.
pub open spec fn owner_ok(s: Seq<StakerEntry>, owner: Seq<char>, g: nat, pay: bool) -> bool
    decreases s.len(),
{
    if s.len() == 0 {
        true
    } else {
        &&& owner_ok(s.drop_last(), owner, g, pay)
        &&& s.last().owner@ == owner ==> settle_ok(g, s.last().position)
        &&& owner_total(s, owner, g, pay) <= u128::MAX
    }
}

/// `e1` is `e0` with, when it belongs to `owner`, its position settled against
/// `g` at `now` and, when `pay`, its pending reward paid out.
pub open spec fn owner_settled(e0: StakerEntry, e1: StakerEntry, owner: Seq<char>, g: nat, now: u64, pay: bool) -> bool {
    &&& e1.owner == e0.owner
    &&& e1.duration == e0.duration
    &&& if e0.owner@ == owner {
        let p0 = e0.position;
        let p1 = e1.position;
        &&& p1.pending_rewards == if pay {
            0
        } else {
            p0.pending_rewards + gross_reward(g, p0) / scale()
        }
        &&& p1.dec_rewards@ == gross_reward(g, p0) % scale()
        &&& p1.index@ == g
        &&& p1.last_claimed == now
        &&& p1.staked_amount == p0.staked_amount
        &&& p1.position_weight == p0.position_weight
        &&& p1.bond_time == p0.bond_time
        &&& p1.unbond_duration_as_days == p0.unbond_duration_as_days
    } else {
        e1.position == e0.position
    }
}

pub proof fn lemma_owner_prefix(s: Seq<StakerEntry>, n: int, owner: Seq<char>, g: nat, pay: bool)
    requires
        0 <= n <= s.len(),
    ensures
        owner_ok(s, owner, g, pay) ==> owner_ok(s.subrange(0, n), owner, g, pay),
        owner_total(s.subrange(0, n), owner, g, pay) <= owner_total(s, owner, g, pay),
    decreases s.len(),
{
    if n < s.len() {
        assert(s.drop_last().subrange(0, n) =~= s.subrange(0, n));
        lemma_owner_prefix(s.drop_last(), n, owner, g, pay);
    } else {
        assert(s.subrange(0, n) =~= s);
    }
}

fn settle_owner(stakers: &Vec<StakerEntry>, owner: &String, global_index: Dec256, now: u64, pay: bool) -> (r: Result<
    (Vec<StakerEntry>, u128),
    ContractError,
>)
    ensures
        r.is_ok() == owner_ok(stakers@, owner@, global_index@, pay),
        r.is_err() ==> r == Err::<(Vec<StakerEntry>, u128), ContractError>(ContractError::OverflowError {}),
        r.is_ok() ==> {
            let (t, total) = r.unwrap();
            &&& t@.len() == stakers@.len()
            &&& forall|k: int| 0 <= k < t@.len() ==> owner_settled(#[trigger] stakers@[k], t@[k], owner@, global_index@, now, pay)
            &&& total == owner_total(stakers@, owner@, global_index@, pay)
        },
{
    let ghost s = stakers@;
    let ghost g = global_index@;
    let mut out: Vec<StakerEntry> = Vec::new();
    let mut total: u128 = 0;
    let mut i: usize = 0;
    while i < stakers.len()
        invariant
            stakers@ == s,
            g == global_index@,
            i <= s.len(),
            out@.len() == i,
            forall|k: int| 0 <= k < i ==> owner_settled(#[trigger] s[k], out@[k], owner@, g, now, pay),
            owner_ok(s.subrange(0, i as int), owner@, g, pay),
            total == owner_total(s.subrange(0, i as int), owner@, g, pay),
        decreases s.len() - i,
    {
        proof {
            assert(s.subrange(0, i + 1).drop_last() =~= s.subrange(0, i as int));
            lemma_owner_prefix(s, i + 1, owner@, g, pay);
        }
        let e = &stakers[i];
        let mut pos = e.position;
        if e.owner == *owner {
            let realized = match settle_position(global_index, now, &mut pos) {
                Ok(v) => v,
                Err(err) => return Err(err),
            };
            let gain = if pay {
                pos.pending_rewards
            } else {
                realized
            };
            if pay {
                pos.pending_rewards = 0;
            }
            total = match total.checked_add(gain) {
                Some(v) => v,
                None => return Err(ContractError::OverflowError {}),
            };
        }
        out.push(StakerEntry { owner: e.owner.clone(), duration: e.duration, position: pos });
        i = i + 1;
    }
    assert(s.subrange(0, i as int) =~= s);
    Ok((out, total))
}

/// Settles every position of `sender` and pays out all their pending reward.
pub fn execute_receive_reward(ledger: &mut Ledger, now: u64, sender: &String) -> (r: Result<Vec<Transfer>, ContractError>)
    requires
        old(ledger).wf(),
    ensures
        final(ledger).wf(),
        r.is_err() ==> *final(ledger) == *old(ledger),
        ({
            let l0 = *old(ledger);
            let rate = l0.config.reward_per_second;
            let g = index_after(l0.state, now, rate);
            &&& r.is_ok() == (reward_index_ok(l0.state, now, rate) && owner_ok(l0.stakers@, sender@, g, true))
            &&& !r.is_ok() ==> r == Err::<Vec<Transfer>, ContractError>(failed_update_error(l0.state, now, rate))
            &&& r.is_ok() ==> {
                let l1 = *final(ledger);
                &&& l1.config == l0.config
                &&& l1.claims == l0.claims
                &&& reward_index_updated(l0.state, l1.state, now, rate)
                &&& l1.stakers@.len() == l0.stakers@.len()
                &&& forall|k: int|
                    0 <= k < l1.stakers@.len() ==> owner_settled(#[trigger] l0.stakers@[k], l1.stakers@[k], sender@, g, now, true)
                &&& r.unwrap()@ == seq![Transfer {
                    denom: l0.config.reward_token_denom,
                    amount: owner_total(l0.stakers@, sender@, g, true) as u128,
                    recipient: *sender,
                }]
            }
        }),
{
    let mut state = ledger.state;
    match update_reward_index(&mut state, now, &ledger.config) {
        Ok(()) => {},
        Err(e) => return Err(e),
    }
    let (stakers, rewards) = match settle_owner(&ledger.stakers, sender, state.global_index, now, true) {
        Ok(v) => v,
        Err(e) => return Err(e),
    };
    proof {
        lemma_owner_settled_keeps(ledger.stakers@, stakers@, sender@, state.global_index@, now, true);
    }
    ledger.stakers = stakers;
    ledger.state = state;
    let mut messages: Vec<Transfer> = Vec::new();
    messages.push(Transfer { denom: ledger.config.reward_token_denom.duplicate(), amount: rewards, recipient: sender.clone() });
    Ok(messages)
}

/// Settling the positions of one owner keeps the keys, the durations and the
/// weight and stake sums.
pub proof fn lemma_owner_settled_keeps(
    s: Seq<StakerEntry>,
    t: Seq<StakerEntry>,
    owner: Seq<char>,
    g: nat,
    now: u64,
    pay: bool,
)
    requires
        s.len() == t.len(),
        forall|k: int| 0 <= k < t.len() ==> owner_settled(#[trigger] s[k], t[k], owner, g, now, pay),
        keys_unique(s),
        forall|i: int| 0 <= i < s.len() ==> (#[trigger] s[i]).position.unbond_duration_as_days == s[i].duration,
        forall|i: int| 0 <= i < s.len() ==> (#[trigger] s[i]).position.index@ <= g,
        crate::ledger::owner_ordered(s),
        forall|i: int|
            0 <= i < s.len() ==> (#[trigger] s[i]).position.position_weight@ == weight_of(
                s[i].position.staked_amount as nat,
                s[i].duration as nat,
            ),
    ensures
        forall|i: int| 0 <= i < t.len() ==> (#[trigger] t[i]).position.index@ <= g,
        crate::ledger::owner_ordered(t),
        forall|i: int|
            0 <= i < t.len() ==> (#[trigger] t[i]).position.position_weight@ == weight_of(
                t[i].position.staked_amount as nat,
                t[i].duration as nat,
            ),
        keys_unique(t),
        forall|i: int| 0 <= i < t.len() ==> (#[trigger] t[i]).position.unbond_duration_as_days == t[i].duration,
        sum_weights(s) == sum_weights(t),
        sum_staked(s) == sum_staked(t),
{
    assert forall|k: int| 0 <= k < t.len() implies (#[trigger] s[k]).position.position_weight == t[k].position.position_weight
        && s[k].position.staked_amount == t[k].position.staked_amount by {
        assert(owner_settled(s[k], t[k], owner, g, now, pay));
    }
    lemma_sums_pointwise(s, t);
    assert forall|i: int, j: int| 0 <= i < t.len() && 0 <= j < t.len() && i != j implies !key_at(
        #[trigger] t[i],
        t[j].owner@,
        #[trigger] t[j].duration,
    ) by {
        assert(owner_settled(s[i], t[i], owner, g, now, pay));
        assert(owner_settled(s[j], t[j], owner, g, now, pay));
        assert(!key_at(s[i], s[j].owner@, s[j].duration));
    }
    assert forall|i: int| 0 <= i < t.len() implies (#[trigger] t[i]).position.unbond_duration_as_days == t[i].duration
        && t[i].position.index@ <= g && t[i].position.position_weight@ == weight_of(
        t[i].position.staked_amount as nat,
        t[i].duration as nat,
    ) by {
        assert(owner_settled(s[i], t[i], owner, g, now, pay));
    }
    assert forall|k: int| 0 <= k < s.len() implies (#[trigger] s[k]).owner@ == t[k].owner@ && s[k].duration
        == t[k].duration by {
        assert(owner_settled(s[k], t[k], owner, g, now, pay));
    }
    crate::ledger::lemma_same_keys(s, t);
}

/// Brings the global index to `now`.
pub fn execute_update_reward_index(ledger: &mut Ledger, now: u64) -> (r: Result<(), ContractError>)
    requires
        old(ledger).wf(),
    ensures
        final(ledger).wf(),
        r.is_ok() == reward_index_ok(old(ledger).state, now, old(ledger).config.reward_per_second),
        r.is_ok() ==> reward_index_updated(old(ledger).state, final(ledger).state, now, old(ledger).config.reward_per_second)
            && final(ledger).config == old(ledger).config && final(ledger).stakers@ == old(ledger).stakers@
            && final(ledger).claims == old(ledger).claims,
        r.is_err() ==> *final(ledger) == *old(ledger) && r == Err::<(), ContractError>(
            reward_index_error(old(ledger).state, now),
        ),
{
    let mut state = ledger.state;
    match update_reward_index(&mut state, now, &ledger.config) {
        Ok(()) => {},
        Err(e) => return Err(e),
    }
    ledger.state = state;
    Ok(())
}

/// Settles every position of `address` (of `sender` when none is given) and
/// returns the reward realized by this call.
pub fn execute_update_staker_rewards(ledger: &mut Ledger, now: u64, sender: &String, address: Option<String>) -> (r: Result<
    u128,
    ContractError,
>)
    requires
        old(ledger).wf(),
    ensures
        final(ledger).wf(),
        r.is_err() ==> *final(ledger) == *old(ledger),
        ({
            let l0 = *old(ledger);
            let owner = match address {
                Some(a) => a@,
                None => sender@,
            };
            let rate = l0.config.reward_per_second;
            let g = index_after(l0.state, now, rate);
            &&& l0.state.total_staked == 0 ==> r == Err::<u128, ContractError>(ContractError::NoBond {})
            &&& l0.state.total_staked != 0 ==> r.is_ok() == (reward_index_ok(l0.state, now, rate) && owner_ok(
                l0.stakers@,
                owner,
                g,
                false,
            ))
            &&& l0.state.total_staked != 0 && !r.is_ok() ==> r == Err::<u128, ContractError>(
                failed_update_error(l0.state, now, rate),
            )
            &&& r.is_ok() ==> {
                let l1 = *final(ledger);
                &&& l1.config == l0.config
                &&& l1.claims == l0.claims
                &&& reward_index_updated(l0.state, l1.state, now, rate)
                &&& l1.stakers@.len() == l0.stakers@.len()
                &&& forall|k: int|
                    0 <= k < l1.stakers@.len() ==> owner_settled(#[trigger] l0.stakers@[k], l1.stakers@[k], owner, g, now, false)
                &&& r.unwrap() == owner_total(l0.stakers@, owner, g, false)
            }
        }),
{
    let addr = match address {
        Some(a) => a,
        None => sender.clone(),
    };
    if ledger.state.total_staked == 0 {
        return Err(ContractError::NoBond {});
    }
    let mut state = ledger.state;
    match update_reward_index(&mut state, now, &ledger.config) {
        Ok(()) => {},
        Err(e) => return Err(e),
    }
    let (stakers, rewards) = match settle_owner(&ledger.stakers, &addr, state.global_index, now, false) {
        Ok(v) => v,
        Err(e) => return Err(e),
    };
    proof {
        lemma_owner_settled_keeps(ledger.stakers@, stakers@, addr@, state.global_index@, now, false);
    }
    ledger.stakers = stakers;
    ledger.state = state;
    Ok(rewards)
}

/// Sets the reward released per second, after bringing the index to `now`
/// under the old rate. Only the admin may.
pub fn execute_set_reward_per_second(ledger: &mut Ledger, now: u64, sender: &String, reward_per_second: u128) -> (r: Result<
    (),
    ContractError,
>)
    requires
        old(ledger).wf(),
    ensures
        final(ledger).wf(),
        r.is_err() ==> *final(ledger) == *old(ledger),
        ({
            let l0 = *old(ledger);
            let rate = l0.config.reward_per_second;
            &&& sender@ != l0.config.admin@ ==> r == Err::<(), ContractError>(ContractError::Unauthorized {})
            &&& sender@ == l0.config.admin@ && reward_per_second == 0 ==> r == Err::<(), ContractError>(
                ContractError::InvalidRewardPerSecond {},
            )
            &&& sender@ == l0.config.admin@ && reward_per_second != 0 ==> r.is_ok() == reward_index_ok(l0.state, now, rate)
            &&& sender@ == l0.config.admin@ && reward_per_second != 0 && !r.is_ok() ==> r == Err::<(), ContractError>(
                reward_index_error(l0.state, now),
            )
            &&& r.is_ok() ==> {
                let l1 = *final(ledger);
                &&& reward_index_updated(l0.state, l1.state, now, rate)
                &&& l1.config == Config { reward_per_second, ..l0.config }
                &&& l1.stakers@ == l0.stakers@
                &&& l1.claims == l0.claims
            }
        }),
{
    if *sender != ledger.config.admin {
        return Err(ContractError::Unauthorized {});
    }
    if reward_per_second == 0 {
        return Err(ContractError::InvalidRewardPerSecond {});
    }
    let mut state = ledger.state;
    match update_reward_index(&mut state, now, &ledger.config) {
        Ok(()) => {},
        Err(e) => return Err(e),
    }
    ledger.state = state;
    ledger.config.reward_per_second = reward_per_second;
    Ok(())
}

/// A force-claim ratio below one.
pub open spec fn ratio_valid(r: Dec128) -> bool {
    r@ < scale()
}

/// Replaces the given settings. Only the admin may.
pub fn execute_update_config(
    ledger: &mut Ledger,
    sender: &String,
    force_claim_ratio: Option<Dec128>,
    fee_collector: Option<String>,
    admin: Option<String>,
) -> (r: Result<(), ContractError>)
    requires
        old(ledger).wf(),
    ensures
        final(ledger).wf(),
        r.is_err() ==> *final(ledger) == *old(ledger),
        ({
            let l0 = *old(ledger);
            let l1 = *final(ledger);
            let ratio_bad = force_claim_ratio is Some && !ratio_valid(force_claim_ratio.unwrap());
            &&& sender@ != l0.config.admin@ ==> r == Err::<(), ContractError>(ContractError::Unauthorized {})
            &&& sender@ == l0.config.admin@ && ratio_bad ==> r == Err::<(), ContractError>(
                ContractError::InvalidForceClaimRatio {},
            )
            &&& sender@ == l0.config.admin@ && !ratio_bad ==> r.is_ok()
            &&& r.is_ok() ==> {
                &&& l1.config.force_claim_ratio == match force_claim_ratio {
                    Some(x) => x,
                    None => l0.config.force_claim_ratio,
                }
                &&& l1.config.fee_collector == match fee_collector {
                    Some(x) => x,
                    None => l0.config.fee_collector,
                }
                &&& l1.config.admin == match admin {
                    Some(x) => x,
                    None => l0.config.admin,
                }
                &&& l1.config.stake_token_address == l0.config.stake_token_address
                &&& l1.config.reward_token_denom == l0.config.reward_token_denom
                &&& l1.config.max_bond_duration == l0.config.max_bond_duration
                &&& l1.config.reward_per_second == l0.config.reward_per_second
                &&& l1.state == l0.state
                &&& l1.stakers@ == l0.stakers@
                &&& l1.claims == l0.claims
            }
        }),
{
    if *sender != ledger.config.admin {
        return Err(ContractError::Unauthorized {});
    }
    if let Some(x) = force_claim_ratio {
        if x.atomics >= 1_000_000_000_000_000_000 {
            return Err(ContractError::InvalidForceClaimRatio {});
        }
        ledger.config.force_claim_ratio = x;
    }
    if let Some(x) = fee_collector {
        ledger.config.fee_collector = x;
    }
    if let Some(x) = admin {
        ledger.config.admin = x;
    }
    Ok(())
}

/// Opens an empty ledger at `now`, with `sender` as admin unless one is named.
pub fn instantiate(now: u64, sender: &String, msg: InstantiateMsg) -> (r: Result<Ledger, ContractError>)
    ensures
        msg.max_bond_duration < 1 ==> r == Err::<Ledger, ContractError>(ContractError::InvalidMaxBondDuration {}),
        msg.max_bond_duration >= 1 && !ratio_valid(msg.force_claim_ratio) ==> r == Err::<Ledger, ContractError>(
            ContractError::InvalidForceClaimRatio {},
        ),
        msg.max_bond_duration >= 1 && ratio_valid(msg.force_claim_ratio) ==> r.is_ok() == (msg.reward_token_cw20 is Some
            != msg.reward_token_native is Some),
        msg.max_bond_duration >= 1 && ratio_valid(msg.force_claim_ratio) && !r.is_ok() ==> r == Err::<
            Ledger,
            ContractError,
        >(ContractError::InvalidRewardTokenDenom {}),
        r.is_ok() ==> {
            let l = r.unwrap();
            &&& l.wf()
            &&& l.config.admin == match msg.admin {
                Some(a) => a,
                None => *sender,
            }
            &&& l.config.stake_token_address == msg.stake_token_address
            &&& l.config.reward_token_denom == match msg.reward_token_cw20 {
                Some(a) => Denom::Cw20(a),
                None => Denom::Native(msg.reward_token_native.unwrap()),
            }
            &&& l.config.force_claim_ratio == msg.force_claim_ratio
            &&& l.config.fee_collector == msg.fee_collector
            &&& l.config.max_bond_duration == msg.max_bond_duration
            &&& l.config.reward_per_second == 0
            &&& l.state.global_index@ == 0
            &&& l.state.total_staked == 0
            &&& l.state.total_weight@ == 0
            &&& l.state.total_reward_claimed == 0
            &&& l.state.last_updated == now
            &&& l.stakers@.len() == 0
            &&& l.claims.entries@.len() == 0
        },
{
    if msg.max_bond_duration < 1 {
        return Err(ContractError::InvalidMaxBondDuration {});
    }
    if msg.force_claim_ratio.atomics >= 1_000_000_000_000_000_000 {
        return Err(ContractError::InvalidForceClaimRatio {});
    }
    let reward_token_denom = match (msg.reward_token_cw20, msg.reward_token_native) {
        (Some(a), None) => Denom::Cw20(a),
        (None, Some(n)) => Denom::Native(n),
        _ => return Err(ContractError::InvalidRewardTokenDenom {}),
    };
    let admin = match msg.admin {
        Some(a) => a,
        None => sender.clone(),
    };
    let config = Config {
        admin,
        stake_token_address: msg.stake_token_address,
        reward_token_denom,
        force_claim_ratio: msg.force_claim_ratio,
        fee_collector: msg.fee_collector,
        max_bond_duration: msg.max_bond_duration,
        reward_per_second: 0,
    };
    let state = State {
        global_index: Dec256::zero(),
        total_staked: 0,
        total_weight: Dec256::zero(),
        total_reward_claimed: 0,
        last_updated: now,
    };
    let ledger = Ledger { config, state, stakers: Vec::new(), claims: Claims::new() };
    proof {
        assert(ledger.stakers@ =~= Seq::<StakerEntry>::empty());
    }
    Ok(ledger)
}

pub open spec fn state_response(st: State) -> StateResponse {
    StateResponse {
        global_index: st.global_index,
        total_staked: st.total_staked,
        total_weight: st.total_weight,
        total_reward_claimed: st.total_reward_claimed,
        last_updated: st.last_updated,
    }
}

pub open spec fn claim_response(c: Claim) -> ClaimResponse {
    ClaimResponse { amount: c.amount, release_at: c.release_at, unbond_at: c.unbond_at }
}

pub open spec fn staker_response(p: StakePosition) -> StakerResponse {
    StakerResponse {
        staked_amount: p.staked_amount,
        index: p.index,
        bond_time: p.bond_time,
        unbond_duration_as_days: p.unbond_duration_as_days,
        pending_rewards: p.pending_rewards,
        dec_rewards: p.dec_rewards,
        last_claimed: p.last_claimed,
        position_weight: p.position_weight,
    }
}

pub open spec fn staker_owner(owner: Seq<char>) -> spec_fn(StakerEntry) -> bool {
    |e: StakerEntry| e.owner@ == owner
}

pub open spec fn entry_response() -> spec_fn(StakerEntry) -> StakerResponse {
    |e: StakerEntry| staker_response(e.position)
}

pub fn query_state(ledger: &Ledger) -> (r: StateResponse)
    ensures
        r == state_response(ledger.state),
{
    let st = ledger.state;
    StateResponse {
        global_index: st.global_index,
        total_staked: st.total_staked,
        total_weight: st.total_weight,
        total_reward_claimed: st.total_reward_claimed,
        last_updated: st.last_updated,
    }
}

pub fn query_config(ledger: &Ledger) -> (r: ConfigResponse)
    ensures
        r.stake_token_address == ledger.config.stake_token_address,
        r.reward_token_address == ledger.config.reward_token_denom,
        r.admin == ledger.config.admin,
        r.fee_collector == ledger.config.fee_collector,
        r.force_claim_ratio == ledger.config.force_claim_ratio,
        r.reward_per_second == ledger.config.reward_per_second,
{
    let c = &ledger.config;
    ConfigResponse {
        stake_token_address: c.stake_token_address.clone(),
        reward_token_address: c.reward_token_denom.duplicate(),
        admin: c.admin.clone(),
        fee_collector: c.fee_collector.clone(),
        force_claim_ratio: c.force_claim_ratio,
        reward_per_second: c.reward_per_second,
    }
}

/// The claims of `address`, by release time and then sequence.
pub fn query_list_claims(ledger: &Ledger, address: &String) -> (r: ListClaimsResponse)
    ensures
        r.claims@ == claims_in(ledger.claims.entries@, of_owner(address@)).map_values(|c: Claim| claim_response(c)),
{
    let claims = ledger.claims.load_all(address);
    let mut out: Vec<ClaimResponse> = Vec::new();
    let mut i: usize = 0;
    while i < claims.len()
        invariant
            i <= claims@.len(),
            out@ == claims@.subrange(0, i as int).map_values(|c: Claim| claim_response(c)),
        decreases claims@.len() - i,
    {
        let c = claims[i];
        out.push(ClaimResponse { amount: c.amount, release_at: c.release_at, unbond_at: c.unbond_at });
        i = i + 1;
        assert(out@ =~= claims@.subrange(0, i as int).map_values(|c: Claim| claim_response(c)));
    }
    assert(claims@.subrange(0, i as int) =~= claims@);
    ListClaimsResponse { claims: out }
}

/// The position of `address` for `duration` days.
pub fn query_staker_for_duration(ledger: &Ledger, address: &String, duration: u128) -> (r: Result<StakerResponse, ContractError>)
    requires
        ledger.wf(),
    ensures
        r.is_ok() == has_key(ledger.stakers@, address@, duration),
        r.is_ok() ==> r.unwrap() == staker_response(ledger.stakers@[key_index(ledger.stakers@, address@, duration)].position),
        r.is_err() ==> r == Err::<StakerResponse, ContractError>(ContractError::NoBondForThisDuration {}),
{
    match ledger.find_position(address, duration) {
        Some(i) => {
            let p = ledger.stakers[i].position;
            Ok(StakerResponse {
                staked_amount: p.staked_amount,
                index: p.index,
                bond_time: p.bond_time,
                unbond_duration_as_days: p.unbond_duration_as_days,
                pending_rewards: p.pending_rewards,
                dec_rewards: p.dec_rewards,
                last_claimed: p.last_claimed,
                position_weight: p.position_weight,
            })
        },
        None => Err(ContractError::NoBondForThisDuration {}),
    }
}

/// Every position of `address`, in the order in which they were opened.
pub fn query_staker_for_all_duration(ledger: &Ledger, address: &String) -> (r: StakerForAllDurationResponse)
    requires
        ledger.wf(),
    ensures
        r.positions@ == ledger.stakers@.filter(staker_owner(address@)).map_values(entry_response()),
        forall|i: int, j: int|
            0 <= i < j < r.positions@.len() ==> (#[trigger] r.positions@[i]).unbond_duration_as_days
                < (#[trigger] r.positions@[j]).unbond_duration_as_days,
{
    let ghost s = ledger.stakers@;
    let ghost p = staker_owner(address@);
    let mut out: Vec<StakerResponse> = Vec::new();
    let mut i: usize = 0;
    while i < ledger.stakers.len()
        invariant
            s == ledger.stakers@,
            p == staker_owner(address@),
            i <= s.len(),
            out@ == s.subrange(0, i as int).filter(p).map_values(entry_response()),
            ledger.wf(),
            forall|a: int, b: int|
                0 <= a < b < out@.len() ==> (#[trigger] out@[a]).unbond_duration_as_days
                    < (#[trigger] out@[b]).unbond_duration_as_days,
            forall|a: int, b: int|
                0 <= a < out@.len() && i <= b < s.len() && (#[trigger] s[b]).owner@ == address@
                    ==> (#[trigger] out@[a]).unbond_duration_as_days < s[b].duration,
        decreases s.len() - i,
    {
        proof {
            lemma_filter_step(s, p, i as int);
            let f = s.subrange(0, i as int).filter(p);
            assert(f.push(s[i as int]).map_values(entry_response()) =~= f.map_values(entry_response()).push(
                staker_response(s[i as int].position),
            ));
        }
        proof {
            assert(s[i as int].position.unbond_duration_as_days == s[i as int].duration);
            assert forall|b: int| i < b < s.len() && (#[trigger] s[b]).owner@ == address@ && s[i as int].owner@
                == address@ implies s[i as int].duration < s[b].duration by {
                assert(s[i as int].owner@ == s[b].owner@);
            }
        }
        if ledger.stakers[i].owner == *address {
            let q = ledger.stakers[i].position;
            out.push(StakerResponse {
                staked_amount: q.staked_amount,
                index: q.index,
                bond_time: q.bond_time,
                unbond_duration_as_days: q.unbond_duration_as_days,
                pending_rewards: q.pending_rewards,
                dec_rewards: q.dec_rewards,
                last_claimed: q.last_claimed,
                position_weight: q.position_weight,
            });
        }
        i = i + 1;
    }
    assert(s.subrange(0, i as int) =~= s);
    StakerForAllDurationResponse { positions: out }
}

/// Settlement neither creates nor loses reward: the pending reward in whole
/// units plus the carried fraction grows by exactly the position's share of
/// the index growth.
pub proof fn lemma_settlement_conserves(old: StakePosition, new: StakePosition, g: nat, now: u64)
    requires
        settled(old, new, g, now),
    ensures
        new.pending_rewards * scale() + new.dec_rewards@ == old.pending_rewards * scale() + old.dec_rewards@
            + index_share(g, old),
{
    let x = gross_reward(g, old);
    vstd::arithmetic::div_mod::lemma_fundamental_div_mod(x as int, scale() as int);
    assert((old.pending_rewards + x / scale()) * scale() == old.pending_rewards * scale() + (x / scale()) * scale())
        by (nonlinear_arith);
}

/// Total share (atomics) that a chain of settlements brings: the k-th
/// settlement takes position `ps[k]` to `ps[k + 1]` against index `gs[k]`.
pub open spec fn chain_share(ps: Seq<StakePosition>, gs: Seq<nat>) -> nat
    decreases gs.len(),
{
    if gs.len() == 0 || ps.len() < gs.len() {
        0
    } else {
        chain_share(ps, gs.drop_last()) + index_share(gs.last(), ps[gs.len() - 1])
    }
}

/// Over any chain of settlements of one position, the pending reward in whole
/// units plus the carried fraction equals what it started with plus everything
/// the index growth brought: repeated rounding down loses nothing.
pub proof fn lemma_settlements_conserve(ps: Seq<StakePosition>, gs: Seq<nat>, now: u64)
    requires
        ps.len() == gs.len() + 1,
        forall|k: int| 0 <= k < gs.len() ==> settled(#[trigger] ps[k], ps[k + 1], gs[k], now),
    ensures
        ps.last().pending_rewards * scale() + ps.last().dec_rewards@ == ps[0].pending_rewards * scale() + ps[0].dec_rewards@
            + chain_share(ps, gs),
    decreases gs.len(),
{
    if gs.len() > 0 {
        let n = gs.len() - 1;
        let ps0 = ps.drop_last();
        let gs0 = gs.drop_last();
        assert forall|k: int| 0 <= k < gs0.len() implies settled(#[trigger] ps0[k], ps0[k + 1], gs0[k], now) by {
            assert(settled(ps[k], ps[k + 1], gs[k], now));
        }
        lemma_settlements_conserve(ps0, gs0, now);
        lemma_chain_share_prefix(ps, gs0);
        assert(settled(ps[n], ps[n + 1], gs[n], now));
        lemma_settlement_conserves(ps[n], ps[n + 1], gs[n], now);
    }
}

proof fn lemma_chain_share_prefix(ps: Seq<StakePosition>, gs: Seq<nat>)
    requires
        ps.len() == gs.len() + 2,
    ensures
        chain_share(ps.drop_last(), gs) == chain_share(ps, gs),
    decreases gs.len(),
{
    if gs.len() > 0 {
        let ps1 = ps.drop_last();
        assert(ps1.drop_last().len() == gs.drop_last().len() + 1);
        lemma_chain_share_prefix_any(ps, gs.drop_last());
        lemma_chain_share_prefix_any(ps1, gs.drop_last());
    }
}

proof fn lemma_chain_share_prefix_any(ps: Seq<StakePosition>, gs: Seq<nat>)
    requires
        ps.len() >= gs.len() + 1,
    ensures
        chain_share(ps.drop_last(), gs) == chain_share(ps, gs),
    decreases gs.len(),
{
    if gs.len() > 0 {
        lemma_chain_share_prefix_any(ps, gs.drop_last());
        assert(ps.drop_last()[gs.len() - 1] == ps[gs.len() - 1]);
    }
}

proof fn lemma_filter_disjoint<A>(s: Seq<A>, q: spec_fn(A) -> bool, p: spec_fn(A) -> bool)
    requires
        forall|x: A| #[trigger] q(x) ==> !p(x),
    ensures
        s.filter(q).filter(p).len() == 0,
    decreases s.len(),
{
    reveal(Seq::filter);
    if s.len() > 0 {
        lemma_filter_disjoint(s.drop_last(), q, p);
        if q(s.last()) {
            assert(s.filter(q).drop_last() =~= s.drop_last().filter(q));
        }
    }
}

/// Once the mature claims of an owner are paid out, none is left mature at
/// that time: a second claim then fails with `NoMatureClaim`.
pub proof fn lemma_claim_once(before: Seq<ClaimEntry>, after: Seq<ClaimEntry>, owner: Seq<char>, now_secs: u64)
    requires
        after == before.filter(not_mature_of(owner, now_secs)),
    ensures
        claims_in(after, mature_of(owner, now_secs)).len() == 0,
{
    lemma_filter_disjoint(before, not_mature_of(owner, now_secs), mature_of(owner, now_secs));
}

/// Handles stake tokens sent by the token contract `token` on behalf of `sender`.
pub fn execute_receive(ledger: &mut Ledger, now: u64, token: String, sender: String, amount: u128, msg: ReceiveMsg) -> (r:
    Result<(), ContractError>)
    requires
        old(ledger).wf(),
    ensures
        final(ledger).wf(),
        r.is_err() ==> *final(ledger) == *old(ledger),
        ({
            let balance = CW20Balance { denom: token, amount, sender };
            let ReceiveMsg::Bond { duration_day } = msg;
            &&& bond_error(*old(ledger), balance, duration_day) is Some ==> r == Err::<(), ContractError>(
                bond_error(*old(ledger), balance, duration_day).unwrap(),
            )
            &&& bond_error(*old(ledger), balance, duration_day) is None ==> r.is_ok() == bond_ok(
                *old(ledger),
                sender@,
                amount,
                duration_day,
                now,
            )
            &&& bond_error(*old(ledger), balance, duration_day) is None && !r.is_ok() ==> r == Err::<(), ContractError>(
                failed_update_error(old(ledger).state, now, old(ledger).config.reward_per_second),
            )
            &&& r.is_ok() ==> bonded(*old(ledger), *final(ledger), sender@, amount, duration_day, now)
        }),
{
    let balance = CW20Balance { denom: token, amount, sender };
    match msg {
        ReceiveMsg::Bond { duration_day } => execute_bond(ledger, now, balance, duration_day),
    }
}

/// Two claims that one owner saves, one after the other, into the bucket of
/// one release second both stay in it, after what it held; forcing that bucket
/// out cuts each of them by its own span, and pays out the rest of each.
pub proof fn lemma_bucket_collision(
    s0: Seq<ClaimEntry>,
    s1: Seq<ClaimEntry>,
    s2: Seq<ClaimEntry>,
    owner: Seq<char>,
    release_at: u64,
    a: Claim,
    b: Claim,
    force_ratio: nat,
    remaining: nat,
)
    requires
        claims_in(s1, in_bucket(owner, release_at)) == claims_in(s0, in_bucket(owner, release_at)).push(a),
        claims_in(s2, in_bucket(owner, release_at)) == claims_in(s1, in_bucket(owner, release_at)).push(b),
    ensures
        claims_in(s2, in_bucket(owner, release_at)) == claims_in(s0, in_bucket(owner, release_at)).push(a).push(b),
        total_cut(claims_in(s2, in_bucket(owner, release_at)), force_ratio, remaining) == total_cut(
            claims_in(s0, in_bucket(owner, release_at)),
            force_ratio,
            remaining,
        ) + cut_amount(force_ratio, a, remaining) + cut_amount(force_ratio, b, remaining),
        total_payout(claims_in(s2, in_bucket(owner, release_at)), force_ratio, remaining) == total_payout(
            claims_in(s0, in_bucket(owner, release_at)),
            force_ratio,
            remaining,
        ) + (a.amount - cut_amount(force_ratio, a, remaining)) as nat + (b.amount - cut_amount(force_ratio, b, remaining)) as nat,
{
    let b0 = claims_in(s0, in_bucket(owner, release_at));
    let b1 = b0.push(a);
    let b2 = b1.push(b);
    assert(b2.drop_last() =~= b1);
    assert(b1.drop_last() =~= b0);
    assert(total_cut(b2, force_ratio, remaining) == total_cut(b1, force_ratio, remaining) + cut_amount(force_ratio, b, remaining));
    assert(total_cut(b1, force_ratio, remaining) == total_cut(b0, force_ratio, remaining) + cut_amount(force_ratio, a, remaining));
    assert(total_payout(b2, force_ratio, remaining) == total_payout(b1, force_ratio, remaining) + (b.amount - cut_amount(
        force_ratio,
        b,
        remaining,
    )) as nat);
    assert(total_payout(b1, force_ratio, remaining) == total_payout(b0, force_ratio, remaining) + (a.amount - cut_amount(
        force_ratio,
        a,
        remaining,
    )) as nat);
}

/// The global index never falls across an index update.
pub proof fn lemma_index_monotonic(old: State, new: State, now: u64, rate: u128)
    requires
        reward_index_updated(old, new, now, rate),
    ensures
        old.global_index@ <= new.global_index@,
{
}

/// A second index update at the same time changes nothing that the first one
/// set: the index and the distributed total stay.
pub proof fn lemma_index_update_idempotent(s0: State, s1: State, s2: State, now: u64, rate: u128)
    requires
        reward_index_updated(s0, s1, now, rate),
        reward_index_updated(s1, s2, now, rate),
    ensures
        s2.global_index@ == s1.global_index@,
        s2.total_reward_claimed == s1.total_reward_claimed,
        s2.last_updated == s1.last_updated,
        s2.total_weight == s1.total_weight,
        s2.total_staked == s1.total_staked,
{
    let d = secs(now) - secs(s1.last_updated);
    assert(d == 0);
    assert(d * rate == 0) by (nonlinear_arith)
        requires
            d == 0,
    ;
    if s1.total_weight@ != 0 {
        let w = s1.total_weight@;
        assert(0nat * scale() * scale() / w == 0) by (nonlinear_arith)
            requires
                w != 0,
        ;
    }
}

/// Sum of the weights (atomics) of a list of positions.
pub open spec fn sum_position_weights(ps: Seq<StakePosition>) -> nat
    decreases ps.len(),
{
    if ps.len() == 0 {
        0
    } else {
        sum_position_weights(ps.drop_last()) + ps.last().position_weight@
    }
}

/// Sum of the shares (atomics) that settling each position against `g` brings.
pub open spec fn sum_shares(ps: Seq<StakePosition>, g: nat) -> nat
    decreases ps.len(),
{
    if ps.len() == 0 {
        0
    } else {
        sum_shares(ps.drop_last(), g) + index_share(g, ps.last())
    }
}

/// Sum of the whole rewards that settling each position against `g` realizes
/// when it carries no fraction.
pub open spec fn sum_realized(ps: Seq<StakePosition>, g: nat) -> nat
    decreases ps.len(),
{
    if ps.len() == 0 {
        0
    } else {
        sum_realized(ps.drop_last(), g) + index_share(g, ps.last()) / scale()
    }
}

proof fn lemma_share_bound(share: nat, inc: nat, w: nat, dist: nat, total: nat)
    requires
        total > 0,
        share == inc * w / scale(),
        inc == dist * scale() * scale() / total,
    ensures
        share * total <= dist * scale() * w,
{
    let s = scale();
    vstd::arithmetic::div_mod::lemma_fundamental_div_mod((inc * w) as int, s as int);
    vstd::arithmetic::div_mod::lemma_fundamental_div_mod((dist * s * s) as int, total as int);
    vstd::arithmetic::div_mod::lemma_mod_bound((inc * w) as int, s as int);
    vstd::arithmetic::div_mod::lemma_mod_bound((dist * s * s) as int, total as int);
    assert(share * s <= inc * w);
    assert(inc * total <= dist * s * s);
    assert(share * s * total <= inc * w * total) by (nonlinear_arith)
        requires
            share * s <= inc * w,
    ;
    assert(inc * w * total <= dist * s * s * w) by (nonlinear_arith)
        requires
            inc * total <= dist * s * s,
    ;
    assert(share * total <= dist * s * w) by (nonlinear_arith)
        requires
            share * s * total <= dist * s * s * w,
            s > 0,
    ;
}

proof fn lemma_shares_scaled(ps: Seq<StakePosition>, old_index: nat, g: nat, dist: nat, total: nat)
    requires
        total > 0,
        g == old_index + index_increment(dist, total),
        forall|i: int| 0 <= i < ps.len() ==> (#[trigger] ps[i]).index@ == old_index,
    ensures
        sum_shares(ps, g) * total <= dist * scale() * sum_position_weights(ps),
        sum_realized(ps, g) * scale() <= sum_shares(ps, g),
    decreases ps.len(),
{
    if ps.len() > 0 {
        let q = ps.drop_last();
        assert forall|i: int| 0 <= i < q.len() implies (#[trigger] q[i]).index@ == old_index by {
            assert(q[i] == ps[i]);
        }
        lemma_shares_scaled(q, old_index, g, dist, total);
        let p = ps.last();
        assert(p == ps[ps.len() - 1]);
        let inc = index_increment(dist, total);
        let sh = index_share(g, p);
        assert((g - p.index@) as nat == inc);
        lemma_share_bound(sh, inc, p.position_weight@, dist, total);
        let a = sum_shares(q, g);
        let b = sum_position_weights(q);
        let d = dist * scale();
        assert((a + sh) * total == a * total + sh * total) by (nonlinear_arith);
        assert(d * (b + p.position_weight@) == d * b + d * p.position_weight@) by (nonlinear_arith);
        assert(dist * scale() * p.position_weight@ == d * p.position_weight@);
        vstd::arithmetic::div_mod::lemma_fundamental_div_mod(sh as int, scale() as int);
        vstd::arithmetic::div_mod::lemma_mod_bound(sh as int, scale() as int);
        let r = sum_realized(q, g);
        assert((r + sh / scale()) * scale() == r * scale() + (sh / scale()) * scale()) by (nonlinear_arith);
        assert(sum_shares(ps, g) == a + sh);
        assert(sum_position_weights(ps) == b + p.position_weight@);
        assert(a * total <= d * b);
        assert(sh * total <= d * p.position_weight@);
        assert((a + sh) * total <= d * (b + p.position_weight@));
    } else {
        assert(sum_shares(ps, g) * total == 0) by (nonlinear_arith)
            requires
                sum_shares(ps, g) == 0,
        ;
    }
}

/// Positions settled together from one index never receive more than was
/// distributed: when `dist` is shared over positions whose weights sum to
/// `total`, their shares add up to at most `dist` (in atomics), and the whole
/// rewards they realize to at most `dist`; rounding only ever falls short.
pub proof fn lemma_proportional_distribution(ps: Seq<StakePosition>, old_index: nat, g: nat, dist: nat)
    requires
        sum_position_weights(ps) > 0,
        g == old_index + index_increment(dist, sum_position_weights(ps)),
        forall|i: int| 0 <= i < ps.len() ==> (#[trigger] ps[i]).index@ == old_index,
    ensures
        sum_shares(ps, g) <= dist * scale(),
        sum_realized(ps, g) <= dist,
{
    let total = sum_position_weights(ps);
    lemma_shares_scaled(ps, old_index, g, dist, total);
    let a = sum_shares(ps, g);
    let d = dist * scale();
    assert(a <= d) by (nonlinear_arith)
        requires
            a * total <= d * total,
            total > 0,
    ;
    let r = sum_realized(ps, g);
    assert(r <= dist) by (nonlinear_arith)
        requires
            r * scale() <= a,
            a <= dist * scale(),
            scale() > 0,
    ;
}

/// With a force-claim ratio below one and a claim forced out within its span,
/// the cut is computed in range and is no more than the principal.
pub proof fn lemma_cut_in_range(force_ratio: nat, c: Claim, remaining: nat)
    requires
        force_ratio < scale(),
        claim_span(c) > 0,
        remaining <= claim_span(c),
    ensures
        cut_ok(force_ratio, c, remaining),
{
    let s = scale();
    let span = claim_span(c) as nat;
    let tr = remaining * s / span;
    assert(remaining * s <= s * span) by (nonlinear_arith)
        requires
            remaining <= span,
    ;
    lemma_div_is_ordered((remaining * s) as int, (s * span) as int, span as int);
    lemma_div_by_multiple(s as int, span as int);
    assert(tr <= s);
    assert(force_ratio * tr <= force_ratio * s) by (nonlinear_arith)
        requires
            tr <= s,
    ;
    lemma_div_is_ordered((force_ratio * tr) as int, (force_ratio * s) as int, s as int);
    lemma_div_by_multiple(force_ratio as int, s as int);
    let cr = cut_ratio(force_ratio, c, remaining);
    assert(cr <= force_ratio);
    let a = c.amount as nat;
    assert(a * cr <= a * s) by (nonlinear_arith)
        requires
            cr <= s,
    ;
    lemma_div_is_ordered((a * cr) as int, (a * s) as int, s as int);
    lemma_div_by_multiple(a as int, s as int);
}

/// Forcing out a bucket whose claims are all within their span, with a ratio
/// below one, succeeds whenever its principal fits in 128 bits: every claim is
/// cut by its own span, and the fee and the payout add up to the principal.
pub proof fn lemma_force_claim_succeeds(b: Seq<Claim>, force_ratio: nat, remaining: nat)
    requires
        force_ratio < scale(),
        forall|i: int| 0 <= i < b.len() ==> claim_span(#[trigger] b[i]) > 0 && remaining <= claim_span(b[i]),
        sum_amounts(b) <= u128::MAX,
    ensures
        force_ok(b, force_ratio, remaining),
        total_cut(b, force_ratio, remaining) + total_payout(b, force_ratio, remaining) == sum_amounts(b),
    decreases b.len(),
{
    if b.len() > 0 {
        let q = b.drop_last();
        assert forall|i: int| 0 <= i < q.len() implies claim_span(#[trigger] q[i]) > 0 && remaining <= claim_span(q[i]) by {
            assert(q[i] == b[i]);
        }
        lemma_force_claim_succeeds(q, force_ratio, remaining);
        assert(b.last() == b[b.len() - 1]);
        lemma_cut_in_range(force_ratio, b.last(), remaining);
    }
}

/// The closer to its release a claim is forced out, the smaller its cut.
pub proof fn lemma_cut_shrinks(force_ratio: nat, c: Claim, earlier: nat, later: nat)
    requires
        claim_span(c) > 0,
        later <= earlier,
    ensures
        cut_amount(force_ratio, c, later) <= cut_amount(force_ratio, c, earlier),
{
    let s = scale();
    let span = claim_span(c) as nat;
    assert(later * s <= earlier * s) by (nonlinear_arith)
        requires
            later <= earlier,
    ;
    lemma_div_is_ordered((later * s) as int, (earlier * s) as int, span as int);
    let t1 = later * s / span;
    let t2 = earlier * s / span;
    assert(force_ratio * t1 <= force_ratio * t2) by (nonlinear_arith)
        requires
            t1 <= t2,
    ;
    lemma_div_is_ordered((force_ratio * t1) as int, (force_ratio * t2) as int, s as int);
    let c1 = cut_ratio(force_ratio, c, later);
    let c2 = cut_ratio(force_ratio, c, earlier);
    let a = c.amount as nat;
    assert(a * c1 <= a * c2) by (nonlinear_arith)
        requires
            c1 <= c2,
    ;
    lemma_div_is_ordered((a * c1) as int, (a * c2) as int, s as int);
}

} // verus!
