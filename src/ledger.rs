use vstd::prelude::*;

use crate::claims::{before, Claims};
use crate::decimal::{dec256_limit, lemma_dec256_bound, scale, Dec256};
use crate::helper::{calculate_weight, weight_of};
use crate::state::{Config, StakePosition, State};

verus! {

/// The position of `owner` for the bond duration `duration`.
pub struct StakerEntry {
    pub owner: String,
    pub duration: u128,
    pub position: StakePosition,
}

/// Configuration, global state, positions and the unbonding queue together.
pub struct Ledger {
    pub config: Config,
    pub state: State,
    pub stakers: Vec<StakerEntry>,
    pub claims: Claims,
}

pub open spec fn key_at(e: StakerEntry, owner: Seq<char>, duration: u128) -> bool {
    e.owner@ == owner && e.duration == duration
}

pub open spec fn has_key(s: Seq<StakerEntry>, owner: Seq<char>, duration: u128) -> bool {
    exists|i: int| 0 <= i < s.len() && key_at(#[trigger] s[i], owner, duration)
}

/// Where the position of `owner` for `duration` is stored, when it exists.
pub open spec fn key_index(s: Seq<StakerEntry>, owner: Seq<char>, duration: u128) -> int {
    choose|i: int| 0 <= i < s.len() && key_at(#[trigger] s[i], owner, duration)
}

pub open spec fn keys_unique(s: Seq<StakerEntry>) -> bool {
    forall|i: int, j: int|
        0 <= i < s.len() && 0 <= j < s.len() && i != j ==> !key_at(#[trigger] s[i], s[j].owner@, #[trigger] s[j].duration)
}

/// The positions of one owner stand in strictly ascending duration.
pub open spec fn owner_ordered(s: Seq<StakerEntry>) -> bool {
    forall|i: int, j: int|
        0 <= i < j < s.len() && (#[trigger] s[i]).owner@ == (#[trigger] s[j]).owner@ ==> s[i].duration < s[j].duration
}

/// Two sequences with the same keys, entry by entry.
pub open spec fn same_keys(s: Seq<StakerEntry>, t: Seq<StakerEntry>) -> bool {
    &&& s.len() == t.len()
    &&& forall|k: int| 0 <= k < s.len() ==> (#[trigger] s[k]).owner@ == t[k].owner@ && s[k].duration == t[k].duration
}

/// Sequences with the same keys are equally unique and ordered.
pub proof fn lemma_same_keys(s: Seq<StakerEntry>, t: Seq<StakerEntry>)
    requires
        same_keys(s, t),
        keys_unique(s),
        owner_ordered(s),
    ensures
        keys_unique(t),
        owner_ordered(t),
{
    assert forall|i: int, j: int| 0 <= i < t.len() && 0 <= j < t.len() && i != j implies !key_at(
        #[trigger] t[i],
        t[j].owner@,
        #[trigger] t[j].duration,
    ) by {
        assert(s[i].owner@ == t[i].owner@ && s[i].duration == t[i].duration);
        assert(s[j].owner@ == t[j].owner@ && s[j].duration == t[j].duration);
        assert(!key_at(s[i], s[j].owner@, s[j].duration));
    }
    assert forall|i: int, j: int| 0 <= i < j < t.len() && (#[trigger] t[i]).owner@ == (#[trigger] t[j]).owner@ implies t[i].duration
        < t[j].duration by {
        assert(s[i].owner@ == t[i].owner@ && s[i].duration == t[i].duration);
        assert(s[j].owner@ == t[j].owner@ && s[j].duration == t[j].duration);
    }
}

/// Removing a position keeps the others unique and ordered.
pub proof fn lemma_remove_keys(s: Seq<StakerEntry>, r: int)
    requires
        0 <= r < s.len(),
        keys_unique(s),
        owner_ordered(s),
    ensures
        keys_unique(s.remove(r)),
        owner_ordered(s.remove(r)),
{
    let t = s.remove(r);
    assert forall|i: int, j: int| 0 <= i < t.len() && 0 <= j < t.len() && i != j implies !key_at(
        #[trigger] t[i],
        t[j].owner@,
        #[trigger] t[j].duration,
    ) by {
        let a = if i < r { i } else { i + 1 };
        let b = if j < r { j } else { j + 1 };
        assert(t[i] == s[a] && t[j] == s[b]);
        assert(!key_at(s[a], s[b].owner@, s[b].duration));
    }
    assert forall|i: int, j: int| 0 <= i < j < t.len() && (#[trigger] t[i]).owner@ == (#[trigger] t[j]).owner@ implies t[i].duration
        < t[j].duration by {
        let a = if i < r { i } else { i + 1 };
        let b = if j < r { j } else { j + 1 };
        assert(t[i] == s[a] && t[j] == s[b]);
    }
}

/// Inserting a new key before the owner's first longer duration keeps the
/// positions unique and ordered.
pub proof fn lemma_insert_keys(s: Seq<StakerEntry>, p: int, e: StakerEntry)
    requires
        0 <= p <= s.len(),
        keys_unique(s),
        owner_ordered(s),
        !has_key(s, e.owner@, e.duration),
        forall|k: int| 0 <= k < p ==> !((#[trigger] s[k]).owner@ == e.owner@ && s[k].duration > e.duration),
        p < s.len() ==> s[p].owner@ == e.owner@ && s[p].duration > e.duration,
    ensures
        keys_unique(s.insert(p, e)),
        owner_ordered(s.insert(p, e)),
{
    let t = s.insert(p, e);
    assert forall|k: int| 0 <= k < s.len() implies !key_at(#[trigger] s[k], e.owner@, e.duration) by {}
    assert forall|i: int, j: int| 0 <= i < t.len() && 0 <= j < t.len() && i != j implies !key_at(
        #[trigger] t[i],
        t[j].owner@,
        #[trigger] t[j].duration,
    ) by {
        if i != p && j != p {
            let a = if i < p { i } else { i - 1 };
            let b = if j < p { j } else { j - 1 };
            assert(t[i] == s[a] && t[j] == s[b]);
            assert(!key_at(s[a], s[b].owner@, s[b].duration));
        } else if i == p {
            let b = if j < p { j } else { j - 1 };
            assert(t[j] == s[b]);
            assert(!key_at(s[b], e.owner@, e.duration));
        } else {
            let a = if i < p { i } else { i - 1 };
            assert(t[i] == s[a]);
            assert(!key_at(s[a], e.owner@, e.duration));
        }
    }
    assert forall|i: int, j: int| 0 <= i < j < t.len() && (#[trigger] t[i]).owner@ == (#[trigger] t[j]).owner@ implies t[i].duration
        < t[j].duration by {
        if j < p {
            assert(t[i] == s[i] && t[j] == s[j]);
        } else if j == p {
            assert(t[i] == s[i]);
            assert(!key_at(s[i], e.owner@, e.duration));
        } else if i == p {
            assert(t[j] == s[j - 1]);
            if j - 1 > p {
                assert(s[p].owner@ == s[j - 1].owner@);
            }
        } else if i < p {
            assert(t[i] == s[i] && t[j] == s[j - 1]);
        } else {
            assert(t[i] == s[i - 1] && t[j] == s[j - 1]);
        }
    }
}

/// Sum of the position weights (atomics).
pub open spec fn sum_weights(s: Seq<StakerEntry>) -> nat
    decreases s.len(),
{
    if s.len() == 0 {
        0
    } else {
        sum_weights(s.drop_last()) + s.last().position.position_weight@
    }
}

/// Sum of the staked amounts.
pub open spec fn sum_staked(s: Seq<StakerEntry>) -> nat
    decreases s.len(),
{
    if s.len() == 0 {
        0
    } else {
        sum_staked(s.drop_last()) + s.last().position.staked_amount as nat
    }
}

/// Replacing one entry changes the sums by the difference of the two entries.
pub proof fn lemma_sums_update(s: Seq<StakerEntry>, i: int, e: StakerEntry)
    requires
        0 <= i < s.len(),
    ensures
        sum_weights(s.update(i, e)) + s[i].position.position_weight@ == sum_weights(s) + e.position.position_weight@,
        sum_staked(s.update(i, e)) + s[i].position.staked_amount == sum_staked(s) + e.position.staked_amount,
    decreases s.len(),
{
    let t = s.update(i, e);
    if i == s.len() - 1 {
        assert(t.drop_last() =~= s.drop_last());
    } else {
        lemma_sums_update(s.drop_last(), i, e);
        assert(t.drop_last() =~= s.drop_last().update(i, e));
    }
}

/// Removing one entry takes it out of the sums.
pub proof fn lemma_sums_remove(s: Seq<StakerEntry>, i: int)
    requires
        0 <= i < s.len(),
    ensures
        sum_weights(s.remove(i)) + s[i].position.position_weight@ == sum_weights(s),
        sum_staked(s.remove(i)) + s[i].position.staked_amount == sum_staked(s),
    decreases s.len(),
{
    let t = s.remove(i);
    if i == s.len() - 1 {
        assert(t =~= s.drop_last());
    } else {
        lemma_sums_remove(s.drop_last(), i);
        assert(t.drop_last() =~= s.drop_last().remove(i));
    }
}

/// Inserting one entry adds it to the sums.
pub proof fn lemma_sums_insert(s: Seq<StakerEntry>, p: int, e: StakerEntry)
    requires
        0 <= p <= s.len(),
    ensures
        sum_weights(s.insert(p, e)) == sum_weights(s) + e.position.position_weight@,
        sum_staked(s.insert(p, e)) == sum_staked(s) + e.position.staked_amount,
{
    let t = s.insert(p, e);
    lemma_sums_remove(t, p);
    assert(t.remove(p) =~= s);
}

/// Sequences whose entries agree on weight and stake have the same sums.
pub proof fn lemma_sums_pointwise(s: Seq<StakerEntry>, t: Seq<StakerEntry>)
    requires
        s.len() == t.len(),
        forall|k: int| 0 <= k < s.len() ==> (#[trigger] s[k]).position.position_weight == t[k].position.position_weight
            && s[k].position.staked_amount == t[k].position.staked_amount,
    ensures
        sum_weights(s) == sum_weights(t),
        sum_staked(s) == sum_staked(t),
    decreases s.len(),
{
    if s.len() > 0 {
        lemma_sums_pointwise(s.drop_last(), t.drop_last());
        assert(s[s.len() - 1] == s.last());
    }
}

/// The sums over a prefix grow by one entry at a time and stay below the
/// sums over the whole sequence.
pub proof fn lemma_sums_prefix(s: Seq<StakerEntry>, k: int)
    requires
        0 <= k < s.len(),
    ensures
        sum_weights(s.subrange(0, k + 1)) == sum_weights(s.subrange(0, k)) + s[k].position.position_weight@,
        sum_staked(s.subrange(0, k + 1)) == sum_staked(s.subrange(0, k)) + s[k].position.staked_amount,
        sum_weights(s.subrange(0, k + 1)) <= sum_weights(s),
        sum_staked(s.subrange(0, k + 1)) <= sum_staked(s),
    decreases s.len(),
{
    assert(s.subrange(0, k + 1).drop_last() =~= s.subrange(0, k));
    if k + 1 < s.len() {
        lemma_sums_prefix(s.drop_last(), k);
        assert(s.drop_last().subrange(0, k + 1) =~= s.subrange(0, k + 1));
        assert(s.drop_last().subrange(0, k) =~= s.subrange(0, k));
    } else {
        assert(s.subrange(0, k + 1) =~= s);
    }
}

impl Ledger {
    /// Keys are unique and each owner's positions ascend in duration; each
    /// position records its own duration, carries the weight of its stake and
    /// was last settled at or below the global index; the force-claim ratio is
    /// below one; the claim queue is ordered; and the totals are the sums over
    /// the positions.
    pub open spec fn wf(&self) -> bool {
        &&& keys_unique(self.stakers@)
        &&& forall|i: int|
            0 <= i < self.stakers@.len() ==> (#[trigger] self.stakers@[i]).position.unbond_duration_as_days
                == self.stakers@[i].duration
        &&& owner_ordered(self.stakers@)
        &&& forall|i: int|
            0 <= i < self.stakers@.len() ==> (#[trigger] self.stakers@[i]).position.index@ <= self.state.global_index@
        &&& forall|i: int|
            0 <= i < self.stakers@.len() ==> (#[trigger] self.stakers@[i]).position.position_weight@ == weight_of(
                self.stakers@[i].position.staked_amount as nat,
                self.stakers@[i].duration as nat,
            )
        &&& self.config.force_claim_ratio@ < scale()
        &&& self.claims.wf()
        &&& self.state.total_weight@ == sum_weights(self.stakers@)
        &&& self.state.total_staked == sum_staked(self.stakers@)
    }

    /// Where the position of `owner` for `duration` is stored.
    pub fn find_position(&self, owner: &String, duration: u128) -> (r: Option<usize>)
        requires
            keys_unique(self.stakers@),
        ensures
            r.is_some() == has_key(self.stakers@, owner@, duration),
            r.is_some() ==> r.unwrap() == key_index(self.stakers@, owner@, duration)
                && key_at(self.stakers@[r.unwrap() as int], owner@, duration),
    {
        let mut i: usize = 0;
        while i < self.stakers.len()
            invariant
                i <= self.stakers@.len(),
                keys_unique(self.stakers@),
                forall|k: int| 0 <= k < i ==> !key_at(#[trigger] self.stakers@[k], owner@, duration),
            decreases self.stakers@.len() - i,
        {
            if self.stakers[i].owner == *owner && self.stakers[i].duration == duration {
                proof {
                    assert(key_at(self.stakers@[i as int], owner@, duration));
                    assert(has_key(self.stakers@, owner@, duration));
                    let j = key_index(self.stakers@, owner@, duration);
                    if j != i {
                        assert(!key_at(self.stakers@[j], self.stakers@[i as int].owner@, self.stakers@[i as int].duration));
                    }
                }
                return Some(i);
            }
            i = i + 1;
        }
        None
    }
    /// Whether the ledger is well formed; a ledger read back from storage is
    /// checked with this before it is used.
    pub fn is_consistent(&self) -> (r: bool)
        ensures
            r == self.wf(),
    {
        if self.config.force_claim_ratio.atomics >= 1_000_000_000_000_000_000 {
            return false;
        }
        let ghost s = self.stakers@;
        let n = self.stakers.len();
        let mut i: usize = 0;
        while i < n
            invariant
                s == self.stakers@,
                n == s.len(),
                i <= n,
                forall|a: int, b: int|
                    0 <= a < i && 0 <= b < n && a != b ==> !key_at(#[trigger] s[a], s[b].owner@, #[trigger] s[b].duration),
                forall|a: int| 0 <= a < i ==> (#[trigger] s[a]).position.unbond_duration_as_days == s[a].duration,
                forall|a: int, b: int|
                    0 <= a < i && a < b < n && (#[trigger] s[a]).owner@ == (#[trigger] s[b]).owner@ ==> s[a].duration
                        < s[b].duration,
                self.config.force_claim_ratio@ < scale(),
            decreases n - i,
        {
            if self.stakers[i].position.unbond_duration_as_days != self.stakers[i].duration {
                return false;
            }
            let mut j: usize = 0;
            while j < n
                invariant
                    s == self.stakers@,
                    n == s.len(),
                    i < n,
                    j <= n,
                    forall|a: int, b: int|
                        0 <= a < i && 0 <= b < n && a != b ==> !key_at(#[trigger] s[a], s[b].owner@, #[trigger] s[b].duration),
                    forall|b: int| 0 <= b < j && b != i ==> !key_at(s[i as int], s[b].owner@, #[trigger] s[b].duration),
                    forall|a: int| 0 <= a <= i ==> (#[trigger] s[a]).position.unbond_duration_as_days == s[a].duration,
                    forall|a: int, b: int|
                        0 <= a < i && a < b < n && (#[trigger] s[a]).owner@ == (#[trigger] s[b]).owner@ ==> s[a].duration
                            < s[b].duration,
                    forall|b: int|
                        i < b < j && s[i as int].owner@ == (#[trigger] s[b]).owner@ ==> s[i as int].duration < s[b].duration,
                    self.config.force_claim_ratio@ < scale(),
                decreases n - j,
            {
                if j != i && self.stakers[i].owner == self.stakers[j].owner && self.stakers[i].duration == self.stakers[j].duration {
                    assert(key_at(s[i as int], s[j as int].owner@, s[j as int].duration));
                    return false;
                }
                if j > i && self.stakers[i].owner == self.stakers[j].owner && self.stakers[i].duration >= self.stakers[j].duration {
                    assert(s[i as int].owner@ == s[j as int].owner@);
                    return false;
                }
                j = j + 1;
            }
            i = i + 1;
        }
        let ghost c = self.claims.entries@;
        let m = self.claims.entries.len();
        let mut a: usize = 0;
        while a < m
            invariant
                c == self.claims.entries@,
                m == c.len(),
                a <= m,
                keys_unique(s),
                owner_ordered(s),
                self.config.force_claim_ratio@ < scale(),
                forall|x: int| 0 <= x < n ==> (#[trigger] s[x]).position.unbond_duration_as_days == s[x].duration,
                forall|x: int, y: int| 0 <= x < a && x < y < m ==> before(#[trigger] c[x], #[trigger] c[y]),
            decreases m - a,
        {
            let mut b: usize = a + 1;
            while b < m
                invariant
                    c == self.claims.entries@,
                    m == c.len(),
                    a < m,
                    a + 1 <= b <= m,
                    keys_unique(s),
                    owner_ordered(s),
                    self.config.force_claim_ratio@ < scale(),
                    forall|x: int| 0 <= x < n ==> (#[trigger] s[x]).position.unbond_duration_as_days == s[x].duration,
                    forall|x: int, y: int| 0 <= x < a && x < y < m ==> before(#[trigger] c[x], #[trigger] c[y]),
                    forall|y: int| a < y < b ==> before(c[a as int], #[trigger] c[y]),
                decreases m - b,
            {
                let x = &self.claims.entries[a];
                let y = &self.claims.entries[b];
                if x.release_at > y.release_at || (x.owner == y.owner && x.release_at == y.release_at && x.seq >= y.seq) {
                    assert(!before(c[a as int], c[b as int]));
                    return false;
                }
                b = b + 1;
            }
            a = a + 1;
        }
        let mut weight = Dec256::zero();
        let mut staked: u128 = 0;
        let mut k: usize = 0;
        while k < n
            invariant
                s == self.stakers@,
                n == s.len(),
                k <= n,
                weight@ == sum_weights(s.subrange(0, k as int)),
                staked == sum_staked(s.subrange(0, k as int)),
                forall|x: int| 0 <= x < k ==> (#[trigger] s[x]).position.index@ <= self.state.global_index@,
                forall|x: int|
                    0 <= x < k ==> (#[trigger] s[x]).position.position_weight@ == weight_of(
                        s[x].position.staked_amount as nat,
                        s[x].duration as nat,
                    ),
            decreases n - k,
        {
            proof {
                lemma_sums_prefix(s, k as int);
                lemma_dec256_bound(self.state.total_weight);
            }
            let p = self.stakers[k].position;
            if self.state.global_index.checked_sub(p.index).is_none() {
                return false;
            }
            let expected = match calculate_weight(p.staked_amount, self.stakers[k].duration) {
                Ok(w) => w,
                Err(_) => {
                    proof {
                        lemma_dec256_bound(p.position_weight);
                    }
                    return false;
                },
            };
            if expected.checked_sub(p.position_weight).is_none() || p.position_weight.checked_sub(expected).is_none() {
                return false;
            }
            weight = match weight.checked_add(p.position_weight) {
                Some(w) => w,
                None => return false,
            };
            staked = match staked.checked_add(p.staked_amount) {
                Some(v) => v,
                None => return false,
            };
            k = k + 1;
        }
        assert(s.subrange(0, n as int) =~= s);
        let tw = self.state.total_weight;
        tw.checked_sub(weight).is_some() && weight.checked_sub(tw).is_some() && staked == self.state.total_staked
    }
}

} // verus!
