use vstd::prelude::*;

use crate::state::Claim;
use crate::ContractError;

verus! {

/// A stored claim with its key: owner, release time in seconds, and a sequence
/// number that tells apart the claims of one owner maturing in the same second.
#[derive(Debug)]
pub struct ClaimEntry {
    pub owner: String,
    pub release_at: u64,
    pub seq: u16,
    pub claim: Claim,
}

impl ClaimEntry {
    pub fn duplicate(&self) -> (r: ClaimEntry)
        ensures
            r == *self,
    {
        ClaimEntry { owner: self.owner.clone(), release_at: self.release_at, seq: self.seq, claim: self.claim }
    }
}

/// `a` is stored before `b`: release times ascend, and within one owner's bucket
/// the sequence numbers ascend strictly.
pub open spec fn before(a: ClaimEntry, b: ClaimEntry) -> bool {
    &&& a.release_at <= b.release_at
    &&& (a.owner@ == b.owner@ && a.release_at == b.release_at) ==> a.seq < b.seq
}

pub open spec fn of_owner(owner: Seq<char>) -> spec_fn(ClaimEntry) -> bool {
    |e: ClaimEntry| e.owner@ == owner
}

pub open spec fn mature_of(owner: Seq<char>, now: u64) -> spec_fn(ClaimEntry) -> bool {
    |e: ClaimEntry| e.owner@ == owner && e.release_at <= now
}

pub open spec fn not_mature_of(owner: Seq<char>, now: u64) -> spec_fn(ClaimEntry) -> bool {
    |e: ClaimEntry| !(e.owner@ == owner && e.release_at <= now)
}

pub open spec fn in_bucket(owner: Seq<char>, release_at: u64) -> spec_fn(ClaimEntry) -> bool {
    |e: ClaimEntry| e.owner@ == owner && e.release_at == release_at
}

pub open spec fn not_in_bucket(owner: Seq<char>, release_at: u64) -> spec_fn(ClaimEntry) -> bool {
    |e: ClaimEntry| !(e.owner@ == owner && e.release_at == release_at)
}

pub open spec fn claim_of() -> spec_fn(ClaimEntry) -> Claim {
    |e: ClaimEntry| e.claim
}

/// The claims that a selection of entries holds, in stored order.
pub open spec fn claims_in(s: Seq<ClaimEntry>, p: spec_fn(ClaimEntry) -> bool) -> Seq<Claim> {
    s.filter(p).map_values(claim_of())
}

/// The last sequence number used in a bucket, zero for an empty bucket.
pub open spec fn last_seq(s: Seq<ClaimEntry>, owner: Seq<char>, release_at: u64) -> nat {
    let b = s.filter(in_bucket(owner, release_at));
    if b.len() == 0 {
        0
    } else {
        b.last().seq as nat
    }
}

/// Filtering one more element of a sequence adds it when it is selected.
pub proof fn lemma_filter_step<A>(s: Seq<A>, p: spec_fn(A) -> bool, i: int)
    requires
        0 <= i < s.len(),
    ensures
        s.subrange(0, i + 1).filter(p) == (if p(s[i]) {
            s.subrange(0, i).filter(p).push(s[i])
        } else {
            s.subrange(0, i).filter(p)
        }),
{
    reveal(Seq::filter);
    assert(s.subrange(0, i + 1).drop_last() =~= s.subrange(0, i));
}

/// A filter that selects nothing leaves nothing.
pub proof fn lemma_filter_none<A>(s: Seq<A>, p: spec_fn(A) -> bool)
    requires
        forall|i: int| 0 <= i < s.len() ==> !p(#[trigger] s[i]),
    ensures
        s.filter(p) == Seq::<A>::empty(),
    decreases s.len(),
{
    reveal(Seq::filter);
    if s.len() > 0 {
        lemma_filter_none(s.drop_last(), p);
    }
    assert(s.filter(p) =~= Seq::<A>::empty());
}

/// Inserting an entry of the bucket after every entry of that bucket appends
/// it to the bucket.
pub proof fn lemma_filter_insert<A>(s: Seq<A>, pos: int, x: A, p: spec_fn(A) -> bool)
    requires
        0 <= pos <= s.len(),
        p(x),
        forall|i: int| pos <= i < s.len() ==> !p(#[trigger] s[i]),
    ensures
        s.insert(pos, x).filter(p) == s.filter(p).push(x),
{
    let a = s.subrange(0, pos);
    let b = s.subrange(pos, s.len() as int);
    assert(s =~= a + b);
    assert(s.insert(pos, x) =~= (a + seq![x]) + b);
    assert forall|i: int| 0 <= i < b.len() implies !p(#[trigger] b[i]) by {
        assert(b[i] == s[pos + i]);
    }
    lemma_filter_none(b, p);
    Seq::filter_distributes_over_add(a, b, p);
    Seq::filter_distributes_over_add(a + seq![x], b, p);
    Seq::filter_distributes_over_add(a, seq![x], p);
    reveal_with_fuel(Seq::filter, 2);
    assert(seq![x].drop_last() =~= Seq::<A>::empty());
    assert(seq![x].filter(p) =~= seq![x]);
    assert(a.filter(p) + Seq::<A>::empty() =~= a.filter(p));
    assert(a.filter(p) + seq![x] =~= a.filter(p).push(x));
    assert((a + seq![x]).filter(p) + Seq::<A>::empty() =~= (a + seq![x]).filter(p));
}

/// The unbonding queue, ordered by release time.
pub struct Claims {
    pub entries: Vec<ClaimEntry>,
}

impl Claims {
    /// Entries are ordered, and no two share a key.
    pub open spec fn wf(&self) -> bool {
        forall|i: int, j: int|
            0 <= i < j < self.entries@.len() ==> before(#[trigger] self.entries@[i], #[trigger] self.entries@[j])
    }

    pub fn new() -> (r: Claims)
        ensures
            r.wf(),
            r.entries@.len() == 0,
    {
        Claims { entries: Vec::new() }
    }

    /// The claims of `owner` selected by `mode`: all of them (0), those released
    /// by the second `at` (1), or those of the bucket of the second `at` (2).
    fn select(&self, p: Ghost<spec_fn(ClaimEntry) -> bool>, owner: &String, at: u64, mode: u8) -> (r: Vec<Claim>)
        requires
            mode < 3,
            p@ == (if mode == 0 { of_owner(owner@) } else if mode == 1 { mature_of(owner@, at) } else { in_bucket(owner@, at) }),
        ensures
            r@ == claims_in(self.entries@, p@),
    {
        let mut out: Vec<Claim> = Vec::new();
        let mut i: usize = 0;
        while i < self.entries.len()
            invariant
                i <= self.entries@.len(),
                p@ == (if mode == 0 { of_owner(owner@) } else if mode == 1 { mature_of(owner@, at) } else { in_bucket(owner@, at) }),
                out@ == claims_in(self.entries@.subrange(0, i as int), p@),
            decreases self.entries@.len() - i,
        {
            let e = &self.entries[i];
            let keep = if mode == 0 {
                e.owner == *owner
            } else if mode == 1 {
                e.owner == *owner && e.release_at <= at
            } else {
                e.owner == *owner && e.release_at == at
            };
            proof {
                lemma_filter_step(self.entries@, p@, i as int);
                let f = self.entries@.subrange(0, i as int).filter(p@);
                assert(f.push(self.entries@[i as int]).map_values(claim_of()) =~= f.map_values(claim_of()).push(self.entries@[i as int].claim));
            }
            if keep {
                out.push(e.claim);
            }
            i = i + 1;
        }
        assert(self.entries@.subrange(0, self.entries@.len() as int) =~= self.entries@);
        out
    }

    /// The claims of `address` maturing in the second `release_at`, in sequence order.
    pub fn load(&self, address: &String, release_at: u64) -> (r: Vec<Claim>)
        ensures
            r@ == claims_in(self.entries@, in_bucket(address@, release_at)),
    {
        self.select(Ghost(in_bucket(address@, release_at)), address, release_at, 2)
    }

    /// All claims of `address`, by release time and then sequence.
    pub fn load_all(&self, address: &String) -> (r: Vec<Claim>)
        ensures
            r@ == claims_in(self.entries@, of_owner(address@)),
    {
        self.select(Ghost(of_owner(address@)), address, 0, 0)
    }

    /// The claims of `address` released at or before the second `now_time`.
    pub fn load_mature_claims(&self, address: &String, now_time: u64) -> (r: Vec<Claim>)
        ensures
            r@ == claims_in(self.entries@, mature_of(address@, now_time)),
    {
        self.select(Ghost(mature_of(address@, now_time)), address, now_time, 1)
    }

    /// Drops the claims of `owner` in the bucket of the second `at` when
    /// `bucket`, else those released by the second `at`.
    fn discard(&mut self, p: Ghost<spec_fn(ClaimEntry) -> bool>, owner: &String, at: u64, bucket: bool)
        requires
            old(self).wf(),
            p@ == (if bucket { not_in_bucket(owner@, at) } else { not_mature_of(owner@, at) }),
        ensures
            final(self).wf(),
            final(self).entries@ == old(self).entries@.filter(p@),
    {
        let ghost s = self.entries@;
        let mut out: Vec<ClaimEntry> = Vec::new();
        let mut i: usize = 0;
        while i < self.entries.len()
            invariant
                self.entries@ == s,
                i <= s.len(),
                p@ == (if bucket { not_in_bucket(owner@, at) } else { not_mature_of(owner@, at) }),
                forall|a: int, b: int| 0 <= a < b < s.len() ==> before(#[trigger] s[a], #[trigger] s[b]),
                out@ == s.subrange(0, i as int).filter(p@),
                forall|a: int, b: int| 0 <= a < b < out@.len() ==> before(#[trigger] out@[a], #[trigger] out@[b]),
                forall|a: int, b: int| 0 <= a < out@.len() && i <= b < s.len() ==> before(#[trigger] out@[a], #[trigger] s[b]),
            decreases s.len() - i,
        {
            let e = &self.entries[i];
            let drop = if bucket {
                e.owner == *owner && e.release_at == at
            } else {
                e.owner == *owner && e.release_at <= at
            };
            proof {
                lemma_filter_step(s, p@, i as int);
            }
            if !drop {
                let d = e.duplicate();
                out.push(d);
                assert forall|a: int, b: int| 0 <= a < b < out@.len() implies before(#[trigger] out@[a], #[trigger] out@[b]) by {
                    if b == out@.len() - 1 {
                        assert(before(out@[a], s[i as int]));
                    }
                }
            }
            i = i + 1;
        }
        assert(s.subrange(0, s.len() as int) =~= s);
        self.entries = out;
    }

    /// Removes every claim of `address` released at or before the second `now_time`.
    pub fn remove_mature_claims(&mut self, address: &String, now_time: u64) -> (r: Result<(), ContractError>)
        requires
            old(self).wf(),
        ensures
            r.is_ok(),
            final(self).wf(),
            final(self).entries@ == old(self).entries@.filter(not_mature_of(address@, now_time)),
    {
        self.discard(Ghost(not_mature_of(address@, now_time)), address, now_time, false);
        Ok(())
    }

    /// Removes every claim of `address` maturing in the second `release_at_time`.
    pub fn remove_for_release_at(&mut self, address: &String, release_at_time: u64) -> (r: Result<(), ContractError>)
        requires
            old(self).wf(),
        ensures
            r.is_ok(),
            final(self).wf(),
            final(self).entries@ == old(self).entries@.filter(not_in_bucket(address@, release_at_time)),
    {
        self.discard(Ghost(not_in_bucket(address@, release_at_time)), address, release_at_time, true);
        Ok(())
    }
    /// Stores `claim` for `address` in the bucket of the second `release_at`, under
    /// the next sequence number of that bucket (1 for a new bucket).
    pub fn save(&mut self, address: &String, release_at: u64, claim: &Claim) -> (r: Result<(), ContractError>)
        requires
            old(self).wf(),
        ensures
            final(self).wf(),
            r.is_ok() == (last_seq(old(self).entries@, address@, release_at) < u16::MAX),
            r.is_err() ==> r == Err::<(), ContractError>(ContractError::OverflowError {}) && *final(self) == *old(self),
            r.is_ok() ==> final(self).entries@.len() == old(self).entries@.len() + 1,
            r.is_ok() ==> claims_in(final(self).entries@, in_bucket(address@, release_at)) == claims_in(
                old(self).entries@,
                in_bucket(address@, release_at),
            ).push(*claim),
            r.is_ok() ==> last_seq(final(self).entries@, address@, release_at) == last_seq(
                old(self).entries@,
                address@,
                release_at,
            ) + 1,
            r.is_ok() ==> exists|k: int|
                0 <= k < final(self).entries@.len() && {
                    let e = #[trigger] final(self).entries@[k];
                    &&& e.owner@ == address@
                    &&& e.release_at == release_at
                    &&& e.seq == last_seq(old(self).entries@, address@, release_at) + 1
                    &&& e.claim == *claim
                    &&& final(self).entries@.remove(k) == old(self).entries@
                },
    {
        let ghost s = self.entries@;
        let ghost p = in_bucket(address@, release_at);
        let mut last: u16 = 0;
        let mut i: usize = 0;
        while i < self.entries.len()
            invariant
                self.entries@ == s,
                i <= s.len(),
                p == in_bucket(address@, release_at),
                forall|a: int, b: int| 0 <= a < b < s.len() ==> before(#[trigger] s[a], #[trigger] s[b]),
                last == last_seq(s.subrange(0, i as int), address@, release_at),
                forall|a: int| 0 <= a < i && #[trigger] p(s[a]) ==> s[a].seq <= last,
            decreases s.len() - i,
        {
            proof {
                lemma_filter_step(s, p, i as int);
            }
            let e = &self.entries[i];
            if e.owner == *address && e.release_at == release_at {
                proof {
                    assert forall|a: int| 0 <= a < i + 1 && #[trigger] p(s[a]) implies s[a].seq <= s[i as int].seq by {
                        if a < i {
                            assert(before(s[a], s[i as int]));
                        }
                    }
                }
                last = e.seq;
            }
            i = i + 1;
        }
        assert(s.subrange(0, s.len() as int) =~= s);
        if last == u16::MAX {
            return Err(ContractError::OverflowError {});
        }
        let mut pos: usize = 0;
        while pos < self.entries.len() && self.entries[pos].release_at <= release_at
            invariant
                self.entries@ == s,
                pos <= s.len(),
                forall|a: int| 0 <= a < pos ==> (#[trigger] s[a]).release_at <= release_at,
            decreases s.len() - pos,
        {
            pos = pos + 1;
        }
        let entry = ClaimEntry { owner: address.clone(), release_at, seq: last + 1, claim: *claim };
        let ghost ne = entry;
        self.entries.insert(pos, entry);
        proof {
            let t = self.entries@;
            assert(t == s.insert(pos as int, ne));
            assert forall|a: int, b: int| 0 <= a < b < t.len() implies before(#[trigger] t[a], #[trigger] t[b]) by {
                if b < pos {
                    assert(before(s[a], s[b]));
                } else if b == pos {
                    assert(p(s[a]) ==> s[a].seq <= last);
                } else if a < pos {
                    assert(before(s[a], s[b - 1]));
                } else if a == pos {
                    assert(before(s[pos as int], s[b - 1]) || b - 1 == pos);
                } else {
                    assert(before(s[a - 1], s[b - 1]));
                }
            }
            assert(t[pos as int] == ne);
            assert(t.remove(pos as int) =~= s);
            assert forall|a: int| pos <= a < s.len() implies !p(#[trigger] s[a]) by {
                if a > pos {
                    assert(before(s[pos as int], s[a]));
                }
            }
            lemma_filter_insert(s, pos as int, ne, p);
            let f = s.filter(p);
            assert(f.push(ne).map_values(claim_of()) =~= f.map_values(claim_of()).push(*claim));
        }
        Ok(())
    }
}

} // verus!
