//! The epoch-boundary machinery: electing the top-staked validators,
//! snapshotting delegations, resetting authorship tallies and distributing
//! rewards.
//!
//! At every block index divisible by the epoch duration, in strict order:
//! rewards are distributed from the previous snapshot and tallies, the
//! elected set is recomputed from current aggregate stakes, a new snapshot
//! is taken from the new set, and the tallies reset.

use vstd::prelude::*;

use crate::kv::contains_account;
use crate::kv::k_cnt0;
use crate::kv::k_distinct;
use crate::kv::k_get;
use crate::kv::k_get0;
use crate::kv::k_has;
use crate::kv::k_idx;
use crate::kv::kv_get;
use crate::kv::lemma_filter_kv;
use crate::kv::lemma_k_idx_unique;
use crate::kv::s_set;
use crate::pallet::BASE_REWARD_PER_BLOCK;
use crate::pallet::Delegation;
use crate::pallet::Event;
use crate::pallet::Pallet;
use crate::pallet::VALIDATOR_PERCENTAGE;

verus! {

/// Stakes in descending order.
pub open spec fn sorted_desc(s: Seq<(u64, u128)>) -> bool {
    forall|i: int, j: int|
        0 <= i <= j < s.len() ==> (#[trigger] s[i]).1 >= (#[trigger] s[j]).1
}

/// Sort candidate `(validator, stake)` pairs by stake, highest first. The
/// result is a permutation of the input; the order of equal stakes is not
/// specified.
#[verifier::loop_isolation(false)]
fn sort_by_stake_desc(input: Vec<(u64, u128)>) -> (out: Vec<(u64, u128)>)
    ensures
        out@.to_multiset() == input@.to_multiset(),
        out@.len() == input@.len(),
        sorted_desc(out@),
{
    broadcast use vstd::seq_lib::group_to_multiset_ensures;
    broadcast use vstd::multiset::group_multiset_axioms;

    let mut src = input;
    let mut out: Vec<(u64, u128)> = Vec::new();
    proof {
        assert(out@.to_multiset().add(src@.to_multiset()) =~= input@.to_multiset());
    }
    while src.len() > 0
        invariant
            out@.to_multiset().add(src@.to_multiset()) == input@.to_multiset(),
            out@.len() + src@.len() == input@.len(),
            sorted_desc(out@),
            forall|a: int, b: int|
                0 <= a < out@.len() && 0 <= b < src@.len() ==> (#[trigger] out@[a]).1 >= (
                #[trigger] src@[b]).1,
        decreases src@.len(),
    {
        let mut m: usize = 0;
        let mut i: usize = 1;
        while i < src.len()
            invariant
                0 <= m < src@.len(),
                m < i <= src@.len(),
                forall|x: int| 0 <= x < i ==> (#[trigger] src@[x]).1 <= src@[m as int].1,
            decreases src@.len() - i,
        {
            if src[i].1 > src[m].1 {
                m = i;
            }
            i += 1;
        }
        let ghost so = src@;
        let ghost oo = out@;
        let e = src[m];
        out.push(e);
        let _removed = src.remove(m);
        proof {
            broadcast use vstd::seq_lib::group_to_multiset_ensures;
            broadcast use vstd::multiset::group_multiset_axioms;

            assert(so[m as int] == e);
            assert(so.contains(e)) by {
                assert(so[m as int] == e);
            }
            assert(so.to_multiset().count(e) > 0);
            assert(out@.to_multiset().add(src@.to_multiset()) =~= oo.to_multiset().add(
                so.to_multiset(),
            ));
            assert forall|a: int, b: int|
                0 <= a < out@.len() && 0 <= b < src@.len() implies (#[trigger] out@[a]).1
                >= (#[trigger] src@[b]).1 by {
                let b2 = if b < m {
                    b
                } else {
                    b + 1
                };
                assert(src@[b] == so[b2]);
                if a < oo.len() {
                    assert(oo[a].1 >= so[b2].1);
                } else {
                    assert(out@[a] == e);
                }
            }
        }
    }
    out
}

impl Pallet {
    /// The size of the elected set an election produces: the number of
    /// stake entries, capped at the configured maximum.
    pub open spec fn election_size(self) -> int {
        if self.config.max_validators as int <= self.stakes@.len() {
            self.config.max_validators as int
        } else {
            self.stakes@.len() as int
        }
    }

    /// Recompute the elected set: rank every stake entry by aggregate
    /// stake, descending, and replace the elected set with the top
    /// `max_validators` accounts. Truncation makes overflowing the bound
    /// structurally impossible. Every elected account is a stake entry, and
    /// no non-elected stake entry out-stakes an elected one; ties are
    /// broken in no specified order.
    #[verifier::loop_isolation(false)]
    pub fn update_validators(&mut self)
        requires
            old(self).wf(),
        ensures
            final(self).wf(),
            final(self).current_validators@.len() == old(self).election_size(),
            final(self).current_validators@.no_duplicates(),
            forall|x: int|
                0 <= x < final(self).current_validators@.len() ==> k_has(
                    old(self).stakes@,
                    #[trigger] final(self).current_validators@[x],
                ),
            forall|x: int, w: u64|
                #![trigger k_get0(old(self).stakes@, w), final(self).current_validators@[x]]
                0 <= x < final(self).current_validators@.len() && k_has(
                    old(self).stakes@,
                    w,
                ) && !final(self).current_validators@.contains(w) ==> k_get0(
                    old(self).stakes@,
                    w,
                ) <= k_get0(old(self).stakes@, final(self).current_validators@[x]),
            final(self).events@ == old(self).events@.push(Event::ValidatorsUpdated),
            final(self).balances == old(self).balances,
            final(self).validators@ == old(self).validators@,
            final(self).delegators@ == old(self).delegators@,
            final(self).stakes@ == old(self).stakes@,
            final(self).snapshot@ == old(self).snapshot@,
            final(self).block_count@ == old(self).block_count@,
            final(self).block_number == old(self).block_number,
            final(self).config == old(self).config,
            old(self).sound() ==> final(self).sound(),
    {
        broadcast use vstd::seq_lib::group_to_multiset_ensures;
        broadcast use vstd::multiset::group_multiset_axioms;

        let mut cands: Vec<(u64, u128)> = Vec::new();
        let mut i: usize = 0;
        while i < self.stakes.len()
            invariant
                0 <= i <= self.stakes@.len(),
                cands@ == self.stakes@.take(i as int),
            decreases self.stakes@.len() - i,
        {
            cands.push(self.stakes[i]);
            proof {
                assert(cands@ =~= self.stakes@.take(i as int + 1));
            }
            i += 1;
        }
        proof {
            assert(cands@ =~= self.stakes@);
        }
        let sorted = sort_by_stake_desc(cands);
        proof {
            let st = self.stakes@;
            // the sorted candidates keep the distinct keys and the values
            assert(st.no_duplicates()) by {
                assert forall|a: int, b: int|
                    0 <= a < st.len() && 0 <= b < st.len() && a != b implies st[a] != st[b] by {
                    if a < b {
                        assert(st[a].0 != st[b].0);
                    } else {
                        assert(st[b].0 != st[a].0);
                    }
                }
            }
            st.lemma_multiset_has_no_duplicates();
            sorted@.lemma_multiset_has_no_duplicates_conv();
            assert forall|x: int| 0 <= x < sorted@.len() implies st.contains(
                #[trigger] sorted@[x],
            ) by {
                assert(sorted@.to_multiset().count(sorted@[x]) > 0) by {
                    assert(sorted@.contains(sorted@[x]));
                }
            }
            assert forall|x: int| 0 <= x < sorted@.len() implies k_has(
                st,
                (#[trigger] sorted@[x]).0,
            ) && k_get(st, sorted@[x].0) == sorted@[x].1 by {
                let y = choose|y: int| 0 <= y < st.len() && st[y] == sorted@[x];
                lemma_k_idx_unique(st, sorted@[x].0, y);
            }
            assert forall|a: int, b: int| 0 <= a < b < sorted@.len() implies (
            #[trigger] sorted@[a]).0 != (#[trigger] sorted@[b]).0 by {
                assert(sorted@.no_duplicates());
                assert(sorted@[a] != sorted@[b]);
                if sorted@[a].0 == sorted@[b].0 {
                    let ya = choose|y: int| 0 <= y < st.len() && st[y] == sorted@[a];
                    let yb = choose|y: int| 0 <= y < st.len() && st[y] == sorted@[b];
                    lemma_k_idx_unique(st, sorted@[a].0, ya);
                    lemma_k_idx_unique(st, sorted@[b].0, yb);
                }
            }
        }
        let k = if (self.config.max_validators as usize) <= sorted.len() {
            self.config.max_validators as usize
        } else {
            sorted.len()
        };
        let mut newset: Vec<u64> = Vec::new();
        let mut j: usize = 0;
        while j < k
            invariant
                0 <= j <= k,
                k <= sorted@.len(),
                newset@ == sorted@.take(j as int).map_values(|e: (u64, u128)| e.0),
            decreases k - j,
        {
            newset.push(sorted[j].0);
            proof {
                assert(newset@ =~= sorted@.take(j as int + 1).map_values(
                    |e: (u64, u128)| e.0,
                ));
            }
            j += 1;
        }
        self.current_validators = newset;
        self.events.push(Event::ValidatorsUpdated);
        proof {
            let st = self.stakes@;
            let cv = self.current_validators@;
            assert(cv.len() == self.election_size());
            assert forall|a: int, b: int| 0 <= a < b < cv.len() implies cv[a] != cv[b] by {
                assert(cv[a] == sorted@[a].0);
                assert(cv[b] == sorted@[b].0);
            }
            assert(cv.no_duplicates());
            assert forall|x: int| 0 <= x < cv.len() implies k_has(st, #[trigger] cv[x]) by {
                assert(cv[x] == sorted@[x].0);
            }
            assert forall|x: int, w: u64|
                #![trigger k_get0(st, w), cv[x]]
                0 <= x < cv.len() && k_has(st, w) && !cv.contains(w) implies k_get0(
                st,
                w,
            ) <= k_get0(st, cv[x]) by {
                let iw = k_idx(st, w);
                assert(st[iw] == (w, k_get(st, w)));
                assert(sorted@.to_multiset().count(st[iw]) > 0) by {
                    assert(st.contains(st[iw]));
                }
                assert(sorted@.contains(st[iw]));
                let yw = choose|y: int|
                    0 <= y < sorted@.len() && sorted@[y] == st[iw];
                assert(yw >= k) by {
                    if yw < k {
                        assert(cv[yw] == sorted@[yw].0);
                        assert(cv.contains(w));
                    }
                }
                assert(sorted@[x].1 >= sorted@[yw].1);
                assert(k_get0(st, cv[x]) == sorted@[x].1);
            }
            assert(old(self).sound() ==> self.sound());
        }
    }

    /// Freeze the delegation view for the epoch that now begins: the
    /// snapshot is replaced wholesale by the delegations whose validator is
    /// in the (freshly elected) set. Rewards at the next boundary read this
    /// copy, insulated from delegation churn during the epoch.
    #[verifier::loop_isolation(false)]
    pub fn snapshot_validators_delegators(&mut self)
        requires
            old(self).wf(),
        ensures
            final(self).wf(),
            final(self).snapshot@ == old(self).delegators@.filter(
                elected_in(old(self).current_validators@),
            ),
            final(self).balances == old(self).balances,
            final(self).validators@ == old(self).validators@,
            final(self).delegators@ == old(self).delegators@,
            final(self).stakes@ == old(self).stakes@,
            final(self).current_validators@ == old(self).current_validators@,
            final(self).block_count@ == old(self).block_count@,
            final(self).events@ == old(self).events@,
            final(self).block_number == old(self).block_number,
            final(self).config == old(self).config,
            old(self).sound() ==> final(self).sound(),
    {
        let mut snap: Vec<(u64, Delegation)> = Vec::new();
        let mut i: usize = 0;
        while i < self.delegators.len()
            invariant
                0 <= i <= self.delegators@.len(),
                snap@ == self.delegators@.take(i as int).filter(
                    elected_in(self.current_validators@),
                ),
            decreases self.delegators@.len() - i,
        {
            let e = self.delegators[i];
            let ghost t = self.delegators@.take(i as int);
            let ghost t1 = self.delegators@.take(i as int + 1);
            proof {
                reveal(Seq::filter);
                assert(t1.drop_last() =~= t);
                assert(t1.last() == self.delegators@[i as int]);
            }
            if contains_account(&self.current_validators, e.1.validator) {
                snap.push(e);
            }
            i += 1;
        }
        proof {
            assert(self.delegators@.take(self.delegators@.len() as int)
                =~= self.delegators@);
            lemma_filter_kv(self.delegators@, elected_in(self.current_validators@));
        }
        self.snapshot = snap;
    }

    /// Reset the authorship tallies for the epoch that now begins: every
    /// account's tally reads as zero again.
    pub fn reset_block_counts(&mut self)
        requires
            old(self).wf(),
        ensures
            final(self).wf(),
            final(self).block_count@ == Seq::<(u64, u32)>::empty(),
            final(self).balances == old(self).balances,
            final(self).validators@ == old(self).validators@,
            final(self).delegators@ == old(self).delegators@,
            final(self).stakes@ == old(self).stakes@,
            final(self).current_validators@ == old(self).current_validators@,
            final(self).snapshot@ == old(self).snapshot@,
            final(self).events@ == old(self).events@,
            final(self).block_number == old(self).block_number,
            final(self).config == old(self).config,
            old(self).sound() ==> final(self).sound(),
    {
        self.block_count = Vec::new();
    }
}

/// The delegation entries whose validator is in the elected set `cv`.
pub open spec fn elected_in(cv: Seq<u64>) -> spec_fn((u64, Delegation)) -> bool {
    |e: (u64, Delegation)| cv.contains(e.1.validator)
}

/// Product of two balances, saturating at the largest balance.
pub open spec fn sat_mul(a: u128, b: u128) -> u128 {
    if a as int * b as int > u128::MAX as int {
        u128::MAX
    } else {
        (a * b) as u128
    }
}

/// Total reward pool of validator `v` for the epoch just ending: the base
/// reward per block times the blocks it authored.
pub open spec fn total_reward_of(counts: Seq<(u64, u32)>, v: u64) -> u128 {
    (BASE_REWARD_PER_BLOCK as int * k_cnt0(counts, v) as int) as u128
}

/// The fixed percentage of a reward pool the validator keeps.
pub open spec fn validator_cut(total: u128) -> u128 {
    (total as int * VALIDATOR_PERCENTAGE as int / 100) as u128
}

/// What is left of a reward pool for the delegators.
pub open spec fn delegator_pool(total: u128) -> u128 {
    (total - validator_cut(total)) as u128
}

/// A snapshot entry earns at the boundary ending `epoch` exactly when it
/// points to the validator being paid and was active since before the
/// epoch (mid-epoch joiners are excluded).
pub open spec fn snap_eligible(e: (u64, Delegation), v: u64, epoch: u64) -> bool {
    e.1.validator == v && e.1.epoch_started < epoch
}

/// The reward of one eligible snapshot entry: its proportional share of
/// the delegator pool, with truncating division; nothing when the
/// validator's aggregate stake reads zero (a stake-less former validator
/// has no backing to divide by).
pub open spec fn snap_reward(del: Delegation, pool: u128, stake: u128) -> u128 {
    if stake == 0 {
        0
    } else {
        sat_mul(pool, del.amount) / stake
    }
}

/// Free balances after minting `x` into `who`: unchanged when the new
/// balance would not fit.
pub open spec fn s_mint(free: Seq<(u64, u128)>, who: u64, x: u128) -> Seq<(u64, u128)> {
    if k_get0(free, who) as int + x as int > u128::MAX as int {
        free
    } else {
        s_set(free, who, (k_get0(free, who) + x) as u128)
    }
}

/// Free balances after paying, in snapshot order, every eligible entry of
/// `snap` its share of validator `v`'s delegator pool.
pub open spec fn pay_snap(
    free: Seq<(u64, u128)>,
    snap: Seq<(u64, Delegation)>,
    v: u64,
    pool: u128,
    stake: u128,
    epoch: u64,
) -> Seq<(u64, u128)>
    decreases snap.len(),
{
    if snap.len() == 0 {
        free
    } else {
        let prev = pay_snap(free, snap.drop_last(), v, pool, stake, epoch);
        let e = snap.last();
        if snap_eligible(e, v, epoch) {
            s_mint(prev, e.0, snap_reward(e.1, pool, stake))
        } else {
            prev
        }
    }
}

/// How many delegator rewards are minted for validator `v`.
pub open spec fn snap_mint_count(snap: Seq<(u64, Delegation)>, v: u64, epoch: u64) -> nat
    decreases snap.len(),
{
    if snap.len() == 0 {
        0
    } else {
        snap_mint_count(snap.drop_last(), v, epoch) + (if snap_eligible(
            snap.last(),
            v,
            epoch,
        ) {
            1nat
        } else {
            0nat
        })
    }
}

/// Free balances after paying, in elected-set order, every validator of
/// `cv` its cut and its eligible snapshot delegators their shares.
pub open spec fn pay_set(
    free: Seq<(u64, u128)>,
    cv: Seq<u64>,
    counts: Seq<(u64, u32)>,
    stakes: Seq<(u64, u128)>,
    snap: Seq<(u64, Delegation)>,
    epoch: u64,
) -> Seq<(u64, u128)>
    decreases cv.len(),
{
    if cv.len() == 0 {
        free
    } else {
        let prev = pay_set(free, cv.drop_last(), counts, stakes, snap, epoch);
        let v = cv.last();
        let total = total_reward_of(counts, v);
        s_mint(
            pay_snap(prev, snap, v, delegator_pool(total), k_get0(stakes, v), epoch),
            v,
            validator_cut(total),
        )
    }
}

/// How many reward mints the whole distribution performs: one per paid
/// validator plus one per eligible snapshot entry of each.
pub open spec fn set_mint_count(cv: Seq<u64>, snap: Seq<(u64, Delegation)>, epoch: u64) -> nat
    decreases cv.len(),
{
    if cv.len() == 0 {
        0
    } else {
        set_mint_count(cv.drop_last(), snap, epoch) + snap_mint_count(
            snap,
            cv.last(),
            epoch,
        ) + 1
    }
}

/// A run of reward notifications.
pub open spec fn rewards_events(n: nat) -> Seq<Event> {
    Seq::new(n, |x: int| Event::RewardsDistributed)
}

impl Pallet {
    /// Distribute the rewards of the epoch just ending, before the new
    /// election: for every validator in the pre-update elected set, its
    /// pool is the base reward times its authorship tally; the validator is
    /// minted its fixed percentage cut, and every snapshot entry pointing
    /// to it that was active since before this epoch is minted its
    /// stake-proportional share of the rest, with truncating division. The
    /// truncation remainder is forfeited. A mint that would overflow an
    /// account's balance is skipped, not partially applied.
    #[verifier::loop_isolation(false)]
    pub fn distribute_epoch_rewards(&mut self)
        requires
            old(self).wf(),
        ensures
            final(self).wf(),
            final(self).balances.free@ == pay_set(
                old(self).balances.free@,
                old(self).current_validators@,
                old(self).block_count@,
                old(self).stakes@,
                old(self).snapshot@,
                old(self).epoch_index(),
            ),
            final(self).events@ == old(self).events@ + rewards_events(
                set_mint_count(
                    old(self).current_validators@,
                    old(self).snapshot@,
                    old(self).epoch_index(),
                ),
            ),
            final(self).balances.held_registration@ == old(
                self,
            ).balances.held_registration@,
            final(self).balances.held_delegation@ == old(self).balances.held_delegation@,
            final(self).balances.held_slashing@ == old(self).balances.held_slashing@,
            final(self).validators@ == old(self).validators@,
            final(self).delegators@ == old(self).delegators@,
            final(self).stakes@ == old(self).stakes@,
            final(self).current_validators@ == old(self).current_validators@,
            final(self).snapshot@ == old(self).snapshot@,
            final(self).block_count@ == old(self).block_count@,
            final(self).block_number == old(self).block_number,
            final(self).config == old(self).config,
            old(self).sound() ==> final(self).sound(),
    {
        let ghost o = *old(self);
        let ghost cv = o.current_validators@;
        let ghost epoch_g = o.epoch_index();
        let epoch = self.block_number / self.config.epoch_duration;
        let mut vi: usize = 0;
        proof {
            assert(cv.take(0) =~= Seq::<u64>::empty());
            assert(rewards_events(set_mint_count(cv.take(0), o.snapshot@, epoch_g))
                =~= Seq::<Event>::empty());
            assert(o.events@ + rewards_events(
                set_mint_count(cv.take(0), o.snapshot@, epoch_g),
            ) =~= o.events@);
        }
        while vi < self.current_validators.len()
            invariant
                0 <= vi <= cv.len(),
                self.balances.wf(),
                self.balances.free@ == pay_set(
                    o.balances.free@,
                    cv.take(vi as int),
                    o.block_count@,
                    o.stakes@,
                    o.snapshot@,
                    epoch_g,
                ),
                self.events@ == o.events@ + rewards_events(
                    set_mint_count(cv.take(vi as int), o.snapshot@, epoch_g),
                ),
                self.balances.held_registration@ == o.balances.held_registration@,
                self.balances.held_delegation@ == o.balances.held_delegation@,
                self.balances.held_slashing@ == o.balances.held_slashing@,
                self.validators@ == o.validators@,
                self.delegators@ == o.delegators@,
                self.stakes@ == o.stakes@,
                self.current_validators@ == cv,
                self.snapshot@ == o.snapshot@,
                self.block_count@ == o.block_count@,
                self.block_number == o.block_number,
                self.config == o.config,
            decreases cv.len() - vi,
        {
            let v = self.current_validators[vi];
            let count = match kv_get(&self.block_count, v) {
                Some(c) => c,
                None => 0,
            };
            let total = BASE_REWARD_PER_BLOCK * (count as u128);
            let cut = total * VALIDATOR_PERCENTAGE / 100;
            proof {
                vstd::arithmetic::div_mod::lemma_fundamental_div_mod(
                    total as int * VALIDATOR_PERCENTAGE as int,
                    100,
                );
            }
            let pool = total - cut;
            let stake = match kv_get(&self.stakes, v) {
                Some(s) => s,
                None => 0,
            };
            proof {
                assert(total == total_reward_of(o.block_count@, v));
                assert(cut == validator_cut(total));
                assert(pool == delegator_pool(total));
                assert(stake == k_get0(o.stakes@, v));
            }
            let ghost base = self.balances.free@;
            let mut si: usize = 0;
            proof {
                assert(o.snapshot@.take(0) =~= Seq::<(u64, Delegation)>::empty());
                assert(pay_snap(base, o.snapshot@.take(0), v, pool, stake, epoch_g)
                    == base);
                assert(rewards_events(
                    set_mint_count(cv.take(vi as int), o.snapshot@, epoch_g)
                        + snap_mint_count(o.snapshot@.take(0), v, epoch_g),
                ) =~= rewards_events(
                    set_mint_count(cv.take(vi as int), o.snapshot@, epoch_g),
                ));
            }
            while si < self.snapshot.len()
                invariant
                    0 <= si <= o.snapshot@.len(),
                    self.balances.wf(),
                    self.balances.free@ == pay_snap(
                        base,
                        o.snapshot@.take(si as int),
                        v,
                        pool,
                        stake,
                        epoch_g,
                    ),
                    self.events@ == o.events@ + rewards_events(
                        set_mint_count(cv.take(vi as int), o.snapshot@, epoch_g)
                            + snap_mint_count(o.snapshot@.take(si as int), v, epoch_g),
                    ),
                    self.balances.held_registration@ == o.balances.held_registration@,
                    self.balances.held_delegation@ == o.balances.held_delegation@,
                    self.balances.held_slashing@ == o.balances.held_slashing@,
                    self.validators@ == o.validators@,
                    self.delegators@ == o.delegators@,
                    self.stakes@ == o.stakes@,
                    self.current_validators@ == cv,
                    self.snapshot@ == o.snapshot@,
                    self.block_count@ == o.block_count@,
                    self.block_number == o.block_number,
                    self.config == o.config,
                decreases o.snapshot@.len() - si,
            {
                let e = self.snapshot[si];
                proof {
                    assert(o.snapshot@.take(si as int + 1).drop_last() =~= o.snapshot@.take(
                        si as int,
                    ));
                    assert(o.snapshot@.take(si as int + 1).last() == o.snapshot@[
                        si as int]);
                }
                if e.1.validator == v && e.1.epoch_started < epoch {
                    let reward = if stake == 0 {
                        0
                    } else {
                        match pool.checked_mul(e.1.amount) {
                            Some(x) => x / stake,
                            None => u128::MAX / stake,
                        }
                    };
                    proof {
                        assert(reward == snap_reward(e.1, pool, stake));
                    }
                    let ghost before = self.balances.free@;
                    let _minted = self.balances.mint_into(e.0, reward);
                    self.events.push(Event::RewardsDistributed);
                    proof {
                        assert(self.balances.free@ == s_mint(before, e.0, reward));
                        assert(rewards_events(
                            set_mint_count(cv.take(vi as int), o.snapshot@, epoch_g)
                                + snap_mint_count(
                                o.snapshot@.take(si as int + 1),
                                v,
                                epoch_g,
                            ),
                        ) =~= rewards_events(
                            set_mint_count(cv.take(vi as int), o.snapshot@, epoch_g)
                                + snap_mint_count(o.snapshot@.take(si as int), v, epoch_g),
                        ).push(Event::RewardsDistributed));
                    }
                }
                si += 1;
            }
            proof {
                assert(o.snapshot@.take(o.snapshot@.len() as int) =~= o.snapshot@);
            }
            let ghost before_cut = self.balances.free@;
            let _minted = self.balances.mint_into(v, cut);
            self.events.push(Event::RewardsDistributed);
            proof {
                assert(self.balances.free@ == s_mint(before_cut, v, cut));
                assert(cv.take(vi as int + 1).drop_last() =~= cv.take(vi as int));
                assert(cv.take(vi as int + 1).last() == cv[vi as int]);
                assert(self.balances.free@ == pay_set(
                    o.balances.free@,
                    cv.take(vi as int + 1),
                    o.block_count@,
                    o.stakes@,
                    o.snapshot@,
                    epoch_g,
                ));
                assert(rewards_events(
                    set_mint_count(cv.take(vi as int + 1), o.snapshot@, epoch_g),
                ) =~= rewards_events(
                    set_mint_count(cv.take(vi as int), o.snapshot@, epoch_g)
                        + snap_mint_count(o.snapshot@, v, epoch_g),
                ).push(Event::RewardsDistributed));
                assert(self.events@ =~= o.events@ + rewards_events(
                    set_mint_count(cv.take(vi as int + 1), o.snapshot@, epoch_g),
                ));
            }
            vi += 1;
        }
        proof {
            assert(cv.take(cv.len() as int) =~= cv);
        }
    }

    /// Block start: record the block index and, at an epoch boundary
    /// (index divisible by the epoch duration), run the boundary routine in
    /// strict order: distribute the ending epoch's rewards from the old
    /// snapshot and tallies, elect the new validator set from current
    /// stakes, take the new snapshot, and reset the tallies.
    pub fn on_initialize(&mut self, n: u64)
        requires
            old(self).wf(),
        ensures
            final(self).wf(),
            final(self).block_number == n,
            final(self).config == old(self).config,
            final(self).validators@ == old(self).validators@,
            final(self).delegators@ == old(self).delegators@,
            final(self).stakes@ == old(self).stakes@,
            final(self).balances.held_registration@ == old(
                self,
            ).balances.held_registration@,
            final(self).balances.held_delegation@ == old(self).balances.held_delegation@,
            final(self).balances.held_slashing@ == old(self).balances.held_slashing@,
            n % old(self).config.epoch_duration != 0 ==> final(self).balances.free@
                == old(self).balances.free@,
            n % old(self).config.epoch_duration != 0 ==> final(self).current_validators@
                == old(self).current_validators@,
            n % old(self).config.epoch_duration != 0 ==> final(self).snapshot@ == old(self).snapshot@,
            n % old(self).config.epoch_duration != 0 ==> final(self).block_count@ == old(self).block_count@,
            n % old(self).config.epoch_duration != 0 ==> final(self).events@ == old(self).events@,
            n % old(self).config.epoch_duration == 0 ==> final(self).balances.free@
                == pay_set(
                old(self).balances.free@,
                old(self).current_validators@,
                old(self).block_count@,
                old(self).stakes@,
                old(self).snapshot@,
                n / old(self).config.epoch_duration,
            ),
            n % old(self).config.epoch_duration == 0 ==> final(self).current_validators@.len()
                == old(self).election_size(),
            n % old(self).config.epoch_duration == 0 ==> final(self).current_validators@.no_duplicates(),
            n % old(self).config.epoch_duration == 0 ==> forall|x: int|
                0 <= x < final(self).current_validators@.len() ==> k_has(
                    old(self).stakes@,
                    #[trigger] final(self).current_validators@[x],
                ),
            n % old(self).config.epoch_duration == 0 ==> forall|x: int, w: u64|
                #![trigger k_get0(old(self).stakes@, w), final(self).current_validators@[x]]
                0 <= x < final(self).current_validators@.len() && k_has(
                    old(self).stakes@,
                    w,
                ) && !final(self).current_validators@.contains(w) ==> k_get0(
                    old(self).stakes@,
                    w,
                ) <= k_get0(old(self).stakes@, final(self).current_validators@[x]),
            n % old(self).config.epoch_duration == 0 ==> final(self).snapshot@
                == old(self).delegators@.filter(elected_in(final(self).current_validators@)),
            n % old(self).config.epoch_duration == 0 ==> final(self).block_count@
                == Seq::<(u64, u32)>::empty(),
            n % old(self).config.epoch_duration == 0 ==> final(self).events@
                == (old(self).events@ + rewards_events(
                set_mint_count(
                    old(self).current_validators@,
                    old(self).snapshot@,
                    n / old(self).config.epoch_duration,
                ),
            )).push(Event::ValidatorsUpdated),
            old(self).sound() ==> final(self).sound(),
    {
        self.block_number = n;
        if n % self.config.epoch_duration == 0 {
            self.distribute_epoch_rewards();
            self.update_validators();
            self.snapshot_validators_delegators();
            self.reset_block_counts();
        }
    }
}

} // verus!
