//! The delegated-proof-of-stake core: validator registry, delegation
//! ledger, stake aggregation, slashing and bootstrap.
//!
//! All state lives in one [`Pallet`] value. Every public operation either
//! fully commits its effects or, on a validation failure, commits none.
//! Stake arithmetic saturates rather than aborting the block, an explicit
//! availability policy; the contracts state the exact saturating result,
//! and the soundness clauses state when the bookkeeping stays exact.

use vstd::prelude::*;

use crate::kv::contains_account;
use crate::kv::k_cnt0;
use crate::kv::k_distinct;
use crate::kv::k_get;
use crate::kv::k_get0;
use crate::kv::k_has;
use crate::kv::k_idx;
use crate::kv::kv_contains;
use crate::kv::kv_get;
use crate::kv::kv_remove;
use crate::kv::kv_set;
use crate::kv::lemma_filter_all_of;
use crate::kv::lemma_filter_congruent;
use crate::kv::lemma_filter_filter;
use crate::kv::lemma_filter_kv;
use crate::kv::lemma_k_idx_unique;
use crate::kv::lemma_remove_is_filter;
use crate::kv::lemma_s_remove;
use crate::kv::lemma_s_set;
use crate::kv::s_remove;
use crate::kv::s_set;
use crate::ledger::BalanceLedger;
use crate::ledger::HoldReason;

verus! {

/// Reward minted per authored block, split between the validator and its
/// eligible delegators.
pub const BASE_REWARD_PER_BLOCK: u128 = 1000;

/// Percentage of each reward pool kept by the validator.
pub const VALIDATOR_PERCENTAGE: u128 = 30;

/// Self-stake recorded for every bootstrap validator.
pub const GENESIS_SELF_STAKE: u128 = 100;

/// Static configuration of the pallet.
#[derive(Clone, Copy, Debug, PartialEq, Eq, Structural)]
pub struct Config {
    /// Upper bound on the size of the elected set.
    pub max_validators: u32,
    /// Number of blocks per epoch; elections, snapshots and reward
    /// distribution run on every block index divisible by it.
    pub epoch_duration: u64,
}

/// A delegator's single live delegation record.
#[derive(Clone, Copy, Debug, PartialEq, Eq, Structural)]
pub struct Delegation {
    /// The validator the stake is delegated to.
    pub validator: u64,
    /// The delegated amount, escrowed under the delegation hold reason.
    pub amount: u128,
    /// First epoch index in which this delegation can earn rewards.
    pub epoch_started: u64,
}

/// Caller errors; every operation returns synchronously and never retries.
#[derive(Clone, Copy, Debug, PartialEq, Eq, Structural)]
pub enum Error {
    TooManyValidators,
    InsufficientBalance,
    AlreadyDelegated,
    ValidatorNotFound,
    AlreadyRegistered,
    NoDelegationFound,
    InvalidAmount,
}

/// Notifications recorded for downstream consumers.
#[derive(Clone, Copy, Debug, PartialEq, Eq, Structural)]
pub enum Event {
    ValidatorRegistered { validator: u64, amount: u128 },
    Delegated { delegator: u64, validator: u64, amount: u128 },
    ValidatorsUpdated,
    RewardsDistributed,
    Undelegated { delegator: u64, validator: u64, amount: u128 },
    ValidatorDeregistered { validator: u64 },
    DelegatorRemoved { delegator: u64, validator: u64, amount: u128 },
    ValidatorSlashed { validator: u64, amount: u128 },
}

/// Result of a state-changing operation.
pub type DispatchResult = Result<(), Error>;

/// Receives each newly elected validator set, for consumption by lower
/// consensus and networking layers.
pub trait ReportNewValidatorSet {
    fn report_new_validator_set(&mut self, new_set: &Vec<u64>) {
    }
}

/// The amount entry `e` contributes to the aggregate stake of validator
/// `v`.
pub open spec fn entry_amt(e: (u64, Delegation), v: u64) -> int {
    if e.1.validator == v {
        e.1.amount as int
    } else {
        0
    }
}

/// Sum of all delegation amounts in `s` that point to validator `v`.
pub open spec fn delegated_total(s: Seq<(u64, Delegation)>, v: u64) -> int
    decreases s.len(),
{
    if s.len() == 0 {
        0
    } else {
        delegated_total(s.drop_last(), v) + entry_amt(s.last(), v)
    }
}

/// The delegated total is a sum of non-negative amounts.
pub proof fn lemma_dt_nonneg(s: Seq<(u64, Delegation)>, v: u64)
    ensures
        delegated_total(s, v) >= 0,
    decreases s.len(),
{
    if s.len() > 0 {
        lemma_dt_nonneg(s.drop_last(), v);
    }
}

/// Appending an entry adds its contribution.
pub proof fn lemma_dt_push(s: Seq<(u64, Delegation)>, e: (u64, Delegation), v: u64)
    ensures
        delegated_total(s.push(e), v) == delegated_total(s, v) + entry_amt(e, v),
{
    assert(s.push(e).drop_last() =~= s);
}

/// Replacing the entry at `i` swaps its contribution.
pub proof fn lemma_dt_update(
    s: Seq<(u64, Delegation)>,
    i: int,
    e: (u64, Delegation),
    v: u64,
)
    requires
        0 <= i < s.len(),
    ensures
        delegated_total(s.update(i, e), v) == delegated_total(s, v) - entry_amt(s[i], v)
            + entry_amt(e, v),
    decreases s.len(),
{
    let t = s.update(i, e);
    if i == s.len() - 1 {
        assert(t.drop_last() =~= s.drop_last());
        assert(t.last() == e);
    } else {
        assert(t.drop_last() =~= s.drop_last().update(i, e));
        assert(t.last() == s.last());
        lemma_dt_update(s.drop_last(), i, e, v);
    }
}

/// Removing the entry at `i` subtracts its contribution.
pub proof fn lemma_dt_remove(s: Seq<(u64, Delegation)>, i: int, v: u64)
    requires
        0 <= i < s.len(),
    ensures
        delegated_total(s.remove(i), v) == delegated_total(s, v) - entry_amt(s[i], v),
    decreases s.len(),
{
    let t = s.remove(i);
    if i == s.len() - 1 {
        assert(t =~= s.drop_last());
    } else {
        assert(t.drop_last() =~= s.drop_last().remove(i));
        assert(t.last() == s.last());
        lemma_dt_remove(s.drop_last(), i, v);
    }
}

/// A table with no entry pointing to `v` contributes nothing to `v`.
pub proof fn lemma_dt_zero(s: Seq<(u64, Delegation)>, v: u64)
    requires
        forall|i: int| 0 <= i < s.len() ==> (#[trigger] s[i]).1.validator != v,
    ensures
        delegated_total(s, v) == 0,
    decreases s.len(),
{
    if s.len() > 0 {
        lemma_dt_zero(s.drop_last(), v);
    }
}

/// The total covers each single matching entry.
pub proof fn lemma_dt_ge_entry(s: Seq<(u64, Delegation)>, i: int, v: u64)
    requires
        0 <= i < s.len(),
    ensures
        delegated_total(s, v) >= entry_amt(s[i], v),
    decreases s.len(),
{
    if i == s.len() - 1 {
        lemma_dt_nonneg(s.drop_last(), v);
    } else {
        lemma_dt_ge_entry(s.drop_last(), i, v);
        assert(entry_amt(s.last(), v) >= 0);
    }
}

/// The entries whose delegation points to `who`.
pub open spec fn points_to(who: u64) -> spec_fn((u64, Delegation)) -> bool {
    |e: (u64, Delegation)| e.1.validator == who
}

/// The entries whose delegation does not point to `who`.
pub open spec fn not_points_to(who: u64) -> spec_fn((u64, Delegation)) -> bool {
    |e: (u64, Delegation)| e.1.validator != who
}

/// The entries an unregistration cascade keeps once the delegators in
/// `done` have been undone: those not pointing to `who`, plus those
/// pointing to it whose delegator has not been processed yet.
pub open spec fn keeps(who: u64, done: Seq<u64>) -> spec_fn((u64, Delegation)) -> bool {
    |e: (u64, Delegation)| e.1.validator != who || !done.contains(e.0)
}

/// The delegation entries pointing to `who`, in table order.
pub open spec fn cascade_of(s: Seq<(u64, Delegation)>, who: u64) -> Seq<(u64, Delegation)> {
    s.filter(points_to(who))
}

/// Free balances after releasing, in order, the full amount of each
/// delegation in `ce` back to its delegator.
pub open spec fn release_frees(free: Seq<(u64, u128)>, ce: Seq<(u64, Delegation)>) -> Seq<
    (u64, u128),
>
    decreases ce.len(),
{
    if ce.len() == 0 {
        free
    } else {
        let prev = release_frees(free, ce.drop_last());
        let e = ce.last();
        s_set(prev, e.0, k_get0(prev, e.0).saturating_add(e.1.amount))
    }
}

/// The undelegation events an unregistration cascade over `ce` records.
pub open spec fn cascade_events(ce: Seq<(u64, Delegation)>, who: u64) -> Seq<Event> {
    ce.map_values(
        |e: (u64, Delegation)| Event::Undelegated {
            delegator: e.0,
            validator: who,
            amount: e.1.amount,
        },
    )
}

/// Free balances after seeding, in order, each `(account, balance)` pair
/// of `list`; a later pair for the same account wins.
pub open spec fn genesis_frees(free: Seq<(u64, u128)>, list: Seq<(u64, u128)>) -> Seq<
    (u64, u128),
>
    decreases list.len(),
{
    if list.len() == 0 {
        free
    } else {
        s_set(genesis_frees(free, list.drop_last()), list.last().0, list.last().1)
    }
}

/// The bootstrap data: initial validator accounts and initial balances,
/// applied exactly once, before any block processing.
pub struct GenesisConfig {
    /// Accounts seeded as validators, each with the genesis self-stake.
    pub initial_validators: Vec<u64>,
    /// Initial free balance per account.
    pub initial_balances: Vec<(u64, u128)>,
}

/// The whole state of the delegated-proof-of-stake core.
pub struct Pallet {
    /// Static configuration.
    pub config: Config,
    /// Index of the block currently being processed.
    pub block_number: u64,
    /// The escrow ledger of free and held balances.
    pub balances: BalanceLedger,
    /// Validator records: account to self-stake; an account is a
    /// registered validator exactly while its entry exists.
    pub validators: Vec<(u64, u128)>,
    /// Delegation records, at most one per delegator.
    pub delegators: Vec<(u64, Delegation)>,
    /// Aggregate stake per validator: self-stake plus all delegations,
    /// maintained incrementally; absent keys read as zero.
    pub stakes: Vec<(u64, u128)>,
    /// The elected set, replaced wholesale at each epoch boundary.
    pub current_validators: Vec<u64>,
    /// Delegation records frozen at the last epoch boundary, restricted to
    /// delegations whose validator was elected at that moment.
    pub snapshot: Vec<(u64, Delegation)>,
    /// Blocks authored per validator in the current epoch; absent keys
    /// read as zero.
    pub block_count: Vec<(u64, u32)>,
    /// Notifications in order of occurrence.
    pub events: Vec<Event>,
}

impl Pallet {
    /// Structural well-formedness: positive epoch length, distinct keys in
    /// every table, and a duplicate-free elected set within its bound.
    pub open spec fn wf(self) -> bool {
        &&& self.config.epoch_duration >= 1
        &&& self.balances.wf()
        &&& k_distinct(self.validators@)
        &&& k_distinct(self.delegators@)
        &&& k_distinct(self.stakes@)
        &&& k_distinct(self.snapshot@)
        &&& k_distinct(self.block_count@)
        &&& self.current_validators@.no_duplicates()
        &&& self.current_validators@.len() <= self.config.max_validators
    }

    /// `v` holds a validator record.
    pub open spec fn registered(self, v: u64) -> bool {
        k_has(self.validators@, v)
    }

    /// Self-stake of registered validator `v`.
    pub open spec fn self_stake_of(self, v: u64) -> u128 {
        k_get(self.validators@, v)
    }

    /// Aggregate stake of `v`; zero when absent.
    pub open spec fn stake_of(self, v: u64) -> u128 {
        k_get0(self.stakes@, v)
    }

    /// The delegation record of `who`, when one exists.
    pub open spec fn delegation_of(self, who: u64) -> Delegation {
        k_get(self.delegators@, who)
    }

    /// `who` holds a delegation record.
    pub open spec fn has_delegation(self, who: u64) -> bool {
        k_has(self.delegators@, who)
    }

    /// Index of the epoch the current block belongs to.
    pub open spec fn epoch_index(self) -> u64 {
        self.block_number / self.config.epoch_duration
    }

    /// `v` is in the elected set.
    pub open spec fn in_current_set(self, v: u64) -> bool {
        self.current_validators@.contains(v)
    }

    /// Epoch a delegation to `validator` created now starts earning in:
    /// the next epoch when the validator is already elected (it must wait
    /// a full epoch, preventing snapshot-timing gaming), the current epoch
    /// otherwise.
    pub open spec fn delegation_start_epoch(self, validator: u64) -> u64 {
        if self.in_current_set(validator) {
            self.epoch_index().saturating_add(1)
        } else {
            self.epoch_index()
        }
    }

    /// The delegation record `who` holds after delegating `amount` to
    /// `validator` now: an existing record accumulates (its start epoch is
    /// not reset), otherwise a fresh record starts at
    /// `delegation_start_epoch`.
    pub open spec fn delegation_after(self, who: u64, validator: u64, amount: u128) -> Delegation {
        if k_has(self.delegators@, who) {
            Delegation {
                validator,
                amount: k_get(self.delegators@, who).amount.saturating_add(amount),
                epoch_started: k_get(self.delegators@, who).epoch_started,
            }
        } else {
            Delegation {
                validator,
                amount,
                epoch_started: self.delegation_start_epoch(validator),
            }
        }
    }

    /// Stake conservation: every registered validator's aggregate stake
    /// equals its self-stake plus the sum of all live delegation amounts
    /// pointing to it.
    pub open spec fn stake_conserved(self) -> bool {
        forall|v: u64|
            #[trigger] k_has(self.validators@, v) ==> k_get0(self.stakes@, v) as int
                == k_get(self.validators@, v) as int + delegated_total(self.delegators@, v)
    }

    /// Every live delegation points to a registered validator. Slashing is
    /// the one operation that breaks this: it removes the validator record
    /// but leaves delegations (and their holds) stranded.
    pub open spec fn no_stranded(self) -> bool {
        forall|i: int|
            0 <= i < self.delegators@.len() ==> k_has(
                self.validators@,
                (#[trigger] self.delegators@[i]).1.validator,
            )
    }

    /// The stake table keys exactly the registered validators.
    pub open spec fn stakes_registered(self) -> bool {
        forall|v: u64| #[trigger] k_has(self.stakes@, v) == k_has(self.validators@, v)
    }

    /// The balance held under the delegation reason equals the live
    /// delegation amount for every account, and is zero for accounts
    /// without a record.
    pub open spec fn delegation_holds_match(self) -> bool {
        forall|d: u64|
            #[trigger] k_get0(self.balances.held_delegation@, d) == (if k_has(
                self.delegators@,
                d,
            ) {
                k_get(self.delegators@, d).amount
            } else {
                0
            })
    }

    /// The bookkeeping invariants that hold from bootstrap onward and are
    /// preserved by every operation except slashing.
    pub open spec fn sound(self) -> bool {
        &&& self.stake_conserved()
        &&& self.no_stranded()
        &&& self.stakes_registered()
        &&& self.delegation_holds_match()
    }

    /// A fresh pallet: no records, no balances, no history.
    pub open spec fn fresh(self) -> bool {
        &&& self.block_number == 0
        &&& self.balances.free@ == Seq::<(u64, u128)>::empty()
        &&& self.balances.held_registration@ == Seq::<(u64, u128)>::empty()
        &&& self.balances.held_delegation@ == Seq::<(u64, u128)>::empty()
        &&& self.balances.held_slashing@ == Seq::<(u64, u128)>::empty()
        &&& self.validators@ == Seq::<(u64, u128)>::empty()
        &&& self.delegators@ == Seq::<(u64, Delegation)>::empty()
        &&& self.stakes@ == Seq::<(u64, u128)>::empty()
        &&& self.current_validators@ == Seq::<u64>::empty()
        &&& self.snapshot@ == Seq::<(u64, Delegation)>::empty()
        &&& self.block_count@ == Seq::<(u64, u32)>::empty()
        &&& self.events@ == Seq::<Event>::empty()
    }

    /// A fresh pallet under the given configuration.
    pub fn new(config: Config) -> (r: Pallet)
        requires
            config.epoch_duration >= 1,
        ensures
            r.wf(),
            r.fresh(),
            r.sound(),
            r.config == config,
    {
        Pallet {
            config,
            block_number: 0,
            balances: BalanceLedger::new(),
            validators: Vec::new(),
            delegators: Vec::new(),
            stakes: Vec::new(),
            current_validators: Vec::new(),
            snapshot: Vec::new(),
            block_count: Vec::new(),
            events: Vec::new(),
        }
    }

    /// Register `who` as a validator with self-stake `amount`: fails
    /// `InsufficientBalance` when the free balance does not cover the
    /// amount, `AlreadyRegistered` when a validator record exists. On
    /// success the amount is held under the registration reason, the
    /// validator record is created and the aggregate stake starts at the
    /// self-stake.
    pub fn register_validator(&mut self, who: u64, amount: u128) -> (r: DispatchResult)
        requires
            old(self).wf(),
        ensures
            final(self).wf(),
            r == Err::<(), Error>(Error::InsufficientBalance) <==> old(
                self,
            ).balances.free_of(who) < amount,
            r == Err::<(), Error>(Error::AlreadyRegistered) <==> (old(
                self,
            ).balances.free_of(who) >= amount && old(self).registered(who)),
            r is Err ==> *final(self) == *old(self),
            r is Ok <==> (old(self).balances.free_of(who) >= amount && !old(
                self,
            ).registered(who)),
            r is Ok ==> final(self).validators@ == s_set(old(self).validators@, who, amount),
            r is Ok ==> final(self).stakes@ == s_set(old(self).stakes@, who, amount),
            r is Ok ==> final(self).balances.free@ == s_set(
                old(self).balances.free@,
                who,
                (old(self).balances.free_of(who) - amount) as u128,
            ),
            r is Ok ==> final(self).balances.held_registration@ == s_set(
                old(self).balances.held_registration@,
                who,
                old(self).balances.held_of(
                    HoldReason::ValidatorRegistration,
                    who,
                ).saturating_add(amount),
            ),
            final(self).balances.held_delegation@ == old(self).balances.held_delegation@,
            final(self).balances.held_slashing@ == old(self).balances.held_slashing@,
            final(self).delegators@ == old(self).delegators@,
            final(self).snapshot@ == old(self).snapshot@,
            final(self).block_count@ == old(self).block_count@,
            final(self).current_validators@ == old(self).current_validators@,
            final(self).block_number == old(self).block_number,
            final(self).config == old(self).config,
            r is Ok ==> final(self).events@ == old(self).events@.push(
                (Event::ValidatorRegistered { validator: who, amount }),
            ),
            old(self).sound() ==> final(self).sound(),
    {
        let free0 = self.balances.balance(who);
        if free0 < amount {
            return Err(Error::InsufficientBalance);
        }
        if kv_contains(&self.validators, who) {
            return Err(Error::AlreadyRegistered);
        }
        let _held = self.balances.hold(HoldReason::ValidatorRegistration, who, amount);
        kv_set(&mut self.validators, who, amount);
        kv_set(&mut self.stakes, who, amount);
        self.events.push(Event::ValidatorRegistered { validator: who, amount });
        proof {
            let o = *old(self);
            lemma_s_set(o.validators@, who, amount);
            lemma_s_set(o.stakes@, who, amount);
            assert(self.balances.held_table(HoldReason::Delegation)
                == o.balances.held_table(HoldReason::Delegation));
            assert(self.balances.held_table(HoldReason::Slashing)
                == o.balances.held_table(HoldReason::Slashing));
            if o.sound() {
                assert forall|i: int| 0 <= i < o.delegators@.len() implies (
                #[trigger] o.delegators@[i]).1.validator != who by {
                    assert(k_has(o.validators@, o.delegators@[i].1.validator));
                }
                lemma_dt_zero(o.delegators@, who);
                assert forall|v: u64| #[trigger] k_has(self.validators@, v) implies
                    k_get0(self.stakes@, v) as int == k_get(self.validators@, v) as int
                    + delegated_total(self.delegators@, v) by {
                    if v != who {
                        assert(k_has(o.validators@, v));
                    }
                }
                assert forall|v: u64| #[trigger] k_has(self.stakes@, v) == k_has(
                    self.validators@,
                    v,
                ) by {
                    if v != who {
                        assert(k_has(o.stakes@, v) == k_has(o.validators@, v));
                    }
                }
                assert(self.sound());
            }
        }
        Ok(())
    }

    /// Delegate `amount` from `who` to `validator`: fails `InvalidAmount`
    /// on a zero amount, `ValidatorNotFound` when no validator record
    /// exists, `InsufficientBalance` when the free balance does not cover
    /// the amount, and `AlreadyDelegated` when `who` already delegates to a
    /// different validator. On success the amount is held under the
    /// delegation reason, the record is created or accumulated (see
    /// [`Pallet::delegation_after`]) and the validator's aggregate stake
    /// grows by the amount, saturating.
    pub fn delegate(&mut self, who: u64, validator: u64, amount: u128) -> (r:
        DispatchResult)
        requires
            old(self).wf(),
        ensures
            final(self).wf(),
            r == Err::<(), Error>(Error::InvalidAmount) <==> amount == 0,
            r == Err::<(), Error>(Error::ValidatorNotFound) <==> (amount > 0 && !old(
                self,
            ).registered(validator)),
            r == Err::<(), Error>(Error::InsufficientBalance) <==> (amount > 0 && old(
                self,
            ).registered(validator) && old(self).balances.free_of(who) < amount),
            r == Err::<(), Error>(Error::AlreadyDelegated) <==> (amount > 0 && old(
                self,
            ).registered(validator) && old(self).balances.free_of(who) >= amount && old(
                self,
            ).has_delegation(who) && old(self).delegation_of(who).validator != validator),
            r is Err ==> *final(self) == *old(self),
            r is Ok <==> (amount > 0 && old(self).registered(validator) && old(
                self,
            ).balances.free_of(who) >= amount && (old(self).has_delegation(who) ==> old(
                self,
            ).delegation_of(who).validator == validator)),
            r is Ok ==> final(self).delegators@ == s_set(
                old(self).delegators@,
                who,
                old(self).delegation_after(who, validator, amount),
            ),
            r is Ok ==> final(self).stakes@ == s_set(
                old(self).stakes@,
                validator,
                old(self).stake_of(validator).saturating_add(amount),
            ),
            r is Ok ==> final(self).balances.free@ == s_set(
                old(self).balances.free@,
                who,
                (old(self).balances.free_of(who) - amount) as u128,
            ),
            r is Ok ==> final(self).balances.held_delegation@ == s_set(
                old(self).balances.held_delegation@,
                who,
                old(self).balances.held_of(HoldReason::Delegation, who).saturating_add(
                    amount,
                ),
            ),
            final(self).balances.held_registration@ == old(
                self,
            ).balances.held_registration@,
            final(self).balances.held_slashing@ == old(self).balances.held_slashing@,
            final(self).validators@ == old(self).validators@,
            final(self).snapshot@ == old(self).snapshot@,
            final(self).block_count@ == old(self).block_count@,
            final(self).current_validators@ == old(self).current_validators@,
            final(self).block_number == old(self).block_number,
            final(self).config == old(self).config,
            r is Ok ==> final(self).events@ == old(self).events@.push(
                (Event::Delegated { delegator: who, validator, amount }),
            ),
            r is Err ==> final(self).events@ == old(self).events@,
            old(self).sound() && old(self).stake_of(validator) as int + amount as int
                <= u128::MAX as int ==> final(self).sound(),
    {
        if amount == 0 {
            return Err(Error::InvalidAmount);
        }
        if !kv_contains(&self.validators, validator) {
            return Err(Error::ValidatorNotFound);
        }
        let free0 = self.balances.balance(who);
        if free0 < amount {
            return Err(Error::InsufficientBalance);
        }
        let current_epoch = self.block_number / self.config.epoch_duration;
        let in_set = contains_account(&self.current_validators, validator);
        let epoch_started = if in_set {
            current_epoch.saturating_add(1)
        } else {
            current_epoch
        };
        let newdel = match kv_get(&self.delegators, who) {
            Some(d0) => {
                if d0.validator != validator {
                    return Err(Error::AlreadyDelegated);
                }
                Delegation {
                    validator,
                    amount: d0.amount.saturating_add(amount),
                    epoch_started: d0.epoch_started,
                }
            },
            None => Delegation { validator, amount, epoch_started },
        };
        kv_set(&mut self.delegators, who, newdel);
        let _held = self.balances.hold(HoldReason::Delegation, who, amount);
        let stake0 = match kv_get(&self.stakes, validator) {
            Some(s) => s,
            None => 0,
        };
        kv_set(&mut self.stakes, validator, stake0.saturating_add(amount));
        self.events.push(Event::Delegated { delegator: who, validator, amount });
        proof {
            let o = *old(self);
            let nd = o.delegation_after(who, validator, amount);
            assert(nd == newdel);
            lemma_s_set(o.delegators@, who, nd);
            lemma_s_set(o.stakes@, validator, o.stake_of(validator).saturating_add(amount));
            lemma_s_set(o.balances.held_delegation@, who,
                o.balances.held_of(HoldReason::Delegation, who).saturating_add(amount));
            assert(self.balances.held_table(HoldReason::ValidatorRegistration)
                == o.balances.held_table(HoldReason::ValidatorRegistration));
            assert(self.balances.held_table(HoldReason::Slashing)
                == o.balances.held_table(HoldReason::Slashing));
            if o.sound() && o.stake_of(validator) as int + amount as int <= u128::MAX as int {
                assert(k_has(o.validators@, validator));
                assert(k_has(o.stakes@, validator));
                // exactness of the accumulated record and of the new hold
                if k_has(o.delegators@, who) {
                    let i = k_idx(o.delegators@, who);
                    assert(o.delegators@[i] == (who, o.delegation_of(who)));
                    assert(o.delegation_of(who).validator == validator);
                    lemma_dt_ge_entry(o.delegators@, i, validator);
                    assert(delegated_total(o.delegators@, validator)
                        >= o.delegation_of(who).amount as int);
                    assert(o.stake_of(validator) as int
                        == o.self_stake_of(validator) as int
                        + delegated_total(o.delegators@, validator));
                    assert(o.delegation_of(who).amount as int + amount as int
                        <= u128::MAX as int);
                    assert(nd.amount == o.delegation_of(who).amount + amount);
                    assert forall|v: u64| #[trigger] k_has(self.validators@, v) implies
                        k_get0(self.stakes@, v) as int == k_get(self.validators@, v) as int
                        + delegated_total(self.delegators@, v) by {
                        lemma_dt_update(o.delegators@, i, (who, nd), v);
                    }
                } else {
                    assert forall|v: u64| #[trigger] k_has(self.validators@, v) implies
                        k_get0(self.stakes@, v) as int == k_get(self.validators@, v) as int
                        + delegated_total(self.delegators@, v) by {
                        lemma_dt_push(o.delegators@, (who, nd), v);
                    }
                }
                assert forall|j: int| 0 <= j < self.delegators@.len() implies k_has(
                    self.validators@,
                    (#[trigger] self.delegators@[j]).1.validator,
                ) by {
                    if k_has(o.delegators@, who) {
                        let i = k_idx(o.delegators@, who);
                        if j != i {
                            assert(self.delegators@[j] == o.delegators@[j]);
                        }
                    } else {
                        if j < o.delegators@.len() {
                            assert(self.delegators@[j] == o.delegators@[j]);
                        }
                    }
                }
                assert forall|v: u64| #[trigger] k_has(self.stakes@, v) == k_has(
                    self.validators@,
                    v,
                ) by {
                    if v != validator {
                        assert(k_has(o.stakes@, v) == k_has(o.validators@, v));
                    }
                }
                assert forall|d: u64| #[trigger] k_get0(
                    self.balances.held_delegation@,
                    d,
                ) == (if k_has(self.delegators@, d) {
                    k_get(self.delegators@, d).amount
                } else {
                    0u128
                }) by {
                    if d == who {
                        assert(k_get(self.delegators@, who) == nd);
                    } else {
                        assert(k_get0(o.balances.held_delegation@, d) == (if k_has(
                            o.delegators@,
                            d,
                        ) {
                            k_get(o.delegators@, d).amount
                        } else {
                            0u128
                        }));
                    }
                }
                assert(self.sound());
            }
        }
        Ok(())
    }

    /// Amount a release of `amount` under the delegation reason actually
    /// moves back to `who`'s free balance: best-effort, never more than is
    /// held.
    pub open spec fn delegation_release(self, who: u64, amount: u128) -> u128 {
        if amount <= self.balances.held_of(HoldReason::Delegation, who) {
            amount
        } else {
            self.balances.held_of(HoldReason::Delegation, who)
        }
    }

    /// Undelegate `amount` of `who`'s stake: fails `NoDelegationFound`
    /// without a record, `InsufficientBalance` when the amount exceeds the
    /// record. On success the record shrinks by the amount (and is deleted
    /// when it reaches zero), the amount is released from the delegation
    /// hold best-effort, and the validator's aggregate stake shrinks by
    /// the amount, saturating at zero.
    pub fn undelegate(&mut self, who: u64, amount: u128) -> (r: DispatchResult)
        requires
            old(self).wf(),
        ensures
            final(self).wf(),
            r == Err::<(), Error>(Error::NoDelegationFound) <==> !old(
                self,
            ).has_delegation(who),
            r == Err::<(), Error>(Error::InsufficientBalance) <==> (old(
                self,
            ).has_delegation(who) && amount > old(self).delegation_of(who).amount),
            r is Err ==> *final(self) == *old(self),
            r is Ok <==> (old(self).has_delegation(who) && amount <= old(
                self,
            ).delegation_of(who).amount),
            r is Ok ==> final(self).delegators@ == (if old(self).delegation_of(
                who,
            ).amount == amount {
                s_remove(old(self).delegators@, who)
            } else {
                s_set(
                    old(self).delegators@,
                    who,
                    (Delegation {
                        validator: old(self).delegation_of(who).validator,
                        amount: (old(self).delegation_of(who).amount - amount) as u128,
                        epoch_started: old(self).delegation_of(who).epoch_started,
                    }),
                )
            }),
            r is Ok ==> final(self).balances.held_delegation@ == s_set(
                old(self).balances.held_delegation@,
                who,
                (old(self).balances.held_of(HoldReason::Delegation, who) - old(
                    self,
                ).delegation_release(who, amount)) as u128,
            ),
            r is Ok ==> final(self).balances.free@ == s_set(
                old(self).balances.free@,
                who,
                old(self).balances.free_of(who).saturating_add(
                    old(self).delegation_release(who, amount),
                ),
            ),
            r is Ok ==> final(self).stakes@ == s_set(
                old(self).stakes@,
                old(self).delegation_of(who).validator,
                old(self).stake_of(old(self).delegation_of(who).validator).saturating_sub(
                    amount,
                ),
            ),
            final(self).balances.held_registration@ == old(
                self,
            ).balances.held_registration@,
            final(self).balances.held_slashing@ == old(self).balances.held_slashing@,
            final(self).validators@ == old(self).validators@,
            final(self).snapshot@ == old(self).snapshot@,
            final(self).block_count@ == old(self).block_count@,
            final(self).current_validators@ == old(self).current_validators@,
            final(self).block_number == old(self).block_number,
            final(self).config == old(self).config,
            r is Ok ==> final(self).events@ == old(self).events@.push(
                (Event::Undelegated {
                    delegator: who,
                    validator: old(self).delegation_of(who).validator,
                    amount,
                }),
            ),
            r is Err ==> final(self).events@ == old(self).events@,
            old(self).sound() ==> final(self).sound(),
    {
        let d0 = match kv_get(&self.delegators, who) {
            None => {
                return Err(Error::NoDelegationFound);
            },
            Some(d) => d,
        };
        if amount > d0.amount {
            return Err(Error::InsufficientBalance);
        }
        if amount == d0.amount {
            kv_remove(&mut self.delegators, who);
        } else {
            kv_set(
                &mut self.delegators,
                who,
                Delegation {
                    validator: d0.validator,
                    amount: d0.amount - amount,
                    epoch_started: d0.epoch_started,
                },
            );
        }
        let _released = self.balances.release(HoldReason::Delegation, who, amount);
        let stake0 = match kv_get(&self.stakes, d0.validator) {
            Some(s) => s,
            None => 0,
        };
        kv_set(&mut self.stakes, d0.validator, stake0.saturating_sub(amount));
        self.events.push(
            Event::Undelegated { delegator: who, validator: d0.validator, amount },
        );
        proof {
            let o = *old(self);
            let i = k_idx(o.delegators@, who);
            assert(o.delegators@[i] == (who, d0));
            lemma_s_remove(o.delegators@, who);
            lemma_s_set(o.delegators@, who, Delegation {
                validator: d0.validator,
                amount: (d0.amount - amount) as u128,
                epoch_started: d0.epoch_started,
            });
            lemma_s_set(o.stakes@, d0.validator, stake0.saturating_sub(amount));
            lemma_s_set(o.balances.held_delegation@, who,
                (o.balances.held_of(HoldReason::Delegation, who)
                    - o.delegation_release(who, amount)) as u128);
            assert(self.balances.held_table(HoldReason::ValidatorRegistration)
                == o.balances.held_table(HoldReason::ValidatorRegistration));
            assert(self.balances.held_table(HoldReason::Slashing)
                == o.balances.held_table(HoldReason::Slashing));
            if o.sound() {
                assert(k_has(o.validators@, d0.validator));
                lemma_dt_ge_entry(o.delegators@, i, d0.validator);
                assert(k_get0(o.balances.held_delegation@, who) == d0.amount);
                assert(o.delegation_release(who, amount) == amount);
                if amount == d0.amount {
                    assert forall|v: u64| #[trigger] k_has(self.validators@, v) implies
                        k_get0(self.stakes@, v) as int == k_get(self.validators@, v) as int
                        + delegated_total(self.delegators@, v) by {
                        lemma_dt_remove(o.delegators@, i, v);
                    }
                    assert forall|j: int| 0 <= j < self.delegators@.len() implies k_has(
                        self.validators@,
                        (#[trigger] self.delegators@[j]).1.validator,
                    ) by {
                        let j2 = if j < i {
                            j
                        } else {
                            j + 1
                        };
                        assert(self.delegators@[j] == o.delegators@[j2]);
                    }
                } else {
                    let nd = Delegation {
                        validator: d0.validator,
                        amount: (d0.amount - amount) as u128,
                        epoch_started: d0.epoch_started,
                    };
                    assert forall|v: u64| #[trigger] k_has(self.validators@, v) implies
                        k_get0(self.stakes@, v) as int == k_get(self.validators@, v) as int
                        + delegated_total(self.delegators@, v) by {
                        lemma_dt_update(o.delegators@, i, (who, nd), v);
                    }
                    assert forall|j: int| 0 <= j < self.delegators@.len() implies k_has(
                        self.validators@,
                        (#[trigger] self.delegators@[j]).1.validator,
                    ) by {
                        if j != i {
                            assert(self.delegators@[j] == o.delegators@[j]);
                        }
                    }
                }
                assert forall|v: u64| #[trigger] k_has(self.stakes@, v) == k_has(
                    self.validators@,
                    v,
                ) by {
                    if v != d0.validator {
                        assert(k_has(o.stakes@, v) == k_has(o.validators@, v));
                    }
                }
                assert forall|d: u64| #[trigger] k_get0(
                    self.balances.held_delegation@,
                    d,
                ) == (if k_has(self.delegators@, d) {
                    k_get(self.delegators@, d).amount
                } else {
                    0u128
                }) by {
                    if d != who {
                        assert(k_get0(o.balances.held_delegation@, d) == (if k_has(
                            o.delegators@,
                            d,
                        ) {
                            k_get(o.delegators@, d).amount
                        } else {
                            0u128
                        }));
                    }
                }
                assert(self.sound());
            }
        }
        Ok(())
    }

    /// Amount a slash of `validator` actually burns: best-effort, no more
    /// than is held under the slashing reason (nothing in this pallet ever
    /// holds under that reason, so the forced burn destroys nothing; the
    /// registration hold stays stranded, a flagged gap of the design).
    pub open spec fn slash_burn(self, validator: u64) -> u128 {
        if self.stake_of(validator) <= self.balances.held_of(HoldReason::Slashing, validator) {
            self.stake_of(validator)
        } else {
            self.balances.held_of(HoldReason::Slashing, validator)
        }
    }

    /// Slash `validator`: fails `ValidatorNotFound` when unregistered,
    /// `InsufficientBalance` when its aggregate stake is already zero. On
    /// success the aggregate stake is zeroed, the balance held under the
    /// slashing reason is burned best-effort and the validator record is
    /// removed. Delegations pointing to the slashed validator are not
    /// cleaned up and their holds stay escrowed: delegators must
    /// undelegate themselves.
    pub fn slash_validator(&mut self, validator: u64) -> (r: DispatchResult)
        requires
            old(self).wf(),
        ensures
            final(self).wf(),
            r == Err::<(), Error>(Error::ValidatorNotFound) <==> !old(self).registered(
                validator,
            ),
            r == Err::<(), Error>(Error::InsufficientBalance) <==> (old(self).registered(
                validator,
            ) && old(self).stake_of(validator) == 0),
            r is Err ==> *final(self) == *old(self),
            r is Ok <==> (old(self).registered(validator) && old(self).stake_of(validator)
                > 0),
            r is Ok ==> final(self).stakes@ == s_set(old(self).stakes@, validator, 0),
            r is Ok ==> final(self).validators@ == s_remove(
                old(self).validators@,
                validator,
            ),
            r is Ok ==> final(self).balances.held_slashing@ == s_set(
                old(self).balances.held_slashing@,
                validator,
                (old(self).balances.held_of(HoldReason::Slashing, validator) - old(
                    self,
                ).slash_burn(validator)) as u128,
            ),
            final(self).balances.free@ == old(self).balances.free@,
            final(self).balances.held_registration@ == old(
                self,
            ).balances.held_registration@,
            final(self).balances.held_delegation@ == old(self).balances.held_delegation@,
            final(self).delegators@ == old(self).delegators@,
            final(self).snapshot@ == old(self).snapshot@,
            final(self).block_count@ == old(self).block_count@,
            final(self).current_validators@ == old(self).current_validators@,
            final(self).block_number == old(self).block_number,
            final(self).config == old(self).config,
            r is Ok ==> final(self).events@ == old(self).events@.push(
                (Event::ValidatorSlashed {
                    validator,
                    amount: old(self).stake_of(validator),
                }),
            ),
            r is Err ==> final(self).events@ == old(self).events@,
            old(self).sound() ==> final(self).stake_conserved()
                && final(self).delegation_holds_match(),
    {
        if !kv_contains(&self.validators, validator) {
            return Err(Error::ValidatorNotFound);
        }
        let stake0 = match kv_get(&self.stakes, validator) {
            Some(s) => s,
            None => 0,
        };
        if stake0 == 0 {
            return Err(Error::InsufficientBalance);
        }
        kv_set(&mut self.stakes, validator, 0);
        let _burned = self.balances.burn_held(HoldReason::Slashing, validator, stake0);
        kv_remove(&mut self.validators, validator);
        self.events.push(Event::ValidatorSlashed { validator, amount: stake0 });
        proof {
            let o = *old(self);
            lemma_s_set(o.stakes@, validator, 0);
            lemma_s_remove(o.validators@, validator);
            lemma_s_set(o.balances.held_slashing@, validator,
                (o.balances.held_of(HoldReason::Slashing, validator)
                    - o.slash_burn(validator)) as u128);
            assert(self.balances.held_table(HoldReason::ValidatorRegistration)
                == o.balances.held_table(HoldReason::ValidatorRegistration));
            assert(self.balances.held_table(HoldReason::Delegation)
                == o.balances.held_table(HoldReason::Delegation));
            if o.sound() {
                assert forall|v: u64| #[trigger] k_has(self.validators@, v) implies
                    k_get0(self.stakes@, v) as int == k_get(self.validators@, v) as int
                    + delegated_total(self.delegators@, v) by {
                    assert(v != validator);
                    assert(k_has(o.validators@, v));
                }
                assert(self.stake_conserved());
                assert(self.delegation_holds_match());
            }
        }
        Ok(())
    }

    /// Amount an unregistration actually releases from `who`'s
    /// registration hold: best-effort, no more than is held.
    pub open spec fn registration_release(self, who: u64) -> u128 {
        if self.self_stake_of(who) <= self.balances.held_of(
            HoldReason::ValidatorRegistration,
            who,
        ) {
            self.self_stake_of(who)
        } else {
            self.balances.held_of(HoldReason::ValidatorRegistration, who)
        }
    }

    /// Unregister validator `who`: fails `ValidatorNotFound` without a
    /// validator record. On success every delegation pointing to `who` is
    /// undone in full, in table order — records deleted, delegation holds
    /// released — then `who`'s own registration hold is released
    /// best-effort and its validator record and stake entry are removed.
    /// `who` is not proactively removed from the elected set; it stays,
    /// stake-less, until the next election overwrites the set.
    #[verifier::loop_isolation(false)]
    pub fn unregister_validator(&mut self, who: u64) -> (r: DispatchResult)
        requires
            old(self).wf(),
        ensures
            final(self).wf(),
            r == Err::<(), Error>(Error::ValidatorNotFound) <==> !old(self).registered(
                who,
            ),
            r is Err ==> *final(self) == *old(self),
            r is Ok <==> old(self).registered(who),
            r is Ok ==> final(self).delegators@ == old(self).delegators@.filter(
                not_points_to(who),
            ),
            r is Ok ==> final(self).validators@ == s_remove(old(self).validators@, who),
            r is Ok ==> !k_has(final(self).stakes@, who),
            r is Ok ==> forall|v: u64|
                v != who ==> k_has(final(self).stakes@, v) == k_has(old(self).stakes@, v),
            r is Ok ==> forall|v: u64|
                v != who && k_has(old(self).stakes@, v) ==> k_get(final(self).stakes@, v)
                    == k_get(old(self).stakes@, v),
            r is Ok ==> final(self).balances.held_registration@ == s_set(
                old(self).balances.held_registration@,
                who,
                (old(self).balances.held_of(HoldReason::ValidatorRegistration, who) - old(
                    self,
                ).registration_release(who)) as u128,
            ),
            final(self).balances.held_slashing@ == old(self).balances.held_slashing@,
            r is Ok ==> final(self).events@ == old(self).events@ + cascade_events(
                cascade_of(old(self).delegators@, who),
                who,
            ).push((Event::ValidatorDeregistered { validator: who })),
            r is Err ==> final(self).events@ == old(self).events@,
            final(self).snapshot@ == old(self).snapshot@,
            final(self).block_count@ == old(self).block_count@,
            final(self).current_validators@ == old(self).current_validators@,
            final(self).block_number == old(self).block_number,
            final(self).config == old(self).config,
            r is Ok && old(self).sound() ==> final(self).balances.free@ == s_set(
                release_frees(
                    old(self).balances.free@,
                    cascade_of(old(self).delegators@, who),
                ),
                who,
                k_get0(
                    release_frees(
                        old(self).balances.free@,
                        cascade_of(old(self).delegators@, who),
                    ),
                    who,
                ).saturating_add(old(self).registration_release(who)),
            ),
            r is Ok && old(self).sound() ==> forall|d: u64|
                #[trigger] k_get0(final(self).balances.held_delegation@, d) == (if k_has(
                    old(self).delegators@,
                    d,
                ) && k_get(old(self).delegators@, d).validator == who {
                    0u128
                } else {
                    k_get0(old(self).balances.held_delegation@, d)
                }),
            old(self).sound() ==> final(self).sound(),
    {
        let self_stake = match kv_get(&self.validators, who) {
            None => {
                return Err(Error::ValidatorNotFound);
            },
            Some(s) => s,
        };
        let ghost o = *old(self);
        let ghost ce = cascade_of(o.delegators@, who);
        proof {
            lemma_filter_kv(o.delegators@, points_to(who));
        }
        // collect the delegators pointing to `who`, in table order
        let mut ds: Vec<u64> = Vec::new();
        let mut i: usize = 0;
        while i < self.delegators.len()
            invariant
                0 <= i <= self.delegators@.len(),
                ds@ == cascade_of(o.delegators@.take(i as int), who).map_values(
                    |e: (u64, Delegation)| e.0,
                ),
            decreases self.delegators@.len() - i,
        {
            let ghost t = o.delegators@.take(i as int);
            let ghost t1 = o.delegators@.take(i as int + 1);
            proof {
                reveal(Seq::filter);
                assert(t1.drop_last() =~= t);
                assert(t1.last() == o.delegators@[i as int]);
            }
            if self.delegators[i].1.validator == who {
                ds.push(self.delegators[i].0);
                proof {
                    assert(cascade_of(t1, who) =~= cascade_of(t, who).push(
                        o.delegators@[i as int],
                    ));
                    assert(ds@ =~= cascade_of(t1, who).map_values(
                        |e: (u64, Delegation)| e.0,
                    ));
                }
            } else {
                proof {
                    assert(cascade_of(t1, who) =~= cascade_of(t, who));
                }
            }
            i += 1;
        }
        proof {
            assert(o.delegators@.take(o.delegators@.len() as int) =~= o.delegators@);
            assert(ds@ == ce.map_values(|e: (u64, Delegation)| e.0));
            assert forall|a: int, b: int| 0 <= a < b < ds@.len() implies ds@[a] != ds@[b] by {
                assert(ce[a].0 != ce[b].0);
            }
            assert forall|x: int| 0 <= x < o.delegators@.len() implies keeps(
                who,
                ds@.take(0),
            )(#[trigger] o.delegators@[x]) by {
                assert(!ds@.take(0).contains(o.delegators@[x].0));
            }
            lemma_filter_all_of(o.delegators@, keeps(who, ds@.take(0)));
            assert(ce.take(0) =~= Seq::<(u64, Delegation)>::empty());
            assert(cascade_events(ce.take(0), who) =~= Seq::<Event>::empty());
            assert(o.events@ + cascade_events(ce.take(0), who) =~= o.events@);
        }
        // undo each delegation in full
        let mut j: usize = 0;
        while j < ds.len()
            invariant
                0 <= j <= ds@.len(),
                ds@.len() == ce.len(),
                self.wf(),
                self.config == o.config,
                self.block_number == o.block_number,
                self.validators@ == o.validators@,
                self.snapshot@ == o.snapshot@,
                self.block_count@ == o.block_count@,
                self.current_validators@ == o.current_validators@,
                self.balances.held_registration@ == o.balances.held_registration@,
                self.balances.held_slashing@ == o.balances.held_slashing@,
                self.delegators@ == o.delegators@.filter(keeps(who, ds@.take(j as int))),
                forall|v: u64|
                    v != who ==> k_has(self.stakes@, v) == k_has(o.stakes@, v),
                forall|v: u64|
                    v != who && k_has(o.stakes@, v) ==> k_get(self.stakes@, v) == k_get(
                        o.stakes@,
                        v,
                    ),
                self.events@ == o.events@ + cascade_events(ce.take(j as int), who),
                o.sound() ==> self.sound(),
                o.sound() ==> self.balances.free@ == release_frees(
                    o.balances.free@,
                    ce.take(j as int),
                ),
                o.sound() ==> forall|d: u64|
                    #[trigger] k_get0(self.balances.held_delegation@, d) == (if ds@.take(
                        j as int,
                    ).contains(d) {
                        0u128
                    } else {
                        k_get0(o.balances.held_delegation@, d)
                    }),
            decreases ds@.len() - j,
        {
            let d = ds[j];
            proof {
                lemma_k_idx_unique(ce, d, j as int);
                lemma_filter_kv(o.delegators@, keeps(who, ds@.take(j as int)));
                assert(k_has(ce, d));
                assert(k_get(ce, d) == ce[j as int].1);
                assert(k_has(o.delegators@, d) && k_get(o.delegators@, d) == ce[
                    j as int].1);
                assert(!ds@.take(j as int).contains(d)) by {
                    if ds@.take(j as int).contains(d) {
                        let a = choose|a: int|
                            0 <= a < j && ds@.take(j as int)[a] == d;
                        assert(ds@[a] == ds@[j as int]);
                    }
                }
                assert(keeps(who, ds@.take(j as int))((d, ce[j as int].1)));
                assert(k_has(self.delegators@, d));
                assert(k_get(self.delegators@, d) == ce[j as int].1);
            }
            let del_opt = kv_get(&self.delegators, d);
            let del = del_opt.unwrap();
            let ghost mid = *self;
            let _undone = self.undelegate(d, del.amount);
            proof {
                assert(_undone is Ok);
                // the delegation table: one more key filtered out
                assert(self.delegators@ == s_remove(mid.delegators@, d));
                let qd = |e: (u64, Delegation)| e.0 != d;
                lemma_remove_is_filter(mid.delegators@, d, qd);
                lemma_filter_kv(o.delegators@, keeps(who, ds@.take(j as int)));
                assert forall|x: int| 0 <= x < o.delegators@.len() implies keeps(
                    who,
                    ds@.take(j as int + 1),
                )(#[trigger] o.delegators@[x]) == (keeps(who, ds@.take(j as int))(
                    o.delegators@[x],
                ) && qd(o.delegators@[x])) by {
                    let e = o.delegators@[x];
                    assert(ds@.take(j as int + 1) =~= ds@.take(j as int).push(d));
                    assert forall|a: u64|
                        ds@.take(j as int + 1).contains(a) == (ds@.take(
                            j as int,
                        ).contains(a) || a == d) by {
                        if ds@.take(j as int).contains(a) {
                            let b = choose|b: int|
                                0 <= b < j && ds@.take(j as int)[b] == a;
                            assert(ds@.take(j as int + 1)[b] == a);
                        }
                        if a == d {
                            assert(ds@.take(j as int + 1)[j as int] == d);
                        }
                        if ds@.take(j as int + 1).contains(a) {
                            let b = choose|b: int|
                                0 <= b <= j && (#[trigger] ds@.take(j as int + 1)[b])
                                    == a;
                            if b < j {
                                assert(ds@.take(j as int)[b] == a);
                            }
                        }
                    }
                    if e.0 == d {
                        lemma_k_idx_unique(o.delegators@, d, x);
                        assert(e.1.validator == who);
                    }
                }
                lemma_filter_filter(
                    o.delegators@,
                    keeps(who, ds@.take(j as int)),
                    qd,
                    keeps(who, ds@.take(j as int + 1)),
                );
                assert(self.delegators@ == o.delegators@.filter(
                    keeps(who, ds@.take(j as int + 1)),
                ));
                // events: one more undelegation recorded
                assert(ce.take(j as int + 1).drop_last() =~= ce.take(j as int));
                assert(cascade_events(ce.take(j as int + 1), who) =~= cascade_events(
                    ce.take(j as int),
                    who,
                ).push(
                    (Event::Undelegated {
                        delegator: d,
                        validator: who,
                        amount: ce[j as int].1.amount,
                    }),
                ));
                assert(self.events@ =~= o.events@ + cascade_events(
                    ce.take(j as int + 1),
                    who,
                ));
                // stake entries of other validators are untouched
                lemma_s_set(
                    mid.stakes@,
                    who,
                    mid.stake_of(who).saturating_sub(ce[j as int].1.amount),
                );
                if o.sound() {
                    // the full amount was released: holds match the records
                    assert(mid.sound());
                    assert(k_get0(mid.balances.held_delegation@, d) == ce[
                        j as int].1.amount);
                    assert(mid.delegation_release(d, ce[j as int].1.amount) == ce[
                        j as int].1.amount);
                    assert(release_frees(o.balances.free@, ce.take(j as int + 1))
                        == s_set(
                        release_frees(o.balances.free@, ce.take(j as int)),
                        d,
                        k_get0(
                            release_frees(o.balances.free@, ce.take(j as int)),
                            d,
                        ).saturating_add(ce[j as int].1.amount),
                    ));
                    lemma_s_set(
                        mid.balances.held_delegation@,
                        d,
                        (k_get0(mid.balances.held_delegation@, d) - ce[
                            j as int].1.amount) as u128,
                    );
                    assert forall|d2: u64| #[trigger] k_get0(
                        self.balances.held_delegation@,
                        d2,
                    ) == (if ds@.take(j as int + 1).contains(d2) {
                        0u128
                    } else {
                        k_get0(o.balances.held_delegation@, d2)
                    }) by {
                        assert(ds@.take(j as int + 1) =~= ds@.take(j as int).push(d));
                        if d2 == d {
                            assert(ds@.take(j as int + 1)[j as int] == d);
                        } else {
                            assert(k_get0(mid.balances.held_delegation@, d2) == (
                            if ds@.take(j as int).contains(d2) {
                                0u128
                            } else {
                                k_get0(o.balances.held_delegation@, d2)
                            }));
                            assert forall|a: u64|
                                a != d implies ds@.take(j as int + 1).contains(a)
                                    == ds@.take(j as int).contains(a) by {
                                if ds@.take(j as int).contains(a) {
                                    let b = choose|b: int|
                                        0 <= b < j && (#[trigger] ds@.take(j as int)[b])
                                            == a;
                                    assert(ds@.take(j as int + 1)[b] == a);
                                }
                                if ds@.take(j as int + 1).contains(a) {
                                    let b = choose|b: int|
                                        0 <= b <= j && (#[trigger] ds@.take(
                                            j as int + 1,
                                        )[b]) == a;
                                    if b < j {
                                        assert(ds@.take(j as int)[b] == a);
                                    } else {
                                        assert(ds@.take(j as int + 1)[b] == d);
                                    }
                                }
                            }
                        }
                    }
                }
            }
            j += 1;
        }
        proof {
            assert(ds@.take(ds@.len() as int) =~= ds@);
            assert(ce.take(ce.len() as int) =~= ce);
            // nothing pointing to `who` is left
            assert forall|x: int| 0 <= x < o.delegators@.len() implies keeps(who, ds@)(
                #[trigger] o.delegators@[x],
            ) == not_points_to(who)(o.delegators@[x]) by {
                let e = o.delegators@[x];
                if e.1.validator == who {
                    lemma_filter_kv(o.delegators@, points_to(who));
                    lemma_k_idx_unique(o.delegators@, e.0, x);
                    assert(k_has(ce, e.0));
                    let b = k_idx(ce, e.0);
                    assert(ds@[b] == e.0);
                    assert(ds@.contains(e.0));
                }
            }
            lemma_filter_congruent(o.delegators@, keeps(who, ds@), not_points_to(who));
        }
        // release the validator's own self-stake and drop its records
        let ghost m1 = *self;
        let _released = self.balances.release(
            HoldReason::ValidatorRegistration,
            who,
            self_stake,
        );
        let ghost m2 = *self;
        proof {
            assert(m2.balances.held_table(HoldReason::Slashing) == m1.balances.held_table(
                HoldReason::Slashing,
            ));
            assert(m2.balances.held_table(HoldReason::Delegation)
                == m1.balances.held_table(HoldReason::Delegation));
        }
        kv_remove(&mut self.validators, who);
        kv_remove(&mut self.stakes, who);
        self.events.push(Event::ValidatorDeregistered { validator: who });
        proof {
            lemma_s_remove(o.validators@, who);
            lemma_s_remove(m2.stakes@, who);
            if o.sound() {
                // the cascade's releases, restated over the initial state
                assert forall|d: u64| #[trigger] k_get0(
                    self.balances.held_delegation@,
                    d,
                ) == (if k_has(o.delegators@, d) && k_get(o.delegators@, d).validator
                    == who {
                    0u128
                } else {
                    k_get0(o.balances.held_delegation@, d)
                }) by {
                    lemma_filter_kv(o.delegators@, points_to(who));
                    if ds@.contains(d) {
                        let b = choose|b: int| 0 <= b < ds@.len() && ds@[b] == d;
                        assert(ce[b].0 == d);
                        lemma_k_idx_unique(ce, d, b);
                        assert(k_has(ce, d));
                        assert(k_has(o.delegators@, d) && k_get(
                            o.delegators@,
                            d,
                        ).validator == who);
                    } else {
                        if k_has(o.delegators@, d) && k_get(o.delegators@, d).validator
                            == who {
                            assert(points_to(who)((d, k_get(o.delegators@, d))));
                            assert(k_has(ce, d));
                            let b = k_idx(ce, d);
                            assert(ds@[b] == d);
                        }
                    }
                }
            }
            if o.sound() {
                assert(self.sound()) by {
                    let m = *self;
                    assert forall|v: u64| #[trigger] k_has(m.validators@, v) implies
                        k_get0(m.stakes@, v) as int == k_get(m.validators@, v) as int
                        + delegated_total(m.delegators@, v) by {
                        assert(v != who);
                        assert(k_has(o.validators@, v));
                    }
                    assert forall|x: int| 0 <= x < m.delegators@.len() implies k_has(
                        m.validators@,
                        (#[trigger] m.delegators@[x]).1.validator,
                    ) by {
                        lemma_filter_kv(o.delegators@, not_points_to(who));
                    }
                    assert forall|v: u64| #[trigger] k_has(m.stakes@, v) == k_has(
                        m.validators@,
                        v,
                    ) by {
                        if v != who {
                            assert(k_has(o.stakes@, v) == k_has(o.validators@, v));
                        }
                    }
                }
            }
        }
        Ok(())
    }

    /// Seed the bootstrap state: set the initial balances in order, record
    /// each initial validator with the genesis self-stake, and install the
    /// initial list as the elected set. Runs exactly once, on a fresh
    /// pallet, before any block processing.
    #[verifier::loop_isolation(false)]
    pub fn initialize_validators(
        &mut self,
        initial_validators: Vec<u64>,
        initial_balances: Vec<(u64, u128)>,
    )
        requires
            old(self).wf(),
            old(self).fresh(),
            initial_validators@.no_duplicates(),
            initial_validators@.len() <= old(self).config.max_validators,
        ensures
            final(self).wf(),
            final(self).sound(),
            final(self).balances.free@ == genesis_frees(
                old(self).balances.free@,
                initial_balances@,
            ),
            final(self).validators@ == initial_validators@.map_values(
                |v: u64| (v, GENESIS_SELF_STAKE),
            ),
            final(self).stakes@ == initial_validators@.map_values(
                |v: u64| (v, GENESIS_SELF_STAKE),
            ),
            final(self).current_validators@ == initial_validators@,
            final(self).delegators@ == old(self).delegators@,
            final(self).snapshot@ == old(self).snapshot@,
            final(self).block_count@ == old(self).block_count@,
            final(self).events@ == old(self).events@,
            final(self).balances.held_registration@ == old(
                self,
            ).balances.held_registration@,
            final(self).balances.held_delegation@ == old(self).balances.held_delegation@,
            final(self).balances.held_slashing@ == old(self).balances.held_slashing@,
            final(self).block_number == old(self).block_number,
            final(self).config == old(self).config,
    {
        let ghost o = *old(self);
        let mut i: usize = 0;
        while i < initial_balances.len()
            invariant
                0 <= i <= initial_balances@.len(),
                self.balances.wf(),
                self.balances.free@ == genesis_frees(
                    o.balances.free@,
                    initial_balances@.take(i as int),
                ),
                self.balances.held_registration@ == o.balances.held_registration@,
                self.balances.held_delegation@ == o.balances.held_delegation@,
                self.balances.held_slashing@ == o.balances.held_slashing@,
                self.validators@ == o.validators@,
                self.delegators@ == o.delegators@,
                self.stakes@ == o.stakes@,
                self.current_validators@ == o.current_validators@,
                self.snapshot@ == o.snapshot@,
                self.block_count@ == o.block_count@,
                self.events@ == o.events@,
                self.block_number == o.block_number,
                self.config == o.config,
            decreases initial_balances@.len() - i,
        {
            let (account, balance) = initial_balances[i];
            self.balances.set_balance(account, balance);
            proof {
                assert(initial_balances@.take(i as int + 1).drop_last()
                    =~= initial_balances@.take(i as int));
                assert(initial_balances@.take(i as int + 1).last() == initial_balances@[
                    i as int]);
            }
            i += 1;
        }
        proof {
            assert(initial_balances@.take(initial_balances@.len() as int)
                =~= initial_balances@);
        }
        let mut j: usize = 0;
        while j < initial_validators.len()
            invariant
                0 <= j <= initial_validators@.len(),
                self.balances.wf(),
                self.balances.free@ == genesis_frees(o.balances.free@, initial_balances@),
                self.balances.held_registration@ == o.balances.held_registration@,
                self.balances.held_delegation@ == o.balances.held_delegation@,
                self.balances.held_slashing@ == o.balances.held_slashing@,
                self.validators@ == initial_validators@.take(j as int).map_values(
                    |v: u64| (v, GENESIS_SELF_STAKE),
                ),
                self.stakes@ == initial_validators@.take(j as int).map_values(
                    |v: u64| (v, GENESIS_SELF_STAKE),
                ),
                k_distinct(self.validators@),
                k_distinct(self.stakes@),
                self.delegators@ == o.delegators@,
                self.current_validators@ == o.current_validators@,
                self.snapshot@ == o.snapshot@,
                self.block_count@ == o.block_count@,
                self.events@ == o.events@,
                self.block_number == o.block_number,
                self.config == o.config,
            decreases initial_validators@.len() - j,
        {
            let v = initial_validators[j];
            proof {
                assert(!k_has(self.validators@, v)) by {
                    if k_has(self.validators@, v) {
                        let x = k_idx(self.validators@, v);
                        assert(initial_validators@.take(j as int)[x] == initial_validators@[
                            x]);
                        assert(initial_validators@[x] == initial_validators@[j as int]);
                    }
                }
                assert(!k_has(self.stakes@, v)) by {
                    if k_has(self.stakes@, v) {
                        let x = k_idx(self.stakes@, v);
                        assert(initial_validators@.take(j as int)[x] == initial_validators@[
                            x]);
                        assert(initial_validators@[x] == initial_validators@[j as int]);
                    }
                }
            }
            kv_set(&mut self.stakes, v, GENESIS_SELF_STAKE);
            kv_set(&mut self.validators, v, GENESIS_SELF_STAKE);
            proof {
                assert(self.validators@ =~= initial_validators@.take(j as int + 1)
                    .map_values(|v2: u64| (v2, GENESIS_SELF_STAKE)));
                assert(self.stakes@ =~= initial_validators@.take(j as int + 1).map_values(
                    |v2: u64| (v2, GENESIS_SELF_STAKE),
                ));
            }
            j += 1;
        }
        self.current_validators = initial_validators;
        proof {
            assert(self.current_validators@.take(self.current_validators@.len() as int)
                =~= self.current_validators@);
            assert(self.validators@ =~= self.current_validators@.map_values(
                |v2: u64| (v2, GENESIS_SELF_STAKE),
            ));
            assert(self.stakes@ == self.validators@);
            assert(self.sound()) by {
                assert forall|v: u64| #[trigger] k_has(self.validators@, v) implies
                    k_get0(self.stakes@, v) as int == k_get(self.validators@, v) as int
                    + delegated_total(self.delegators@, v) by {
                    assert(delegated_total(self.delegators@, v) == 0);
                    assert(k_get0(self.stakes@, v) == k_get(self.validators@, v));
                }
            }
        }
    }

    /// Block completion: tally one authored block for the account the
    /// author oracle resolved, if any. No effect when no author is
    /// resolvable; the block must not fail.
    pub fn on_finalize(&mut self, author: Option<u64>)
        requires
            old(self).wf(),
        ensures
            final(self).wf(),
            author matches Some(a) ==> final(self).block_count@ == s_set(
                old(self).block_count@,
                a,
                k_cnt0(old(self).block_count@, a).saturating_add(1),
            ),
            author is None ==> *final(self) == *old(self),
            final(self).balances == old(self).balances,
            final(self).validators@ == old(self).validators@,
            final(self).delegators@ == old(self).delegators@,
            final(self).stakes@ == old(self).stakes@,
            final(self).current_validators@ == old(self).current_validators@,
            final(self).snapshot@ == old(self).snapshot@,
            final(self).events@ == old(self).events@,
            final(self).block_number == old(self).block_number,
            final(self).config == old(self).config,
            old(self).sound() ==> final(self).sound(),
    {
        match author {
            Some(a) => {
                let count = match kv_get(&self.block_count, a) {
                    Some(c) => c,
                    None => 0,
                };
                kv_set(&mut self.block_count, a, count.saturating_add(1));
            },
            None => {},
        }
    }

    /// Privileged entry point for slashing; the caller is the dispatch
    /// layer, which has already checked the privileged origin.
    pub fn test_slash_validator(&mut self, validator: u64) -> (r: DispatchResult)
        requires
            old(self).wf(),
        ensures
            final(self).wf(),
            r == Err::<(), Error>(Error::ValidatorNotFound) <==> !old(self).registered(
                validator,
            ),
            r == Err::<(), Error>(Error::InsufficientBalance) <==> (old(self).registered(
                validator,
            ) && old(self).stake_of(validator) == 0),
            r is Err ==> *final(self) == *old(self),
            r is Ok <==> (old(self).registered(validator) && old(self).stake_of(validator)
                > 0),
            r is Ok ==> final(self).stakes@ == s_set(old(self).stakes@, validator, 0),
            r is Ok ==> final(self).validators@ == s_remove(
                old(self).validators@,
                validator,
            ),
            r is Ok ==> final(self).events@ == old(self).events@.push(
                (Event::ValidatorSlashed {
                    validator,
                    amount: old(self).stake_of(validator),
                }),
            ),
            final(self).delegators@ == old(self).delegators@,
            final(self).balances.free@ == old(self).balances.free@,
            old(self).sound() ==> final(self).stake_conserved()
                && final(self).delegation_holds_match(),
    {
        self.slash_validator(validator)
    }
}

impl Pallet {
    /// The self-stake of `v`'s validator record, when one exists.
    pub fn validator_self_stake(&self, v: u64) -> (r: Option<u128>)
        requires
            self.wf(),
        ensures
            r is Some <==> self.registered(v),
            r is Some ==> r == Some(self.self_stake_of(v)),
    {
        kv_get(&self.validators, v)
    }

    /// Whether `v` is a registered validator.
    pub fn is_registered(&self, v: u64) -> (r: bool)
        requires
            self.wf(),
        ensures
            r == self.registered(v),
    {
        kv_contains(&self.validators, v)
    }

    /// The aggregate stake of `v`; zero when absent.
    pub fn validator_stake(&self, v: u64) -> (r: u128)
        requires
            self.wf(),
        ensures
            r == self.stake_of(v),
    {
        match kv_get(&self.stakes, v) {
            Some(s) => s,
            None => 0,
        }
    }

    /// Whether `v` holds a stake entry.
    pub fn has_stake_entry(&self, v: u64) -> (r: bool)
        requires
            self.wf(),
        ensures
            r == k_has(self.stakes@, v),
    {
        kv_contains(&self.stakes, v)
    }

    /// The delegation record of `who`, when one exists.
    pub fn delegation(&self, who: u64) -> (r: Option<Delegation>)
        requires
            self.wf(),
        ensures
            r is Some <==> self.has_delegation(who),
            r is Some ==> r == Some(self.delegation_of(who)),
    {
        kv_get(&self.delegators, who)
    }

    /// The snapshot record of `who`, when one exists.
    pub fn snapshot_delegation(&self, who: u64) -> (r: Option<Delegation>)
        requires
            self.wf(),
        ensures
            r is Some <==> k_has(self.snapshot@, who),
            r is Some ==> r == Some(k_get(self.snapshot@, who)),
    {
        kv_get(&self.snapshot, who)
    }

    /// Blocks `v` authored in the current epoch.
    pub fn authored_blocks(&self, v: u64) -> (r: u32)
        requires
            self.wf(),
        ensures
            r == k_cnt0(self.block_count@, v),
    {
        match kv_get(&self.block_count, v) {
            Some(c) => c,
            None => 0,
        }
    }

    /// The elected set, in rank order.
    pub fn elected(&self) -> (r: &Vec<u64>)
        ensures
            r@ == self.current_validators@,
    {
        &self.current_validators
    }

    /// The most recent notification, if any was recorded.
    pub fn last_event(&self) -> (r: Option<Event>)
        ensures
            self.events@.len() == 0 ==> r is None,
            self.events@.len() > 0 ==> r == Some(self.events@.last()),
    {
        if self.events.len() == 0 {
            None
        } else {
            Some(self.events[self.events.len() - 1])
        }
    }

    /// How many notifications were recorded.
    pub fn event_count(&self) -> (r: usize)
        ensures
            r == self.events@.len(),
    {
        self.events.len()
    }
}

impl GenesisConfig {
    /// Apply the bootstrap data to a fresh pallet: seed the balance
    /// ledger, create the validator records and stakes, and set the
    /// initial elected set.
    #[verifier::loop_isolation(false)]
    pub fn build(&self, pallet: &mut Pallet)
        requires
            old(pallet).wf(),
            old(pallet).fresh(),
            self.initial_validators@.no_duplicates(),
            self.initial_validators@.len() <= old(pallet).config.max_validators,
        ensures
            final(pallet).wf(),
            final(pallet).sound(),
            final(pallet).balances.free@ == genesis_frees(
                old(pallet).balances.free@,
                self.initial_balances@,
            ),
            final(pallet).validators@ == self.initial_validators@.map_values(
                |v: u64| (v, GENESIS_SELF_STAKE),
            ),
            final(pallet).stakes@ == self.initial_validators@.map_values(
                |v: u64| (v, GENESIS_SELF_STAKE),
            ),
            final(pallet).current_validators@ == self.initial_validators@,
            final(pallet).delegators@ == old(pallet).delegators@,
            final(pallet).events@ == old(pallet).events@,
            final(pallet).block_number == old(pallet).block_number,
            final(pallet).config == old(pallet).config,
    {
        let mut vs: Vec<u64> = Vec::new();
        let mut i: usize = 0;
        while i < self.initial_validators.len()
            invariant
                0 <= i <= self.initial_validators@.len(),
                vs@ == self.initial_validators@.take(i as int),
            decreases self.initial_validators@.len() - i,
        {
            vs.push(self.initial_validators[i]);
            proof {
                assert(vs@ =~= self.initial_validators@.take(i as int + 1));
            }
            i += 1;
        }
        let mut bs: Vec<(u64, u128)> = Vec::new();
        let mut j: usize = 0;
        while j < self.initial_balances.len()
            invariant
                0 <= j <= self.initial_balances@.len(),
                bs@ == self.initial_balances@.take(j as int),
            decreases self.initial_balances@.len() - j,
        {
            bs.push(self.initial_balances[j]);
            proof {
                assert(bs@ =~= self.initial_balances@.take(j as int + 1));
            }
            j += 1;
        }
        proof {
            assert(vs@ =~= self.initial_validators@);
            assert(bs@ =~= self.initial_balances@);
        }
        pallet.initialize_validators(vs, bs);
    }
}

} // verus!
