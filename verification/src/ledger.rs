//! The escrow sub-ledger: free balances plus held balances keyed by
//! account and hold reason.
//!
//! The ledger distinguishes free (spendable) balance from balance held
//! under a named reason. A hold moves funds from free to held, a release
//! moves them back best-effort (never more than is held), minting adds to
//! free balance only when the result fits, and a burn destroys held funds
//! best-effort. Additions saturate rather than aborting, the availability
//! policy of the whole pallet.

use vstd::prelude::*;

use crate::kv::k_distinct;
use crate::kv::k_get0;
use crate::kv::kv_get;
use crate::kv::kv_set;
use crate::kv::s_set;

verus! {

/// The named purposes funds can be held under.
#[derive(Clone, Copy, Debug, PartialEq, Eq, Structural)]
pub enum HoldReason {
    ValidatorRegistration,
    Delegation,
    Slashing,
}

/// Free and held balances of every account.
pub struct BalanceLedger {
    /// Spendable balance per account.
    pub free: Vec<(u64, u128)>,
    /// Balance held under the validator-registration reason.
    pub held_registration: Vec<(u64, u128)>,
    /// Balance held under the delegation reason.
    pub held_delegation: Vec<(u64, u128)>,
    /// Balance held under the slashing reason.
    pub held_slashing: Vec<(u64, u128)>,
}

impl BalanceLedger {
    /// Each table keys its accounts at most once.
    pub open spec fn wf(self) -> bool {
        &&& k_distinct(self.free@)
        &&& k_distinct(self.held_registration@)
        &&& k_distinct(self.held_delegation@)
        &&& k_distinct(self.held_slashing@)
    }

    /// The table holding balances for `reason`.
    pub open spec fn held_table(self, reason: HoldReason) -> Seq<(u64, u128)> {
        match reason {
            HoldReason::ValidatorRegistration => self.held_registration@,
            HoldReason::Delegation => self.held_delegation@,
            HoldReason::Slashing => self.held_slashing@,
        }
    }

    /// Free balance of `who` (zero when unknown).
    pub open spec fn free_of(self, who: u64) -> u128 {
        k_get0(self.free@, who)
    }

    /// Balance of `who` held under `reason` (zero when unknown).
    pub open spec fn held_of(self, reason: HoldReason, who: u64) -> u128 {
        k_get0(self.held_table(reason), who)
    }

    /// An empty ledger.
    pub fn new() -> (r: BalanceLedger)
        ensures
            r.wf(),
            r.free@ == Seq::<(u64, u128)>::empty(),
            r.held_registration@ == Seq::<(u64, u128)>::empty(),
            r.held_delegation@ == Seq::<(u64, u128)>::empty(),
            r.held_slashing@ == Seq::<(u64, u128)>::empty(),
    {
        BalanceLedger {
            free: Vec::new(),
            held_registration: Vec::new(),
            held_delegation: Vec::new(),
            held_slashing: Vec::new(),
        }
    }

    /// The free balance of `who`.
    pub fn balance(&self, who: u64) -> (r: u128)
        requires
            self.wf(),
        ensures
            r == self.free_of(who),
    {
        match kv_get(&self.free, who) {
            Some(b) => b,
            None => 0,
        }
    }

    /// The balance of `who` held under `reason`.
    pub fn held_balance(&self, reason: HoldReason, who: u64) -> (r: u128)
        requires
            self.wf(),
        ensures
            r == self.held_of(reason, who),
    {
        let t = match reason {
            HoldReason::ValidatorRegistration => &self.held_registration,
            HoldReason::Delegation => &self.held_delegation,
            HoldReason::Slashing => &self.held_slashing,
        };
        match kv_get(t, who) {
            Some(b) => b,
            None => 0,
        }
    }

    /// Set the free balance of `who` outright (bootstrap and test funding).
    pub fn set_balance(&mut self, who: u64, amount: u128)
        requires
            old(self).wf(),
        ensures
            final(self).wf(),
            final(self).free@ == s_set(old(self).free@, who, amount),
            final(self).held_registration@ == old(self).held_registration@,
            final(self).held_delegation@ == old(self).held_delegation@,
            final(self).held_slashing@ == old(self).held_slashing@,
    {
        kv_set(&mut self.free, who, amount);
    }

    /// Escrow `amount` of `who`'s free balance under `reason`. Succeeds
    /// exactly when the free balance covers the amount; on failure nothing
    /// changes.
    pub fn hold(&mut self, reason: HoldReason, who: u64, amount: u128) -> (ok: bool)
        requires
            old(self).wf(),
        ensures
            final(self).wf(),
            ok == (old(self).free_of(who) >= amount),
            !ok ==> *final(self) == *old(self),
            ok ==> final(self).free@ == s_set(
                old(self).free@,
                who,
                (old(self).free_of(who) - amount) as u128,
            ),
            ok ==> final(self).held_table(reason) == s_set(
                old(self).held_table(reason),
                who,
                old(self).held_of(reason, who).saturating_add(amount),
            ),
            forall|r2: HoldReason|
                r2 != reason ==> final(self).held_table(r2) == old(self).held_table(r2),
    {
        let free0 = self.balance(who);
        if free0 < amount {
            return false;
        }
        let held0 = self.held_balance(reason, who);
        kv_set(&mut self.free, who, free0 - amount);
        match reason {
            HoldReason::ValidatorRegistration => {
                kv_set(&mut self.held_registration, who, held0.saturating_add(amount));
            },
            HoldReason::Delegation => {
                kv_set(&mut self.held_delegation, who, held0.saturating_add(amount));
            },
            HoldReason::Slashing => {
                kv_set(&mut self.held_slashing, who, held0.saturating_add(amount));
            },
        }
        true
    }

    /// Release up to `amount` of `who`'s balance held under `reason` back
    /// to the free balance, best-effort: no more than is actually held.
    /// Returns the amount released.
    pub fn release(&mut self, reason: HoldReason, who: u64, amount: u128) -> (released:
        u128)
        requires
            old(self).wf(),
        ensures
            final(self).wf(),
            released == (if amount <= old(self).held_of(reason, who) {
                amount
            } else {
                old(self).held_of(reason, who)
            }),
            final(self).held_table(reason) == s_set(
                old(self).held_table(reason),
                who,
                (old(self).held_of(reason, who) - released) as u128,
            ),
            final(self).free@ == s_set(
                old(self).free@,
                who,
                old(self).free_of(who).saturating_add(released),
            ),
            forall|r2: HoldReason|
                r2 != reason ==> final(self).held_table(r2) == old(self).held_table(r2),
    {
        let held0 = self.held_balance(reason, who);
        let released = if amount <= held0 {
            amount
        } else {
            held0
        };
        match reason {
            HoldReason::ValidatorRegistration => {
                kv_set(&mut self.held_registration, who, held0 - released);
            },
            HoldReason::Delegation => {
                kv_set(&mut self.held_delegation, who, held0 - released);
            },
            HoldReason::Slashing => {
                kv_set(&mut self.held_slashing, who, held0 - released);
            },
        }
        let free0 = self.balance(who);
        kv_set(&mut self.free, who, free0.saturating_add(released));
        released
    }

    /// Mint `amount` into `who`'s free balance. Fails, changing nothing,
    /// when the new balance would not fit.
    pub fn mint_into(&mut self, who: u64, amount: u128) -> (ok: bool)
        requires
            old(self).wf(),
        ensures
            final(self).wf(),
            ok == (old(self).free_of(who) as int + amount as int <= u128::MAX as int),
            !ok ==> *final(self) == *old(self),
            ok ==> final(self).free@ == s_set(
                old(self).free@,
                who,
                (old(self).free_of(who) + amount) as u128,
            ),
            final(self).held_registration@ == old(self).held_registration@,
            final(self).held_delegation@ == old(self).held_delegation@,
            final(self).held_slashing@ == old(self).held_slashing@,
    {
        let free0 = self.balance(who);
        if amount > u128::MAX - free0 {
            return false;
        }
        kv_set(&mut self.free, who, free0 + amount);
        true
    }

    /// Destroy up to `amount` of `who`'s balance held under `reason`,
    /// best-effort: no more than is actually held. Returns the amount
    /// burned.
    pub fn burn_held(&mut self, reason: HoldReason, who: u64, amount: u128) -> (burned:
        u128)
        requires
            old(self).wf(),
        ensures
            final(self).wf(),
            burned == (if amount <= old(self).held_of(reason, who) {
                amount
            } else {
                old(self).held_of(reason, who)
            }),
            final(self).held_table(reason) == s_set(
                old(self).held_table(reason),
                who,
                (old(self).held_of(reason, who) - burned) as u128,
            ),
            final(self).free@ == old(self).free@,
            forall|r2: HoldReason|
                r2 != reason ==> final(self).held_table(r2) == old(self).held_table(r2),
    {
        let held0 = self.held_balance(reason, who);
        let burned = if amount <= held0 {
            amount
        } else {
            held0
        };
        match reason {
            HoldReason::ValidatorRegistration => {
                kv_set(&mut self.held_registration, who, held0 - burned);
            },
            HoldReason::Delegation => {
                kv_set(&mut self.held_delegation, who, held0 - burned);
            },
            HoldReason::Slashing => {
                kv_set(&mut self.held_slashing, who, held0 - burned);
            },
        }
        burned
    }
}

} // verus!
