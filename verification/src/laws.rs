//! The pallet's cross-cutting guarantees, stated and proved once: epoch
//! eligibility of delegations and bounds on minted rewards.
//!
//! Stake conservation, the single-delegation invariant, cascading
//! unregistration and election correctness are stated directly on the
//! operations' contracts in the other modules; the laws here relate the
//! reward distribution to the delegation life cycle.

use vstd::arithmetic::div_mod::lemma_div_by_self;
use vstd::arithmetic::div_mod::lemma_div_is_ordered;
use vstd::arithmetic::div_mod::lemma_fundamental_div_mod;
use vstd::arithmetic::div_mod::lemma_multiply_divide_le;
use vstd::arithmetic::mul::lemma_mul_inequality;
use vstd::arithmetic::mul::lemma_mul_is_commutative;
use vstd::arithmetic::mul::lemma_mul_is_distributive_add;
use vstd::arithmetic::mul::lemma_mul_nonnegative;
use vstd::prelude::*;

use crate::epoch::delegator_pool;
use crate::epoch::pay_snap;
use crate::epoch::s_mint;
use crate::epoch::snap_eligible;
use crate::epoch::snap_reward;
use crate::epoch::validator_cut;
use crate::kv::k_distinct;
use crate::kv::k_get0;
use crate::kv::lemma_s_set;
use crate::kv::s_set;
use crate::pallet::delegated_total;
use crate::pallet::Delegation;
use crate::pallet::Pallet;

verus! {

/// Minting keeps the keys distinct, changes no other account, and adds the
/// amount exactly when it fits.
pub proof fn lemma_s_mint(free: Seq<(u64, u128)>, who: u64, x: u128)
    requires
        k_distinct(free),
    ensures
        k_distinct(s_mint(free, who, x)),
        forall|d: u64| d != who ==> k_get0(s_mint(free, who, x), d) == k_get0(free, d),
        k_get0(free, who) as int + x as int <= u128::MAX as int ==> k_get0(
            s_mint(free, who, x),
            who,
        ) == k_get0(free, who) + x,
        k_get0(free, who) as int + x as int > u128::MAX as int ==> s_mint(free, who, x)
            == free,
{
    if k_get0(free, who) as int + x as int <= u128::MAX as int {
        lemma_s_set(free, who, (k_get0(free, who) + x) as u128);
        assert forall|d: u64| d != who implies k_get0(s_mint(free, who, x), d) == k_get0(
            free,
            d,
        ) by {
            assert(k_get0(s_set(free, who, (k_get0(free, who) + x) as u128), d) == k_get0(
                free,
                d,
            ));
        }
    }
}

/// Paying out a snapshot keeps the balance keys distinct.
pub proof fn lemma_pay_snap_wf(
    free: Seq<(u64, u128)>,
    snap: Seq<(u64, Delegation)>,
    v: u64,
    pool: u128,
    stake: u128,
    epoch: u64,
)
    requires
        k_distinct(free),
    ensures
        k_distinct(pay_snap(free, snap, v, pool, stake, epoch)),
    decreases snap.len(),
{
    if snap.len() > 0 {
        lemma_pay_snap_wf(free, snap.drop_last(), v, pool, stake, epoch);
        let prev = pay_snap(free, snap.drop_last(), v, pool, stake, epoch);
        let e = snap.last();
        if snap_eligible(e, v, epoch) {
            lemma_s_mint(prev, e.0, snap_reward(e.1, pool, stake));
        }
    }
}

/// An account with no snapshot entry of its own is paid nothing by the
/// delegator payout.
pub proof fn law_absent_delegator_unpaid(
    free: Seq<(u64, u128)>,
    snap: Seq<(u64, Delegation)>,
    v: u64,
    pool: u128,
    stake: u128,
    epoch: u64,
    d: u64,
)
    requires
        k_distinct(free),
        forall|i: int| 0 <= i < snap.len() ==> (#[trigger] snap[i]).0 != d,
    ensures
        k_get0(pay_snap(free, snap, v, pool, stake, epoch), d) == k_get0(free, d),
    decreases snap.len(),
{
    if snap.len() > 0 {
        law_absent_delegator_unpaid(free, snap.drop_last(), v, pool, stake, epoch, d);
        lemma_pay_snap_wf(free, snap.drop_last(), v, pool, stake, epoch);
        let prev = pay_snap(free, snap.drop_last(), v, pool, stake, epoch);
        let e = snap.last();
        if snap_eligible(e, v, epoch) {
            lemma_s_mint(prev, e.0, snap_reward(e.1, pool, stake));
        }
    }
}

/// Epoch eligibility, negative half: a delegator whose snapshot entries
/// all started in or after the epoch now ending — in particular one who
/// delegated to an already-elected validator during that epoch — is paid
/// nothing at this boundary.
pub proof fn law_ineligible_delegator_unpaid(
    free: Seq<(u64, u128)>,
    snap: Seq<(u64, Delegation)>,
    v: u64,
    pool: u128,
    stake: u128,
    epoch: u64,
    d: u64,
)
    requires
        k_distinct(free),
        forall|i: int|
            0 <= i < snap.len() && (#[trigger] snap[i]).0 == d ==> !snap_eligible(
                snap[i],
                v,
                epoch,
            ),
    ensures
        k_get0(pay_snap(free, snap, v, pool, stake, epoch), d) == k_get0(free, d),
    decreases snap.len(),
{
    if snap.len() > 0 {
        law_ineligible_delegator_unpaid(
            free,
            snap.drop_last(),
            v,
            pool,
            stake,
            epoch,
            d,
        );
        lemma_pay_snap_wf(free, snap.drop_last(), v, pool, stake, epoch);
        let prev = pay_snap(free, snap.drop_last(), v, pool, stake, epoch);
        let e = snap.last();
        if snap_eligible(e, v, epoch) {
            lemma_s_mint(prev, e.0, snap_reward(e.1, pool, stake));
            assert(e.0 != d);
        }
    }
}

/// Epoch eligibility, positive half: a delegator whose snapshot entry is
/// eligible at this boundary is paid its exact share (when the new balance
/// fits).
pub proof fn law_eligible_delegator_paid(
    free: Seq<(u64, u128)>,
    snap: Seq<(u64, Delegation)>,
    v: u64,
    pool: u128,
    stake: u128,
    epoch: u64,
    i: int,
)
    requires
        k_distinct(free),
        k_distinct(snap),
        0 <= i < snap.len(),
        snap_eligible(snap[i], v, epoch),
        k_get0(free, snap[i].0) as int + snap_reward(snap[i].1, pool, stake) as int
            <= u128::MAX as int,
    ensures
        k_get0(pay_snap(free, snap, v, pool, stake, epoch), snap[i].0) == k_get0(
            free,
            snap[i].0,
        ) + snap_reward(snap[i].1, pool, stake),
    decreases snap.len(),
{
    let d = snap[i].0;
    let s1 = snap.drop_last();
    let prev = pay_snap(free, s1, v, pool, stake, epoch);
    lemma_pay_snap_wf(free, s1, v, pool, stake, epoch);
    if i == snap.len() - 1 {
        assert forall|j: int| 0 <= j < s1.len() implies (#[trigger] s1[j]).0 != d by {
            assert(s1[j] == snap[j]);
        }
        law_absent_delegator_unpaid(free, s1, v, pool, stake, epoch, d);
        lemma_s_mint(prev, d, snap_reward(snap[i].1, pool, stake));
    } else {
        assert(k_distinct(s1));
        assert(s1[i] == snap[i]);
        law_eligible_delegator_paid(free, s1, v, pool, stake, epoch, i);
        let e = snap.last();
        if snap_eligible(e, v, epoch) {
            lemma_s_mint(prev, e.0, snap_reward(e.1, pool, stake));
            assert(e.0 != d);
        }
    }
}

/// A positive share: an eligible delegation earns at least one unit
/// whenever the pool times its amount reaches the validator's stake (with
/// truncating division, a small enough share rounds down to zero).
pub proof fn law_reward_positive(del: Delegation, pool: u128, stake: u128)
    requires
        stake > 0,
        pool as int * del.amount as int >= stake as int,
    ensures
        snap_reward(del, pool, stake) >= 1,
{
    let p = pool as int * del.amount as int;
    lemma_mul_nonnegative(pool as int, del.amount as int);
    lemma_mul_is_commutative(pool as int, del.amount as int);
    let sm = crate::epoch::sat_mul(pool, del.amount);
    assert(sm as int >= stake as int);
    assert(snap_reward(del, pool, stake) == sm / stake);
    lemma_div_is_ordered(stake as int, sm as int, stake as int);
    lemma_div_by_self(stake as int);
}

/// Reward bound, single delegator: a delegation of no more than the
/// validator's aggregate stake is minted at most the whole delegator pool.
pub proof fn law_delegator_reward_le_pool(del: Delegation, pool: u128, stake: u128)
    requires
        del.amount <= stake,
    ensures
        snap_reward(del, pool, stake) <= pool,
{
    if stake > 0 {
        lemma_mul_inequality(del.amount as int, stake as int, pool as int);
        lemma_mul_is_commutative(del.amount as int, pool as int);
        assert(pool as int * del.amount as int <= stake as int * pool as int);
        let sm = crate::epoch::sat_mul(pool, del.amount);
        assert(sm as int <= stake as int * pool as int);
        lemma_multiply_divide_le(sm as int, stake as int, pool as int);
    }
}

/// Sum of the delegator rewards minted for validator `v` at one boundary.
pub open spec fn rewards_total(
    snap: Seq<(u64, Delegation)>,
    v: u64,
    pool: u128,
    stake: u128,
    epoch: u64,
) -> int
    decreases snap.len(),
{
    if snap.len() == 0 {
        0
    } else {
        rewards_total(snap.drop_last(), v, pool, stake, epoch) + (if snap_eligible(
            snap.last(),
            v,
            epoch,
        ) {
            snap_reward(snap.last().1, pool, stake) as int
        } else {
            0
        })
    }
}

/// Sum of the amounts of the snapshot entries eligible for validator `v`.
pub open spec fn eligible_total(snap: Seq<(u64, Delegation)>, v: u64, epoch: u64) -> int
    decreases snap.len(),
{
    if snap.len() == 0 {
        0
    } else {
        eligible_total(snap.drop_last(), v, epoch) + (if snap_eligible(
            snap.last(),
            v,
            epoch,
        ) {
            snap.last().1.amount as int
        } else {
            0
        })
    }
}

/// The eligible amounts are part of the full delegated total.
pub proof fn lemma_eligible_le_delegated(snap: Seq<(u64, Delegation)>, v: u64, epoch: u64)
    ensures
        0 <= eligible_total(snap, v, epoch),
        eligible_total(snap, v, epoch) <= delegated_total(snap, v),
    decreases snap.len(),
{
    if snap.len() > 0 {
        lemma_eligible_le_delegated(snap.drop_last(), v, epoch);
    }
}

/// Scaled bound used for the sum: the rewards times the stake never exceed
/// the pool times the eligible amounts.
proof fn lemma_rewards_total_scaled(
    snap: Seq<(u64, Delegation)>,
    v: u64,
    pool: u128,
    stake: u128,
    epoch: u64,
)
    requires
        stake > 0,
        eligible_total(snap, v, epoch) <= stake as int,
        pool as int * stake as int <= u128::MAX as int,
    ensures
        rewards_total(snap, v, pool, stake, epoch) >= 0,
        rewards_total(snap, v, pool, stake, epoch) * stake as int <= pool as int
            * eligible_total(snap, v, epoch),
    decreases snap.len(),
{
    lemma_eligible_le_delegated(snap, v, epoch);
    if snap.len() > 0 {
        let s1 = snap.drop_last();
        let e = snap.last();
        lemma_eligible_le_delegated(s1, v, epoch);
        if snap_eligible(e, v, epoch) {
            assert(eligible_total(s1, v, epoch) <= stake as int);
            lemma_rewards_total_scaled(s1, v, pool, stake, epoch);
            let a = e.1.amount as int;
            assert(a <= stake as int);
            lemma_mul_inequality(a, stake as int, pool as int);
            assert(pool as int * a <= stake as int * pool as int);
            lemma_mul_nonnegative(pool as int, a);
            lemma_mul_is_commutative(stake as int, pool as int);
            assert(pool as int * a <= u128::MAX as int);
            assert(crate::epoch::sat_mul(pool, e.1.amount) as int == pool as int * a);
            let r = snap_reward(e.1, pool, stake) as int;
            assert(r == (pool as int * a) / stake as int);
            lemma_fundamental_div_mod(pool as int * a, stake as int);
            assert(pool as int * a == stake as int * ((pool as int * a) / stake as int)
                + (pool as int * a) % stake as int);
            assert(r * stake as int <= pool as int * a);
            let rt1 = rewards_total(s1, v, pool, stake, epoch);
            lemma_mul_is_distributive_add(stake as int, rt1, r);
            assert((rt1 + r) * stake as int == rt1 * stake as int + r * stake as int)
                by {
                lemma_mul_is_distributive_add(stake as int, rt1, r);
                lemma_mul_is_commutative(rt1 + r, stake as int);
                lemma_mul_is_commutative(rt1, stake as int);
                lemma_mul_is_commutative(r, stake as int);
            }
            lemma_mul_is_distributive_add(pool as int, eligible_total(s1, v, epoch), a);
        } else {
            lemma_rewards_total_scaled(s1, v, pool, stake, epoch);
        }
    }
}

/// Reward bound, whole pool: as long as the eligible snapshot amounts for
/// a validator do not exceed its aggregate stake, the delegator rewards
/// minted for it sum to at most the delegator pool — strictly less
/// whenever truncation forfeits a remainder.
pub proof fn law_rewards_sum_le_pool(
    snap: Seq<(u64, Delegation)>,
    v: u64,
    pool: u128,
    stake: u128,
    epoch: u64,
)
    requires
        delegated_total(snap, v) <= stake as int,
        pool as int * stake as int <= u128::MAX as int,
    ensures
        0 <= rewards_total(snap, v, pool, stake, epoch),
        rewards_total(snap, v, pool, stake, epoch) <= pool as int,
{
    lemma_eligible_le_delegated(snap, v, epoch);
    if stake == 0 {
        lemma_rewards_total_zero_stake(snap, v, pool, epoch);
    } else {
        lemma_rewards_total_scaled(snap, v, pool, stake, epoch);
        let rt = rewards_total(snap, v, pool, stake, epoch);
        let et = eligible_total(snap, v, epoch);
        lemma_mul_inequality(et, stake as int, pool as int);
        lemma_mul_is_commutative(pool as int, et);
        lemma_mul_is_commutative(pool as int, stake as int);
        lemma_mul_is_commutative(rt, stake as int);
        lemma_mul_is_commutative(pool as int + 1, stake as int);
        assert(pool as int * et <= et * pool as int);
        assert(rt * stake as int <= stake as int * pool as int);
        if rt > pool as int {
            lemma_mul_inequality(pool as int + 1, rt, stake as int);
            lemma_mul_is_distributive_add(stake as int, pool as int, 1);
            assert(false);
        }
    }
}

/// With a zero stake nothing is divided and nothing is minted.
proof fn lemma_rewards_total_zero_stake(
    snap: Seq<(u64, Delegation)>,
    v: u64,
    pool: u128,
    epoch: u64,
)
    ensures
        rewards_total(snap, v, pool, 0, epoch) == 0,
    decreases snap.len(),
{
    if snap.len() > 0 {
        lemma_rewards_total_zero_stake(snap.drop_last(), v, pool, epoch);
    }
}

/// Reward bound, whole epoch: the validator cut never exceeds the total
/// pool, and the cut plus every delegator reward minted for the validator
/// still fits in the original pool.
pub proof fn law_epoch_payout_le_total(
    snap: Seq<(u64, Delegation)>,
    v: u64,
    total: u128,
    stake: u128,
    epoch: u64,
)
    requires
        delegated_total(snap, v) <= stake as int,
        delegator_pool(total) as int * stake as int <= u128::MAX as int,
    ensures
        validator_cut(total) <= total,
        validator_cut(total) as int + rewards_total(
            snap,
            v,
            delegator_pool(total),
            stake,
            epoch,
        ) <= total as int,
{
    lemma_fundamental_div_mod(total as int * 30, 100);
    assert(validator_cut(total) <= total);
    law_rewards_sum_le_pool(snap, v, delegator_pool(total), stake, epoch);
}

/// Election count: with the stake table keying exactly the registered
/// validators (which holds whenever the bookkeeping is sound), an election
/// yields exactly the number of registered validators, capped at the
/// configured maximum.
pub proof fn law_election_size_counts_registered(p: Pallet)
    requires
        p.wf(),
        p.stakes_registered(),
    ensures
        p.stakes@.len() == p.validators@.len(),
        p.election_size() == (if p.config.max_validators as int <= p.validators@.len() {
            p.config.max_validators as int
        } else {
            p.validators@.len() as int
        }),
{
    crate::kv::lemma_same_keys_same_len(p.stakes@, p.validators@);
}

/// Eligibility across boundaries: a delegation made while its validator is
/// elected starts one epoch later — it earns nothing at the boundary
/// ending the current epoch and is eligible at the one after — while a
/// delegation made while the validator is not yet elected is eligible at
/// the very next boundary.
pub proof fn law_epoch_eligibility(p: Pallet, validator: u64, d: Delegation, a: u64)
    requires
        d.validator == validator,
        d.epoch_started == p.delegation_start_epoch(validator),
    ensures
        p.in_current_set(validator) && p.epoch_index() < u64::MAX ==> !snap_eligible(
            (a, d),
            validator,
            (p.epoch_index() + 1) as u64,
        ),
        p.in_current_set(validator) && p.epoch_index() as int + 2 <= u64::MAX as int
            ==> snap_eligible((a, d), validator, (p.epoch_index() + 2) as u64),
        !p.in_current_set(validator) ==> forall|ep: u64|
            p.epoch_index() < ep ==> snap_eligible((a, d), validator, ep),
{
}

} // verus!
