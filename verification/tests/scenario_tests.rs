use dpos::Config;
use dpos::Error;
use dpos::GenesisConfig;
use dpos::HoldReason;
use dpos::Pallet;

// Same standard chain as the operation tests: ten bootstrap validators
// funded with 10_000 each, at most ten elected, hundred-block epochs.
fn standard_chain() -> Pallet {
    let mut p = Pallet::new(Config { max_validators: 10, epoch_duration: 100 });
    let initial_validators: Vec<u64> = vec![1, 2, 3, 4, 5, 6, 7, 8, 9, 10];
    let initial_balances: Vec<(u64, u128)> =
        initial_validators.iter().map(|v| (*v, 10_000)).collect();
    let genesis = GenesisConfig { initial_validators, initial_balances };
    genesis.build(&mut p);
    p
}

fn advance_to(p: &mut Pallet, n: u64, author: &mut u64) {
    while p.block_number < n {
        if p.block_number > 1 {
            let a = *author;
            p.on_finalize(Some(a));
        }
        let cv = p.elected();
        if !cv.is_empty() {
            *author = cv[0];
        }
        let next = p.block_number + 1;
        p.on_initialize(next);
    }
}

#[test]
fn genesis_seeds_initial_validators() {
    let p = standard_chain();

    assert_eq!(p.elected().clone(), vec![1, 2, 3, 4, 5, 6, 7, 8, 9, 10]);
    for v in 1..=10 {
        assert!(p.is_registered(v));
        assert_eq!(p.validator_self_stake(v), Some(100));
        assert_eq!(p.validator_stake(v), 100);
        assert_eq!(p.balances.balance(v), 10_000);
    }
    assert!(!p.is_registered(11));
}

// Register validator A with stake 500 from a 1000-balance account, delegate
// 300 from account B, unregister A: A's validator record, stake entry and
// B's delegation record are all absent, and B's held 300 is back in its
// free balance.
#[test]
fn unregister_releases_all_holds() {
    let mut p = standard_chain();
    let mut author: u64 = 7;
    advance_to(&mut p, 1, &mut author);

    p.balances.set_balance(55, 1_000);
    p.balances.set_balance(66, 1_000);

    assert_eq!(p.register_validator(55, 500), Ok(()));
    assert_eq!(p.delegate(66, 55, 300), Ok(()));

    assert_eq!(p.balances.balance(55), 500);
    assert_eq!(p.balances.held_balance(HoldReason::ValidatorRegistration, 55), 500);
    assert_eq!(p.balances.balance(66), 700);
    assert_eq!(p.balances.held_balance(HoldReason::Delegation, 66), 300);

    assert_eq!(p.unregister_validator(55), Ok(()));

    assert!(!p.is_registered(55));
    assert!(!p.has_stake_entry(55));
    assert!(p.delegation(66).is_none());
    assert_eq!(p.balances.balance(66), 1_000);
    assert_eq!(p.balances.held_balance(HoldReason::Delegation, 66), 0);
    assert_eq!(p.balances.balance(55), 1_000);
    assert_eq!(p.balances.held_balance(HoldReason::ValidatorRegistration, 55), 0);
}

// Delegating zero fails with InvalidAmount and mutates nothing.
#[test]
fn delegate_zero_leaves_state_unchanged() {
    let mut p = standard_chain();
    let mut author: u64 = 7;
    advance_to(&mut p, 1, &mut author);

    p.balances.set_balance(55, 1_000);
    p.balances.set_balance(66, 1_000);

    assert_eq!(p.register_validator(55, 500), Ok(()));

    let balance_before = p.balances.balance(66);
    let stake_before = p.validator_stake(55);
    let events_before = p.event_count();

    assert_eq!(p.delegate(66, 55, 0), Err(Error::InvalidAmount));

    assert_eq!(p.balances.balance(66), balance_before);
    assert_eq!(p.balances.held_balance(HoldReason::Delegation, 66), 0);
    assert_eq!(p.validator_stake(55), stake_before);
    assert!(p.delegation(66).is_none());
    assert_eq!(p.event_count(), events_before);
}

// Across consecutive epoch boundaries with constant block authorship, a
// delegator who joined mid-epoch is rewarded at the second boundary after
// joining, not the first.
#[test]
fn reward_waits_full_epoch() {
    let mut p = standard_chain();
    let mut author: u64 = 7;
    advance_to(&mut p, 1, &mut author);

    p.balances.set_balance(55, 1_000);
    p.balances.set_balance(66, 1_000);

    assert_eq!(p.register_validator(55, 500), Ok(()));

    // validator 55 leads the set from the boundary at block 100 on
    advance_to(&mut p, 150, &mut author);
    assert!(p.elected().contains(&55));

    assert_eq!(p.delegate(66, 55, 300), Ok(()));
    assert_eq!(p.delegation(66).unwrap().epoch_started, 2);
    let joined_balance = p.balances.balance(66);

    advance_to(&mut p, 200, &mut author);
    assert_eq!(p.balances.balance(66), joined_balance);

    advance_to(&mut p, 300, &mut author);
    assert!(p.balances.balance(66) > joined_balance);
}

// The exact reward arithmetic of one boundary: pool = 1000 per authored
// block, the validator keeps 30 percent, the delegator receives its
// stake-proportional share with truncating division, and the truncation
// remainder is forfeited.
#[test]
fn exact_epoch_reward_amounts() {
    let mut p = standard_chain();
    let mut author: u64 = 7;
    advance_to(&mut p, 1, &mut author);

    p.balances.set_balance(55, 1_000);
    p.balances.set_balance(66, 1_000);

    assert_eq!(p.register_validator(55, 500), Ok(()));
    assert_eq!(p.delegate(66, 55, 300), Ok(()));

    advance_to(&mut p, 200, &mut author);

    // validator 55 authored blocks 101..=199: 99 blocks
    // total = 99 * 1000 = 99_000; cut = 29_700; pool = 69_300
    // delegator share: 69_300 * 300 / 800 = 25_987 (truncated from 25_987.5)
    assert_eq!(p.balances.balance(55), 500 + 29_700);
    assert_eq!(p.balances.balance(66), 700 + 25_987);

    // the sum of all mints for validator 55 is strictly below its pool
    assert!(29_700 + 25_987 < 99_000);
    assert!(25_987 < 69_300);
}

// After an election the set holds exactly min(bound, candidates) accounts
// and no account outside the top stakes.
#[test]
fn election_top_k_by_stake() {
    let mut p = Pallet::new(Config { max_validators: 3, epoch_duration: 10 });
    for a in 21..=24 {
        p.balances.set_balance(a, 1_000);
    }
    assert_eq!(p.register_validator(21, 10), Ok(()));
    assert_eq!(p.register_validator(22, 40), Ok(()));
    assert_eq!(p.register_validator(23, 20), Ok(()));
    assert_eq!(p.register_validator(24, 30), Ok(()));

    p.on_initialize(10);

    assert_eq!(p.elected().len(), 3);
    assert!(p.elected().contains(&22));
    assert!(p.elected().contains(&23));
    assert!(p.elected().contains(&24));
    assert!(!p.elected().contains(&21));
}

// A second delegation to the same validator accumulates the amount and
// keeps the original start epoch.
#[test]
fn delegation_accumulates_and_keeps_start_epoch() {
    let mut p = standard_chain();
    let mut author: u64 = 7;
    advance_to(&mut p, 1, &mut author);

    p.balances.set_balance(55, 1_000);
    p.balances.set_balance(66, 1_000);

    assert_eq!(p.register_validator(55, 500), Ok(()));
    assert_eq!(p.delegate(66, 55, 100), Ok(()));
    assert_eq!(p.delegation(66).unwrap().epoch_started, 0);

    advance_to(&mut p, 150, &mut author);
    assert!(p.elected().contains(&55));

    assert_eq!(p.delegate(66, 55, 50), Ok(()));
    let d = p.delegation(66).unwrap();
    assert_eq!(d.amount, 150);
    assert_eq!(d.epoch_started, 0);
    assert_eq!(p.validator_stake(55), 650);
    assert_eq!(p.balances.held_balance(HoldReason::Delegation, 66), 150);
}

// The aggregate stake always equals self-stake plus the live delegations.
#[test]
fn stake_conservation_across_operations() {
    let mut p = standard_chain();
    let mut author: u64 = 7;
    advance_to(&mut p, 1, &mut author);

    p.balances.set_balance(55, 1_000);
    p.balances.set_balance(66, 1_000);
    p.balances.set_balance(77, 1_000);

    assert_eq!(p.register_validator(55, 500), Ok(()));
    assert_eq!(p.validator_stake(55), 500);

    assert_eq!(p.delegate(66, 55, 300), Ok(()));
    assert_eq!(p.delegate(77, 55, 200), Ok(()));
    assert_eq!(p.validator_stake(55), 1_000);

    assert_eq!(p.undelegate(66, 100), Ok(()));
    assert_eq!(p.validator_stake(55), 900);
    assert_eq!(
        p.validator_self_stake(55).unwrap()
            + p.delegation(66).unwrap().amount
            + p.delegation(77).unwrap().amount,
        p.validator_stake(55)
    );

    assert_eq!(p.undelegate(66, 200), Ok(()));
    assert_eq!(p.validator_stake(55), 700);
    assert!(p.delegation(66).is_none());
}

// Slashing removes the validator and zeroes its stake but leaves the
// delegations and their holds stranded: the delegator must undelegate on
// its own to recover the escrow.
#[test]
fn slash_leaves_delegations_stranded() {
    let mut p = standard_chain();
    let mut author: u64 = 7;
    advance_to(&mut p, 1, &mut author);

    p.balances.set_balance(55, 1_000);
    p.balances.set_balance(66, 1_000);

    assert_eq!(p.register_validator(55, 500), Ok(()));
    assert_eq!(p.delegate(66, 55, 300), Ok(()));

    assert_eq!(p.test_slash_validator(55), Ok(()));

    assert!(!p.is_registered(55));
    assert_eq!(p.validator_stake(55), 0);
    let d = p.delegation(66).unwrap();
    assert_eq!(d.validator, 55);
    assert_eq!(d.amount, 300);
    assert_eq!(p.balances.held_balance(HoldReason::Delegation, 66), 300);
    assert_eq!(p.balances.balance(66), 700);

    // self-service recovery
    assert_eq!(p.undelegate(66, 300), Ok(()));
    assert_eq!(p.balances.balance(66), 1_000);
    assert_eq!(p.balances.held_balance(HoldReason::Delegation, 66), 0);
}

// An unregistered validator stays in the elected set, stake-less, until
// the next boundary overwrites the set; that boundary still pays it the
// validator cut for the blocks it authored.
#[test]
fn stale_elected_entry_until_boundary() {
    let mut p = standard_chain();
    let mut author: u64 = 7;
    advance_to(&mut p, 1, &mut author);

    p.balances.set_balance(55, 1_000);

    assert_eq!(p.register_validator(55, 500), Ok(()));

    advance_to(&mut p, 150, &mut author);
    assert!(p.elected().contains(&55));

    assert_eq!(p.unregister_validator(55), Ok(()));
    assert!(p.elected().contains(&55));
    assert!(!p.has_stake_entry(55));

    advance_to(&mut p, 200, &mut author);
    assert!(!p.elected().contains(&55));
    assert!(p.balances.balance(55) > 1_000);
}

// A snapshot entry pointing to a validator whose stake entry is gone earns
// nothing: there is no stake to divide by.
#[test]
fn zero_stake_pays_no_delegator_share() {
    let mut p = standard_chain();
    let mut author: u64 = 7;
    advance_to(&mut p, 1, &mut author);

    p.balances.set_balance(55, 1_000);
    p.balances.set_balance(66, 1_000);

    assert_eq!(p.register_validator(55, 500), Ok(()));
    assert_eq!(p.delegate(66, 55, 300), Ok(()));

    advance_to(&mut p, 110, &mut author);
    assert!(p.snapshot_delegation(66).is_some());

    assert_eq!(p.unregister_validator(55), Ok(()));
    assert_eq!(p.balances.balance(66), 1_000);

    advance_to(&mut p, 200, &mut author);
    assert_eq!(p.balances.balance(66), 1_000);
}

// With no registered validators at all, an election yields an empty set
// and the boundary routine still completes.
#[test]
fn election_with_no_candidates() {
    let mut p = Pallet::new(Config { max_validators: 3, epoch_duration: 10 });
    p.on_initialize(10);
    assert_eq!(p.elected().len(), 0);
    p.on_finalize(None);
    p.on_initialize(20);
    assert_eq!(p.elected().len(), 0);
}

// Equal stakes: the bound still caps the set and only candidates enter;
// which of two equally staked validators wins a tie is not specified.
#[test]
fn election_with_tied_stakes() {
    let mut p = Pallet::new(Config { max_validators: 1, epoch_duration: 10 });
    p.balances.set_balance(31, 100);
    p.balances.set_balance(32, 100);
    assert_eq!(p.register_validator(31, 50), Ok(()));
    assert_eq!(p.register_validator(32, 50), Ok(()));

    p.on_initialize(10);

    assert_eq!(p.elected().len(), 1);
    let winner = p.elected()[0];
    assert!(winner == 31 || winner == 32);
}

// Stake arithmetic saturates instead of aborting: pushing a validator's
// aggregate stake past the largest balance pins it there (and exact
// conservation is knowingly given up at that point).
#[test]
fn stake_saturates_at_largest_balance() {
    let mut p = Pallet::new(Config { max_validators: 3, epoch_duration: 10 });
    p.balances.set_balance(41, u128::MAX);
    p.balances.set_balance(42, 100);

    assert_eq!(p.register_validator(41, u128::MAX), Ok(()));
    assert_eq!(p.validator_stake(41), u128::MAX);

    assert_eq!(p.delegate(42, 41, 100), Ok(()));
    assert_eq!(p.validator_stake(41), u128::MAX);
    assert_eq!(p.delegation(42).unwrap().amount, 100);
}
