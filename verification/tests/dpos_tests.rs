use dpos::Config;
use dpos::Error;
use dpos::Event;
use dpos::GenesisConfig;
use dpos::Pallet;

// Builds the standard test chain: ten bootstrap validators, each funded
// with 10_000, an elected-set bound of ten and hundred-block epochs.
fn new_test_ext() -> Pallet {
    let mut p = Pallet::new(Config { max_validators: 10, epoch_duration: 100 });
    let initial_validators: Vec<u64> = vec![1, 2, 3, 4, 5, 6, 7, 8, 9, 10];
    let initial_balances: Vec<(u64, u128)> =
        initial_validators.iter().map(|v| (*v, 10_000)).collect();
    let genesis = GenesisConfig { initial_validators, initial_balances };
    genesis.build(&mut p);
    p
}

// Advances one block: picks the author for the new block from the current
// elected set, then runs the block-start hook.
fn next_block(p: &mut Pallet, author: &mut u64) {
    let cv = p.elected();
    if !cv.is_empty() {
        *author = cv[0];
    }
    let n = p.block_number + 1;
    p.on_initialize(n);
}

fn run_to_block(p: &mut Pallet, n: u64, author: &mut u64) {
    while p.block_number < n {
        if p.block_number > 1 {
            let a = *author;
            p.on_finalize(Some(a));
        }
        next_block(p, author);
    }
}

fn free(p: &Pallet, who: u64) -> u128 {
    p.balances.balance(who)
}

#[test]
fn it_works_for_default_value() {
    let mut p = new_test_ext();
    let mut author: u64 = 7;
    run_to_block(&mut p, 1, &mut author);

    p.balances.set_balance(55, 1_000);

    assert_eq!(p.register_validator(55, 500), Ok(()));

    assert!(p.is_registered(55));
    assert_eq!(p.validator_self_stake(55), Some(500));

    assert_eq!(
        p.last_event(),
        Some(Event::ValidatorRegistered { validator: 55, amount: 500 })
    );
}

// ------ register validator tests -------

#[test]
fn register_validator() {
    let mut p = new_test_ext();
    let mut author: u64 = 7;
    run_to_block(&mut p, 1, &mut author);

    p.balances.set_balance(55, 1_000);

    assert_eq!(p.register_validator(55, 500), Ok(()));

    assert!(p.is_registered(55));
    assert_eq!(p.validator_self_stake(55), Some(500));

    assert_eq!(
        p.last_event(),
        Some(Event::ValidatorRegistered { validator: 55, amount: 500 })
    );
}

#[test]
fn register_multiple_validators() {
    let mut p = new_test_ext();
    let mut author: u64 = 7;
    run_to_block(&mut p, 1, &mut author);

    for i in 11..=15 {
        p.balances.set_balance(i, 1_000);
    }

    for i in 11..=15 {
        assert_eq!(p.register_validator(i, 500), Ok(()));
    }

    for i in 11..=15 {
        assert!(p.is_registered(i));
        assert_eq!(p.validator_self_stake(i), Some(500));
    }

    assert_eq!(
        p.last_event(),
        Some(Event::ValidatorRegistered { validator: 15, amount: 500 })
    );
}

#[test]
fn register_validator_with_insufficient_balance() {
    let mut p = new_test_ext();
    let mut author: u64 = 7;
    run_to_block(&mut p, 1, &mut author);

    p.balances.set_balance(55, 499);

    assert_eq!(p.register_validator(55, 500), Err(Error::InsufficientBalance));
}

#[test]
fn register_validator_twice() {
    let mut p = new_test_ext();
    let mut author: u64 = 7;
    run_to_block(&mut p, 1, &mut author);

    p.balances.set_balance(55, 1_000);

    assert_eq!(p.register_validator(55, 500), Ok(()));

    assert_eq!(p.register_validator(55, 500), Err(Error::AlreadyRegistered));
}

// ----- unregister validator tests -------

#[test]
fn unregister_validator() {
    let mut p = new_test_ext();
    let mut author: u64 = 7;
    run_to_block(&mut p, 1, &mut author);

    p.balances.set_balance(55, 1_000);
    p.balances.set_balance(66, 1_000);
    p.balances.set_balance(77, 1_000);

    assert_eq!(p.register_validator(55, 500), Ok(()));
    assert_eq!(p.delegate(66, 55, 300), Ok(()));
    assert_eq!(p.delegate(77, 55, 200), Ok(()));

    assert_eq!(p.unregister_validator(55), Ok(()));

    assert!(!p.is_registered(55));
    assert!(!p.has_stake_entry(55));
    assert!(p.delegation(66).is_none());
    assert!(p.delegation(77).is_none());

    assert_eq!(p.last_event(), Some(Event::ValidatorDeregistered { validator: 55 }));
}

#[test]
fn unregister_unregistered_validator() {
    let mut p = new_test_ext();
    let mut author: u64 = 7;
    run_to_block(&mut p, 1, &mut author);

    p.balances.set_balance(55, 1_000);

    assert_eq!(p.unregister_validator(55), Err(Error::ValidatorNotFound));
}

#[test]
fn unregister_validator_with_no_delegators() {
    let mut p = new_test_ext();
    let mut author: u64 = 7;
    run_to_block(&mut p, 1, &mut author);

    p.balances.set_balance(55, 1_000);

    assert_eq!(p.register_validator(55, 500), Ok(()));

    assert_eq!(p.unregister_validator(55), Ok(()));

    assert!(!p.is_registered(55));
    assert!(!p.has_stake_entry(55));
}

#[test]
fn register_and_deregister_validator() {
    let mut p = new_test_ext();
    let mut author: u64 = 7;
    run_to_block(&mut p, 1, &mut author);

    p.balances.set_balance(55, 1_000);

    assert_eq!(p.register_validator(55, 500), Ok(()));

    assert_eq!(p.unregister_validator(55), Ok(()));

    assert!(!p.is_registered(55));
    assert!(!p.has_stake_entry(55));
}

// ------ delegate tests -------

#[test]
fn delegate_to_validator() {
    let mut p = new_test_ext();
    let mut author: u64 = 7;
    run_to_block(&mut p, 1, &mut author);

    p.balances.set_balance(55, 1_000);
    p.balances.set_balance(66, 1_000);

    assert_eq!(p.register_validator(55, 500), Ok(()));

    assert_eq!(p.delegate(66, 55, 300), Ok(()));

    let delegation = p.delegation(66).unwrap();
    assert_eq!(delegation.validator, 55);
    assert_eq!(delegation.amount, 300);

    assert_eq!(
        p.last_event(),
        Some(Event::Delegated { delegator: 66, validator: 55, amount: 300 })
    );
}

#[test]
fn delegate_to_unregistered_validator() {
    let mut p = new_test_ext();
    let mut author: u64 = 7;
    run_to_block(&mut p, 1, &mut author);

    p.balances.set_balance(55, 1_000);
    p.balances.set_balance(66, 1_000);

    assert_eq!(p.register_validator(55, 500), Ok(()));

    assert_eq!(p.delegate(66, 66, 300), Err(Error::ValidatorNotFound));
}

#[test]
fn delegate_more_than_balance() {
    let mut p = new_test_ext();
    let mut author: u64 = 7;
    run_to_block(&mut p, 1, &mut author);

    p.balances.set_balance(55, 1_000);
    p.balances.set_balance(66, 1_000);

    assert_eq!(p.register_validator(55, 500), Ok(()));

    assert_eq!(p.delegate(66, 55, 1_001), Err(Error::InsufficientBalance));
}

#[test]
fn delegate_to_multiple_validators() {
    let mut p = new_test_ext();
    let mut author: u64 = 7;
    run_to_block(&mut p, 1, &mut author);

    p.balances.set_balance(55, 1_000);
    p.balances.set_balance(66, 1_000);
    p.balances.set_balance(77, 1_000);

    assert_eq!(p.register_validator(55, 500), Ok(()));
    assert_eq!(p.register_validator(66, 500), Ok(()));

    assert_eq!(p.delegate(77, 55, 300), Ok(()));

    assert_eq!(p.delegate(77, 66, 300), Err(Error::AlreadyDelegated));

    let delegation = p.delegation(77).unwrap();
    assert_eq!(delegation.validator, 55);
    assert_eq!(delegation.amount, 300);

    assert_eq!(
        p.last_event(),
        Some(Event::Delegated { delegator: 77, validator: 55, amount: 300 })
    );
}

#[test]
fn delegate_storage_update() {
    let mut p = new_test_ext();
    let mut author: u64 = 7;
    run_to_block(&mut p, 1, &mut author);

    p.balances.set_balance(55, 1_000);
    p.balances.set_balance(66, 1_000);

    assert_eq!(p.register_validator(55, 500), Ok(()));

    assert_eq!(p.delegate(66, 55, 300), Ok(()));

    assert!(p.delegation(66).is_some());
    let delegation = p.delegation(66).unwrap();
    assert_eq!(delegation.validator, 55);
    assert_eq!(delegation.amount, 300);
}

#[test]
fn delegate_zero_balance() {
    let mut p = new_test_ext();
    let mut author: u64 = 7;
    run_to_block(&mut p, 1, &mut author);

    p.balances.set_balance(55, 1_000);
    p.balances.set_balance(66, 1_000);

    assert_eq!(p.register_validator(55, 500), Ok(()));

    assert_eq!(p.delegate(66, 55, 0), Err(Error::InvalidAmount));
}

#[test]
fn delegate_after_unregistering_validator() {
    let mut p = new_test_ext();
    let mut author: u64 = 7;
    run_to_block(&mut p, 1, &mut author);

    p.balances.set_balance(55, 1_000);
    p.balances.set_balance(66, 1_000);

    assert_eq!(p.register_validator(55, 500), Ok(()));
    assert_eq!(p.unregister_validator(55), Ok(()));

    assert_eq!(p.delegate(66, 55, 300), Err(Error::ValidatorNotFound));
}

#[test]
fn delegate_with_exact_balance() {
    let mut p = new_test_ext();
    let mut author: u64 = 7;
    run_to_block(&mut p, 1, &mut author);

    let balance = 1_000;
    let fee = 1;
    let delegation_amount = balance - fee;

    p.balances.set_balance(55, balance);
    p.balances.set_balance(66, balance);

    assert_eq!(p.register_validator(55, 500), Ok(()));

    assert_eq!(p.delegate(66, 55, delegation_amount), Ok(()));

    assert!(p.delegation(66).is_some());
    let delegation = p.delegation(66).unwrap();
    assert_eq!(delegation.validator, 55);
    assert_eq!(delegation.amount, delegation_amount);

    assert_eq!(
        p.last_event(),
        Some(Event::Delegated { delegator: 66, validator: 55, amount: delegation_amount })
    );
}

// ------- undelegation tests -------

#[test]
fn partial_undelegate() {
    let mut p = new_test_ext();
    let mut author: u64 = 7;
    run_to_block(&mut p, 1, &mut author);

    p.balances.set_balance(55, 1_000);
    p.balances.set_balance(66, 1_000);

    assert_eq!(p.register_validator(55, 500), Ok(()));
    assert_eq!(p.delegate(66, 55, 300), Ok(()));

    assert_eq!(p.undelegate(66, 100), Ok(()));

    assert!(p.delegation(66).is_some());
    let delegation = p.delegation(66).unwrap();
    assert_eq!(delegation.validator, 55);
    assert_eq!(delegation.amount, 200);

    assert_eq!(
        p.last_event(),
        Some(Event::Undelegated { delegator: 66, validator: 55, amount: 100 })
    );
}

#[test]
fn undelegation_no_delegation_found() {
    let mut p = new_test_ext();
    let mut author: u64 = 7;
    run_to_block(&mut p, 1, &mut author);

    p.balances.set_balance(55, 1_000);
    p.balances.set_balance(66, 1_000);

    assert_eq!(p.register_validator(55, 500), Ok(()));

    assert_eq!(p.undelegate(66, 200), Err(Error::NoDelegationFound));
}

#[test]
fn undelegation_insufficient_balance() {
    let mut p = new_test_ext();
    let mut author: u64 = 7;
    run_to_block(&mut p, 1, &mut author);

    p.balances.set_balance(55, 1_000);
    p.balances.set_balance(66, 1_000);

    assert_eq!(p.register_validator(55, 500), Ok(()));
    assert_eq!(p.delegate(66, 55, 300), Ok(()));

    assert_eq!(p.undelegate(66, 400), Err(Error::InsufficientBalance));
}

#[test]
fn complete_undelegation() {
    let mut p = new_test_ext();
    let mut author: u64 = 7;
    run_to_block(&mut p, 1, &mut author);

    p.balances.set_balance(55, 1_000);
    p.balances.set_balance(66, 1_000);

    assert_eq!(p.register_validator(55, 500), Ok(()));
    assert_eq!(p.delegate(66, 55, 300), Ok(()));

    assert_eq!(p.undelegate(66, 300), Ok(()));

    assert!(p.delegation(66).is_none());

    assert_eq!(p.validator_stake(55), 500);

    assert_eq!(
        p.last_event(),
        Some(Event::Undelegated { delegator: 66, validator: 55, amount: 300 })
    );
}

#[test]
fn redelegate_after_undelegation() {
    let mut p = new_test_ext();
    let mut author: u64 = 7;
    run_to_block(&mut p, 1, &mut author);

    p.balances.set_balance(55, 1_000);
    p.balances.set_balance(66, 1_000);

    assert_eq!(p.register_validator(55, 500), Ok(()));
    assert_eq!(p.delegate(66, 55, 300), Ok(()));

    assert_eq!(p.undelegate(66, 300), Ok(()));

    assert_eq!(p.delegate(66, 55, 300), Ok(()));

    assert!(p.delegation(66).is_some());
    let delegation = p.delegation(66).unwrap();
    assert_eq!(delegation.validator, 55);
    assert_eq!(delegation.amount, 300);

    assert_eq!(
        p.last_event(),
        Some(Event::Delegated { delegator: 66, validator: 55, amount: 300 })
    );
}

// ------ update validator set tests -------

#[test]
fn update_validator_set() {
    let mut p = new_test_ext();
    let mut author: u64 = 7;

    run_to_block(&mut p, 99, &mut author);

    let pool: u64 = 20;

    for i in 11..=pool {
        p.balances.set_balance(i, 1_000);
    }

    for i in 11..=pool {
        assert_eq!(p.register_validator(i, 100), Ok(()));
    }

    // Delegate varying amounts; the per-pair factor stays inside the same
    // 9..50 band for every delegator.
    for i in 11..=pool {
        for j in 11..=15 {
            let num = 9 + ((i + j) % 41);
            let delegator = j * pool + i;
            p.balances.set_balance(delegator, 10_000);
            let amount = (i * num) as u128;
            assert_eq!(p.delegate(delegator, i, amount), Ok(()));
        }
    }

    run_to_block(&mut p, 100, &mut author);

    let max_validators = 10;
    assert_eq!(p.elected().len(), max_validators);

    assert!(p.events.iter().any(|e| matches!(e, Event::ValidatorsUpdated)));

    run_to_block(&mut p, 200, &mut author);

    assert_eq!(p.elected().len(), max_validators);

    assert!(p.events.iter().any(|e| matches!(e, Event::ValidatorsUpdated)));
}

#[test]
fn delegators_receive_rewards_only_after_next_epoch() {
    let mut p = new_test_ext();
    let mut author: u64 = 7;
    run_to_block(&mut p, 1, &mut author);

    p.balances.set_balance(55, 1_000);
    p.balances.set_balance(66, 1_000);
    p.balances.set_balance(77, 1_000);
    p.balances.set_balance(88, 1_000);

    assert_eq!(p.register_validator(55, 500), Ok(()));
    assert_eq!(p.delegate(66, 55, 300), Ok(()));

    let initial_b_validator = free(&p, 55);
    let initial_b_delegator1 = free(&p, 66);

    run_to_block(&mut p, 150, &mut author);

    assert_eq!(p.delegate(77, 55, 200), Ok(()));
    let initial_b_delegator2 = free(&p, 77);

    run_to_block(&mut p, 190, &mut author);

    let final_b_delegator2 = free(&p, 77);
    assert_eq!(final_b_delegator2, initial_b_delegator2);

    run_to_block(&mut p, 200, &mut author);

    let final_b_delegator1 = free(&p, 66);
    let final_b_validator = free(&p, 55);

    assert!(final_b_delegator1 > initial_b_delegator1);
    assert!(final_b_validator > initial_b_validator);

    run_to_block(&mut p, 250, &mut author);

    assert_eq!(p.delegate(88, 55, 200), Ok(()));
    let initial_b_delegator3 = free(&p, 88);

    run_to_block(&mut p, 290, &mut author);

    let final_b_delegator3 = free(&p, 88);
    assert_eq!(final_b_delegator3, initial_b_delegator3);

    run_to_block(&mut p, 300, &mut author);

    let final_b_delegator2_epoch_2 = free(&p, 77);
    assert!(final_b_delegator2_epoch_2 > initial_b_delegator2);

    run_to_block(&mut p, 400, &mut author);

    let final_b_delegator3_epoch_3 = free(&p, 88);
    assert!(final_b_delegator3_epoch_3 > initial_b_delegator3);
}

// ----- slash tests -------

#[test]
fn slash_validator_successfully() {
    let mut p = new_test_ext();
    let mut author: u64 = 7;
    run_to_block(&mut p, 1, &mut author);

    p.balances.set_balance(55, 1_000);
    p.balances.set_balance(66, 1_000);

    assert_eq!(p.register_validator(55, 500), Ok(()));
    assert_eq!(p.delegate(66, 55, 300), Ok(()));

    assert_eq!(p.test_slash_validator(55), Ok(()));

    assert!(!p.is_registered(55));
    assert_eq!(p.validator_stake(55), 0);

    assert_eq!(
        p.last_event(),
        Some(Event::ValidatorSlashed { validator: 55, amount: 800 })
    );
}

#[test]
fn slash_non_registered_validator() {
    let mut p = new_test_ext();
    let mut author: u64 = 7;
    run_to_block(&mut p, 1, &mut author);

    assert_eq!(p.test_slash_validator(55), Err(Error::ValidatorNotFound));
}

#[test]
fn slash_validator_with_zero_stake() {
    let mut p = new_test_ext();
    let mut author: u64 = 7;
    run_to_block(&mut p, 1, &mut author);

    p.balances.set_balance(55, 1_000);

    assert_eq!(p.register_validator(55, 500), Ok(()));
    assert_eq!(p.unregister_validator(55), Ok(()));

    assert_eq!(p.test_slash_validator(55), Err(Error::ValidatorNotFound));
}

#[test]
fn slash_non_validator() {
    let mut p = new_test_ext();
    let mut author: u64 = 7;
    run_to_block(&mut p, 1, &mut author);

    p.balances.set_balance(55, 1_000);

    assert_eq!(p.test_slash_validator(55), Err(Error::ValidatorNotFound));
}

#[test]
fn multiple_epoch_transitions() {
    let mut p = new_test_ext();
    let mut author: u64 = 7;
    run_to_block(&mut p, 1, &mut author);

    p.balances.set_balance(55, 1_000);
    p.balances.set_balance(66, 1_000);
    p.balances.set_balance(77, 1_000);

    assert_eq!(p.register_validator(55, 500), Ok(()));
    assert_eq!(p.delegate(66, 55, 300), Ok(()));

    let initial_b_validator = free(&p, 55);
    let initial_b_delegator = free(&p, 66);

    for _ in 0..3 {
        let target = p.block_number + 100;
        run_to_block(&mut p, target, &mut author);
    }

    let final_b_validator = free(&p, 55);
    let final_b_delegator = free(&p, 66);

    assert!(final_b_delegator > initial_b_delegator);
    assert!(final_b_validator > initial_b_validator);
}

#[test]
fn remove_delegator_mid_epoch() {
    let mut p = new_test_ext();
    let mut author: u64 = 7;
    run_to_block(&mut p, 1, &mut author);

    p.balances.set_balance(55, 1_000);
    p.balances.set_balance(66, 1_000);

    assert_eq!(p.register_validator(55, 500), Ok(()));
    assert_eq!(p.delegate(66, 55, 300), Ok(()));

    run_to_block(&mut p, 50, &mut author);

    assert_eq!(p.undelegate(66, 300), Ok(()));

    assert!(p.delegation(66).is_none());
    assert_eq!(p.validator_stake(55), 500);

    assert_eq!(
        p.last_event(),
        Some(Event::Undelegated { delegator: 66, validator: 55, amount: 300 })
    );

    run_to_block(&mut p, 100, &mut author);

    let final_b_delegator = free(&p, 66);
    assert_eq!(final_b_delegator, 1_000);
}

#[test]
fn remove_validator_mid_epoch() {
    let mut p = new_test_ext();
    let mut author: u64 = 7;
    run_to_block(&mut p, 1, &mut author);

    p.balances.set_balance(55, 1_000);
    p.balances.set_balance(66, 1_000);

    assert_eq!(p.register_validator(55, 500), Ok(()));
    assert_eq!(p.delegate(66, 55, 300), Ok(()));

    run_to_block(&mut p, 50, &mut author);

    assert_eq!(p.unregister_validator(55), Ok(()));

    assert!(!p.is_registered(55));
    assert!(!p.has_stake_entry(55));
    assert!(p.delegation(66).is_none());

    assert_eq!(p.last_event(), Some(Event::ValidatorDeregistered { validator: 55 }));

    run_to_block(&mut p, 100, &mut author);

    let final_b_validator = free(&p, 55);
    let final_b_delegator = free(&p, 66);

    assert_eq!(final_b_validator, 1_000);
    assert_eq!(final_b_delegator, 1_000);
}
