// Scenario and property tests: the documented balance scenarios, the
// silent-ignore rules, rounding, rendering, snapshot order and the error
// cases of normalization. Amounts are in ten-thousandths of a unit.

use txn_ledger::amount::{render_amount, round_to_units};
use txn_ledger::engine::{execute, get_balance, is_locked, run, snapshot, Accounts};
use txn_ledger::normalize::{deserialize_record, RecordError};
use txn_ledger::txn::Txn;

#[test]
fn scenario_two_deposits() {
    let mut accounts = Accounts::new();
    execute(&mut accounts, Txn::deposit(1, 1, 100000));
    execute(&mut accounts, Txn::deposit(1, 2, 20000));
    let b = get_balance(&accounts, 1);
    assert_eq!(b.available, 120000);
    assert_eq!(b.held, 0);
    assert_eq!(b.total, 120000);
}

#[test]
fn scenario_dispute_then_chargeback() {
    let mut accounts = Accounts::new();
    execute(&mut accounts, Txn::deposit(1, 1, 100000));
    execute(&mut accounts, Txn::deposit(1, 2, 20000));
    execute(&mut accounts, Txn::dispute(1, 2));
    let b = get_balance(&accounts, 1);
    assert_eq!((b.available, b.held, b.total), (100000, 20000, 120000));
    execute(&mut accounts, Txn::chargeback(1, 2));
    let b = get_balance(&accounts, 1);
    assert_eq!((b.available, b.held, b.total), (100000, 0, 100000));
    assert!(is_locked(&accounts, 1));
}

#[test]
fn scenario_overdraft_ignored() {
    let mut accounts = Accounts::new();
    execute(&mut accounts, Txn::deposit(1, 1, 420000));
    execute(&mut accounts, Txn::withdrawal(1, 2, 1));
    assert_eq!(get_balance(&accounts, 1).available, 419999);
    execute(&mut accounts, Txn::withdrawal(1, 3, 420000));
    assert_eq!(get_balance(&accounts, 1).available, 419999);
}

#[test]
fn scenario_withdrawal_creates_account() {
    let mut accounts = Accounts::new();
    execute(&mut accounts, Txn::withdrawal(5, 1, 10000));
    let b = get_balance(&accounts, 5);
    assert_eq!((b.available, b.held, b.total), (0, 0, 0));
    // the account exists: it shows up in the snapshot, unlocked
    let rows = snapshot(&accounts);
    assert_eq!(rows.len(), 1);
    assert_eq!(rows[0].0, 5);
    assert_eq!(rows[0].2, false);
}

#[test]
fn scenario_dispute_then_resolve() {
    let mut accounts = Accounts::new();
    execute(&mut accounts, Txn::deposit(1, 10, 100000));
    execute(&mut accounts, Txn::dispute(1, 10));
    let b = get_balance(&accounts, 1);
    assert_eq!((b.available, b.held), (0, 100000));
    execute(&mut accounts, Txn::resolve(1, 10));
    let b = get_balance(&accounts, 1);
    assert_eq!((b.available, b.held, b.total), (100000, 0, 100000));
}

#[test]
fn dispute_twice_counts_once() {
    let mut accounts = Accounts::new();
    execute(&mut accounts, Txn::deposit(1, 1, 100000));
    execute(&mut accounts, Txn::dispute(1, 1));
    execute(&mut accounts, Txn::dispute(1, 1));
    let b = get_balance(&accounts, 1);
    assert_eq!((b.available, b.held, b.total), (0, 100000, 100000));
}

#[test]
fn resolve_undisputed_is_ignored() {
    let mut accounts = Accounts::new();
    execute(&mut accounts, Txn::deposit(1, 1, 100000));
    execute(&mut accounts, Txn::resolve(1, 1));
    let b = get_balance(&accounts, 1);
    assert_eq!((b.available, b.held, b.total), (100000, 0, 100000));
    assert!(!is_locked(&accounts, 1));
}

#[test]
fn locked_account_ignores_everything() {
    let mut accounts = Accounts::new();
    execute(&mut accounts, Txn::deposit(1, 1, 100000));
    execute(&mut accounts, Txn::dispute(1, 1));
    execute(&mut accounts, Txn::chargeback(1, 1));
    assert!(is_locked(&accounts, 1));
    execute(&mut accounts, Txn::deposit(1, 2, 100000));
    execute(&mut accounts, Txn::withdrawal(1, 2, 100000));
    execute(&mut accounts, Txn::dispute(1, 1));
    execute(&mut accounts, Txn::resolve(1, 1));
    execute(&mut accounts, Txn::chargeback(1, 1));
    let b = get_balance(&accounts, 1);
    assert_eq!((b.available, b.held, b.total), (0, 0, 0));
}

#[test]
fn rounding_is_half_to_even() {
    // 0.00025 -> 0.0002 (down to the even digit), 0.00035 -> 0.0004 (up)
    assert_eq!(round_to_units(25, 5), Some(2));
    assert_eq!(round_to_units(35, 5), Some(4));
    // fewer than four digits is scaled up exactly
    assert_eq!(round_to_units(3, 0), Some(30000));
    assert_eq!(round_to_units(31459, 4), Some(31459));
}

#[test]
fn tag_matching_is_case_insensitive() {
    assert_eq!(
        deserialize_record(b"DePoSiT", b"1", b"2", b"3.1459").unwrap(),
        Txn::deposit(1, 2, 31459)
    );
    assert_eq!(
        deserialize_record(b"CHARGEBACK", b"1", b"2", b"").unwrap(),
        Txn::chargeback(1, 2)
    );
}

#[test]
fn record_error_cases() {
    assert_eq!(
        deserialize_record(b"transfer", b"1", b"2", b"1"),
        Err(RecordError::UnknownType)
    );
    assert_eq!(
        deserialize_record(b"deposit", b"", b"2", b"1"),
        Err(RecordError::BadClient)
    );
    assert_eq!(
        deserialize_record(b"deposit", b"1", b"9999999999999999999999", b"1"),
        Err(RecordError::BadTx)
    );
    assert_eq!(
        deserialize_record(b"deposit", b"1", b"2", b"abc"),
        Err(RecordError::BadAmount)
    );
    assert_eq!(
        deserialize_record(b"deposit", b"1", b"2", b"-3"),
        Err(RecordError::BadAmount)
    );
    assert_eq!(
        deserialize_record(b"deposit", b"1", b"2", b""),
        Err(RecordError::MissingAmount)
    );
    assert_eq!(
        deserialize_record(b"withdrawal", b"1", b"2", b"  "),
        Err(RecordError::MissingAmount)
    );
}

#[test]
fn id_domain_bounds_are_inclusive() {
    assert_eq!(
        deserialize_record(b"deposit", b"65535", b"4294967295", b"1").unwrap(),
        Txn::deposit(65535, 4294967295, 10000)
    );
}

#[test]
fn rendering_trims_trailing_zeros() {
    assert_eq!(render_amount(419999), b"41.9999".to_vec());
    assert_eq!(render_amount(100000), b"10".to_vec());
    assert_eq!(render_amount(0), b"0".to_vec());
    assert_eq!(render_amount(10001), b"1.0001".to_vec());
    assert_eq!(render_amount(31400), b"3.14".to_vec());
    assert_eq!(render_amount(-100000), b"-10".to_vec());
    assert_eq!(render_amount(1), b"0.0001".to_vec());
}

#[test]
fn snapshot_is_in_creation_order() {
    let mut accounts = Accounts::new();
    execute(&mut accounts, Txn::deposit(7, 1, 10000));
    execute(&mut accounts, Txn::deposit(3, 2, 20000));
    execute(&mut accounts, Txn::deposit(7, 3, 10000));
    let rows = snapshot(&accounts);
    assert_eq!(rows.len(), 2);
    assert_eq!(rows[0].0, 7);
    assert_eq!(rows[0].1.total, 20000);
    assert_eq!(rows[1].0, 3);
    assert_eq!(rows[1].1.total, 20000);
}

#[test]
fn run_replays_in_order() {
    let mut accounts = Accounts::new();
    let txns = vec![
        Txn::deposit(1, 1, 100000),
        Txn::deposit(1, 2, 20000),
        Txn::dispute(1, 2),
        Txn::chargeback(1, 2),
        Txn::deposit(2, 3, 50000),
    ];
    run(&mut accounts, &txns);
    let b = get_balance(&accounts, 1);
    assert_eq!((b.available, b.held, b.total), (100000, 0, 100000));
    assert!(is_locked(&accounts, 1));
    assert_eq!(get_balance(&accounts, 2).total, 50000);
}
