// Unit tests of transaction construction, rounding and normalization.
// Amounts are in ten-thousandths of a currency unit: 31459 stands for 3.1459.

use txn_ledger::amount::round_to_units;
use txn_ledger::engine::{deposit, get_balance, Accounts};
use txn_ledger::normalize::deserialize_record;
use txn_ledger::txn::{Txn, TxnType};

#[test]
fn test_deposit() {
    let mut accounts = Accounts::new();
    deposit(&mut accounts, 1, 31400);
    let acc = get_balance(&accounts, 1);
    assert_eq!(acc.available, 31400);
    assert_eq!(acc.total, 31400);
}

#[test]
fn test_txn_eq() {
    assert_eq!(Txn::withdrawal(1, 2, 10000), Txn::withdrawal(1, 2, 10000));

    assert_ne!(Txn::withdrawal(1, 2, 10000), Txn::withdrawal(1, 2, 10001));
}

#[test]
fn test_decimal_truncate() {
    // 3.14159 rounds half-to-even at four digits to 3.1416
    assert_eq!(round_to_units(314159, 5), Some(31416));
}

#[test]
fn test_txn_precision() {
    // 1.11111 rounds to 1.1111 before it is stored
    assert_eq!(
        Txn::withdrawal(1, 2, round_to_units(111111, 5).unwrap()),
        Txn::new(TxnType::Withdrawal, 1, 2, Some(11111))
    );
}

#[test]
fn test_deserialize() {
    assert_eq!(
        deserialize_record(b"deposit", b"1", b"2", b"3.1459").unwrap(),
        Txn::deposit(1, 2, 31459)
    );
}

#[test]
fn test_deserialize_missing_amount() {
    assert_eq!(
        deserialize_record(b"dispute", b"1", b"2", b"").unwrap(),
        Txn::dispute(1, 2)
    );
}

#[test]
fn test_deserialize_whitespace() {
    assert_eq!(
        deserialize_record(b"    withdrawal", b" 1", b" 2 ", b"3   ").unwrap(),
        Txn::withdrawal(1, 2, 30000)
    );
}

#[test]
fn test_deserialize_decimal() {
    let out = deserialize_record(b"deposit", b"1", b"2", b"3.1459265").unwrap();
    println!("out: {:?}", out);
    assert_eq!(out, Txn::deposit(1, 2, 31459));
}

#[test]
fn test_deserialize_decimal_precision() {
    assert_eq!(
        deserialize_record(b"deposit", b"1", b"2", b"3.1459265").unwrap(),
        Txn::deposit(1, 2, 31459)
    );
}

#[test]
fn test_deserialize_invalid_client_id() {
    // one below the 16-bit domain and one above it
    let underflow = deserialize_record(b"deposit", b"-1", b"1", b"3.1459265");
    let overflow = deserialize_record(b"deposit", b"65536", b"2", b"3.1459265");
    assert_eq!(underflow.is_err(), true);
    assert_eq!(overflow.is_err(), true);
}

#[test]
fn test_deserialize_invalid_txn_id() {
    // one below the 32-bit domain and one above it
    let underflow = deserialize_record(b"deposit", b"1", b"-1", b"3.1459265");
    let overflow = deserialize_record(b"deposit", b"1", b"4294967296", b"3.1459265");
    assert_eq!(underflow.is_err(), true);
    assert_eq!(overflow.is_err(), true);
}
