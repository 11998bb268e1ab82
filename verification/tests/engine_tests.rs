// Engine behavior, driven through the public operations. Amounts are in
// ten-thousandths of a currency unit: 100000 stands for 10.

use txn_ledger::engine::{deposit, execute, get_balance, is_locked, lock, withdraw, Accounts};
use txn_ledger::txn::Txn;

#[test]
fn test_chargeback() {
    let mut accounts = Accounts::new();
    let client: u16 = 1;

    // deposit 10 (tx 1), then 2 (tx 2)
    execute(&mut accounts, Txn::deposit(client, 1, 100000));
    execute(&mut accounts, Txn::deposit(client, 2, 20000));
    assert_eq!(get_balance(&accounts, client).available, 120000);

    // dispute tx 2
    execute(&mut accounts, Txn::dispute(client, 2));
    let balance = get_balance(&accounts, client);
    assert_eq!(balance.available, 100000);
    assert_eq!(balance.held, 20000);
    assert_eq!(balance.total, 120000);

    // chargeback
    execute(&mut accounts, Txn::chargeback(client, 2));
    let balance = get_balance(&accounts, client);
    assert_eq!(is_locked(&accounts, client), true);
    assert_eq!(balance.held, 0);
    assert_eq!(balance.available, 100000);
    assert_eq!(balance.total, 100000)
}

#[test]
fn test_chargeback_undisputed() {
    let mut accounts = Accounts::new();
    let client: u16 = 1;

    // start with a total
    execute(&mut accounts, Txn::deposit(client, 1, 100000));
    assert_eq!(get_balance(&accounts, client).total, 100000);

    // attempt a chargeback & assert nothing happened
    execute(&mut accounts, Txn::chargeback(client, 1));
    assert_eq!(get_balance(&accounts, client).total, 100000);
}

#[test]
fn test_locked() {
    let mut accounts = Accounts::new();
    let client: u16 = 1;

    // start with an initial total
    execute(&mut accounts, Txn::deposit(client, 1, 100000));

    // lock the account
    lock(&mut accounts, client);
    assert_eq!(is_locked(&accounts, client), true);

    // assert we can no longer deposit
    execute(&mut accounts, Txn::deposit(client, 2, 20000));
    assert_eq!(get_balance(&accounts, client).available, 100000);

    // & assert we can not withdraw
    execute(&mut accounts, Txn::deposit(client, 3, 10000));
    assert_eq!(get_balance(&accounts, client).available, 100000);
}

#[test]
fn test_dispute_resolve() {
    let mut accounts = Accounts::new();

    // dispute
    let tx: u32 = 10;
    execute(&mut accounts, Txn::deposit(1, tx, 100000));
    execute(&mut accounts, Txn::dispute(1, tx));
    let balance = get_balance(&accounts, 1);
    assert_eq!(balance.available, 0);
    assert_eq!(balance.held, 100000);
    assert_eq!(balance.total, 100000);

    // resolve
    execute(&mut accounts, Txn::resolve(1, tx));
    let balance = get_balance(&accounts, 1);
    assert_eq!(balance.available, 100000);
    assert_eq!(balance.held, 0);
    assert_eq!(balance.total, 100000);
}

#[test]
fn test_dispute() {
    let mut accounts = Accounts::new();

    // deposit 10 (tx 1), then 2 (tx 2)
    execute(&mut accounts, Txn::deposit(1, 1, 100000));
    execute(&mut accounts, Txn::deposit(1, 2, 20000));
    assert_eq!(get_balance(&accounts, 1).available, 120000);

    // dispute tx 1
    // assert available is 2 & held is 10
    execute(&mut accounts, Txn::dispute(1, 1));
    let balance = get_balance(&accounts, 1);
    assert_eq!(balance.available, 20000);
    assert_eq!(balance.held, 100000);

    // total must remain as available + held
    assert_eq!(balance.available + balance.held, 120000);
}

#[test]
fn test_dispute_invalid_transaction() {
    let mut accounts = Accounts::new();
    execute(&mut accounts, Txn::deposit(1, 1, 100000));
    assert_eq!(get_balance(&accounts, 1).available, 100000);

    // dispute an invalid txn id & assert it was ignored
    execute(&mut accounts, Txn::dispute(1, 50));
    assert_eq!(get_balance(&accounts, 1).available, 100000);
}

#[test]
fn test_deposit_withdraw() {
    let mut accounts = Accounts::new();

    deposit(&mut accounts, 1, 420000);
    assert_eq!(420000, get_balance(&accounts, 1).available);

    withdraw(&mut accounts, 1, 420000);
    assert_eq!(0, get_balance(&accounts, 1).available);
}

#[test]
fn test_withdraw_exceeds_available() {
    let mut accounts = Accounts::new();
    deposit(&mut accounts, 1, 420000);

    let withdrawal = 1;
    withdraw(&mut accounts, 1, withdrawal);
    let expected = 419999;
    assert_eq!(get_balance(&accounts, 1).available, expected);

    withdraw(&mut accounts, 1, 420000);
    assert_eq!(get_balance(&accounts, 1).available, expected);
}

#[test]
fn test_withdraw_empty_account() {
    let mut accounts = Accounts::new();

    withdraw(&mut accounts, 1, 10000);
    assert_eq!(0, get_balance(&accounts, 1).available);
}
