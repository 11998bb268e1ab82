use vstd::prelude::*;

verus! {

/// The five kinds of ledger transaction.
#[derive(Debug, PartialEq, Eq, Clone, Copy)]
pub enum TxnType {
    Deposit,
    Withdrawal,
    Dispute,
    Resolve,
    Chargeback,
}

/// One transaction of the input stream.
///
/// A money amount is a fixed-point decimal held in ten-thousandths of a
/// currency unit (four fractional digits, the canonical precision), so
/// `Some(31459)` stands for 3.1459. Deposit and Withdrawal carry an amount;
/// Dispute, Resolve and Chargeback carry none and name a prior transaction
/// through `tx`.
#[derive(Debug, PartialEq, Eq, Clone, Copy)]
pub struct Txn {
    pub txntype: TxnType,
    pub client: u16,
    pub tx: u32,
    pub amount: Option<u64>,
}

impl Txn {
    /// The amount in ten-thousandths, taking a missing amount as zero.
    pub open spec fn amount_units(self) -> int {
        match self.amount {
            Some(a) => a as int,
            None => 0,
        }
    }

    pub fn new(txntype: TxnType, client: u16, tx: u32, amount: Option<u64>) -> (r: Txn)
        ensures
            r == (Txn { txntype, client, tx, amount }),
    {
        Txn { txntype, client, tx, amount }
    }

    pub fn deposit(client: u16, tx: u32, amount: u64) -> (r: Txn)
        ensures
            r == (Txn { txntype: TxnType::Deposit, client, tx, amount: Some(amount) }),
    {
        Txn::new(TxnType::Deposit, client, tx, Some(amount))
    }

    pub fn withdrawal(client: u16, tx: u32, amount: u64) -> (r: Txn)
        ensures
            r == (Txn { txntype: TxnType::Withdrawal, client, tx, amount: Some(amount) }),
    {
        Txn::new(TxnType::Withdrawal, client, tx, Some(amount))
    }

    pub fn dispute(client: u16, tx: u32) -> (r: Txn)
        ensures
            r == (Txn { txntype: TxnType::Dispute, client, tx, amount: None }),
    {
        Txn::new(TxnType::Dispute, client, tx, None)
    }

    pub fn resolve(client: u16, tx: u32) -> (r: Txn)
        ensures
            r == (Txn { txntype: TxnType::Resolve, client, tx, amount: None }),
    {
        Txn::new(TxnType::Resolve, client, tx, None)
    }

    pub fn chargeback(client: u16, tx: u32) -> (r: Txn)
        ensures
            r == (Txn { txntype: TxnType::Chargeback, client, tx, amount: None }),
    {
        Txn::new(TxnType::Chargeback, client, tx, None)
    }

    /// The amount this transaction carries, zero when it carries none.
    pub fn amount(&self) -> (r: u64)
        ensures
            r as int == self.amount_units(),
    {
        match self.amount {
            Some(a) => a,
            None => 0,
        }
    }
}

} // verus!
