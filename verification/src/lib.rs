//! A single-pass ledger over a stream of client transactions.
//!
//! The crate replays deposits, withdrawals, disputes, resolves and
//! chargebacks against a table of per-client accounts and exposes the final
//! balances. Every operation is specified against a mathematical model of
//! the table and verified to keep the balance invariants.

pub mod amount;
pub mod engine;
pub mod laws;
pub mod normalize;
pub mod txn;
