use vstd::prelude::*;
use crate::engine::{
    account_view, dispute_fits, spec_chargeback, spec_chargeback_at, spec_dispute, spec_dispute_at,
    spec_execute, spec_resolve, spec_resolve_at, spec_run, LedgerView,
};
use crate::txn::Txn;

verus! {

/// Disputing the same transaction twice in a row has the same effect as
/// disputing it once: the second dispute of an already-disputed id is
/// ignored.
pub proof fn lemma_dispute_idempotent(v: LedgerView, client: u16, tx: u32)
    ensures
        spec_dispute_at(spec_dispute_at(v, client, tx), client, tx) == spec_dispute_at(
            v,
            client,
            tx,
        ),
{
    let a0 = account_view(v, client);
    let a1 = spec_dispute(a0, tx);
    let v1 = spec_dispute_at(v, client, tx);
    assert(account_view(v1, client) == a1);
    if a0.log.contains_key(tx) && !a0.disputes.contains(tx) && dispute_fits(
        a0,
        a0.log[tx].amount_units(),
    ) {
        assert(a1.disputes.contains(tx));
    }
    assert(spec_dispute(a1, tx) == a1);
    assert(v1.accounts.insert(client, a1) =~= v1.accounts);
    assert(spec_dispute_at(v1, client, tx) =~= v1);
}

/// Resolving a transaction that is not under dispute leaves every account's
/// balances, dispute set, log and lock state unchanged.
pub proof fn lemma_resolve_undisputed(v: LedgerView, client: u16, tx: u32)
    requires
        !account_view(v, client).disputes.contains(tx),
    ensures
        forall|c: u16|
            #[trigger] account_view(spec_resolve_at(v, client, tx), c) == account_view(v, c),
{
    let a0 = account_view(v, client);
    assert(spec_resolve(a0, tx) == a0);
}

/// Charging back a transaction that is not under dispute leaves every
/// account's balances, dispute set, log and lock state unchanged.
pub proof fn lemma_chargeback_undisputed(v: LedgerView, client: u16, tx: u32)
    requires
        !account_view(v, client).disputes.contains(tx),
    ensures
        forall|c: u16|
            #[trigger] account_view(spec_chargeback_at(v, client, tx), c) == account_view(v, c),
{
    let a0 = account_view(v, client);
    assert(spec_chargeback(a0, tx) == a0);
}

/// Lock finality: a transaction of any type addressed to a locked account
/// changes nothing at all.
pub proof fn lemma_locked_ignored(v: LedgerView, t: Txn)
    requires
        account_view(v, t.client).locked,
    ensures
        spec_execute(v, t) == v,
{
}

/// A transaction only ever touches the account of its own client.
pub proof fn lemma_execute_frame(v: LedgerView, t: Txn, c: u16)
    requires
        c != t.client,
    ensures
        account_view(spec_execute(v, t), c) == account_view(v, c),
{
}

/// Lock finality over a whole stream: once an account is locked, no
/// subsequent transaction of any type changes it in any way.
pub proof fn lemma_locked_stays(v: LedgerView, txns: Seq<Txn>, client: u16)
    requires
        account_view(v, client).locked,
    ensures
        account_view(spec_run(v, txns), client) == account_view(v, client),
    decreases txns.len(),
{
    if txns.len() > 0 {
        let t = txns.first();
        if t.client == client {
            lemma_locked_ignored(v, t);
        } else {
            lemma_execute_frame(v, t, client);
        }
        lemma_locked_stays(spec_execute(v, t), txns.drop_first(), client);
    }
}

} // verus!
