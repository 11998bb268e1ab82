use vstd::prelude::*;
use std::collections::HashMap;
use crate::txn::{Txn, TxnType};

verus! {

broadcast use vstd::std_specs::hash::group_hash_axioms;

/// The three balances of an account, in ten-thousandths of a currency unit.
#[derive(Debug, PartialEq, Eq, Clone, Copy)]
pub struct Balance {
    pub available: i128,
    pub held: i128,
    pub total: i128,
}

/// Mathematical model of one account.
#[verifier::ext_equal]
pub ghost struct AccountView {
    pub available: int,
    pub held: int,
    pub total: int,
    pub disputes: Set<u32>,
    pub log: Map<u32, Txn>,
    pub locked: bool,
}

impl AccountView {
    /// The state of an account that has never been touched.
    pub open spec fn initial() -> AccountView {
        AccountView {
            available: 0,
            held: 0,
            total: 0,
            disputes: Set::empty(),
            log: Map::empty(),
            locked: false,
        }
    }

    /// The balance invariants: the total is exactly the available part plus
    /// the held part, held funds are never negative, and every disputed
    /// transaction is still in the log.
    pub open spec fn wf(self) -> bool {
        &&& self.total == self.available + self.held
        &&& self.held >= 0
        &&& forall|t: u32| self.disputes.contains(t) ==> self.log.contains_key(t)
    }
}

/// Mathematical model of the whole account table. `order` lists the clients
/// in the order their accounts were created; it carries no balance
/// information and only fixes the order of the final snapshot.
#[verifier::ext_equal]
pub ghost struct LedgerView {
    pub accounts: Map<u16, AccountView>,
    pub order: Seq<u16>,
}

/// The account of `client`, taking a client that was never referenced as a
/// fresh account.
pub open spec fn account_view(v: LedgerView, client: u16) -> AccountView {
    if v.accounts.contains_key(client) {
        v.accounts[client]
    } else {
        AccountView::initial()
    }
}

/// The ledger after the account of `client` becomes `a`, creating it first
/// when it did not exist.
pub open spec fn with_account(v: LedgerView, client: u16, a: AccountView) -> LedgerView {
    LedgerView {
        accounts: v.accounts.insert(client, a),
        order: if v.accounts.contains_key(client) {
            v.order
        } else {
            v.order.push(client)
        },
    }
}

/// Every account of the ledger satisfies the balance invariants.
pub open spec fn all_wf(v: LedgerView) -> bool {
    forall|c: u16| #[trigger] account_view(v, c).wf()
}

/// Sum of the logged amounts of the transactions listed in `s`.
pub open spec fn disputed_sum(s: Seq<u32>, log: Map<u32, Txn>) -> int
    decreases s.len(),
{
    if s.len() == 0 {
        0
    } else {
        disputed_sum(s.drop_last(), log) + log[s.last()].amount_units()
    }
}

proof fn lemma_sum_nonneg(s: Seq<u32>, log: Map<u32, Txn>)
    ensures
        disputed_sum(s, log) >= 0,
    decreases s.len(),
{
    if s.len() > 0 {
        lemma_sum_nonneg(s.drop_last(), log);
    }
}

/// The sum only depends on the logged amounts of the listed transactions.
proof fn lemma_sum_congruence(s: Seq<u32>, log1: Map<u32, Txn>, log2: Map<u32, Txn>)
    requires
        forall|i: int| 0 <= i < s.len() ==> log1[#[trigger] s[i]] == log2[s[i]],
    ensures
        disputed_sum(s, log1) == disputed_sum(s, log2),
    decreases s.len(),
{
    if s.len() > 0 {
        assert(forall|i: int|
            0 <= i < s.drop_last().len() ==> log1[#[trigger] s.drop_last()[i]] == log2[s.drop_last()[i]]);
        lemma_sum_congruence(s.drop_last(), log1, log2);
    }
}

proof fn lemma_sum_remove(s: Seq<u32>, log: Map<u32, Txn>, i: int)
    requires
        0 <= i < s.len(),
    ensures
        disputed_sum(s.remove(i), log) == disputed_sum(s, log) - log[s[i]].amount_units(),
    decreases s.len(),
{
    if i == s.len() - 1 {
        assert(s.remove(i) =~= s.drop_last());
    } else {
        let s1 = s.drop_last();
        lemma_sum_remove(s1, log, i);
        assert(s.remove(i).drop_last() =~= s1.remove(i));
        assert(s.remove(i).last() == s.last());
    }
}

proof fn lemma_sum_element(s: Seq<u32>, log: Map<u32, Txn>, i: int)
    requires
        0 <= i < s.len(),
    ensures
        log[s[i]].amount_units() <= disputed_sum(s, log),
{
    lemma_sum_remove(s, log, i);
    lemma_sum_nonneg(s.remove(i), log);
}

/// One account: its balances, the set of transaction ids under dispute, the
/// log of the amount-bearing transactions seen so far, and the lock flag.
pub struct Account {
    balance: Balance,
    disputes: Vec<u32>,
    log: HashMap<u32, Txn>,
    locked: bool,
}

impl View for Account {
    type V = AccountView;

    closed spec fn view(&self) -> AccountView {
        AccountView {
            available: self.balance.available as int,
            held: self.balance.held as int,
            total: self.balance.total as int,
            disputes: self.disputes@.to_set(),
            log: self.log@,
            locked: self.locked,
        }
    }
}

impl Account {
    /// Representation invariant: the balance equation holds, the dispute
    /// list has no duplicates, lists only logged transactions, and the held
    /// balance is exactly the sum of the disputed amounts.
    pub closed spec fn inv(self) -> bool {
        &&& self.balance.total == self.balance.available + self.balance.held
        &&& self.disputes@.no_duplicates()
        &&& forall|i: int|
            0 <= i < self.disputes@.len() ==> self.log@.contains_key(#[trigger] self.disputes@[i])
        &&& self.balance.held as int == disputed_sum(self.disputes@, self.log@)
    }

    proof fn lemma_inv_wf(self)
        requires
            self.inv(),
        ensures
            self@.wf(),
    {
        lemma_sum_nonneg(self.disputes@, self.log@);
        assert forall|t: u32| self@.disputes.contains(t) implies self@.log.contains_key(t) by {
            let i = choose|i: int| 0 <= i < self.disputes@.len() && self.disputes@[i] == t;
            assert(self.log@.contains_key(self.disputes@[i]));
        }
    }

    fn new() -> (r: Account)
        ensures
            r@ == AccountView::initial(),
            r.inv(),
    {
        let r = Account {
            balance: Balance { available: 0, held: 0, total: 0 },
            disputes: Vec::new(),
            log: HashMap::new(),
            locked: false,
        };
        proof {
            assert(r@.disputes =~= Set::<u32>::empty());
            assert(r@ =~= AccountView::initial());
        }
        r
    }
}

/// The table of all accounts ever referenced in a run.
pub struct Accounts {
    table: HashMap<u16, Account>,
    order: Vec<u16>,
}

impl View for Accounts {
    type V = LedgerView;

    closed spec fn view(&self) -> LedgerView {
        LedgerView { accounts: self.table@.map_values(|a: Account| a@), order: self.order@ }
    }
}

impl Accounts {
    /// Representation invariant: the creation-order list holds exactly the
    /// clients of the table, once each, and every account satisfies its own
    /// invariant.
    pub closed spec fn inv(self) -> bool {
        &&& self.order@.no_duplicates()
        &&& forall|i: int|
            0 <= i < self.order@.len() ==> self.table@.contains_key(#[trigger] self.order@[i])
        &&& forall|c: u16| #[trigger] self.table@.contains_key(c) ==> self.order@.contains(c)
        &&& forall|c: u16| #[trigger] self.table@.contains_key(c) ==> self.table@[c].inv()
    }

    pub fn new() -> (r: Accounts)
        ensures
            r.inv(),
            r@.accounts == Map::<u16, AccountView>::empty(),
            r@.order == Seq::<u16>::empty(),
            all_wf(r@),
    {
        let r = Accounts { table: HashMap::new(), order: Vec::new() };
        proof {
            assert(r@.accounts =~= Map::<u16, AccountView>::empty());
            lemma_inv_all_wf(r);
        }
        r
    }
}

proof fn lemma_inv_all_wf(accounts: Accounts)
    requires
        accounts.inv(),
    ensures
        all_wf(accounts@),
{
    assert forall|c: u16| #[trigger] account_view(accounts@, c).wf() by {
        if accounts@.accounts.contains_key(c) {
            assert(accounts.table@.contains_key(c));
            accounts.table@[c].lemma_inv_wf();
            assert(account_view(accounts@, c) == accounts.table@[c]@);
        }
    }
}

// ---------------------------------------------------------------------------
// The transition relation: what each transaction type does to an account.
// ---------------------------------------------------------------------------

/// A deposit is applied only when both balances stay representable.
pub open spec fn deposit_fits(a: AccountView, amt: int) -> bool {
    a.available + amt <= i128::MAX && a.total + amt <= i128::MAX
}

/// Deposit: credit the available and total balances.
pub open spec fn spec_deposit(a: AccountView, amt: int) -> AccountView {
    if deposit_fits(a, amt) {
        AccountView { available: a.available + amt, total: a.total + amt, ..a }
    } else {
        a
    }
}

/// Withdrawal: debit the available and total balances, but only when the
/// available balance covers the amount; otherwise nothing changes.
pub open spec fn spec_withdraw(a: AccountView, amt: int) -> AccountView {
    if amt <= a.available {
        AccountView { available: a.available - amt, total: a.total - amt, ..a }
    } else {
        a
    }
}

/// A dispute is applied only when both balances stay representable.
pub open spec fn dispute_fits(a: AccountView, amt: int) -> bool {
    a.available - amt >= i128::MIN && a.held + amt <= i128::MAX
}

/// Dispute: if `tx` is logged and not already under dispute, move its amount
/// from available to held; the total is unchanged.
pub open spec fn spec_dispute(a: AccountView, tx: u32) -> AccountView {
    if a.log.contains_key(tx) && !a.disputes.contains(tx) && dispute_fits(
        a,
        a.log[tx].amount_units(),
    ) {
        let amt = a.log[tx].amount_units();
        AccountView {
            available: a.available - amt,
            held: a.held + amt,
            disputes: a.disputes.insert(tx),
            ..a
        }
    } else {
        a
    }
}

/// Resolve: if `tx` is under dispute, release its amount back from held to
/// available; the total is unchanged.
pub open spec fn spec_resolve(a: AccountView, tx: u32) -> AccountView {
    if a.disputes.contains(tx) {
        let amt = a.log[tx].amount_units();
        AccountView {
            available: a.available + amt,
            held: a.held - amt,
            disputes: a.disputes.remove(tx),
            ..a
        }
    } else {
        a
    }
}

/// Chargeback: if `tx` is under dispute, withdraw its held amount for good
/// and lock the account; the available balance is unchanged.
pub open spec fn spec_chargeback(a: AccountView, tx: u32) -> AccountView {
    if a.disputes.contains(tx) {
        let amt = a.log[tx].amount_units();
        AccountView {
            held: a.held - amt,
            total: a.total - amt,
            disputes: a.disputes.remove(tx),
            locked: true,
            ..a
        }
    } else {
        a
    }
}

/// Record an amount-bearing transaction in the log. The log is append-only:
/// a transaction id that is already logged keeps its first entry.
pub open spec fn spec_log(a: AccountView, t: Txn) -> AccountView {
    if a.log.contains_key(t.tx) {
        a
    } else {
        AccountView { log: a.log.insert(t.tx, t), ..a }
    }
}

pub open spec fn spec_deposit_at(v: LedgerView, client: u16, amt: int) -> LedgerView {
    with_account(v, client, spec_deposit(account_view(v, client), amt))
}

pub open spec fn spec_withdraw_at(v: LedgerView, client: u16, amt: int) -> LedgerView {
    with_account(v, client, spec_withdraw(account_view(v, client), amt))
}

pub open spec fn spec_dispute_at(v: LedgerView, client: u16, tx: u32) -> LedgerView {
    with_account(v, client, spec_dispute(account_view(v, client), tx))
}

pub open spec fn spec_resolve_at(v: LedgerView, client: u16, tx: u32) -> LedgerView {
    with_account(v, client, spec_resolve(account_view(v, client), tx))
}

pub open spec fn spec_chargeback_at(v: LedgerView, client: u16, tx: u32) -> LedgerView {
    with_account(v, client, spec_chargeback(account_view(v, client), tx))
}

pub open spec fn spec_lock_at(v: LedgerView, client: u16) -> LedgerView {
    with_account(v, client, AccountView { locked: true, ..account_view(v, client) })
}

pub open spec fn spec_log_at(v: LedgerView, t: Txn) -> LedgerView {
    with_account(v, t.client, spec_log(account_view(v, t.client), t))
}

/// One step of the ledger: a transaction against a locked account is wholly
/// ignored; a deposit or withdrawal is logged exactly when it was applied;
/// dispute, resolve and chargeback act on the referenced transaction id.
pub open spec fn spec_execute(v: LedgerView, t: Txn) -> LedgerView {
    if account_view(v, t.client).locked {
        v
    } else {
        match t.txntype {
            TxnType::Deposit => {
                let v1 = spec_deposit_at(v, t.client, t.amount_units());
                if deposit_fits(account_view(v, t.client), t.amount_units()) {
                    spec_log_at(v1, t)
                } else {
                    v1
                }
            },
            TxnType::Withdrawal => {
                let v1 = spec_withdraw_at(v, t.client, t.amount_units());
                if t.amount_units() <= account_view(v, t.client).available {
                    spec_log_at(v1, t)
                } else {
                    v1
                }
            },
            TxnType::Dispute => spec_dispute_at(v, t.client, t.tx),
            TxnType::Resolve => spec_resolve_at(v, t.client, t.tx),
            TxnType::Chargeback => spec_chargeback_at(v, t.client, t.tx),
        }
    }
}

// ---------------------------------------------------------------------------
// The executable operations.
// ---------------------------------------------------------------------------

/// Removes the account of `client` from the table for mutation, creating a
/// fresh one (and recording the client in the creation order) on first
/// reference.
fn take_account(accounts: &mut Accounts, client: u16) -> (a: Account)
    requires
        old(accounts).inv(),
    ensures
        a.inv(),
        a@ == account_view(old(accounts)@, client),
        final(accounts).table@ == old(accounts).table@.remove(client),
        final(accounts).order@ == (if old(accounts).table@.contains_key(client) {
            old(accounts).order@
        } else {
            old(accounts).order@.push(client)
        }),
        old(accounts).table@.contains_key(client) == old(accounts)@.accounts.contains_key(client),
{
    match accounts.table.remove(&client) {
        Some(a) => {
            proof {
                assert(old(accounts)@.accounts.contains_key(client));
                assert(account_view(old(accounts)@, client) == a@);
            }
            a
        },
        None => {
            proof {
                assert(accounts.table@ =~= old(accounts).table@.remove(client));
                assert(!old(accounts)@.accounts.contains_key(client));
            }
            accounts.order.push(client);
            Account::new()
        },
    }
}

/// Puts a mutated account back; together with `take_account` this realises
/// `with_account` on the ledger model.
fn put_account(accounts: &mut Accounts, client: u16, a: Account, Ghost(old0): Ghost<Accounts>)
    requires
        old0.inv(),
        a.inv(),
        old(accounts).table@ == old0.table@.remove(client),
        old(accounts).order@ == (if old0.table@.contains_key(client) {
            old0.order@
        } else {
            old0.order@.push(client)
        }),
    ensures
        final(accounts).inv(),
        final(accounts)@ == with_account(old0@, client, a@),
        all_wf(final(accounts)@),
{
    let ghost t0 = old0.table@;
    let ghost o0 = old0.order@;
    accounts.table.insert(client, a);
    proof {
        let t2 = accounts.table@;
        let o2 = accounts.order@;
        assert(t2 =~= t0.insert(client, a));
        if !t0.contains_key(client) {
            assert forall|i: int| 0 <= i < o0.len() implies o0[i] != client by {
                assert(t0.contains_key(o0[i]));
            }
            assert(!o0.contains(client));
            assert forall|i: int, j: int|
                0 <= i < o2.len() && 0 <= j < o2.len() && i != j implies o2[i] != o2[j] by {
                if i < o0.len() && j < o0.len() {
                    assert(o0[i] != o0[j]);
                } else if j == o0.len() {
                    assert(o2[j] == client && o2[i] == o0[i]);
                } else {
                    assert(o2[i] == client && o2[j] == o0[j]);
                }
            }
            assert(o2.no_duplicates());
        }
        assert forall|c: u16| #[trigger] t2.contains_key(c) implies o2.contains(c) by {
            if c == client {
                if t0.contains_key(client) {
                    assert(o0.contains(c));
                } else {
                    assert(o2[o2.len() - 1] == client);
                }
            } else {
                assert(t0.contains_key(c));
                let i = choose|i: int| 0 <= i < o0.len() && o0[i] == c;
                assert(o2[i] == c);
            }
        }
        assert(accounts.inv());
        assert(accounts@.accounts =~= with_account(old0@, client, a@).accounts);
        assert(accounts@ =~= with_account(old0@, client, a@));
        lemma_inv_all_wf(*accounts);
    }
}

/// Linear search of the dispute list.
fn find_dispute(v: &Vec<u32>, tx: u32) -> (r: Option<usize>)
    ensures
        match r {
            Some(i) => i < v@.len() && v@[i as int] == tx,
            None => !v@.contains(tx),
        },
{
    let mut i: usize = 0;
    while i < v.len()
        invariant
            i <= v@.len(),
            forall|j: int| 0 <= j < i ==> v@[j] != tx,
        decreases v@.len() - i,
    {
        if v[i] == tx {
            return Some(i);
        }
        i += 1;
    }
    None
}

fn deposit_applied(accounts: &mut Accounts, client: u16, amount: u64) -> (applied: bool)
    requires
        old(accounts).inv(),
    ensures
        final(accounts).inv(),
        final(accounts)@ == spec_deposit_at(old(accounts)@, client, amount as int),
        applied == deposit_fits(account_view(old(accounts)@, client), amount as int),
        all_wf(final(accounts)@),
{
    let ghost old0: Accounts = *accounts;
    let mut acc = take_account(accounts, client);
    let ghost a0 = acc@;
    let amt = amount as i128;
    let applied = acc.balance.available <= i128::MAX - amt && acc.balance.total <= i128::MAX - amt;
    if applied {
        acc.balance.available = acc.balance.available + amt;
        acc.balance.total = acc.balance.total + amt;
    }
    proof {
        assert(acc@ =~= spec_deposit(a0, amount as int));
    }
    put_account(accounts, client, acc, Ghost(old0));
    applied
}

/// Deposit: credits the client's account, creating it on first reference.
pub fn deposit(accounts: &mut Accounts, client: u16, amount: u64)
    requires
        old(accounts).inv(),
    ensures
        final(accounts).inv(),
        final(accounts)@ == spec_deposit_at(old(accounts)@, client, amount as int),
        all_wf(final(accounts)@),
{
    let _ = deposit_applied(accounts, client, amount);
}

fn withdraw_applied(accounts: &mut Accounts, client: u16, amount: u64) -> (applied: bool)
    requires
        old(accounts).inv(),
    ensures
        final(accounts).inv(),
        final(accounts)@ == spec_withdraw_at(old(accounts)@, client, amount as int),
        applied == (amount as int <= account_view(old(accounts)@, client).available),
        all_wf(final(accounts)@),
{
    let ghost old0: Accounts = *accounts;
    let mut acc = take_account(accounts, client);
    let ghost a0 = acc@;
    let amt = amount as i128;
    let applied = amt <= acc.balance.available;
    if applied {
        proof {
            lemma_sum_nonneg(acc.disputes@, acc.log@);
        }
        acc.balance.available = acc.balance.available - amt;
        acc.balance.total = acc.balance.total - amt;
    }
    proof {
        assert(acc@ =~= spec_withdraw(a0, amount as int));
    }
    put_account(accounts, client, acc, Ghost(old0));
    applied
}

/// Withdrawal: debits the client's account when the available balance covers
/// the amount; an overdraft attempt changes nothing.
pub fn withdraw(accounts: &mut Accounts, client: u16, amount: u64)
    requires
        old(accounts).inv(),
    ensures
        final(accounts).inv(),
        final(accounts)@ == spec_withdraw_at(old(accounts)@, client, amount as int),
        all_wf(final(accounts)@),
{
    let _ = withdraw_applied(accounts, client, amount);
}

/// Dispute: if `tx` is logged for this client and not already disputed,
/// moves its amount from available to held. Unknown or already-disputed
/// transaction ids are ignored.
pub fn dispute(accounts: &mut Accounts, client: u16, tx: u32)
    requires
        old(accounts).inv(),
    ensures
        final(accounts).inv(),
        final(accounts)@ == spec_dispute_at(old(accounts)@, client, tx),
        all_wf(final(accounts)@),
{
    let ghost old0: Accounts = *accounts;
    let mut acc = take_account(accounts, client);
    let ghost a0 = acc@;
    let logged: Option<u64> = match acc.log.get(&tx) {
        Some(t) => Some(t.amount()),
        None => None,
    };
    match logged {
        None => {},
        Some(amt64) => {
            if find_dispute(&acc.disputes, tx).is_none() {
                let amt = amt64 as i128;
                if acc.balance.available >= i128::MIN + amt && acc.balance.held <= i128::MAX
                    - amt {
                    let ghost s0 = acc.disputes@;
                    acc.balance.available = acc.balance.available - amt;
                    acc.balance.held = acc.balance.held + amt;
                    acc.disputes.push(tx);
                    proof {
                        s0.lemma_push_to_set_commute(tx);
                        assert(acc.disputes@.drop_last() =~= s0);
                        assert forall|i: int, j: int|
                            0 <= i < acc.disputes@.len() && 0 <= j < acc.disputes@.len() && i != j
                            implies acc.disputes@[i] != acc.disputes@[j] by {
                            if i < s0.len() && j < s0.len() {
                                assert(s0[i] != s0[j]);
                            }
                        }
                    }
                }
            }
        },
    }
    proof {
        assert(acc@ =~= spec_dispute(a0, tx));
    }
    put_account(accounts, client, acc, Ghost(old0));
}

/// Resolve: if `tx` is under dispute, releases its amount from held back to
/// available and ends the dispute. An undisputed id is ignored.
pub fn resolve(accounts: &mut Accounts, client: u16, tx: u32)
    requires
        old(accounts).inv(),
    ensures
        final(accounts).inv(),
        final(accounts)@ == spec_resolve_at(old(accounts)@, client, tx),
        all_wf(final(accounts)@),
{
    let ghost old0: Accounts = *accounts;
    let mut acc = take_account(accounts, client);
    let ghost a0 = acc@;
    match find_dispute(&acc.disputes, tx) {
        None => {},
        Some(i) => {
            proof {
                assert(acc.log@.contains_key(acc.disputes@[i as int]));
            }
            let amt64 = match acc.log.get(&tx) {
                Some(t) => t.amount(),
                None => {
                    proof {
                        assert(false);
                    }
                    0
                },
            };
            let amt = amt64 as i128;
            let ghost s0 = acc.disputes@;
            proof {
                lemma_sum_element(s0, acc.log@, i as int);
                lemma_sum_remove(s0, acc.log@, i as int);
                lemma_sum_nonneg(s0.remove(i as int), acc.log@);
            }
            acc.balance.available = acc.balance.available + amt;
            acc.balance.held = acc.balance.held - amt;
            let _ = acc.disputes.remove(i);
            proof {
                lemma_remove_set(s0, i as int);
                s0.remove_ensures(i as int);
                assert forall|j: int, k: int|
                    0 <= j < acc.disputes@.len() && 0 <= k < acc.disputes@.len() && j != k
                    implies acc.disputes@[j] != acc.disputes@[k] by {}
                assert forall|j: int| 0 <= j < acc.disputes@.len() implies acc.log@.contains_key(
                    #[trigger] acc.disputes@[j],
                ) by {}
            }
        },
    }
    proof {
        assert(acc@ =~= spec_resolve(a0, tx));
    }
    put_account(accounts, client, acc, Ghost(old0));
}

/// Chargeback: if `tx` is under dispute, removes its held amount from the
/// account for good and locks the account. An undisputed id is ignored.
pub fn chargeback(accounts: &mut Accounts, client: u16, tx: u32)
    requires
        old(accounts).inv(),
    ensures
        final(accounts).inv(),
        final(accounts)@ == spec_chargeback_at(old(accounts)@, client, tx),
        all_wf(final(accounts)@),
{
    let ghost old0: Accounts = *accounts;
    let mut acc = take_account(accounts, client);
    let ghost a0 = acc@;
    match find_dispute(&acc.disputes, tx) {
        None => {},
        Some(i) => {
            proof {
                assert(acc.log@.contains_key(acc.disputes@[i as int]));
            }
            let amt64 = match acc.log.get(&tx) {
                Some(t) => t.amount(),
                None => {
                    proof {
                        assert(false);
                    }
                    0
                },
            };
            let amt = amt64 as i128;
            let ghost s0 = acc.disputes@;
            proof {
                lemma_sum_element(s0, acc.log@, i as int);
                lemma_sum_remove(s0, acc.log@, i as int);
                lemma_sum_nonneg(s0.remove(i as int), acc.log@);
            }
            acc.balance.held = acc.balance.held - amt;
            acc.balance.total = acc.balance.total - amt;
            let _ = acc.disputes.remove(i);
            acc.locked = true;
            proof {
                lemma_remove_set(s0, i as int);
                s0.remove_ensures(i as int);
                assert forall|j: int, k: int|
                    0 <= j < acc.disputes@.len() && 0 <= k < acc.disputes@.len() && j != k
                    implies acc.disputes@[j] != acc.disputes@[k] by {}
                assert forall|j: int| 0 <= j < acc.disputes@.len() implies acc.log@.contains_key(
                    #[trigger] acc.disputes@[j],
                ) by {}
            }
        },
    }
    proof {
        assert(acc@ =~= spec_chargeback(a0, tx));
    }
    put_account(accounts, client, acc, Ghost(old0));
}

/// Marks the account as locked, creating it on first reference.
pub fn lock(accounts: &mut Accounts, client: u16)
    requires
        old(accounts).inv(),
    ensures
        final(accounts).inv(),
        final(accounts)@ == spec_lock_at(old(accounts)@, client),
        all_wf(final(accounts)@),
{
    let ghost old0: Accounts = *accounts;
    let mut acc = take_account(accounts, client);
    let ghost a0 = acc@;
    acc.locked = true;
    proof {
        assert(acc@ =~= (AccountView { locked: true, ..a0 }));
    }
    put_account(accounts, client, acc, Ghost(old0));
}

/// Whether the client's account is locked; a client that was never
/// referenced is not locked.
pub fn is_locked(accounts: &Accounts, client: u16) -> (r: bool)
    ensures
        r == account_view(accounts@, client).locked,
{
    match accounts.table.get(&client) {
        Some(a) => a.locked,
        None => false,
    }
}

/// The client's balances; a client that was never referenced has zero
/// balances.
pub fn get_balance(accounts: &Accounts, client: u16) -> (r: Balance)
    ensures
        r.available as int == account_view(accounts@, client).available,
        r.held as int == account_view(accounts@, client).held,
        r.total as int == account_view(accounts@, client).total,
{
    match accounts.table.get(&client) {
        Some(a) => a.balance,
        None => Balance { available: 0, held: 0, total: 0 },
    }
}

/// Records an amount-bearing transaction in the client's log, creating the
/// account on first reference. The log is append-only: an id that is already
/// logged keeps its first entry.
pub fn log_transaction(accounts: &mut Accounts, transaction: Txn)
    requires
        old(accounts).inv(),
    ensures
        final(accounts).inv(),
        final(accounts)@ == spec_log_at(old(accounts)@, transaction),
        all_wf(final(accounts)@),
{
    let ghost old0: Accounts = *accounts;
    let mut acc = take_account(accounts, transaction.client);
    let ghost a0 = acc@;
    if !acc.log.contains_key(&transaction.tx) {
        let ghost log0 = acc.log@;
        acc.log.insert(transaction.tx, transaction);
        proof {
            assert forall|i: int| 0 <= i < acc.disputes@.len() implies log0[#[trigger] acc
                .disputes@[i]] == acc.log@[acc.disputes@[i]] by {
                assert(log0.contains_key(acc.disputes@[i]));
            }
            lemma_sum_congruence(acc.disputes@, log0, acc.log@);
        }
    }
    proof {
        assert(acc@ =~= spec_log(a0, transaction));
    }
    put_account(accounts, transaction.client, acc, Ghost(old0));
}

/// Applies one transaction to the ledger: the single entry point of a run.
/// A transaction against a locked account is wholly ignored; otherwise it is
/// dispatched on its type, and a deposit or withdrawal is logged exactly
/// when it was applied.
pub fn execute(accounts: &mut Accounts, txn: Txn)
    requires
        old(accounts).inv(),
    ensures
        final(accounts).inv(),
        final(accounts)@ == spec_execute(old(accounts)@, txn),
        all_wf(final(accounts)@),
{
    if is_locked(accounts, txn.client) {
        proof {
            lemma_inv_all_wf(*accounts);
        }
        return ;
    }
    match txn.txntype {
        TxnType::Deposit => {
            let applied = deposit_applied(accounts, txn.client, txn.amount());
            if applied {
                log_transaction(accounts, txn);
            }
        },
        TxnType::Withdrawal => {
            let applied = withdraw_applied(accounts, txn.client, txn.amount());
            if applied {
                log_transaction(accounts, txn);
            }
        },
        TxnType::Dispute => {
            dispute(accounts, txn.client, txn.tx);
        },
        TxnType::Resolve => {
            resolve(accounts, txn.client, txn.tx);
        },
        TxnType::Chargeback => {
            chargeback(accounts, txn.client, txn.tx);
        },
    }
}

/// A whole run: the transactions applied one at a time, strictly in input
/// order.
pub open spec fn spec_run(v: LedgerView, txns: Seq<Txn>) -> LedgerView
    decreases txns.len(),
{
    if txns.len() == 0 {
        v
    } else {
        spec_run(spec_execute(v, txns.first()), txns.drop_first())
    }
}

/// Replays a batch of transactions in order.
pub fn run(accounts: &mut Accounts, txns: &Vec<Txn>)
    requires
        old(accounts).inv(),
    ensures
        final(accounts).inv(),
        final(accounts)@ == spec_run(old(accounts)@, txns@),
        all_wf(final(accounts)@),
{
    let ghost v0 = accounts@;
    proof {
        assert(txns@.skip(0) =~= txns@);
    }
    let mut i: usize = 0;
    while i < txns.len()
        invariant
            i <= txns@.len(),
            accounts.inv(),
            spec_run(accounts@, txns@.skip(i as int)) == spec_run(v0, txns@),
        decreases txns@.len() - i,
    {
        execute(accounts, txns[i]);
        proof {
            let rest = txns@.skip(i as int);
            assert(rest.first() == txns@[i as int]);
            assert(rest.drop_first() =~= txns@.skip(i + 1));
        }
        i = i + 1;
    }
    proof {
        assert(txns@.skip(txns@.len() as int) =~= Seq::<Txn>::empty());
        lemma_inv_all_wf(*accounts);
    }
}

/// The final table, one row per account ever referenced, in creation order.
pub fn snapshot(accounts: &Accounts) -> (r: Vec<(u16, Balance, bool)>)
    requires
        accounts.inv(),
    ensures
        r@.len() == accounts@.order.len(),
        forall|i: int|
            0 <= i < r@.len() ==> {
                let c = accounts@.order[i];
                &&& (#[trigger] r@[i]).0 == c
                &&& r@[i].1.available as int == account_view(accounts@, c).available
                &&& r@[i].1.held as int == account_view(accounts@, c).held
                &&& r@[i].1.total as int == account_view(accounts@, c).total
                &&& r@[i].2 == account_view(accounts@, c).locked
            },
{
    let mut out: Vec<(u16, Balance, bool)> = Vec::new();
    let mut i: usize = 0;
    while i < accounts.order.len()
        invariant
            i <= accounts.order@.len(),
            out@.len() == i,
            accounts@.order == accounts.order@,
            forall|j: int|
                0 <= j < i ==> {
                    let c = accounts@.order[j];
                    &&& (#[trigger] out@[j]).0 == c
                    &&& out@[j].1.available as int == account_view(accounts@, c).available
                    &&& out@[j].1.held as int == account_view(accounts@, c).held
                    &&& out@[j].1.total as int == account_view(accounts@, c).total
                    &&& out@[j].2 == account_view(accounts@, c).locked
                },
        decreases accounts.order@.len() - i,
    {
        let c = accounts.order[i];
        let b = get_balance(accounts, c);
        let l = is_locked(accounts, c);
        out.push((c, b, l));
        i += 1;
    }
    out
}

/// Removing position `i` from a duplicate-free list removes exactly that
/// element from the set of its elements.
proof fn lemma_remove_set(s: Seq<u32>, i: int)
    requires
        0 <= i < s.len(),
        s.no_duplicates(),
    ensures
        s.remove(i).to_set() == s.to_set().remove(s[i]),
{
    s.remove_ensures(i);
    assert forall|x: u32| s.remove(i).to_set().contains(x) == s.to_set().remove(s[i]).contains(
        x,
    ) by {
        if s.remove(i).contains(x) {
            let j = choose|j: int| 0 <= j < s.remove(i).len() && s.remove(i)[j] == x;
            if j < i {
                assert(s[j] == x && s[j] != s[i]);
            } else {
                assert(s[j + 1] == x && s[j + 1] != s[i]);
            }
            assert(s.contains(x));
        }
        if s.contains(x) && x != s[i] {
            let j = choose|j: int| 0 <= j < s.len() && s[j] == x;
            if j < i {
                assert(s.remove(i)[j] == x);
            } else {
                assert(j > i);
                assert(s.remove(i)[j - 1] == x);
            }
            assert(s.remove(i).contains(x));
        }
    }
    assert(s.remove(i).to_set() =~= s.to_set().remove(s[i]));
}

} // verus!
