use vstd::prelude::*;
use std::collections::HashMap;
use crate::account::{Account, zero_account};
use crate::errors::RowError;
use crate::ids::{ClientId, TxId};
use crate::money::{Money, fits_i64};
use crate::row::{Row, RowKind};
use crate::transaction::{Transaction, TxKind};

verus! {

broadcast use vstd::std_specs::hash::group_hash_axioms;

/// All accounts, by client id, and every accepted transaction, by id.
pub struct Ledger {
    pub accounts: HashMap<u16, Account>,
    pub transactions: HashMap<u32, Transaction>,
}

/// The ledger as maps.
pub struct LedgerView {
    pub accounts: Map<u16, Account>,
    pub transactions: Map<u32, Transaction>,
}

impl View for Ledger {
    type V = LedgerView;

    open spec fn view(&self) -> LedgerView {
        LedgerView { accounts: self.accounts@, transactions: self.transactions@ }
    }
}

/// The empty ledger.
pub open spec fn empty_ledger() -> LedgerView {
    LedgerView { accounts: Map::empty(), transactions: Map::empty() }
}

/// The ledger with an account for `c`, a new one if it had none.
pub open spec fn with_account(l: LedgerView, c: u16) -> LedgerView {
    if l.accounts.contains_key(c) {
        l
    } else {
        LedgerView { accounts: l.accounts.insert(c, zero_account()), transactions: l.transactions }
    }
}

/// The account with new balances, when both and their total are representable.
pub open spec fn settled(a: Account, available: int, held: int) -> Option<Account> {
    if fits_i64(available) && fits_i64(held) && fits_i64(available + held) {
        Some(Account { available: Money(available as i64), held: Money(held as i64), locked: a.locked })
    } else {
        None
    }
}

/// `t` names a live transaction of client `c`.
pub open spec fn owns_tx(l: LedgerView, c: u16, t: u32) -> bool {
    &&& l.transactions.contains_key(t)
    &&& l.transactions[t].client.0 == c
    &&& !l.transactions[t].burned
}

/// The ledger with client `c`'s account replaced and transaction `t` recorded.
pub open spec fn commit(l: LedgerView, c: u16, a: Account, t: u32, tx: Transaction) -> LedgerView {
    LedgerView { accounts: l.accounts.insert(c, a), transactions: l.transactions.insert(t, tx) }
}

/// A deposit, on a ledger where `c` has an unlocked account.
pub open spec fn deposit_spec(l: LedgerView, c: u16, t: u32, amount: Money) -> (LedgerView, Result<(), RowError>) {
    let a = l.accounts[c];
    if l.transactions.contains_key(t) {
        (l, Err(RowError::DuplicateTx))
    } else {
        match settled(a, a.available.0 + amount.0, a.held.0 as int) {
            Some(n) => (
                commit(l, c, n, t, Transaction { client: ClientId(c), kind: TxKind::Deposit, amount, disputed: false, burned: false }),
                Ok(()),
            ),
            None => (l, Err(RowError::BadAmount)),
        }
    }
}

/// A withdrawal, on a ledger where `c` has an unlocked account.
pub open spec fn withdraw_spec(l: LedgerView, c: u16, t: u32, amount: Money) -> (LedgerView, Result<(), RowError>) {
    let a = l.accounts[c];
    if l.transactions.contains_key(t) {
        (l, Err(RowError::DuplicateTx))
    } else if a.available.0 < amount.0 {
        (l, Err(RowError::InsufficientFunds))
    } else {
        match settled(a, a.available.0 - amount.0, a.held.0 as int) {
            Some(n) => (
                commit(l, c, n, t, Transaction { client: ClientId(c), kind: TxKind::Withdrawal, amount, disputed: false, burned: false }),
                Ok(()),
            ),
            None => (l, Err(RowError::BadAmount)),
        }
    }
}

/// A dispute, on a ledger where `c` has an unlocked account.
pub open spec fn dispute_spec(l: LedgerView, c: u16, t: u32) -> (LedgerView, Result<(), RowError>) {
    let a = l.accounts[c];
    let rec = l.transactions[t];
    if !owns_tx(l, c, t) {
        (l, Err(RowError::UnknownTx))
    } else if rec.kind == TxKind::Withdrawal {
        (l, Err(RowError::WithdrawalDispute))
    } else if rec.disputed {
        (l, Err(RowError::AlreadyDisputed))
    } else if rec.amount.0 == 0 {
        (l, Err(RowError::BadAmount))
    } else {
        match settled(a, a.available.0 - rec.amount.0, a.held.0 + rec.amount.0) {
            Some(n) => (commit(l, c, n, t, Transaction { disputed: true, ..rec }), Ok(())),
            None => (l, Err(RowError::BadAmount)),
        }
    }
}

/// A resolve, on a ledger where `c` has an unlocked account.
pub open spec fn resolve_spec(l: LedgerView, c: u16, t: u32) -> (LedgerView, Result<(), RowError>) {
    let a = l.accounts[c];
    let rec = l.transactions[t];
    if !owns_tx(l, c, t) {
        (l, Err(RowError::UnknownTx))
    } else if rec.kind == TxKind::Withdrawal {
        (l, Err(RowError::WithdrawalDispute))
    } else if !rec.disputed {
        (l, Err(RowError::NotDisputed))
    } else {
        match settled(a, a.available.0 + rec.amount.0, a.held.0 - rec.amount.0) {
            Some(n) => (commit(l, c, n, t, Transaction { disputed: false, ..rec }), Ok(())),
            None => (l, Err(RowError::BadAmount)),
        }
    }
}

/// A chargeback, on a ledger where `c` has an unlocked account.
pub open spec fn chargeback_spec(l: LedgerView, c: u16, t: u32) -> (LedgerView, Result<(), RowError>) {
    let a = l.accounts[c];
    let rec = l.transactions[t];
    if !owns_tx(l, c, t) {
        (l, Err(RowError::UnknownTx))
    } else if rec.kind == TxKind::Withdrawal {
        (l, Err(RowError::WithdrawalDispute))
    } else if !rec.disputed {
        (l, Err(RowError::NotDisputed))
    } else {
        match settled(a, a.available.0 as int, a.held.0 - rec.amount.0) {
            Some(n) => (
                commit(l, c, Account { locked: true, ..n }, t, Transaction { disputed: false, burned: true, ..rec }),
                Ok(()),
            ),
            None => (l, Err(RowError::BadAmount)),
        }
    }
}

/// What applying a row does: the row's client gets an account whatever
/// happens next; a locked account refuses everything; otherwise the row's
/// kind decides.
pub open spec fn apply_spec(l: LedgerView, row: Row) -> (LedgerView, Result<(), RowError>) {
    let c = row.client.0;
    let t = row.tx.0;
    let l0 = with_account(l, c);
    if l0.accounts[c].locked {
        (l0, Err(RowError::AccountLocked))
    } else {
        match row.kind {
            RowKind::Deposit { amount } => deposit_spec(l0, c, t, amount),
            RowKind::Withdrawal { amount } => withdraw_spec(l0, c, t, amount),
            RowKind::Dispute => dispute_spec(l0, c, t),
            RowKind::Resolve => resolve_spec(l0, c, t),
            RowKind::Chargeback => chargeback_spec(l0, c, t),
        }
    }
}

/// The account with new balances, when both and their total are representable.
fn settle(a: Account, available: i128, held: i128) -> (r: Option<Account>)
    ensures
        r == settled(a, available as int, held as int),
{
    if available < i64::MIN as i128 || available > i64::MAX as i128 || held < i64::MIN as i128
        || held > i64::MAX as i128 {
        return None;
    }
    let total = available + held;
    if total < i64::MIN as i128 || total > i64::MAX as i128 {
        return None;
    }
    Some(Account { available: Money(available as i64), held: Money(held as i64), locked: a.locked })
}

impl Ledger {
    pub fn new() -> (l: Ledger)
        ensures
            l@ == empty_ledger(),
    {
        Ledger { accounts: HashMap::new(), transactions: HashMap::new() }
    }

    /// Applies one row; on an error nothing changes but that the row's
    /// client has an account.
    pub fn apply(&mut self, row: &Row) -> (r: Result<(), RowError>)
        ensures
            (final(self)@, r) == apply_spec(old(self)@, *row),
    {
        let c = row.client.0;
        let t = row.tx.0;
        self.account_for(row.client);
        if let Err(e) = self.gate_locked(row.client) {
            return Err(e);
        }
        match row.kind {
            RowKind::Deposit { amount } => self.deposit(c, t, amount),
            RowKind::Withdrawal { amount } => self.withdraw(c, t, amount),
            RowKind::Dispute => self.dispute(c, t),
            RowKind::Resolve => self.resolve(c, t),
            RowKind::Chargeback => self.chargeback(c, t),
        }
    }

    fn gate_locked(&self, client: ClientId) -> (r: Result<(), RowError>)
        ensures
            self@.accounts.contains_key(client.0) && self@.accounts[client.0].locked
                ==> r == Err::<(), RowError>(RowError::AccountLocked),
            !(self@.accounts.contains_key(client.0) && self@.accounts[client.0].locked) ==> r is Ok,
    {
        match self.accounts.get(&client.0) {
            Some(account) => {
                if account.locked {
                    Err(RowError::AccountLocked)
                } else {
                    Ok(())
                }
            },
            None => Ok(()),
        }
    }

    fn account_for(&mut self, client: ClientId) -> (a: Account)
        ensures
            final(self)@ == with_account(old(self)@, client.0),
            final(self)@.accounts.contains_key(client.0),
            a == final(self)@.accounts[client.0],
    {
        match self.accounts.get(&client.0) {
            Some(account) => *account,
            None => {
                let a = Account::new();
                self.accounts.insert(client.0, a);
                a
            },
        }
    }

    fn own_tx(&self, client: u16, tx: u32) -> (r: Result<Transaction, RowError>)
        ensures
            owns_tx(self@, client, tx) ==> r == Ok::<Transaction, RowError>(self@.transactions[tx]),
            !owns_tx(self@, client, tx) ==> r == Err::<Transaction, RowError>(RowError::UnknownTx),
    {
        match self.transactions.get(&tx) {
            Some(record) => {
                if record.client.0 == client && !record.burned {
                    Ok(*record)
                } else {
                    Err(RowError::UnknownTx)
                }
            },
            None => Err(RowError::UnknownTx),
        }
    }

    fn deposit(&mut self, client: u16, tx: u32, amount: Money) -> (r: Result<(), RowError>)
        requires
            old(self)@.accounts.contains_key(client),
        ensures
            (final(self)@, r) == deposit_spec(old(self)@, client, tx, amount),
    {
        if self.transactions.contains_key(&tx) {
            return Err(RowError::DuplicateTx);
        }
        let a = *self.accounts.get(&client).unwrap();
        match settle(a, a.available.0 as i128 + amount.0 as i128, a.held.0 as i128) {
            Some(n) => {
                self.accounts.insert(client, n);
                self.transactions.insert(
                    tx,
                    Transaction { client: ClientId(client), kind: TxKind::Deposit, amount, disputed: false, burned: false },
                );
                Ok(())
            },
            None => Err(RowError::BadAmount),
        }
    }

    fn withdraw(&mut self, client: u16, tx: u32, amount: Money) -> (r: Result<(), RowError>)
        requires
            old(self)@.accounts.contains_key(client),
        ensures
            (final(self)@, r) == withdraw_spec(old(self)@, client, tx, amount),
    {
        if self.transactions.contains_key(&tx) {
            return Err(RowError::DuplicateTx);
        }
        let a = *self.accounts.get(&client).unwrap();
        if !a.available.sufficient(amount) {
            return Err(RowError::InsufficientFunds);
        }
        match settle(a, a.available.0 as i128 - amount.0 as i128, a.held.0 as i128) {
            Some(n) => {
                self.accounts.insert(client, n);
                self.transactions.insert(
                    tx,
                    Transaction { client: ClientId(client), kind: TxKind::Withdrawal, amount, disputed: false, burned: false },
                );
                Ok(())
            },
            None => Err(RowError::BadAmount),
        }
    }

    fn dispute(&mut self, client: u16, tx: u32) -> (r: Result<(), RowError>)
        requires
            old(self)@.accounts.contains_key(client),
        ensures
            (final(self)@, r) == dispute_spec(old(self)@, client, tx),
    {
        let rec = match self.own_tx(client, tx) {
            Ok(rec) => rec,
            Err(e) => return Err(e),
        };
        if let TxKind::Withdrawal = rec.kind {
            return Err(RowError::WithdrawalDispute);
        }
        if rec.disputed {
            return Err(RowError::AlreadyDisputed);
        }
        if rec.amount.0 == 0 {
            return Err(RowError::BadAmount);
        }
        let a = *self.accounts.get(&client).unwrap();
        let amt = rec.amount.0 as i128;
        match settle(a, a.available.0 as i128 - amt, a.held.0 as i128 + amt) {
            Some(n) => {
                self.accounts.insert(client, n);
                self.transactions.insert(tx, Transaction { disputed: true, ..rec });
                Ok(())
            },
            None => Err(RowError::BadAmount),
        }
    }

    fn resolve(&mut self, client: u16, tx: u32) -> (r: Result<(), RowError>)
        requires
            old(self)@.accounts.contains_key(client),
        ensures
            (final(self)@, r) == resolve_spec(old(self)@, client, tx),
    {
        let rec = match self.own_tx(client, tx) {
            Ok(rec) => rec,
            Err(e) => return Err(e),
        };
        if let TxKind::Withdrawal = rec.kind {
            return Err(RowError::WithdrawalDispute);
        }
        if !rec.disputed {
            return Err(RowError::NotDisputed);
        }
        let a = *self.accounts.get(&client).unwrap();
        let amt = rec.amount.0 as i128;
        match settle(a, a.available.0 as i128 + amt, a.held.0 as i128 - amt) {
            Some(n) => {
                self.accounts.insert(client, n);
                self.transactions.insert(tx, Transaction { disputed: false, ..rec });
                Ok(())
            },
            None => Err(RowError::BadAmount),
        }
    }

    fn chargeback(&mut self, client: u16, tx: u32) -> (r: Result<(), RowError>)
        requires
            old(self)@.accounts.contains_key(client),
        ensures
            (final(self)@, r) == chargeback_spec(old(self)@, client, tx),
    {
        let rec = match self.own_tx(client, tx) {
            Ok(rec) => rec,
            Err(e) => return Err(e),
        };
        if let TxKind::Withdrawal = rec.kind {
            return Err(RowError::WithdrawalDispute);
        }
        if !rec.disputed {
            return Err(RowError::NotDisputed);
        }
        let a = *self.accounts.get(&client).unwrap();
        let amt = rec.amount.0 as i128;
        match settle(a, a.available.0 as i128, a.held.0 as i128 - amt) {
            Some(n) => {
                self.accounts.insert(client, Account { locked: true, ..n });
                self.transactions.insert(tx, Transaction { disputed: false, burned: true, ..rec });
                Ok(())
            },
            None => Err(RowError::BadAmount),
        }
    }
}

impl Default for Ledger {
    fn default() -> (l: Ledger)
        ensures
            l@ == empty_ledger(),
    {
        Self::new()
    }
}


/// No withdrawal is under dispute, no burned transaction is under dispute,
/// and every transaction's client has an account.
pub open spec fn ledger_wf(l: LedgerView) -> bool {
    &&& forall|t: u32| #[trigger] l.transactions.contains_key(t) ==> {
        &&& l.transactions[t].kind == TxKind::Withdrawal ==> !l.transactions[t].disputed
        &&& l.transactions[t].burned ==> !l.transactions[t].disputed
        &&& l.accounts.contains_key(l.transactions[t].client.0)
    }
}

/// The empty ledger is well formed.
pub proof fn lemma_empty_ledger_wf()
    ensures
        ledger_wf(empty_ledger()),
{
}

/// Applying any row keeps the ledger well formed.
pub proof fn lemma_apply_keeps_wf(l: LedgerView, row: Row)
    requires
        ledger_wf(l),
    ensures
        ledger_wf(apply_spec(l, row).0),
{
    let c = row.client.0;
    let l0 = with_account(l, c);
    assert(ledger_wf(l0));
    let l2 = apply_spec(l, row).0;
    assert forall|t: u32| #[trigger] l2.transactions.contains_key(t) implies l2.accounts.contains_key(
        l2.transactions[t].client.0,
    ) by {
        assert(l0.accounts.dom().subset_of(l2.accounts.dom()));
        if l0.transactions.contains_key(t) && l2.transactions[t].client == l0.transactions[t].client {
        }
    }
}

/// A rejected row changes nothing but giving its client an account.
pub proof fn lemma_rejected_row_moves_nothing(l: LedgerView, row: Row)
    requires
        apply_spec(l, row).1 is Err,
    ensures
        apply_spec(l, row).0 == with_account(l, row.client.0),
{
}

/// A locked account refuses every row, and nothing changes.
pub proof fn lemma_locked_account_refuses(l: LedgerView, row: Row)
    requires
        l.accounts.contains_key(row.client.0),
        l.accounts[row.client.0].locked,
    ensures
        apply_spec(l, row) == (l, Err::<(), RowError>(RowError::AccountLocked)),
{
}

/// Once locked, an account stays locked, whatever row comes next.
pub proof fn lemma_lock_is_permanent(l: LedgerView, row: Row, c: u16)
    requires
        l.accounts.contains_key(c),
        l.accounts[c].locked,
    ensures
        apply_spec(l, row).0.accounts.contains_key(c),
        apply_spec(l, row).0.accounts[c].locked,
{
}

/// Accepted transactions are never forgotten: the id stays taken, with the
/// same client, kind and amount, and a burned transaction stays exactly as it was.
pub proof fn lemma_transactions_are_kept(l: LedgerView, row: Row, t: u32)
    requires
        l.transactions.contains_key(t),
    ensures
        apply_spec(l, row).0.transactions.contains_key(t),
        apply_spec(l, row).0.transactions[t].client == l.transactions[t].client,
        apply_spec(l, row).0.transactions[t].kind == l.transactions[t].kind,
        apply_spec(l, row).0.transactions[t].amount == l.transactions[t].amount,
        l.transactions[t].burned ==> apply_spec(l, row).0.transactions[t] == l.transactions[t],
{
}

/// A deposit or withdrawal that reuses any known id, of any client, is a
/// duplicate, unless the account is locked.
pub proof fn lemma_duplicate_id_rejected(l: LedgerView, row: Row)
    requires
        row.kind is Deposit || row.kind is Withdrawal,
        l.transactions.contains_key(row.tx.0),
        !(l.accounts.contains_key(row.client.0) && l.accounts[row.client.0].locked),
    ensures
        apply_spec(l, row) == (with_account(l, row.client.0), Err::<(), RowError>(RowError::DuplicateTx)),
{
}

/// A dispute followed by a resolve of the same transaction puts the ledger
/// back as it was (with the client's account in place).
pub proof fn lemma_resolve_undoes_dispute(l: LedgerView, c: ClientId, t: TxId)
    requires
        apply_spec(l, Row { kind: RowKind::Dispute, client: c, tx: t }).1 is Ok,
    ensures
        apply_spec(apply_spec(l, Row { kind: RowKind::Dispute, client: c, tx: t }).0, Row { kind: RowKind::Resolve, client: c, tx: t })
            == (with_account(l, c.0), Ok::<(), RowError>(())),
{
    let l0 = with_account(l, c.0);
    let l1 = apply_spec(l, Row { kind: RowKind::Dispute, client: c, tx: t }).0;
    let rec = l0.transactions[t.0];
    let a = l0.accounts[c.0];
    assert(with_account(l1, c.0) == l1);
    let l2 = apply_spec(l1, Row { kind: RowKind::Resolve, client: c, tx: t }).0;
    assert(Transaction { disputed: false, ..Transaction { disputed: true, ..rec } } == rec);
    assert(l2.accounts =~= l0.accounts);
    assert(l2.transactions =~= l0.transactions);
}

/// A dispute moves the transaction's amount from available to held and
/// leaves the total and every other account as they were.
pub proof fn lemma_dispute_holds_funds(l: LedgerView, row: Row)
    requires
        row.kind is Dispute,
        apply_spec(l, row).1 is Ok,
    ensures
        ({
            let c = row.client.0;
            let amt = l.transactions[row.tx.0].amount.0;
            let before = with_account(l, c).accounts[c];
            let after = apply_spec(l, row).0.accounts[c];
            &&& after.available.0 == before.available.0 - amt
            &&& after.held.0 == before.held.0 + amt
            &&& after.available.0 + after.held.0 == before.available.0 + before.held.0
            &&& after.locked == before.locked
            &&& forall|k: u16| k != c ==> apply_spec(l, row).0.accounts.contains_key(k) == l.accounts.contains_key(k)
                && (l.accounts.contains_key(k) ==> #[trigger] apply_spec(l, row).0.accounts[k] == l.accounts[k])
        }),
{
}

/// A chargeback takes the disputed amount out of held, locks the account
/// and burns the transaction: from then on every row that names it is refused.
pub proof fn lemma_chargeback_burns(l: LedgerView, row: Row, next: Row)
    requires
        row.kind is Chargeback,
        apply_spec(l, row).1 is Ok,
        next.tx == row.tx,
    ensures
        ({
            let c = row.client.0;
            let t = row.tx.0;
            let amt = l.transactions[t].amount.0;
            let before = with_account(l, c).accounts[c];
            let l2 = apply_spec(l, row).0;
            &&& l2.accounts[c].locked
            &&& l2.accounts[c].held.0 == before.held.0 - amt
            &&& l2.accounts[c].available == before.available
            &&& l2.transactions[t].burned
            &&& apply_spec(l2, next).1 is Err
        }),
{
    let l2 = apply_spec(l, row).0;
    let c2 = next.client.0;
    let l3 = with_account(l2, c2);
    assert(l3.transactions.contains_key(row.tx.0));
    assert(l3.transactions[row.tx.0].burned);
}

/// Only a chargeback locks an account.
pub proof fn lemma_only_chargeback_locks(l: LedgerView, row: Row, c: u16)
    requires
        !(row.kind is Chargeback),
        !(l.accounts.contains_key(c) && l.accounts[c].locked),
    ensures
        !(apply_spec(l, row).0.accounts.contains_key(c) && apply_spec(l, row).0.accounts[c].locked),
{
}

/// Every row that parsed names its client: the client has an account
/// afterwards, whether the row was accepted or not.
pub proof fn lemma_row_names_its_client(l: LedgerView, row: Row)
    ensures
        apply_spec(l, row).0.accounts.contains_key(row.client.0),
{
}

/// What transaction `t` keeps on hold for client `c`: its amount while it
/// is under dispute, else nothing.
pub open spec fn on_hold(txs: Map<u32, Transaction>, c: u16, t: u32) -> int {
    if txs.contains_key(t) && txs[t].client.0 == c && txs[t].disputed {
        txs[t].amount.0 as int
    } else {
        0
    }
}

/// What client `c` has on hold through the transactions with ids below `n`.
pub open spec fn held_below(txs: Map<u32, Transaction>, c: u16, n: nat) -> int
    decreases n,
{
    if n == 0 {
        0
    } else {
        held_below(txs, c, (n - 1) as nat) + on_hold(txs, c, (n - 1) as u32)
    }
}

/// The number of transaction ids.
pub open spec fn tx_id_count() -> nat {
    0x1_0000_0000nat
}

/// The sum of the amounts of client `c`'s transactions under dispute.
pub open spec fn disputed_sum(txs: Map<u32, Transaction>, c: u16) -> int {
    held_below(txs, c, tx_id_count())
}

/// Every account holds exactly the sum of its transactions under dispute,
/// and no transaction is under dispute for a client without an account.
pub open spec fn holds_disputed(l: LedgerView) -> bool {
    &&& forall|c: u16| #[trigger] l.accounts.contains_key(c) ==> l.accounts[c].held.0 == disputed_sum(l.transactions, c)
    &&& forall|t: u32| #[trigger] l.transactions.contains_key(t) && l.transactions[t].disputed
        ==> l.accounts.contains_key(l.transactions[t].client.0)
}

/// No accepted transaction has a negative amount.
pub open spec fn amounts_nonnegative(l: LedgerView) -> bool {
    forall|t: u32| #[trigger] l.transactions.contains_key(t) ==> l.transactions[t].amount.0 >= 0
}

/// A row's amount, if it carries one, is not negative.
pub open spec fn row_amount_nonnegative(row: Row) -> bool {
    match row.kind {
        RowKind::Deposit { amount } => amount.0 >= 0,
        RowKind::Withdrawal { amount } => amount.0 >= 0,
        _ => true,
    }
}

proof fn lemma_held_below_insert(txs: Map<u32, Transaction>, t: u32, x: Transaction, c: u16, n: nat)
    requires
        n <= tx_id_count(),
    ensures
        held_below(txs.insert(t, x), c, n) == held_below(txs, c, n) + if (t as nat) < n {
            on_hold(txs.insert(t, x), c, t) - on_hold(txs, c, t)
        } else {
            0
        },
    decreases n,
{
    if n > 0 {
        lemma_held_below_insert(txs, t, x, c, (n - 1) as nat);
        let k = (n - 1) as u32;
        assert(k as nat == n - 1);
        if k != t {
            assert(on_hold(txs.insert(t, x), c, k) == on_hold(txs, c, k));
        }
    }
}

proof fn lemma_held_below_none(txs: Map<u32, Transaction>, c: u16, n: nat)
    requires
        n <= tx_id_count(),
        forall|t: u32| #[trigger] txs.contains_key(t) && txs[t].disputed ==> txs[t].client.0 != c,
    ensures
        held_below(txs, c, n) == 0,
    decreases n,
{
    if n > 0 {
        lemma_held_below_none(txs, c, (n - 1) as nat);
    }
}

proof fn lemma_held_below_nonnegative(txs: Map<u32, Transaction>, c: u16, n: nat)
    requires
        forall|t: u32| #[trigger] txs.contains_key(t) ==> txs[t].amount.0 >= 0,
    ensures
        held_below(txs, c, n) >= 0,
    decreases n,
{
    if n > 0 {
        lemma_held_below_nonnegative(txs, c, (n - 1) as nat);
    }
}

/// The empty ledger holds nothing and has no transactions.
pub proof fn lemma_empty_ledger_holds_nothing()
    ensures
        holds_disputed(empty_ledger()),
        amounts_nonnegative(empty_ledger()),
{
}

/// Held funds are exactly the disputed amounts: whatever row is applied,
/// every account still holds the sum of its transactions under dispute.
pub proof fn lemma_apply_keeps_held_disputed(l: LedgerView, row: Row)
    requires
        holds_disputed(l),
    ensures
        holds_disputed(apply_spec(l, row).0),
{
    let c = row.client.0;
    let t = row.tx.0;
    let l0 = with_account(l, c);
    let l2 = apply_spec(l, row).0;
    if !l.accounts.contains_key(c) {
        lemma_held_below_none(l.transactions, c, tx_id_count());
    }
    assert(holds_disputed(l0));
    if l2.transactions != l0.transactions {
        let x = l2.transactions[t];
        assert(l2.transactions == l0.transactions.insert(t, x));
        assert forall|k: u16| #[trigger] l2.accounts.contains_key(k) implies l2.accounts[k].held.0 == disputed_sum(
            l2.transactions,
            k,
        ) by {
            lemma_held_below_insert(l0.transactions, t, x, k, tx_id_count());
            if k != c {
                assert(on_hold(l2.transactions, k, t) == on_hold(l0.transactions, k, t));
            }
        }
        assert forall|u: u32| #[trigger] l2.transactions.contains_key(u) && l2.transactions[u].disputed
            implies l2.accounts.contains_key(l2.transactions[u].client.0) by {
            assert(l0.accounts.dom().subset_of(l2.accounts.dom()));
        }
    }
}

/// Held funds never go negative: while every account holds the sum of its
/// transactions under dispute and no transaction carries a negative amount,
/// every held balance is at least zero.
pub proof fn lemma_held_nonnegative(l: LedgerView)
    requires
        holds_disputed(l),
        amounts_nonnegative(l),
    ensures
        forall|c: u16| #[trigger] l.accounts.contains_key(c) ==> l.accounts[c].held.0 >= 0,
{
    assert forall|c: u16| #[trigger] l.accounts.contains_key(c) implies l.accounts[c].held.0 >= 0 by {
        lemma_held_below_nonnegative(l.transactions, c, tx_id_count());
    }
}

/// Rows without negative amounts add no transaction with a negative amount.
pub proof fn lemma_apply_keeps_amounts_nonnegative(l: LedgerView, row: Row)
    requires
        amounts_nonnegative(l),
        row_amount_nonnegative(row),
    ensures
        amounts_nonnegative(apply_spec(l, row).0),
{
}

/// Whether the row is a dispute, a resolve or a chargeback.
pub open spec fn names_a_tx(row: Row) -> bool {
    row.kind is Dispute || row.kind is Resolve || row.kind is Chargeback
}

/// A dispute, resolve or chargeback on an unlocked account is refused,
/// with nothing changed, when its id names no live transaction of that
/// client: an id never seen or seen only later, another client's, one
/// whose deposit or withdrawal was refused, or one charged back.  Naming a
/// withdrawal is refused too, and so is disputing a transaction already under
/// dispute, settling one that is not, or disputing an amount of zero.
pub proof fn lemma_dispute_refusals(l: LedgerView, row: Row)
    requires
        names_a_tx(row),
        !(l.accounts.contains_key(row.client.0) && l.accounts[row.client.0].locked),
    ensures
        ({
            let c = row.client.0;
            let t = row.tx.0;
            let rec = l.transactions[t];
            let refused = |e: RowError| apply_spec(l, row) == (with_account(l, c), Err::<(), RowError>(e));
            &&& !owns_tx(l, c, t) ==> refused(RowError::UnknownTx)
            &&& owns_tx(l, c, t) && rec.kind == TxKind::Withdrawal ==> refused(RowError::WithdrawalDispute)
            &&& owns_tx(l, c, t) && rec.kind == TxKind::Deposit && row.kind is Dispute && rec.disputed
                ==> refused(RowError::AlreadyDisputed)
            &&& owns_tx(l, c, t) && rec.kind == TxKind::Deposit && row.kind is Dispute && !rec.disputed
                && rec.amount.0 == 0 ==> refused(RowError::BadAmount)
            &&& owns_tx(l, c, t) && rec.kind == TxKind::Deposit && !(row.kind is Dispute) && !rec.disputed
                ==> refused(RowError::NotDisputed)
        }),
{
    let c = row.client.0;
    let l0 = with_account(l, c);
    assert(owns_tx(l0, c, row.tx.0) == owns_tx(l, c, row.tx.0));
    assert(l0.transactions == l.transactions);
}

/// A resolved transaction can be disputed again, exactly as the first time.
pub proof fn lemma_redispute_after_resolve(l: LedgerView, c: ClientId, t: TxId)
    requires
        apply_spec(l, Row { kind: RowKind::Dispute, client: c, tx: t }).1 is Ok,
    ensures
        ({
            let dispute = Row { kind: RowKind::Dispute, client: c, tx: t };
            let resolve = Row { kind: RowKind::Resolve, client: c, tx: t };
            apply_spec(apply_spec(apply_spec(l, dispute).0, resolve).0, dispute) == apply_spec(l, dispute)
        }),
{
    lemma_resolve_undoes_dispute(l, c, t);
    assert(with_account(with_account(l, c.0), c.0) == with_account(l, c.0));
}

/// Every account's total, available plus held, is representable.
pub open spec fn totals_fit(l: LedgerView) -> bool {
    forall|c: u16| #[trigger] l.accounts.contains_key(c) ==> fits_i64(l.accounts[c].available.0 + l.accounts[c].held.0)
}

/// Totals stay printable: a row whose effect would take an account's total
/// out of `i64` is refused, so whatever row is applied every total still fits.
pub proof fn lemma_apply_keeps_totals_fit(l: LedgerView, row: Row)
    requires
        totals_fit(l),
    ensures
        totals_fit(apply_spec(l, row).0),
{
}
} // verus!

verus! {

/// No charged-back transaction is under dispute.
pub open spec fn burned_settled(l: LedgerView) -> bool {
    forall|t: u32| #[trigger] l.transactions.contains_key(t) && l.transactions[t].burned ==> !l.transactions[t].disputed
}

/// A charged-back transaction is never under dispute again, whatever row is applied.
pub proof fn lemma_apply_keeps_burned_settled(l: LedgerView, row: Row)
    requires
        burned_settled(l),
    ensures
        burned_settled(apply_spec(l, row).0),
{
}

} // verus!

verus! {

/// What an accepted row moves, on its client's account alone: a deposit adds
/// its amount to available, a withdrawal takes it away; a dispute moves the
/// disputed amount from available to held, a resolve moves it back, and a
/// chargeback takes it out of held; every other account stays as it was.
pub proof fn lemma_accepted_row_moves(l: LedgerView, row: Row)
    requires
        apply_spec(l, row).1 is Ok,
    ensures
        ({
            let c = row.client.0;
            let before = with_account(l, c).accounts[c];
            let l2 = apply_spec(l, row).0;
            let after = l2.accounts[c];
            let named = l.transactions[row.tx.0].amount.0;
            &&& l2.accounts.contains_key(c)
            &&& forall|k: u16| k != c ==> (#[trigger] l2.accounts.contains_key(k) == l.accounts.contains_key(k))
                && (l.accounts.contains_key(k) ==> l2.accounts[k] == l.accounts[k])
            &&& match row.kind {
                RowKind::Deposit { amount } => after.available.0 == before.available.0 + amount.0
                    && after.held == before.held && !after.locked,
                RowKind::Withdrawal { amount } => after.available.0 == before.available.0 - amount.0
                    && after.held == before.held && !after.locked,
                RowKind::Dispute => after.available.0 == before.available.0 - named
                    && after.held.0 == before.held.0 + named && !after.locked,
                RowKind::Resolve => after.available.0 == before.available.0 + named
                    && after.held.0 == before.held.0 - named && !after.locked,
                RowKind::Chargeback => after.available == before.available
                    && after.held.0 == before.held.0 - named && after.locked,
            }
        }),
{
}

} // verus!
