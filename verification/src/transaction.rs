use vstd::prelude::*;
use crate::ids::ClientId;
use crate::money::Money;

verus! {

/// The two kinds of transaction that move money.
#[derive(Clone, Copy, PartialEq, Eq, Debug)]
pub enum TxKind {
    Deposit,
    Withdrawal,
}

/// What the ledger remembers of an accepted deposit or withdrawal.
#[derive(Clone, Copy, Debug, PartialEq, Eq)]
pub struct Transaction {
    pub client: ClientId,
    pub kind: TxKind,
    pub amount: Money,
    pub disputed: bool,
    /// Charged back: the id stays taken, and the transaction can no longer be named.
    pub burned: bool,
}

} // verus!
