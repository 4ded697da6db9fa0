use vstd::prelude::*;
use crate::ids::{ClientId, TxId};
use crate::money::Money;

verus! {

/// What a row asks the ledger to do.
#[derive(Clone, Copy, Debug, PartialEq, Eq)]
pub enum RowKind {
    Deposit { amount: Money },
    Withdrawal { amount: Money },
    Dispute,
    Resolve,
    Chargeback,
}

/// One parsed input row.
#[derive(Clone, Copy, Debug, PartialEq, Eq)]
pub struct Row {
    pub kind: RowKind,
    pub client: ClientId,
    pub tx: TxId,
}

} // verus!
