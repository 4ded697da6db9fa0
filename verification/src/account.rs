use vstd::prelude::*;
use crate::money::Money;

verus! {

/// One client's balances.
#[derive(Clone, Copy, Debug, PartialEq, Eq)]
pub struct Account {
    pub available: Money,
    pub held: Money,
    pub locked: bool,
}

/// A new account: nothing available, nothing held, not locked.
pub open spec fn zero_account() -> Account {
    Account { available: Money(0), held: Money(0), locked: false }
}

impl Account {
    pub fn new() -> (a: Account)
        ensures
            a == zero_account(),
    {
        Account { available: Money::zero(), held: Money::zero(), locked: false }
    }
}

impl Default for Account {
    fn default() -> (a: Account)
        ensures
            a == zero_account(),
    {
        Self::new()
    }
}

} // verus!
