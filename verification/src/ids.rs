use vstd::prelude::*;

verus! {

/// A client's identifier.
#[derive(Clone, Copy, PartialEq, Eq, Debug, Hash)]
pub struct ClientId(pub u16);

/// A transaction's identifier, unique across all clients.
#[derive(Clone, Copy, PartialEq, Eq, Debug, Hash)]
pub struct TxId(pub u32);

} // verus!
