use vstd::prelude::*;
use crate::range_key::UniqueU64BlobId;

verus! {

/// Where a transaction is in its life.
#[derive(Debug, Clone, Copy, PartialEq, Eq, Structural)]
pub enum TxStatus {
    Created,
    Pending,
}

/// A transaction, identified by its unique id.
#[derive(Debug, Clone, Copy, PartialEq, Eq, Structural)]
pub struct Transaction {
    pub id: UniqueU64BlobId,
    pub status: TxStatus,
}

} // verus!
