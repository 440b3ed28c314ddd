//! Errors of the pool and of block building.
use vstd::prelude::*;

use crate::config::MempoolOrdering;
use crate::entry::MempoolPhase;
use crate::felt::Felt;

verus! {

/// Why a pool or block-building operation was refused.
#[derive(Debug, PartialEq, Eq)]
pub enum MempoolError {
    /// A transaction with this hash is already pooled.
    DuplicateTransaction { transaction_hash: Felt },
    /// Another pooled transaction already uses this account nonce.
    NonceConflict { address: Felt, nonce: Felt },
    /// No pooled transaction has the requested hash.
    NoTransaction,
    /// Only RECEIVED transactions can be removed; this one is in another phase.
    NotRemovable { transaction_hash: Felt, phase: MempoolPhase },
    /// The operation needs a RECEIVED transaction.
    NotReceived { transaction_hash: Felt },
    /// The transaction was not marked as a candidate before being pre-confirmed.
    NotSelected { transaction_hash: Felt },
    /// A block must be allowed to hold at least one transaction.
    ZeroBlockCapacity,
    /// No ordering policy is registered under this name; `available` lists the registered
    /// names.
    UnknownOrderingPolicy { name: MempoolOrdering, available: Vec<MempoolOrdering> },
    /// An ordering policy picked a transaction outside the current selection round.
    IneligibleSelection { transaction_hash: Felt },
    /// A forced selection names the same hash twice.
    DuplicatedHash { transaction_hash: Felt },
    /// A hash is both forced into the block and listed for sweeping.
    SelectedAndSwept { transaction_hash: Felt },
    /// A hash listed for sweeping is not stale.
    NotStale { transaction_hash: Felt },
}

} // verus!
