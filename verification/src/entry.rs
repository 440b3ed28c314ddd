//! What the pool records of each transaction.
use vstd::prelude::*;

use crate::felt::Felt;

verus! {

/// Lifecycle of a pooled transaction: waiting, picked for execution, or part of the open
/// proposal.
#[derive(Clone, Copy, Debug, PartialEq, Eq, Structural)]
pub enum MempoolPhase {
    Received,
    Candidate,
    PreConfirmed,
}

/// System-lane transactions are always served before user ordering policies are consulted.
#[derive(Clone, Copy, Debug, PartialEq, Eq, Structural)]
pub enum MempoolLane {
    User,
    System,
}

/// A transaction that passed validation and is ready to enter the pool.
///
/// The executable payload itself is kept by the caller under `transaction_hash`; the pool
/// works on the values below, which are all that admission and ordering read.
#[derive(Clone, Copy, Debug, PartialEq, Eq, Structural)]
pub struct PreparedTransaction {
    pub transaction_hash: Felt,
    pub account_address: Option<Felt>,
    pub nonce: Option<Felt>,
    pub tip: u64,
    pub max_l2_gas_price: u128,
    pub lane: MempoolLane,
}

/// A pooled transaction together with its lifecycle state and arrival position.
#[derive(Clone, Copy, Debug, PartialEq, Eq, Structural)]
pub struct MempoolEntry {
    pub transaction_hash: Felt,
    pub phase: MempoolPhase,
    pub arrival_id: u64,
    pub account_address: Option<Felt>,
    pub nonce: Option<Felt>,
    pub tip: u64,
    pub max_l2_gas_price: u128,
    pub lane: MempoolLane,
}

impl MempoolEntry {
    /// The tip as an integer.
    pub open spec fn tip_value(self) -> int {
        self.tip as int
    }

    /// The arrival position as an integer.
    pub open spec fn arrival_value(self) -> int {
        self.arrival_id as int
    }

    /// The `(account, nonce)` slot this entry occupies, if it carries both.
    pub open spec fn spec_account_nonce(self) -> Option<(Felt, Felt)> {
        match (self.account_address, self.nonce) {
            (Some(a), Some(n)) => Some((a, n)),
            _ => None,
        }
    }

    pub fn account_nonce(&self) -> (r: Option<(Felt, Felt)>)
        ensures
            r == self.spec_account_nonce(),
    {
        match (self.account_address, self.nonce) {
            (Some(a), Some(n)) => Some((a, n)),
            _ => None,
        }
    }
}

impl PreparedTransaction {
    pub open spec fn spec_account_nonce(self) -> Option<(Felt, Felt)> {
        match (self.account_address, self.nonce) {
            (Some(a), Some(n)) => Some((a, n)),
            _ => None,
        }
    }

    /// A user account transaction: it occupies its sender's nonce and carries its tip and
    /// maximal L2 gas price.
    pub fn account(transaction_hash: Felt, sender_address: Felt, nonce: Felt, tip: u64, max_l2_gas_price: u128) -> (r: Self)
        ensures
            r == (PreparedTransaction {
                transaction_hash,
                account_address: Some(sender_address),
                nonce: Some(nonce),
                tip,
                max_l2_gas_price,
                lane: MempoolLane::User,
            }),
    {
        PreparedTransaction {
            transaction_hash,
            account_address: Some(sender_address),
            nonce: Some(nonce),
            tip,
            max_l2_gas_price,
            lane: MempoolLane::User,
        }
    }

    /// A system-lane transaction without an account (an L1 handler): no nonce, no tip and no
    /// gas price.
    pub fn system(transaction_hash: Felt) -> (r: Self)
        ensures
            r == (PreparedTransaction {
                transaction_hash,
                account_address: None,
                nonce: None,
                tip: 0,
                max_l2_gas_price: 0,
                lane: MempoolLane::System,
            }),
    {
        PreparedTransaction {
            transaction_hash,
            account_address: None,
            nonce: None,
            tip: 0,
            max_l2_gas_price: 0,
            lane: MempoolLane::System,
        }
    }

    /// An administrative account transaction (such as a mint): like [`PreparedTransaction::account`]
    /// but in the system lane, so that it is served before user ordering policies.
    pub fn system_account(transaction_hash: Felt, sender_address: Felt, nonce: Felt, tip: u64, max_l2_gas_price: u128) -> (r: Self)
        ensures
            r == (PreparedTransaction {
                transaction_hash,
                account_address: Some(sender_address),
                nonce: Some(nonce),
                tip,
                max_l2_gas_price,
                lane: MempoolLane::System,
            }),
    {
        PreparedTransaction {
            transaction_hash,
            account_address: Some(sender_address),
            nonce: Some(nonce),
            tip,
            max_l2_gas_price,
            lane: MempoolLane::System,
        }
    }
}

} // verus!
