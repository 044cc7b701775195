//! Transactions: their identifiers, isolation levels and states.

use vstd::prelude::*;
use crate::clock::now_millis;
use crate::types::{FIXED_BITS, RANDOM_MARK};

verus! {

pub use crate::types::TransactionId;

/// How much a transaction sees of the others.
#[derive(Debug, Clone, Copy, PartialEq, Eq, Structural)]
pub enum IsolationLevel {
    ReadUncommitted,
    ReadCommitted,
    RepeatableRead,
    Serializable,
}

/// Where a transaction stands.
#[derive(Debug, Clone, Copy, PartialEq, Eq, Structural)]
pub enum TransactionStatus {
    Active,
    Committed,
    Aborted,
}

/// A transaction.
#[derive(Debug, Clone, Copy, PartialEq, Eq, Structural)]
pub struct Transaction {
    pub id: TransactionId,
    pub isolation_level: IsolationLevel,
    pub start_timestamp: u64,
    pub status: TransactionStatus,
}

impl Transaction {
    /// An active transaction with a random identifier, started now.
    pub fn new(isolation_level: IsolationLevel) -> (txn: Self)
        ensures
            txn.id.0 & FIXED_BITS == RANDOM_MARK,
            txn.isolation_level == isolation_level,
            txn.status == TransactionStatus::Active,
    {
        Self::started(TransactionId::new(), isolation_level, now_millis())
    }

    /// An active transaction with the given identifier and start time.
    pub fn started(id: TransactionId, isolation_level: IsolationLevel, start_timestamp: u64) -> (txn: Self)
        ensures
            txn == (Transaction {
                id,
                isolation_level,
                start_timestamp,
                status: TransactionStatus::Active,
            }),
    {
        Transaction { id, isolation_level, start_timestamp, status: TransactionStatus::Active }
    }

    /// Whether the transaction is neither committed nor aborted.
    pub fn is_active(&self) -> (active: bool)
        ensures
            active == (self.status == TransactionStatus::Active),
    {
        match self.status {
            TransactionStatus::Active => true,
            _ => false,
        }
    }
}

} // verus!
