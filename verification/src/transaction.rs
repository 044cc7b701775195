//! The transaction layer: transactions and the manager that keeps them.

pub mod error;
pub mod manager;
pub mod mvcc;

pub use error::TransactionError;
pub use manager::TransactionManager;
pub use mvcc::{IsolationLevel, Transaction, TransactionId, TransactionStatus};
