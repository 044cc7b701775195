//! The errors of the transaction layer.

use vstd::prelude::*;
use vstd::string::StringExecFns;

verus! {

/// Why an operation on a transaction failed.
#[derive(Debug, Clone)]
pub enum TransactionError {
    NotFound(String),
    Conflict,
    Aborted,
    Deadlock,
    LockTimeout,
    InvalidIsolation,
}

impl TransactionError {
    /// The text of the error, as it is shown to people.
    pub fn message(&self) -> (text: String)
        ensures
            text@ == match *self {
                TransactionError::NotFound(detail) => "Transaction not found: "@ + detail@,
                TransactionError::Conflict => "Transaction conflict"@,
                TransactionError::Aborted => "Transaction aborted"@,
                TransactionError::Deadlock => "Deadlock detected"@,
                TransactionError::LockTimeout => "Lock timeout"@,
                TransactionError::InvalidIsolation => "Invalid isolation level"@,
            },
    {
        match self {
            TransactionError::NotFound(detail) => {
                let mut text = "Transaction not found: ".to_owned();
                text.append(detail.as_str());
                text
            },
            TransactionError::Conflict => "Transaction conflict".to_owned(),
            TransactionError::Aborted => "Transaction aborted".to_owned(),
            TransactionError::Deadlock => "Deadlock detected".to_owned(),
            TransactionError::LockTimeout => "Lock timeout".to_owned(),
            TransactionError::InvalidIsolation => "Invalid isolation level".to_owned(),
        }
    }
}

} // verus!
