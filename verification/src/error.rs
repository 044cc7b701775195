//! The errors of the database as a whole.

use vstd::prelude::*;
use vstd::string::StringExecFns;

verus! {

/// Why an operation of the database failed, by the layer that failed.
#[derive(Debug, Clone)]
pub enum NextDBError {
    Storage(String),
    Consensus(String),
    Query(String),
    Transaction(String),
    Network(String),
    Configuration(String),
    Internal(String),
}

impl NextDBError {
    /// The text of the error, as it is shown to people: the layer, then
    /// the detail.
    pub fn message(&self) -> (text: String)
        ensures
            text@ == match *self {
                NextDBError::Storage(detail) => "Storage error: "@ + detail@,
                NextDBError::Consensus(detail) => "Consensus error: "@ + detail@,
                NextDBError::Query(detail) => "Query error: "@ + detail@,
                NextDBError::Transaction(detail) => "Transaction error: "@ + detail@,
                NextDBError::Network(detail) => "Network error: "@ + detail@,
                NextDBError::Configuration(detail) => "Configuration error: "@ + detail@,
                NextDBError::Internal(detail) => "Internal error: "@ + detail@,
            },
    {
        let (prefix, detail) = match self {
            NextDBError::Storage(detail) => ("Storage error: ", detail),
            NextDBError::Consensus(detail) => ("Consensus error: ", detail),
            NextDBError::Query(detail) => ("Query error: ", detail),
            NextDBError::Transaction(detail) => ("Transaction error: ", detail),
            NextDBError::Network(detail) => ("Network error: ", detail),
            NextDBError::Configuration(detail) => ("Configuration error: ", detail),
            NextDBError::Internal(detail) => ("Internal error: ", detail),
        };
        let mut text = prefix.to_owned();
        text.append(detail.as_str());
        text
    }
}

} // verus!
