//! The errors of the client.

use vstd::prelude::*;
use vstd::string::StringExecFns;

verus! {

/// Why a request of the client failed.
#[derive(Debug, Clone)]
pub enum ClientError {
    Connection(String),
    Query(String),
    Timeout,
    Authentication,
    Network(String),
}

impl ClientError {
    /// The text of the error, as it is shown to people.
    pub fn message(&self) -> (text: String)
        ensures
            text@ == match *self {
                ClientError::Connection(detail) => "Connection error: "@ + detail@,
                ClientError::Query(detail) => "Query error: "@ + detail@,
                ClientError::Timeout => "Timeout error"@,
                ClientError::Authentication => "Authentication failed"@,
                ClientError::Network(detail) => "Network error: "@ + detail@,
            },
    {
        match self {
            ClientError::Connection(detail) => {
                let mut text = "Connection error: ".to_owned();
                text.append(detail.as_str());
                text
            },
            ClientError::Query(detail) => {
                let mut text = "Query error: ".to_owned();
                text.append(detail.as_str());
                text
            },
            ClientError::Timeout => "Timeout error".to_owned(),
            ClientError::Authentication => "Authentication failed".to_owned(),
            ClientError::Network(detail) => {
                let mut text = "Network error: ".to_owned();
                text.append(detail.as_str());
                text
            },
        }
    }
}

} // verus!
