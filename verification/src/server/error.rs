//! The errors of the server.

use vstd::prelude::*;
use vstd::string::StringExecFns;

verus! {

/// Why the server failed.
#[derive(Debug, Clone)]
pub enum ServerError {
    /// The file system or the network failed; raised by the host program.
    Io(String),
    /// A value could not be turned into bytes or back; raised by the host
    /// program.
    Serde(String),
    Network(String),
    Config(String),
}

impl ServerError {
    /// The text of the error, as it is shown to people.
    pub fn message(&self) -> (text: String)
        ensures
            text@ == match *self {
                ServerError::Io(detail) => "IO error: "@ + detail@,
                ServerError::Serde(detail) => "Serialization error: "@ + detail@,
                ServerError::Network(detail) => "Network error: "@ + detail@,
                ServerError::Config(detail) => "Configuration error: "@ + detail@,
            },
    {
        let (prefix, detail) = match self {
            ServerError::Io(detail) => ("IO error: ", detail),
            ServerError::Serde(detail) => ("Serialization error: ", detail),
            ServerError::Network(detail) => ("Network error: ", detail),
            ServerError::Config(detail) => ("Configuration error: ", detail),
        };
        let mut text = prefix.to_owned();
        text.append(detail.as_str());
        text
    }
}

} // verus!
