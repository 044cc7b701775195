//! The errors of the consensus layer.

use vstd::prelude::*;
use vstd::string::StringExecFns;

verus! {

/// Why an operation of the consensus layer failed.
#[derive(Debug, Clone)]
pub enum ConsensusError {
    /// The file system failed; raised by the host program.
    Io(String),
    /// A value could not be turned into bytes or back; raised by the host
    /// program.
    Serde(String),
    NotLeader,
    ElectionTimeout,
    Network(String),
    Config(String),
    Internal(String),
}

impl ConsensusError {
    /// The text of the error, as it is shown to people.
    pub fn message(&self) -> (text: String)
        ensures
            text@ == match *self {
                ConsensusError::Io(detail) => "IO error: "@ + detail@,
                ConsensusError::Serde(detail) => "Serialization error: "@ + detail@,
                ConsensusError::NotLeader => "Not leader"@,
                ConsensusError::ElectionTimeout => "Election timeout"@,
                ConsensusError::Network(detail) => "Network error: "@ + detail@,
                ConsensusError::Config(detail) => "Invalid configuration: "@ + detail@,
                ConsensusError::Internal(detail) => "Consensus error: "@ + detail@,
            },
    {
        let (prefix, detail) = match self {
            ConsensusError::Io(detail) => ("IO error: ", detail),
            ConsensusError::Serde(detail) => ("Serialization error: ", detail),
            ConsensusError::NotLeader => {
                return "Not leader".to_owned();
            },
            ConsensusError::ElectionTimeout => {
                return "Election timeout".to_owned();
            },
            ConsensusError::Network(detail) => ("Network error: ", detail),
            ConsensusError::Config(detail) => ("Invalid configuration: ", detail),
            ConsensusError::Internal(detail) => ("Consensus error: ", detail),
        };
        let mut text = prefix.to_owned();
        text.append(detail.as_str());
        text
    }
}

} // verus!
