//! The consensus layer: a simplified Raft node.

pub mod error;
pub mod raft;

pub use error::ConsensusError;
pub use raft::{LogEntry, NodeId, RaftConfig, RaftNode, RaftState};
