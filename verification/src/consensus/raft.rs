//! A simplified Raft node: it keeps a term, a state and a log, and takes
//! proposals while it is the leader.

use vstd::prelude::*;
use crate::consensus::error::ConsensusError;

verus! {

pub use crate::types::NodeId;

/// The configuration of a node: who it is, who its peers are, and its
/// timers.
#[derive(Debug, Clone)]
pub struct RaftConfig {
    pub node_id: NodeId,
    pub peers: Vec<NodeId>,
    pub election_timeout_ms: u64,
    pub heartbeat_interval_ms: u64,
}

/// The role of a node.
#[derive(Debug, Clone, Copy, PartialEq, Eq, Structural)]
pub enum RaftState {
    Follower,
    Candidate,
    Leader,
}

/// One entry of the replicated log.
#[derive(Debug, Clone)]
pub struct LogEntry {
    pub term: u64,
    pub index: u64,
    pub data: Vec<u8>,
}

/// A log entry as a mathematical value.
pub struct LogEntryView {
    pub term: u64,
    pub index: u64,
    pub data: Seq<u8>,
}

impl View for LogEntry {
    type V = LogEntryView;

    open spec fn view(&self) -> LogEntryView {
        LogEntryView { term: self.term, index: self.index, data: self.data@ }
    }
}

/// The views of the entries of a log.
pub open spec fn log_view(log: Seq<LogEntry>) -> Seq<LogEntryView> {
    log.map_values(|entry: LogEntry| entry@)
}

/// Simplified Raft node.
pub struct RaftNode {
    config: RaftConfig,
    state: RaftState,
    current_term: u64,
    voted_for: Option<NodeId>,
    log: Vec<LogEntry>,
    commit_index: u64,
    last_applied: u64,
    // Leader state, by the number of the peer.
    next_index: Vec<(NodeId, u64)>,
    match_index: Vec<(NodeId, u64)>,
}

impl RaftNode {
    /// The role of the node.
    pub closed spec fn role(&self) -> RaftState {
        self.state
    }

    /// The term of the node.
    pub closed spec fn term(&self) -> u64 {
        self.current_term
    }

    /// The entries of the log.
    pub closed spec fn entries(&self) -> Seq<LogEntryView> {
        log_view(self.log@)
    }

    /// The configuration that the node was started with.
    pub closed spec fn configuration(&self) -> RaftConfig {
        self.config
    }

    /// The node that this node has voted for in its term, if it has voted.
    pub closed spec fn vote(&self) -> Option<NodeId> {
        self.voted_for
    }

    /// The index up to which the log is known to be committed.
    pub closed spec fn committed(&self) -> u64 {
        self.commit_index
    }

    /// The index up to which the log is applied.
    pub closed spec fn applied(&self) -> u64 {
        self.last_applied
    }

    /// What a leader keeps of its peers: for each the index of the next
    /// entry to send it.
    pub closed spec fn next_indexes(&self) -> Seq<(NodeId, u64)> {
        self.next_index@
    }

    /// What a leader keeps of its peers: for each the highest index that it
    /// is known to hold.
    pub closed spec fn match_indexes(&self) -> Seq<(NodeId, u64)> {
        self.match_index@
    }

    /// A node that has just started with the given configuration: a
    /// follower in term 0 that has not voted, with an empty log of which
    /// nothing is committed or applied, and with nothing kept of its peers.
    pub fn new(config: RaftConfig) -> (node: Self)
        ensures
            node.configuration() == config,
            node.role() == RaftState::Follower,
            node.term() == 0,
            node.vote() == None::<NodeId>,
            node.entries() == Seq::<LogEntryView>::empty(),
            node.committed() == 0,
            node.applied() == 0,
            node.next_indexes() == Seq::<(NodeId, u64)>::empty(),
            node.match_indexes() == Seq::<(NodeId, u64)>::empty(),
    {
        let node = RaftNode {
            config,
            state: RaftState::Follower,
            current_term: 0,
            voted_for: None,
            log: Vec::new(),
            commit_index: 0,
            last_applied: 0,
            next_index: Vec::new(),
            match_index: Vec::new(),
        };
        assert(node.entries() =~= Seq::<LogEntryView>::empty());
        node
    }

    /// Whether the node is the leader.
    pub fn is_leader(&self) -> (leader: bool)
        ensures
            leader == (self.role() == RaftState::Leader),
    {
        match self.state {
            RaftState::Leader => true,
            _ => false,
        }
    }

    /// The term of the node.
    pub fn current_term(&self) -> (term: u64)
        ensures
            term == self.term(),
    {
        self.current_term
    }

    /// The role of the node.
    pub fn state(&self) -> (state: &RaftState)
        ensures
            *state == self.role(),
    {
        &self.state
    }

    /// Proposes `data` for the log. The leader appends an entry of its term
    /// at the end of the log and returns the entry's index; any other node
    /// refuses and keeps its log.
    pub fn propose(&mut self, data: Vec<u8>) -> (r: Result<u64, ConsensusError>)
        ensures
            final(self).role() == old(self).role(),
            final(self).term() == old(self).term(),
            match r {
                Ok(index) => {
                    &&& old(self).role() == RaftState::Leader
                    &&& index == old(self).entries().len()
                    &&& final(self).entries() == old(self).entries().push(
                        LogEntryView { term: old(self).term(), index, data: data@ },
                    )
                },
                Err(e) => {
                    &&& e is NotLeader
                    &&& old(self).role() != RaftState::Leader
                    &&& final(self).entries() == old(self).entries()
                },
            },
    {
        if !self.is_leader() {
            return Err(ConsensusError::NotLeader);
        }
        let index: u64 = self.log.len() as u64;
        let entry = LogEntry { term: self.current_term, index, data };
        let ghost before = self.log@;
        self.log.push(entry);
        assert(self.entries() =~= log_view(before).push(entry@));
        Ok(index)
    }

    /// The entry at `index`, if the log has one there.
    pub fn get_log_entry(&self, index: u64) -> (entry: Option<&LogEntry>)
        ensures
            match entry {
                Some(found) => index < self.entries().len() && found@ == self.entries()[index as int],
                None => index >= self.entries().len(),
            },
    {
        if index < self.log.len() as u64 {
            Some(&self.log[index as usize])
        } else {
            None
        }
    }

    /// The number of entries in the log.
    pub fn log_len(&self) -> (n: u64)
        ensures
            n == self.entries().len(),
    {
        self.log.len() as u64
    }
}

} // verus!
