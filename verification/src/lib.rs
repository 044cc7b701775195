//! NextDB: a database around a log-structured merge-tree storage engine,
//! with machine-checked contracts.
//!
//! The storage engine is the core. It is deterministic and works on plain
//! values: the write-ahead log and every sorted table are byte images, and
//! a host program writes them to the files that they are images of. What
//! the engine does is stated over a mathematical model of the tree, and
//! that reads see the writes, that tombstones shadow older tiers, and that
//! the tree can be recovered from its log are proved of that model.
//!
//! Around the core stand small layers: a query layer, a client, a consensus
//! node, a transaction manager, and the decisions of a simulated server.

pub mod client;
pub mod clock;
pub mod consensus;
pub mod error;
pub mod query;
pub mod server;
pub mod storage;
pub mod text;
pub mod transaction;
pub mod types;
