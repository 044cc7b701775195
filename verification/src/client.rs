//! The client: it sends queries and shows their results.

pub mod client;
pub mod error;

pub use client::{format_query_result, DatabaseClient, QueryResult};
pub use error::ClientError;
