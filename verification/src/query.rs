//! The query layer: a small SQL parser, a planner and an executor.

pub mod error;
pub mod executor;
pub mod parser;
pub mod planner;

pub use error::QueryError;
pub use executor::QueryExecutor;
pub use parser::SqlParser;
pub use planner::QueryPlanner;
