//! The planner: from a statement to the plan that answers it.

use vstd::prelude::*;
use crate::query::error::QueryError;
use crate::query::parser::SqlStatement;

verus! {

/// A plan that the executor can run.
#[derive(Debug, Clone)]
pub enum PhysicalPlan {
    TableScan { table: String, columns: Vec<String>, filter: Option<String> },
    IndexScan { table: String, index: String, columns: Vec<String>, filter: Option<String> },
}

/// Query planner that converts SQL statements to execution plans.
pub struct QueryPlanner;

impl QueryPlanner {
    /// Plans a statement: a `SELECT` becomes a scan of its table for its
    /// columns, filtered by its condition; every other statement is a plan
    /// error.
    pub fn plan(statement: SqlStatement) -> (r: Result<PhysicalPlan, QueryError>)
        ensures
            match statement {
                SqlStatement::Select { columns, table, where_clause } => r == Ok::<
                    PhysicalPlan,
                    QueryError,
                >(PhysicalPlan::TableScan { table, columns, filter: where_clause }),
                _ => r matches Err(e) && e is Plan,
            },
    {
        match statement {
            SqlStatement::Select { columns, table, where_clause } => Ok(
                PhysicalPlan::TableScan { table, columns, filter: where_clause },
            ),
            _ => Err(QueryError::Plan("Only SELECT supported".to_string())),
        }
    }
}

} // verus!
