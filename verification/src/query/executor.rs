//! The executor: a stand-in that answers every plan with the same two rows.

use vstd::prelude::*;
use crate::query::error::QueryError;
use crate::query::parser::texts;
use crate::query::planner::PhysicalPlan;

verus! {

/// The rows that a query gave, under the names of their columns.
#[derive(Debug, Clone)]
pub struct ResultSet {
    pub columns: Vec<String>,
    pub rows: Vec<Vec<String>>,
}

/// The views of rows of strings.
pub open spec fn rows_view(rows: Seq<Vec<String>>) -> Seq<Seq<Seq<char>>> {
    rows.map_values(|row: Vec<String>| texts(row@))
}

/// The names of the columns of the stand-in answer.
pub open spec fn sample_columns() -> Seq<Seq<char>> {
    seq!["id"@, "name"@]
}

/// The rows of the stand-in answer.
pub open spec fn sample_rows() -> Seq<Seq<Seq<char>>> {
    seq![seq!["1"@, "Alice"@], seq!["2"@, "Bob"@]]
}

/// The columns of the stand-in answer.
pub fn make_sample_columns() -> (columns: Vec<String>)
    ensures
        texts(columns@) == sample_columns(),
{
    let mut columns: Vec<String> = Vec::new();
    columns.push("id".to_string());
    columns.push("name".to_string());
    assert(texts(columns@) =~= sample_columns());
    columns
}

/// The rows of the stand-in answer.
pub fn make_sample_rows() -> (rows: Vec<Vec<String>>)
    ensures
        rows_view(rows@) == sample_rows(),
{
    let mut first: Vec<String> = Vec::new();
    first.push("1".to_string());
    first.push("Alice".to_string());
    let mut second: Vec<String> = Vec::new();
    second.push("2".to_string());
    second.push("Bob".to_string());
    assert(texts(first@) =~= seq!["1"@, "Alice"@]);
    assert(texts(second@) =~= seq!["2"@, "Bob"@]);
    let mut rows: Vec<Vec<String>> = Vec::new();
    rows.push(first);
    rows.push(second);
    assert(rows_view(rows@) =~= sample_rows());
    rows
}

/// Query executor that executes physical plans.
pub struct QueryExecutor;

impl QueryExecutor {
    /// Runs a plan. Whatever the plan, the answer is the stand-in one:
    /// the columns `id` and `name` with two rows.
    pub fn execute(_plan: PhysicalPlan) -> (r: Result<ResultSet, QueryError>)
        ensures
            r matches Ok(result) && texts(result.columns@) == sample_columns() && rows_view(
                result.rows@,
            ) == sample_rows(),
    {
        Ok(ResultSet { columns: make_sample_columns(), rows: make_sample_rows() })
    }
}

} // verus!
