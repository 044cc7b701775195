//! The errors of the query layer.

use vstd::prelude::*;
use vstd::string::StringExecFns;

verus! {

/// Why a query failed. The text is for people; contracts speak of the
/// variant only.
#[derive(Debug, Clone)]
pub enum QueryError {
    Parse(String),
    Plan(String),
    Execution(String),
    Invalid(String),
    TableNotFound(String),
    ColumnNotFound(String),
}

impl QueryError {
    /// The text of the error, as it is shown to people: what kind of error
    /// it is, then its detail.
    pub fn message(&self) -> (text: String)
        ensures
            text@ == match *self {
                QueryError::Parse(detail) => "Parse error: "@ + detail@,
                QueryError::Plan(detail) => "Plan error: "@ + detail@,
                QueryError::Execution(detail) => "Execution error: "@ + detail@,
                QueryError::Invalid(detail) => "Invalid query: "@ + detail@,
                QueryError::TableNotFound(detail) => "Table not found: "@ + detail@,
                QueryError::ColumnNotFound(detail) => "Column not found: "@ + detail@,
            },
    {
        let (prefix, detail) = match self {
            QueryError::Parse(detail) => ("Parse error: ", detail),
            QueryError::Plan(detail) => ("Plan error: ", detail),
            QueryError::Execution(detail) => ("Execution error: ", detail),
            QueryError::Invalid(detail) => ("Invalid query: ", detail),
            QueryError::TableNotFound(detail) => ("Table not found: ", detail),
            QueryError::ColumnNotFound(detail) => ("Column not found: ", detail),
        };
        let mut text = prefix.to_owned();
        text.append(detail.as_str());
        text
    }
}

} // verus!
