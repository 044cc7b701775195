//! A simplified SQL parser: it reads `SELECT` statements and names the
//! others.

use vstd::prelude::*;
use vstd::slice::slice_subrange;
use vstd::string::StringExecFns;
use crate::query::error::QueryError;
use crate::text::{
    chars_of,
    find,
    has_prefix,
    lowercase,
    lowercased,
    piece,
    same_text,
    search_from,
    split,
    split_ranges,
    starts_with,
    trim,
    trimmed,
};

verus! {

/// A statement of SQL.
#[derive(Debug, Clone)]
pub enum SqlStatement {
    Select { columns: Vec<String>, table: String, where_clause: Option<String> },
    Insert { table: String, columns: Vec<String>, values: Vec<Vec<String>> },
    Update { table: String, set_clause: Vec<(String, String)>, where_clause: Option<String> },
    Delete { table: String, where_clause: Option<String> },
}

/// A `SELECT` statement as a mathematical value.
pub struct SelectView {
    pub columns: Seq<Seq<char>>,
    pub table: Seq<char>,
    pub where_clause: Option<Seq<char>>,
}

/// The views of a run of strings.
pub open spec fn texts(strings: Seq<String>) -> Seq<Seq<char>> {
    strings.map_values(|s: String| s@)
}

/// The view of an optional string.
pub open spec fn optional_text(text: Option<String>) -> Option<Seq<char>> {
    match text {
        Some(s) => Some(s@),
        None => None,
    }
}

/// The columns that the text between `select` and `from` names: the one
/// column `*`, or the pieces between commas, each without the whitespace
/// around it.
pub open spec fn columns_of(select_part: Seq<char>) -> Seq<Seq<char>> {
    if select_part == "*"@ {
        seq!["*"@]
    } else {
        split(select_part, ',').map_values(|column: Seq<char>| trimmed(column))
    }
}

/// The `SELECT` statement that a text in lowercase spells, which begins
/// with `select`: the columns stand before the first ` from `, the table
/// behind it, up to the first ` where `, and the condition behind that.
pub open spec fn select_of(sql: Seq<char>) -> Option<SelectView> {
    match find(sql, " from "@) {
        None => None,
        Some(from_pos) => if from_pos < 6 {
            None
        } else {
            let columns = columns_of(trimmed(sql.subrange(6, from_pos)));
            let after_from = trimmed(sql.skip(from_pos + " from "@.len()));
            match find(after_from, " where "@) {
                Some(where_pos) => Some(
                    SelectView {
                        columns,
                        table: trimmed(after_from.take(where_pos)),
                        where_clause: Some(
                            trimmed(after_from.skip(where_pos + " where "@.len())),
                        ),
                    },
                ),
                None => Some(SelectView { columns, table: after_from, where_clause: None }),
            }
        },
    }
}

/// The statement that a text spells, where the parser reads it: the text
/// is taken without the whitespace around it and in lowercase.
pub open spec fn statement_of(sql: Seq<char>) -> Option<SelectView> {
    let text = lowercased(trimmed(sql));
    if starts_with(text, "select"@) {
        select_of(text)
    } else {
        None
    }
}

/// Simplified SQL parser.
pub struct SqlParser;

impl SqlParser {
    /// Parses a statement. A `SELECT` statement with a ` from ` is read;
    /// every other text is a parse error.
    pub fn parse(sql: &str) -> (r: Result<SqlStatement, QueryError>)
        ensures
            match r {
                Ok(SqlStatement::Select { columns, table, where_clause }) => statement_of(sql@)
                    == Some(
                    SelectView {
                        columns: texts(columns@),
                        table: table@,
                        where_clause: optional_text(where_clause),
                    },
                ),
                Ok(_) => false,
                Err(e) => e is Parse && statement_of(sql@).is_none(),
            },
    {
        let chars = chars_of(sql);
        let (start, end) = trim(chars.as_slice());
        let stripped = piece(chars.as_slice(), start, end);
        let lower = lowercase(stripped.as_str());
        let text = chars_of(lower.as_str());
        if has_prefix(text.as_slice(), chars_of("select").as_slice()) {
            Self::parse_select(text.as_slice())
        } else if has_prefix(text.as_slice(), chars_of("insert").as_slice()) {
            Self::parse_insert(text.as_slice())
        } else if has_prefix(text.as_slice(), chars_of("update").as_slice()) {
            Self::parse_update(text.as_slice())
        } else if has_prefix(text.as_slice(), chars_of("delete").as_slice()) {
            Self::parse_delete(text.as_slice())
        } else {
            let mut message = "Unsupported statement: ".to_owned();
            message.append(lower.as_str());
            Err(QueryError::Parse(message))
        }
    }

    /// Reads a `SELECT` statement from a text in lowercase.
    fn parse_select(sql: &[char]) -> (r: Result<SqlStatement, QueryError>)
        ensures
            match r {
                Ok(SqlStatement::Select { columns, table, where_clause }) => select_of(sql@)
                    == Some(
                    SelectView {
                        columns: texts(columns@),
                        table: table@,
                        where_clause: optional_text(where_clause),
                    },
                ),
                Ok(_) => false,
                Err(e) => e is Parse && select_of(sql@).is_none(),
            },
    {
        let from_word = chars_of(" from ");
        let where_word = chars_of(" where ");
        let from_pos = match search_from(sql, from_word.as_slice(), 0) {
            Some(at) => at,
            None => {
                return Err(QueryError::Parse("Invalid SELECT statement".to_string()));
            },
        };
        if from_pos < 6 {
            return Err(QueryError::Parse("Invalid SELECT statement".to_string()));
        }
        let columns = Self::read_columns(slice_subrange(sql, 6, from_pos));
        let len: usize = sql.len();
        let behind: usize = from_pos + from_word.len();
        let rest = slice_subrange(sql, behind, len);
        assert(rest@ =~= sql@.skip(from_pos + " from "@.len()));
        let (start, end) = trim(rest);
        let after_from = slice_subrange(rest, start, end);
        match search_from(after_from, where_word.as_slice(), 0) {
            Some(where_pos) => {
                let table_part = slice_subrange(after_from, 0, where_pos);
                let (table_start, table_end) = trim(table_part);
                let table = piece(table_part, table_start, table_end);
                let after_len: usize = after_from.len();
                let condition_part = slice_subrange(
                    after_from,
                    where_pos + where_word.len(),
                    after_len,
                );
                assert(condition_part@ =~= after_from@.skip(where_pos + " where "@.len()));
                let (condition_start, condition_end) = trim(condition_part);
                let condition = piece(condition_part, condition_start, condition_end);
                Ok(SqlStatement::Select { columns, table, where_clause: Some(condition) })
            },
            None => {
                let table = piece(after_from, 0, after_from.len());
                assert(after_from@.subrange(0, after_from@.len() as int) =~= after_from@);
                Ok(SqlStatement::Select { columns, table, where_clause: None })
            },
        }
    }

    /// Reads the columns that the text between `select` and `from` names.
    fn read_columns(part: &[char]) -> (columns: Vec<String>)
        ensures
            texts(columns@) == columns_of(trimmed(part@)),
    {
        let (start, end) = trim(part);
        let select_part = slice_subrange(part, start, end);
        let mut columns: Vec<String> = Vec::new();
        if same_text(select_part, chars_of("*").as_slice()) {
            columns.push("*".to_string());
            assert(texts(columns@) =~= seq!["*"@]);
            return columns;
        }
        let ranges = split_ranges(select_part, ',');
        let ghost pieces = split(select_part@, ',');
        let mut i: usize = 0;
        while i < ranges.len()
            invariant
                i <= ranges@.len(),
                ranges@.len() == pieces.len(),
                forall|k: int|
                    0 <= k < ranges@.len() ==> {
                        &&& (#[trigger] ranges@[k]).0 <= ranges@[k].1 <= select_part@.len()
                        &&& select_part@.subrange(ranges@[k].0 as int, ranges@[k].1 as int)
                            == pieces[k]
                    },
                columns@.len() == i,
                forall|k: int| 0 <= k < i ==> (#[trigger] columns@[k])@ == trimmed(pieces[k]),
            decreases ranges@.len() - i,
        {
            let range = ranges[i];
            let column_part = slice_subrange(select_part, range.0, range.1);
            let (column_start, column_end) = trim(column_part);
            columns.push(piece(column_part, column_start, column_end));
            i += 1;
        }
        assert(texts(columns@) =~= pieces.map_values(|column: Seq<char>| trimmed(column)));
        columns
    }

    /// `INSERT` is named but not read.
    fn parse_insert(_sql: &[char]) -> (r: Result<SqlStatement, QueryError>)
        ensures
            r matches Err(e) && e is Parse,
    {
        Err(QueryError::Parse("INSERT not implemented yet".to_string()))
    }

    /// `UPDATE` is named but not read.
    fn parse_update(_sql: &[char]) -> (r: Result<SqlStatement, QueryError>)
        ensures
            r matches Err(e) && e is Parse,
    {
        Err(QueryError::Parse("UPDATE not implemented yet".to_string()))
    }

    /// `DELETE` is named but not read.
    fn parse_delete(_sql: &[char]) -> (r: Result<SqlStatement, QueryError>)
        ensures
            r matches Err(e) && e is Parse,
    {
        Err(QueryError::Parse("DELETE not implemented yet".to_string()))
    }
}

} // verus!
