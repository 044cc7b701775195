//! The database client and the table that it prints for a result.

use vstd::prelude::*;
use vstd::string::StringExecFns;
use vstd::utf8::encode_utf8;
use crate::client::error::ClientError;
use crate::query::executor::{
    make_sample_columns,
    make_sample_rows,
    rows_view,
    sample_columns,
    sample_rows,
};
use crate::query::parser::texts;
use crate::text::{chars_of, decimal, push_decimal, same_text, trim, trimmed};

verus! {

/// The rows that a query gave, under the names of their columns.
#[derive(Debug, Clone)]
pub struct QueryResult {
    pub columns: Vec<String>,
    pub rows: Vec<Vec<String>>,
}

/// What a line typed at the prompt asks for.
#[derive(Debug, Clone, Copy, PartialEq, Eq, Structural)]
pub enum ClientCommand {
    /// `exit` or `quit`: leave.
    Quit,
    /// `help`: show the commands.
    Help,
    /// An empty line: ask again.
    Skip,
    /// Anything else: run it as a query.
    Query,
}

/// What a line asks for, once the whitespace around it is left out.
pub open spec fn command_of(line: Seq<char>) -> ClientCommand {
    let input = trimmed(line);
    if input == "exit"@ || input == "quit"@ {
        ClientCommand::Quit
    } else if input == "help"@ {
        ClientCommand::Help
    } else if input == ""@ {
        ClientCommand::Skip
    } else {
        ClientCommand::Query
    }
}

/// Database client.
pub struct DatabaseClient {
    connection_string: String,
}

impl DatabaseClient {
    /// Where the client connects to.
    pub closed spec fn address(&self) -> Seq<char> {
        self.connection_string@
    }

    /// A client for the database at `connection_string`, connected.
    pub fn new(connection_string: &str) -> (r: Result<Self, ClientError>)
        ensures
            r matches Ok(client) && client.address() == connection_string@,
    {
        let client = DatabaseClient { connection_string: connection_string.to_owned() };
        match client.connect() {
            Ok(_) => Ok(client),
            Err(e) => Err(e),
        }
    }

    /// Connects. This stand-in has nothing to connect to and succeeds.
    pub fn connect(&self) -> (r: Result<(), ClientError>)
        ensures
            r is Ok,
    {
        Ok(())
    }

    /// Where the client connects to.
    pub fn connection_string(&self) -> (address: &str)
        ensures
            address@ == self.address(),
    {
        self.connection_string.as_str()
    }

    /// Runs a query. Whatever the query, the answer is the stand-in one:
    /// the columns `id` and `name` with two rows.
    pub fn execute_query(&self, _sql: &str) -> (r: Result<QueryResult, ClientError>)
        ensures
            r matches Ok(result) && texts(result.columns@) == sample_columns() && rows_view(
                result.rows@,
            ) == sample_rows(),
    {
        Ok(QueryResult { columns: make_sample_columns(), rows: make_sample_rows() })
    }

    /// What a line typed at the prompt asks for; the line itself, without
    /// the whitespace around it, is the query where it asks for one.
    pub fn interpret(line: &str) -> (r: (ClientCommand, String))
        ensures
            r.0 == command_of(line@),
            r.1@ == trimmed(line@),
    {
        let chars = chars_of(line);
        let (start, end) = trim(chars.as_slice());
        let input = vstd::slice::slice_subrange(chars.as_slice(), start, end);
        let text = crate::text::text_of(input);
        let command = if same_text(input, chars_of("exit").as_slice()) || same_text(
            input,
            chars_of("quit").as_slice(),
        ) {
            ClientCommand::Quit
        } else if same_text(input, chars_of("help").as_slice()) {
            ClientCommand::Help
        } else if same_text(input, chars_of("").as_slice()) {
            ClientCommand::Skip
        } else {
            ClientCommand::Query
        };
        (command, text)
    }
}

/// Texts with a separator between each two of them.
pub open spec fn joined_text(parts: Seq<Seq<char>>, separator: Seq<char>) -> Seq<char>
    decreases parts.len(),
{
    if parts.len() == 0 {
        Seq::empty()
    } else if parts.len() == 1 {
        parts[0]
    } else {
        joined_text(parts.drop_last(), separator) + separator + parts.last()
    }
}

/// A run of `n` dashes.
pub open spec fn dashes(n: nat) -> Seq<char> {
    Seq::new(n, |i: int| '-')
}

/// The rule under a column name: as many dashes as the name has bytes,
/// and three at least.
pub open spec fn rule_of(column: Seq<char>) -> Seq<char> {
    let width = encode_utf8(column).len();
    dashes(if width > 3 { width } else { 3 })
}

/// One line of the table: the fields between bars.
pub open spec fn line_of(fields: Seq<Seq<char>>) -> Seq<char> {
    "| "@ + joined_text(fields, " | "@) + " |\n"@
}

/// The lines of the rows of the table.
pub open spec fn lines_of(rows: Seq<Seq<Seq<char>>>) -> Seq<char>
    decreases rows.len(),
{
    if rows.len() == 0 {
        Seq::empty()
    } else {
        lines_of(rows.drop_last()) + line_of(rows.last())
    }
}

/// The table of a result: the line of the column names, the line of the
/// rules, the lines of the rows, an empty line and the number of rows.
pub open spec fn formatted(columns: Seq<Seq<char>>, rows: Seq<Seq<Seq<char>>>) -> Seq<char> {
    line_of(columns) + "|"@ + joined_text(
        columns.map_values(|column: Seq<char>| rule_of(column)),
        "-|-"@,
    ) + "|\n"@ + lines_of(rows) + "\n("@ + decimal(rows.len()) + " rows)\n"@
}

/// Appends texts with a separator between each two of them.
fn push_joined(out: &mut String, parts: &Vec<String>, separator: &str)
    ensures
        final(out)@ == old(out)@ + joined_text(texts(parts@), separator@),
{
    let ghost all = texts(parts@);
    let mut i: usize = 0;
    assert(all.take(0) =~= Seq::<Seq<char>>::empty());
    assert(out@ =~= old(out)@ + joined_text(all.take(0), separator@));
    while i < parts.len()
        invariant
            i <= parts@.len(),
            all == texts(parts@),
            out@ == old(out)@ + joined_text(all.take(i as int), separator@),
        decreases parts@.len() - i,
    {
        let ghost before = out@;
        if i > 0 {
            out.append(separator);
        }
        out.append(parts[i].as_str());
        proof {
            let shown = all.take(i + 1);
            assert(shown.drop_last() =~= all.take(i as int));
            assert(shown.last() == parts@[i as int]@);
            if i == 0 {
                assert(joined_text(all.take(0), separator@) =~= Seq::<char>::empty());
                assert(out@ =~= old(out)@ + joined_text(shown, separator@));
            } else {
                assert(out@ =~= old(out)@ + joined_text(shown, separator@));
            }
        }
        i += 1;
    }
    assert(all.take(i as int) =~= all);
}

/// The rule under a column name.
fn make_rule(column: &str) -> (rule: String)
    ensures
        rule@ == rule_of(column@),
{
    let bytes: usize = column.as_bytes().len();
    let width: usize = if bytes > 3 {
        bytes
    } else {
        3
    };
    let mut rule = String::new();
    let mut i: usize = 0;
    proof {
        reveal_strlit("-");
    }
    while i < width
        invariant
            i <= width,
            rule@ == dashes(i as nat),
            "-"@ == seq!['-'],
        decreases width - i,
    {
        rule.append("-");
        assert(rule@ =~= dashes((i + 1) as nat));
        i += 1;
    }
    rule
}

/// Appends one line of the table.
fn push_line(out: &mut String, fields: &Vec<String>)
    ensures
        final(out)@ == old(out)@ + line_of(texts(fields@)),
{
    out.append("| ");
    push_joined(out, fields, " | ");
    out.append(" |\n");
    assert(out@ =~= old(out)@ + line_of(texts(fields@)));
}

/// The table of a result, as the client prints it.
pub fn format_query_result(result: &QueryResult) -> (output: String)
    ensures
        output@ == formatted(texts(result.columns@), rows_view(result.rows@)),
{
    let ghost columns = texts(result.columns@);
    let ghost rows = rows_view(result.rows@);
    let mut output = String::new();
    push_line(&mut output, &result.columns);

    let mut rules: Vec<String> = Vec::new();
    let mut c: usize = 0;
    while c < result.columns.len()
        invariant
            c <= result.columns@.len(),
            columns == texts(result.columns@),
            rules@.len() == c,
            forall|k: int| 0 <= k < c ==> (#[trigger] rules@[k])@ == rule_of(columns[k]),
        decreases result.columns@.len() - c,
    {
        rules.push(make_rule(result.columns[c].as_str()));
        c += 1;
    }
    assert(texts(rules@) =~= columns.map_values(|column: Seq<char>| rule_of(column)));
    output.append("|");
    push_joined(&mut output, &rules, "-|-");
    output.append("|\n");
    let ghost head = output@;

    let mut r: usize = 0;
    assert(rows.take(0) =~= Seq::<Seq<Seq<char>>>::empty());
    assert(output@ =~= head + lines_of(rows.take(0)));
    while r < result.rows.len()
        invariant
            r <= result.rows@.len(),
            rows == rows_view(result.rows@),
            output@ == head + lines_of(rows.take(r as int)),
        decreases result.rows@.len() - r,
    {
        proof {
            assert(rows.take(r + 1).drop_last() =~= rows.take(r as int));
            assert(rows.take(r + 1).last() == texts(result.rows@[r as int]@));
        }
        push_line(&mut output, &result.rows[r]);
        assert(output@ =~= head + lines_of(rows.take(r + 1)));
        r += 1;
    }
    assert(rows.take(r as int) =~= rows);
    output.append("\n(");
    push_decimal(&mut output, result.rows.len() as u64);
    output.append(" rows)\n");
    assert(output@ =~= formatted(columns, rows));
    output
}

} // verus!
