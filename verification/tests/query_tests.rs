use nextdb::query::error::QueryError;
use nextdb::query::executor::QueryExecutor;
use nextdb::query::parser::{SqlParser, SqlStatement};
use nextdb::query::planner::{PhysicalPlan, QueryPlanner};

#[test]
fn test_parse_simple_select() {
    let sql = "SELECT * FROM users";
    let result = SqlParser::parse(sql).unwrap();

    match result {
        SqlStatement::Select { columns, table, where_clause } => {
            assert_eq!(columns, vec!["*".to_string()]);
            assert_eq!(table, "users");
            assert_eq!(where_clause, None);
        }
        _ => panic!("Expected SELECT statement"),
    }
}

#[test]
fn test_parse_select_with_columns() {
    let sql = "SELECT id, name FROM users";
    let result = SqlParser::parse(sql).unwrap();

    match result {
        SqlStatement::Select { columns, table, where_clause } => {
            assert_eq!(columns, vec!["id".to_string(), "name".to_string()]);
            assert_eq!(table, "users");
            assert_eq!(where_clause, None);
        }
        _ => panic!("Expected SELECT statement"),
    }
}

#[test]
fn test_parse_select_with_where() {
    let sql = "SELECT * FROM users WHERE id = 1";
    let result = SqlParser::parse(sql).unwrap();

    match result {
        SqlStatement::Select { columns, table, where_clause } => {
            assert_eq!(columns, vec!["*".to_string()]);
            assert_eq!(table, "users");
            assert_eq!(where_clause, Some("id = 1".to_string()));
        }
        _ => panic!("Expected SELECT statement"),
    }
}

#[test]
fn test_plan_simple_select() {
    let statement = SqlStatement::Select {
        columns: vec!["*".to_string()],
        table: "users".to_string(),
        where_clause: None,
    };

    let plan = QueryPlanner::plan(statement).unwrap();

    match plan {
        PhysicalPlan::TableScan { table, columns, filter } => {
            assert_eq!(table, "users");
            assert_eq!(columns, vec!["*".to_string()]);
            assert_eq!(filter, None);
        }
        _ => panic!("Expected TableScan plan"),
    }
}

#[test]
fn test_execute_table_scan() {
    let plan = PhysicalPlan::TableScan {
        table: "users".to_string(),
        columns: vec!["*".to_string()],
        filter: None,
    };

    let result = QueryExecutor::execute(plan).unwrap();
    assert_eq!(result.columns, vec!["id", "name"]);
    assert_eq!(result.rows.len(), 2);
}

fn select(sql: &str) -> (Vec<String>, String, Option<String>) {
    match SqlParser::parse(sql).unwrap() {
        SqlStatement::Select { columns, table, where_clause } => (columns, table, where_clause),
        _ => panic!("Expected SELECT statement"),
    }
}

fn parse_error(sql: &str) -> String {
    match SqlParser::parse(sql) {
        Err(QueryError::Parse(detail)) => detail,
        other => panic!("Expected a parse error, got {:?}", other),
    }
}

#[test]
fn parse_reads_in_lowercase_and_without_the_whitespace_around() {
    let (columns, table, where_clause) = select("  \n\tSELECT  Id ,NAME,  Age   FROM   Users   WHERE  Age > 30  \n");
    assert_eq!(columns, vec!["id", "name", "age"]);
    assert_eq!(table, "users");
    assert_eq!(where_clause, Some("age > 30".to_string()));
}

#[test]
fn parse_keeps_empty_columns() {
    let (columns, table, _) = select("select a,,b, from t");
    assert_eq!(columns, vec!["a", "", "b", ""]);
    assert_eq!(table, "t");
}

#[test]
fn parse_takes_the_first_from_and_the_first_where() {
    let (columns, table, where_clause) = select("select a from b from c where d where e");
    assert_eq!(columns, vec!["a"]);
    assert_eq!(table, "b from c");
    assert_eq!(where_clause, Some("d where e".to_string()));
}

#[test]
fn parse_star_among_columns_is_a_column() {
    let (columns, _, _) = select("select *, id from t");
    assert_eq!(columns, vec!["*", "id"]);
}

#[test]
fn parse_select_without_from_is_an_error() {
    assert_eq!(parse_error("SELECT 1"), "Invalid SELECT statement");
    assert_eq!(parse_error("select * from"), "Invalid SELECT statement");
    assert_eq!(parse_error("selectx"), "Invalid SELECT statement");
}

#[test]
fn parse_names_the_other_statements() {
    assert_eq!(parse_error("INSERT INTO t VALUES (1)"), "INSERT not implemented yet");
    assert_eq!(parse_error("update t set a = 1"), "UPDATE not implemented yet");
    assert_eq!(parse_error("  Delete from t"), "DELETE not implemented yet");
}

#[test]
fn parse_refuses_what_it_does_not_know() {
    assert_eq!(parse_error("  CREATE TABLE t "), "Unsupported statement: create table t");
    assert_eq!(parse_error(""), "Unsupported statement: ");
    let error = SqlParser::parse("DROP t").unwrap_err();
    assert_eq!(error.message(), "Parse error: Unsupported statement: drop t");
}

#[test]
fn parse_handles_text_beyond_ascii() {
    let (columns, table, where_clause) = select("SELECT ÄRGER, straße FROM Tabelle WHERE größe = 'Ö'");
    assert_eq!(columns, vec!["ärger", "straße"]);
    assert_eq!(table, "tabelle");
    assert_eq!(where_clause, Some("größe = 'ö'".to_string()));
}

#[test]
fn plan_refuses_all_but_select() {
    let insert = SqlStatement::Insert {
        table: "t".to_string(),
        columns: vec!["a".to_string()],
        values: vec![vec!["1".to_string()]],
    };
    let update = SqlStatement::Update {
        table: "t".to_string(),
        set_clause: vec![("a".to_string(), "1".to_string())],
        where_clause: None,
    };
    let delete = SqlStatement::Delete { table: "t".to_string(), where_clause: None };
    for statement in [insert, update, delete] {
        match QueryPlanner::plan(statement) {
            Err(QueryError::Plan(detail)) => assert_eq!(detail, "Only SELECT supported"),
            other => panic!("Expected a plan error, got {:?}", other),
        }
    }
}

#[test]
fn plan_keeps_the_parts_of_a_select() {
    let statement = SqlParser::parse("select a, b from t where a = b").unwrap();
    match QueryPlanner::plan(statement).unwrap() {
        PhysicalPlan::TableScan { table, columns, filter } => {
            assert_eq!(table, "t");
            assert_eq!(columns, vec!["a", "b"]);
            assert_eq!(filter, Some("a = b".to_string()));
        }
        _ => panic!("Expected TableScan plan"),
    }
}

#[test]
fn execute_answers_with_the_sample_rows() {
    let plan = PhysicalPlan::IndexScan {
        table: "users".to_string(),
        index: "by_id".to_string(),
        columns: vec![],
        filter: None,
    };
    let result = QueryExecutor::execute(plan).unwrap();
    assert_eq!(result.columns, vec!["id", "name"]);
    assert_eq!(result.rows, vec![vec!["1", "Alice"], vec!["2", "Bob"]]);
}

#[test]
fn query_errors_say_what_they_are() {
    assert_eq!(QueryError::Parse("p".to_string()).message(), "Parse error: p");
    assert_eq!(QueryError::Plan("p".to_string()).message(), "Plan error: p");
    assert_eq!(QueryError::Execution("e".to_string()).message(), "Execution error: e");
    assert_eq!(QueryError::Invalid("i".to_string()).message(), "Invalid query: i");
    assert_eq!(QueryError::TableNotFound("t".to_string()).message(), "Table not found: t");
    assert_eq!(QueryError::ColumnNotFound("c".to_string()).message(), "Column not found: c");
}
