use rsql::backend::{Database, ExecutionResult};
use rsql::error::Error;
use rsql::repl::{run, RunStatus};

#[test]
fn every_statement_of_a_line_runs_in_order() {
    let mut database = Database::new();
    let (results, status) = run("CREATE TABLE a (x INT); CREATE TABLE b (y TEXT);\n", &mut database);
    assert_eq!(results.len(), 2);
    assert!(results.iter().all(|r| matches!(r, ExecutionResult::Done)));
    assert!(matches!(status, RunStatus::Completed));
    assert_eq!(database.tables.len(), 2);
}

#[test]
fn run_stops_at_the_first_failing_statement() {
    let mut database = Database::new();
    let (results, status) = run(
        "CREATE TABLE a (x INT); CREATE TABLE a (y TEXT); CREATE TABLE c ();",
        &mut database,
    );
    assert_eq!(results.len(), 1);
    match status {
        RunStatus::Stopped(Error::Execution(err)) => assert_eq!(err.message, "table 'a' already exists"),
        other => panic!("unexpected status {other:?}"),
    }
    assert_eq!(database.tables.len(), 1);
}

#[test]
fn line_that_does_not_lex_changes_nothing() {
    let mut database = Database::new();
    let (results, status) = run("CREATE TABLE a (x INT); @", &mut database);
    assert!(results.is_empty());
    assert!(matches!(status, RunStatus::Stopped(Error::Lex(_))));
    assert_eq!(database.tables.len(), 0);
}

#[test]
fn line_that_does_not_parse_changes_nothing() {
    let mut database = Database::new();
    let (results, status) = run("CREATE TABLE a (x INT); CREATE a;", &mut database);
    assert!(results.is_empty());
    assert!(matches!(status, RunStatus::Stopped(Error::Parse(_))));
    assert_eq!(database.tables.len(), 0);
}

#[test]
fn insert_and_select_are_not_run() {
    let mut database = Database::new();
    let (results, status) = run("CREATE TABLE a (x INT); INSERT INTO a VALUES (1);", &mut database);
    assert_eq!(results.len(), 1);
    assert!(matches!(status, RunStatus::Unsupported));
    let (results, status) = run("SELECT * FROM a;", &mut database);
    assert!(results.is_empty());
    assert!(matches!(status, RunStatus::Unsupported));
}

#[test]
fn endless_and_unplaceable_lines_are_reported() {
    let mut database = Database::new();
    assert!(matches!(run("SELECT 1.", &mut database).1, RunStatus::LexerEndless));
    assert!(matches!(run("é", &mut database).1, RunStatus::LexerUnplaceable));
}
