use rsql::backend::datatype_of;
use rsql::ast::{ColumnDefinition, CreateTableStatement, Statement};
use rsql::backend::{Database, Datatype, ExecutionResult};
use rsql::lexer::{Keyword, Lexer, Location, Token, TokenKind};
use rsql::parser::Parser;

fn statement(source: &str) -> Statement {
    let tokens = Lexer::new(source).lex().unwrap();
    let mut ast = Parser::new(tokens).parse().unwrap();
    assert_eq!(ast.len(), 1);
    ast.remove(0)
}

fn word(value: &str, kind: TokenKind) -> Token {
    Token::new(value.to_string(), kind, Location::new(1, 1, 0, value.len()))
}

#[test]
fn create_table_adds_an_empty_table() {
    let mut database = Database::new();
    let result = database.execute(statement("CREATE TABLE users (id INT, name text);"));
    assert!(matches!(result, Ok(ExecutionResult::Done)));
    assert_eq!(database.tables.len(), 1);
    let table = database.tables.get("users").unwrap();
    assert_eq!(table.columns.len(), 2);
    assert_eq!(table.columns[0].name, "id");
    assert_eq!(table.columns[0].datatype, Datatype::Int);
    assert_eq!(table.columns[1].name, "name");
    assert_eq!(table.columns[1].datatype, Datatype::Text);
    assert!(table.rows.is_empty());
}

#[test]
fn create_existing_table_is_refused() {
    let mut database = Database::new();
    database.execute(statement("CREATE TABLE users (id INT);")).unwrap();
    let err = database.execute(statement("CREATE TABLE users (name TEXT);")).unwrap_err();
    assert_eq!(err.message, "table 'users' already exists");
    assert_eq!(err.tokens.len(), 1);
    assert_eq!(err.tokens[0].value, "users");
    let table = database.tables.get("users").unwrap();
    assert_eq!(table.columns.len(), 1);
    assert_eq!(table.columns[0].name, "id");
}

#[test]
fn tables_are_kept_apart_by_name() {
    let mut database = Database::new();
    database.execute(statement("CREATE TABLE a (x INT);")).unwrap();
    database.execute(statement("CREATE TABLE b ();")).unwrap();
    assert_eq!(database.tables.len(), 2);
    assert_eq!(database.tables.get("a").unwrap().columns.len(), 1);
    assert_eq!(database.tables.get("b").unwrap().columns.len(), 0);
}

#[test]
fn unknown_datatype_is_refused_and_changes_nothing() {
    let mut database = Database::new();
    let create = CreateTableStatement::new(
        word("t", TokenKind::Identifier),
        vec![
            ColumnDefinition::new(word("a", TokenKind::Identifier), word("Int", TokenKind::Keyword(Keyword::Int))),
            ColumnDefinition::new(word("b", TokenKind::Identifier), word("float", TokenKind::Identifier)),
        ],
    );
    let err = database.execute(Statement::CreateTable(create)).unwrap_err();
    assert_eq!(err.message, "unknoown datatype: FLOAT");
    assert_eq!(err.tokens.len(), 1);
    assert_eq!(err.tokens[0].value, "float");
    assert_eq!(database.tables.len(), 0);
}

#[test]
fn upper_case_type_names_are_classified() {
    assert_eq!(datatype_of(&"INT".to_string()), Some(Datatype::Int));
    assert_eq!(datatype_of(&"TEXT".to_string()), Some(Datatype::Text));
    assert_eq!(datatype_of(&"int".to_string()), None);
    assert_eq!(datatype_of(&"FLOAT".to_string()), None);
}
