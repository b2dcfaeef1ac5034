use rsql::ast::{Expression, Statement};
use rsql::lexer::{Keyword, Lexer, Location, Symbol, Token, TokenKind};
use rsql::parser::{ParseError, Parser};

fn token(value: &str, kind: TokenKind, line: usize, col: usize, start: usize, end: usize) -> Token {
    Token::new(value.to_string(), kind, Location::new(line, col, start, end))
}

fn parse_err(source: &str) -> ParseError {
    let tokens = Lexer::new(source).lex().unwrap();
    Parser::new(tokens).parse().unwrap_err()
}

#[test]
fn one_statement_per_semicolon_and_every_token_is_read() {
    let tokens = Lexer::new("CREATE TABLE a (x INT); CREATE TABLE b (); SELECT * FROM a;").lex().unwrap();
    let count = tokens.len();
    let mut parser = Parser::new(tokens);
    let ast = parser.parse().unwrap();
    assert_eq!(ast.len(), 3);
    assert_eq!(parser.pos(), count);
}

#[test]
fn no_tokens_parse_to_no_statements() {
    let mut parser = Parser::new(Vec::new());
    assert!(parser.parse().unwrap().is_empty());
    assert_eq!(parser.pos(), 0);
}

#[test]
fn statement_must_begin_with_a_keyword_that_starts_one() {
    let err = parse_err("users;");
    assert_eq!(err.message, "Unexpected token");
    assert_eq!(err.tokens, vec![token("users", TokenKind::Identifier, 1, 1, 0, 5)]);
}

#[test]
fn running_out_of_tokens_is_an_error() {
    let err = parse_err("SELECT");
    assert_eq!(err.message, "Unexpected end of token");
    assert!(err.tokens.is_empty());
}

#[test]
fn column_type_must_be_text_or_int() {
    let err = parse_err("CREATE TABLE t (x y);");
    assert_eq!(err.message, "Expected token to be one of the following: TEXT or INT");
    assert_eq!(err.tokens, vec![token("y", TokenKind::Identifier, 1, 19, 18, 19)]);
}

#[test]
fn table_name_must_be_an_identifier() {
    let err = parse_err("CREATE TABLE (x INT);");
    assert_eq!(err.message, "Expected token to be one of the following: <IDENTIFIER>");
    assert_eq!(err.tokens, vec![token("(", TokenKind::Symbol(Symbol::LeftParen), 1, 14, 13, 14)]);
}

#[test]
fn select_items_may_be_numbers_and_strings() {
    let tokens = Lexer::new("SELECT 1, 'a' FROM t;").lex().unwrap();
    let ast = Parser::new(tokens).parse().unwrap();
    match &ast[0] {
        Statement::Select(stmt) => {
            assert_eq!(stmt.items.len(), 2);
            match &stmt.items[1] {
                Expression::Literal(l) => assert_eq!(l.literal.kind, TokenKind::String),
            }
        }
        other => panic!("expected SELECT statement, got {other:?}"),
    }
}

#[test]
fn keyword_is_not_an_expression() {
    let err = parse_err("INSERT INTO t VALUES (FROM);");
    assert_eq!(err.message, "Unexpected token: FROM");
    assert_eq!(err.tokens, vec![token("FROM", TokenKind::Keyword(Keyword::From), 1, 23, 22, 26)]);
}

#[test]
fn trailing_comma_before_the_closing_paren_is_refused() {
    let tokens = Lexer::new("INSERT INTO t VALUES (1,);").lex().unwrap();
    let mut parser = Parser::new(tokens);
    let err = parser.parse().unwrap_err();
    assert_eq!(err.message, "Unexpected token: )");
}

#[test]
fn parse_error_stops_at_the_offending_token() {
    let tokens = Lexer::new("SELECT a FROM t; SELECT b c;").lex().unwrap();
    let mut parser = Parser::new(tokens);
    let err = parser.parse().unwrap_err();
    assert_eq!(err.message, "Expected token to be one of the following: FROM");
    assert_eq!(parser.pos(), 7);
}

#[test]
fn statements_after_a_complete_run_parse_on_their_own() {
    let first = Lexer::new("CREATE TABLE a (x INT); INSERT INTO a VALUES (1);").lex().unwrap();
    let second = Lexer::new("SELECT x FROM a;").lex().unwrap();
    let mut joined = first.clone();
    joined.extend(second.clone());
    let whole = Parser::new(joined).parse().unwrap();
    let mut parts = Parser::new(first).parse().unwrap();
    parts.extend(Parser::new(second).parse().unwrap());
    assert_eq!(whole.len(), 3);
    assert_eq!(format!("{whole:?}"), format!("{parts:?}"));
}

#[test]
fn an_error_after_a_complete_run_is_the_error_of_the_rest() {
    let first = Lexer::new("SELECT * FROM a;").lex().unwrap();
    let second = Lexer::new("SELECT * a;").lex().unwrap();
    let offset = first.len();
    let mut joined = first;
    joined.extend(second.clone());
    let mut whole = Parser::new(joined);
    let whole_err = whole.parse().unwrap_err();
    let mut alone = Parser::new(second);
    let alone_err = alone.parse().unwrap_err();
    assert_eq!(whole_err.message, alone_err.message);
    assert_eq!(whole_err.tokens, alone_err.tokens);
    assert_eq!(whole.pos(), alone.pos() + offset);
}
