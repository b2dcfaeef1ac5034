use rsql::lexer::word_kind_of;
use rsql::lexer::{Keyword, LexAttempt, Lexer, Location, Symbol, Token, TokenKind};

fn token(value: &str, kind: TokenKind, line: usize, col: usize, start: usize, end: usize) -> Token {
    Token::new(value.to_string(), kind, Location::new(line, col, start, end))
}

#[test]
fn string_token_is_placed_after_its_closing_quote() {
    let mut lexer = Lexer::new("'a b'");
    let tokens = lexer.lex().unwrap();
    assert_eq!(tokens, vec![token("a b", TokenKind::String, 1, 3, 2, 5)]);
}

#[test]
fn token_values_are_read_verbatim_from_the_source() {
    let source = "select Name, 'x y' FROM t1;";
    let chars: Vec<char> = source.chars().collect();
    let tokens = Lexer::new(source).lex().unwrap();
    for t in &tokens {
        let n = t.value.chars().count();
        let end = t.loc.end;
        let text: String = if t.kind == TokenKind::String {
            chars[end - n - 1..end - 1].iter().collect()
        } else {
            chars[end - n..end].iter().collect()
        };
        assert_eq!(text, t.value);
        assert_eq!(t.loc.end - t.loc.start, t.value.len());
    }
    for pair in tokens.windows(2) {
        assert!(pair[0].loc.end < pair[1].loc.end);
    }
    assert_eq!(tokens[0].kind, TokenKind::Keyword(Keyword::Select));
    assert_eq!(tokens[1].kind, TokenKind::Identifier);
}

#[test]
fn all_keywords_are_recognised_in_any_case() {
    let tokens = Lexer::new("create Table sElect where FROM insert into values as int text").lex().unwrap();
    let kinds: Vec<TokenKind> = tokens.iter().map(|t| t.kind.clone()).collect();
    assert_eq!(
        kinds,
        vec![
            TokenKind::Keyword(Keyword::Create),
            TokenKind::Keyword(Keyword::Table),
            TokenKind::Keyword(Keyword::Select),
            TokenKind::Keyword(Keyword::Where),
            TokenKind::Keyword(Keyword::From),
            TokenKind::Keyword(Keyword::Insert),
            TokenKind::Keyword(Keyword::Into),
            TokenKind::Keyword(Keyword::Values),
            TokenKind::Keyword(Keyword::As),
            TokenKind::Keyword(Keyword::Int),
            TokenKind::Keyword(Keyword::Text),
        ]
    );
}

#[test]
fn words_may_hold_digits_and_underscores() {
    let tokens = Lexer::new("_tbl2 x_1").lex().unwrap();
    assert_eq!(
        tokens,
        vec![
            token("_tbl2", TokenKind::Identifier, 1, 1, 0, 5),
            token("x_1", TokenKind::Identifier, 1, 7, 6, 9),
        ]
    );
}

#[test]
fn tabs_and_carriage_returns_separate_tokens() {
    let tokens = Lexer::new("a\t;\r\n*").lex().unwrap();
    assert_eq!(
        tokens,
        vec![
            token("a", TokenKind::Identifier, 1, 1, 0, 1),
            token(";", TokenKind::Symbol(Symbol::Semicolon), 1, 3, 2, 3),
            token("*", TokenKind::Symbol(Symbol::Asterisk), 2, 1, 5, 6),
        ]
    );
}

#[test]
fn number_with_period_and_exponent() {
    let tokens = Lexer::new("1.5e3 2e3").lex().unwrap();
    assert_eq!(
        tokens,
        vec![
            token("1.5e3", TokenKind::Numberic, 1, 1, 0, 5),
            token("2e3", TokenKind::Numberic, 1, 7, 6, 9),
        ]
    );
}

#[test]
fn number_followed_by_a_second_period_stops_before_it() {
    let mut lexer = Lexer::new("1.2.3");
    let err = lexer.lex().unwrap_err();
    assert_eq!(err.value, ".");
    assert_eq!(err.message, "Unknown character");
    assert_eq!(err.loc, Location::new(1, 4, 3, 4));
}

#[test]
fn period_not_followed_by_a_digit_is_an_error() {
    let err = Lexer::new("1.x").lex().unwrap_err();
    assert_eq!(err.value, "x");
    assert_eq!(err.message, "Expected numeric value after period (.)");
    assert_eq!(err.loc, Location::new(1, 1, 0, 1));
}

#[test]
fn exponent_marker_not_followed_by_a_digit_is_an_error() {
    let err = Lexer::new("12ex").lex().unwrap_err();
    assert_eq!(err.value, "x");
    assert_eq!(err.message, "Expected numeric value after exponent marker (e)");
    assert_eq!(err.loc, Location::new(1, 2, 1, 2));
}

#[test]
fn line_break_inside_a_string_is_an_error() {
    let err = Lexer::new("'ab\ncd'").lex().unwrap_err();
    assert_eq!(err.value, "\n");
    assert_eq!(err.message, "Expected closing qoute (')");
    assert_eq!(err.loc, Location::new(1, 4, 3, 4));
}

#[test]
fn string_left_open_at_the_end_is_an_error() {
    let err = Lexer::new("'abc").lex().unwrap_err();
    assert_eq!(err.value, "\0");
    assert_eq!(err.message, "Expected closing qoute (')");
    assert_eq!(err.loc, Location::new(1, 4, 3, 4));
}

#[test]
fn number_ending_the_source_in_a_period_is_endless() {
    assert!(matches!(Lexer::new("SELECT 1.").try_lex(), LexAttempt::Endless));
    assert!(matches!(Lexer::new("7e").try_lex(), LexAttempt::Endless));
}

#[test]
fn wide_character_at_the_start_of_a_line_is_unplaceable() {
    assert!(matches!(Lexer::new("é").try_lex(), LexAttempt::Unplaceable));
    assert!(matches!(Lexer::new("€").try_lex(), LexAttempt::Unplaceable));
}

#[test]
fn wide_character_far_enough_into_a_line_is_placed() {
    let err = Lexer::new("abc €").lex().unwrap_err();
    assert_eq!(err.value, "€");
    assert_eq!(err.message, "Unknown character");
    assert_eq!(err.loc, Location::new(1, 3, 2, 5));
}

#[test]
fn ascii_source_is_always_placeable() {
    for source in ["SELECT x FROM y;", "@", "'", "1.q", "\n\n;", "a 'b' 3e4 (,)*"] {
        assert!(matches!(Lexer::new(source).try_lex(), LexAttempt::Finished(_)));
    }
}

#[test]
fn try_lex_agrees_with_lex() {
    let a = Lexer::new("INSERT INTO t VALUES (1, 'a');").try_lex();
    let b = Lexer::new("INSERT INTO t VALUES (1, 'a');").lex();
    match a {
        LexAttempt::Finished(Ok(tokens)) => assert_eq!(tokens, b.unwrap()),
        _ => panic!("expected tokens"),
    }
}

#[test]
fn lexing_again_after_the_end_yields_nothing() {
    let mut lexer = Lexer::new("a b");
    assert_eq!(lexer.lex().unwrap().len(), 2);
    assert_eq!(lexer.lex().unwrap().len(), 0);
}

#[test]
fn empty_source_has_no_tokens() {
    assert!(Lexer::new("").lex().unwrap().is_empty());
    assert!(Lexer::new("  \n ").lex().unwrap().is_empty());
}

#[test]
fn token_kinds_are_shown_by_name() {
    assert_eq!(TokenKind::Keyword(Keyword::Values).to_string(), "VALUES");
    assert_eq!(TokenKind::Symbol(Symbol::LeftParen).to_string(), "(");
    assert_eq!(TokenKind::Identifier.to_string(), "<IDENTIFIER>");
    assert_eq!(TokenKind::String.to_string(), "<STRING>");
    assert_eq!(TokenKind::Numberic.to_string(), "<NUMERIC>");
}

#[test]
fn upper_case_words_are_classified() {
    assert_eq!(word_kind_of(&"SELECT".to_string()), TokenKind::Keyword(Keyword::Select));
    assert_eq!(word_kind_of(&"TEXT".to_string()), TokenKind::Keyword(Keyword::Text));
    assert_eq!(word_kind_of(&"select".to_string()), TokenKind::Identifier);
    assert_eq!(word_kind_of(&"USERS".to_string()), TokenKind::Identifier);
}

fn texts(tokens: &[Token]) -> Vec<(String, TokenKind)> {
    tokens.iter().map(|t| (t.value.clone(), t.kind.clone())).collect()
}

#[test]
fn widening_a_separator_changes_only_locations() {
    let narrow = Lexer::new("SELECT a, 'x y' FROM t;").lex().unwrap();
    let wide = Lexer::new("SELECT \n\t a, 'x y'\r\n  FROM    t;").lex().unwrap();
    assert_eq!(texts(&narrow), texts(&wide));
    assert_ne!(narrow, wide);
    assert_eq!(wide[2].loc, Location::new(2, 4, 11, 12));
}

#[test]
fn a_blank_inside_a_string_is_part_of_its_text() {
    let narrow = Lexer::new("'x y'").lex().unwrap();
    let wide = Lexer::new("'x   y'").lex().unwrap();
    assert_ne!(texts(&narrow), texts(&wide));
}

#[test]
fn ascii_tokens_do_not_overlap() {
    let tokens = Lexer::new("CREATE TABLE t (a INT, b TEXT);\nINSERT INTO t VALUES (1.5e3, 'q');").lex().unwrap();
    for pair in tokens.windows(2) {
        assert!(pair[0].loc.start <= pair[0].loc.end);
        assert!(pair[0].loc.end <= pair[1].loc.start);
    }
}

#[test]
fn separators_are_skipped_with_lines_and_columns_counted() {
    let tokens = Lexer::new(" \t\r\n\n  x").lex().unwrap();
    assert_eq!(tokens, vec![token("x", TokenKind::Identifier, 3, 3, 7, 8)]);
}
