//! The parser: tokens to statements.
use vstd::prelude::*;

use crate::ast::{
    column_views, expression_views, statement_views, Ast, ColumnDefinition, ColumnDefinitionView, CreateTableStatement,
    CreateTableView, Expression, ExpressionView, InsertStatement, InsertView, LiteralExpression,
    SelectStatement, SelectView, Statement, StatementView,
};
use crate::lexer::{copy_token, kind_text, token_views, Keyword, Symbol, Token, TokenKind, TokenView};

verus! {

#[derive(Debug)]
pub struct ParseError {
    pub message: String,
    pub tokens: Vec<Token>,
}

/// A parse error as the contracts see it.
pub struct ParseErrorView {
    pub message: Seq<char>,
    pub tokens: Seq<TokenView>,
}

impl View for ParseError {
    type V = ParseErrorView;

    open spec fn view(&self) -> ParseErrorView {
        ParseErrorView { message: self.message@, tokens: token_views(self.tokens@) }
    }
}

impl ParseError {
    fn new(message: String, tokens: Vec<Token>) -> (r: Self)
        ensures
            r@ == (ParseErrorView { message: message@, tokens: token_views(tokens@) }),
    {
        Self { message, tokens }
    }
}

// ---------------------------------------------------------------------------
// What parsing a sequence of tokens means.
//
// Each parsing function reads from a position in the tokens and either yields
// a value and the position after it, or fails with an error and the position
// at which it stopped.
// ---------------------------------------------------------------------------

pub enum Parsed<T> {
    Done(T, int),
    Failed(ParseErrorView, int),
}

/// Reads `first`, then what `rest` reads from the position after it.
pub open spec fn chain<A, B>(first: Parsed<A>, rest: spec_fn(A, int) -> Parsed<B>) -> Parsed<B> {
    match first {
        Parsed::Done(a, p) => rest(a, p),
        Parsed::Failed(e, p) => Parsed::Failed(e, p),
    }
}

/// `items` put in front of the items that `rest` reads.
pub open spec fn after<T>(items: Seq<T>, rest: Parsed<Seq<T>>) -> Parsed<Seq<T>> {
    match rest {
        Parsed::Done(xs, p) => Parsed::Done(items + xs, p),
        Parsed::Failed(e, p) => Parsed::Failed(e, p),
    }
}

/// `x` put in front of the items that `rest` reads.
pub open spec fn prepend<T>(x: T, rest: Parsed<Seq<T>>) -> Parsed<Seq<T>> {
    match rest {
        Parsed::Done(xs, p) => Parsed::Done(seq![x] + xs, p),
        Parsed::Failed(e, p) => Parsed::Failed(e, p),
    }
}

/// Whether the token at `pos` is of `kind`.
pub open spec fn kind_at(toks: Seq<TokenView>, pos: int, kind: TokenKind) -> bool {
    0 <= pos < toks.len() && toks[pos].kind == kind
}

pub open spec fn end_of_tokens() -> ParseErrorView {
    ParseErrorView { message: "Unexpected end of token"@, tokens: seq![] }
}

/// `kinds` shown one after the other, separated by " or ".
pub open spec fn kinds_text(kinds: Seq<TokenKind>) -> Seq<char>
    decreases kinds.len(),
{
    if kinds.len() == 0 {
        seq![]
    } else if kinds.len() == 1 {
        kind_text(kinds[0])
    } else {
        kinds_text(kinds.drop_last()) + " or "@ + kind_text(kinds.last())
    }
}

pub open spec fn expected_message(kinds: Seq<TokenKind>) -> Seq<char> {
    "Expected token to be one of the following: "@ + kinds_text(kinds)
}

/// Reading one token of one of `kinds`.
pub open spec fn expect_token(toks: Seq<TokenView>, pos: int, kinds: Seq<TokenKind>) -> Parsed<TokenView> {
    if 0 <= pos < toks.len() {
        if kinds.contains(toks[pos].kind) {
            Parsed::Done(toks[pos], pos + 1)
        } else {
            Parsed::Failed(
                ParseErrorView { message: expected_message(kinds), tokens: seq![toks[pos]] },
                pos,
            )
        }
    } else {
        Parsed::Failed(end_of_tokens(), pos)
    }
}

/// The kinds of token that are literal expressions.
pub open spec fn is_literal_kind(kind: TokenKind) -> bool {
    kind == TokenKind::String || kind == TokenKind::Numberic || kind == TokenKind::Identifier
}

/// Reading one expression.
pub open spec fn expression_at(toks: Seq<TokenView>, pos: int) -> Parsed<ExpressionView> {
    if 0 <= pos < toks.len() {
        if is_literal_kind(toks[pos].kind) {
            Parsed::Done(ExpressionView::Literal(toks[pos]), pos + 1)
        } else {
            Parsed::Failed(
                ParseErrorView {
                    message: "Unexpected token: "@ + kind_text(toks[pos].kind),
                    tokens: seq![toks[pos]],
                },
                pos,
            )
        }
    } else {
        Parsed::Failed(end_of_tokens(), pos)
    }
}

/// Reading expressions separated by commas, up to a semicolon or the end of the tokens.
pub open spec fn expression_list(toks: Seq<TokenView>, pos: int) -> Parsed<Seq<ExpressionView>>
    decreases toks.len() - pos,
{
    if 0 <= pos < toks.len() && toks[pos].kind != TokenKind::Symbol(Symbol::Semicolon) {
        if is_literal_kind(toks[pos].kind) {
            let x = ExpressionView::Literal(toks[pos]);
            if kind_at(toks, pos + 1, TokenKind::Symbol(Symbol::Comma)) {
                prepend(x, expression_list(toks, pos + 2))
            } else {
                Parsed::Done(seq![x], pos + 1)
            }
        } else {
            match expression_at(toks, pos) {
                Parsed::Done(x, p) => Parsed::Done(seq![x], p),
                Parsed::Failed(e, p) => Parsed::Failed(e, p),
            }
        }
    } else {
        Parsed::Done(seq![], pos)
    }
}

pub open spec fn column_name_kinds() -> Seq<TokenKind> {
    seq![TokenKind::Identifier]
}

pub open spec fn column_type_kinds() -> Seq<TokenKind> {
    seq![TokenKind::Keyword(Keyword::Text), TokenKind::Keyword(Keyword::Int)]
}

/// Reading column definitions separated by commas, up to a semicolon or the end of the tokens.
pub open spec fn column_list(toks: Seq<TokenView>, pos: int) -> Parsed<Seq<ColumnDefinitionView>>
    decreases toks.len() - pos,
{
    if 0 <= pos < toks.len() && toks[pos].kind != TokenKind::Symbol(Symbol::Semicolon) {
        match expect_token(toks, pos, column_name_kinds()) {
            Parsed::Failed(e, p) => Parsed::Failed(e, p),
            Parsed::Done(name, _) => match expect_token(toks, pos + 1, column_type_kinds()) {
                Parsed::Failed(e, p) => Parsed::Failed(e, p),
                Parsed::Done(datatype, _) => {
                    let col = ColumnDefinitionView { name, datatype };
                    if kind_at(toks, pos + 2, TokenKind::Symbol(Symbol::Comma)) {
                        prepend(col, column_list(toks, pos + 3))
                    } else {
                        Parsed::Done(seq![col], pos + 2)
                    }
                },
            },
        }
    } else {
        Parsed::Done(seq![], pos)
    }
}

/// The column definitions of a CREATE TABLE statement: none when a `)` comes first.
pub open spec fn table_columns(toks: Seq<TokenView>, pos: int) -> Parsed<Seq<ColumnDefinitionView>> {
    if 0 <= pos < toks.len() && toks[pos].kind != TokenKind::Symbol(Symbol::RightParen) {
        column_list(toks, pos)
    } else {
        Parsed::Done(seq![], pos)
    }
}

pub open spec fn one_kind(kind: TokenKind) -> Seq<TokenKind> {
    seq![kind]
}

/// INSERT INTO name VALUES ( expressions ) ;
pub open spec fn insert_at(toks: Seq<TokenView>, pos: int) -> Parsed<StatementView> {
    chain(expect_token(toks, pos, one_kind(TokenKind::Keyword(Keyword::Insert))), |_t: TokenView, p1: int|
    chain(expect_token(toks, p1, one_kind(TokenKind::Keyword(Keyword::Into))), |_t: TokenView, p2: int|
    chain(expect_token(toks, p2, one_kind(TokenKind::Identifier)), |table_name: TokenView, p3: int|
    chain(expect_token(toks, p3, one_kind(TokenKind::Keyword(Keyword::Values))), |_t: TokenView, p4: int|
    chain(expect_token(toks, p4, one_kind(TokenKind::Symbol(Symbol::LeftParen))), |_t: TokenView, p5: int|
    chain(expression_list(toks, p5), |values: Seq<ExpressionView>, p6: int|
    chain(expect_token(toks, p6, one_kind(TokenKind::Symbol(Symbol::RightParen))), |_t: TokenView, p7: int|
    chain(expect_token(toks, p7, one_kind(TokenKind::Symbol(Symbol::Semicolon))), |_t: TokenView, p8: int|
        Parsed::Done(StatementView::Insert(InsertView { table_name, values }), p8)))))))))
}

/// The items of a SELECT statement: none after `*`.
pub open spec fn select_items(toks: Seq<TokenView>, pos: int) -> Parsed<Seq<ExpressionView>> {
    if kind_at(toks, pos, TokenKind::Symbol(Symbol::Asterisk)) {
        Parsed::Done(seq![], pos + 1)
    } else {
        expression_list(toks, pos)
    }
}

/// SELECT ( * | expressions ) FROM name ;
pub open spec fn select_at(toks: Seq<TokenView>, pos: int) -> Parsed<StatementView> {
    chain(expect_token(toks, pos, one_kind(TokenKind::Keyword(Keyword::Select))), |_t: TokenView, p1: int|
    chain(select_items(toks, p1), |items: Seq<ExpressionView>, p2: int|
    chain(expect_token(toks, p2, one_kind(TokenKind::Keyword(Keyword::From))), |_t: TokenView, p3: int|
    chain(expect_token(toks, p3, one_kind(TokenKind::Identifier)), |from: TokenView, p4: int|
    chain(expect_token(toks, p4, one_kind(TokenKind::Symbol(Symbol::Semicolon))), |_t: TokenView, p5: int|
        Parsed::Done(StatementView::Select(SelectView { items, from }), p5))))))
}

/// CREATE TABLE name ( column definitions ) ;
pub open spec fn create_at(toks: Seq<TokenView>, pos: int) -> Parsed<StatementView> {
    chain(expect_token(toks, pos, one_kind(TokenKind::Keyword(Keyword::Create))), |_t: TokenView, p1: int|
    chain(expect_token(toks, p1, one_kind(TokenKind::Keyword(Keyword::Table))), |_t: TokenView, p2: int|
    chain(expect_token(toks, p2, one_kind(TokenKind::Identifier)), |name: TokenView, p3: int|
    chain(expect_token(toks, p3, one_kind(TokenKind::Symbol(Symbol::LeftParen))), |_t: TokenView, p4: int|
    chain(table_columns(toks, p4), |cols: Seq<ColumnDefinitionView>, p5: int|
    chain(expect_token(toks, p5, one_kind(TokenKind::Symbol(Symbol::RightParen))), |_t: TokenView, p6: int|
    chain(expect_token(toks, p6, one_kind(TokenKind::Symbol(Symbol::Semicolon))), |_t: TokenView, p7: int|
        Parsed::Done(StatementView::CreateTable(CreateTableView { name, cols }), p7))))))))
}

/// Reading the statement that begins at `pos`, chosen by its first token.
pub open spec fn statement_at(toks: Seq<TokenView>, pos: int) -> Parsed<StatementView> {
    if !(0 <= pos < toks.len()) {
        Parsed::Failed(end_of_tokens(), pos)
    } else if toks[pos].kind == TokenKind::Keyword(Keyword::Insert) {
        insert_at(toks, pos)
    } else if toks[pos].kind == TokenKind::Keyword(Keyword::Select) {
        select_at(toks, pos)
    } else if toks[pos].kind == TokenKind::Keyword(Keyword::Create) {
        create_at(toks, pos)
    } else {
        Parsed::Failed(ParseErrorView { message: "Unexpected token"@, tokens: seq![toks[pos]] }, pos)
    }
}

/// Reading statements from `pos` to the end of the tokens.
pub open spec fn statements_from(toks: Seq<TokenView>, pos: int) -> Parsed<Seq<StatementView>>
    decreases toks.len() - pos,
    via statements_from_decreases
{
    if !(0 <= pos < toks.len()) {
        Parsed::Done(seq![], pos)
    } else {
        match statement_at(toks, pos) {
            Parsed::Done(s, p) => prepend(s, statements_from(toks, p)),
            Parsed::Failed(e, p) => Parsed::Failed(e, p),
        }
    }
}

#[via_fn]
proof fn statements_from_decreases(toks: Seq<TokenView>, pos: int) {
    if 0 <= pos < toks.len() {
        lemma_statement_advances(toks, pos);
    }
}

/// Whether a successful read from `pos` ends within the tokens, at or after `pos`.
pub open spec fn stays_within<T>(r: Parsed<T>, pos: int, len: int) -> bool {
    r matches Parsed::Done(_, p) ==> pos <= p <= len
}

proof fn lemma_expression_list_advances(toks: Seq<TokenView>, pos: int)
    requires
        0 <= pos <= toks.len(),
    ensures
        stays_within(expression_list(toks, pos), pos, toks.len() as int),
    decreases toks.len() - pos,
{
    if pos + 2 <= toks.len() {
        lemma_expression_list_advances(toks, pos + 2);
    }
}

proof fn lemma_column_list_advances(toks: Seq<TokenView>, pos: int)
    requires
        0 <= pos <= toks.len(),
    ensures
        stays_within(column_list(toks, pos), pos, toks.len() as int),
    decreases toks.len() - pos,
{
    if pos + 3 <= toks.len() {
        lemma_column_list_advances(toks, pos + 3);
    }
}

/// A statement that is read takes at least one token, and no more than there are.
pub proof fn lemma_statement_advances(toks: Seq<TokenView>, pos: int)
    requires
        0 <= pos < toks.len(),
    ensures
        statement_at(toks, pos) matches Parsed::Done(_, p) ==> pos < p <= toks.len(),
{
    let len = toks.len() as int;
    assert forall|p: int| 0 <= p <= len implies stays_within(#[trigger] expression_list(toks, p), p, len) by {
        lemma_expression_list_advances(toks, p);
    }
    assert forall|p: int| 0 <= p <= len implies stays_within(#[trigger] column_list(toks, p), p, len) by {
        lemma_column_list_advances(toks, p);
    }
}

// ---------------------------------------------------------------------------
// The parser.
// ---------------------------------------------------------------------------

#[derive(Debug)]
pub struct Parser {
    tokens: Vec<Token>,
    pos: usize,
}

/// A parser as the contracts see it: its tokens and its position in them.
pub struct ParserView {
    pub tokens: Seq<TokenView>,
    pub pos: int,
}

impl View for Parser {
    type V = ParserView;

    closed spec fn view(&self) -> ParserView {
        ParserView { tokens: token_views(self.tokens@), pos: self.pos as int }
    }
}

impl Parser {
    #[verifier::type_invariant]
    spec fn well_formed(&self) -> bool {
        self.pos <= self.tokens.len()
    }

    pub fn new(tokens: Vec<Token>) -> (r: Self)
        ensures
            r@ == (ParserView { tokens: token_views(tokens@), pos: 0 }),
    {
        Self { tokens, pos: 0 }
    }

    /// The position of the next token to read.
    pub fn pos(&self) -> (r: usize)
        ensures
            r == self@.pos,
    {
        self.pos
    }

    /// Reads statements up to the end of the tokens.
    #[verifier::loop_isolation(false)]
    pub fn parse(&mut self) -> (r: Result<Ast, ParseError>)
        ensures
            final(self)@.tokens == old(self)@.tokens,
            match r {
                Ok(ast) => statements_from(old(self)@.tokens, old(self)@.pos)
                    == Parsed::Done(statement_views(ast@), final(self)@.pos),
                Err(error) => statements_from(old(self)@.tokens, old(self)@.pos)
                    == Parsed::<Seq<StatementView>>::Failed(error@, final(self)@.pos),
            },
    {
        let ghost toks = old(self)@.tokens;
        let ghost p0 = old(self)@.pos;
        let mut ast: Vec<Statement> = Vec::new();
        loop
            invariant
                self@.tokens == toks,
                statements_from(toks, p0) == after(statement_views(ast@), statements_from(toks, self@.pos)),
            decreases toks.len() - self@.pos,
        {
            proof {
                use_type_invariant(&*self);
            }
            let ghost before = ast@;
            let kind = match self.current_token() {
                None => {
                    assert(statement_views(ast@) + seq![] =~= statement_views(ast@));
                    return Ok(ast);
                },
                Some(token) => token.kind,
            };
            let parsed = if kind == TokenKind::Keyword(Keyword::Insert) {
                self.parse_insert_statement()
            } else if kind == TokenKind::Keyword(Keyword::Select) {
                self.parse_select_statement()
            } else if kind == TokenKind::Keyword(Keyword::Create) {
                self.parse_create_statement()
            } else {
                let token = match self.current_token() {
                    Some(token) => copy_token(token),
                    None => {
                        assert(false);
                        return Ok(ast);
                    },
                };
                let mut tokens = Vec::new();
                tokens.push(token);
                proof {
                    assert(token_views(tokens@) =~= seq![token@]);
                }
                return Err(ParseError::new(String::from_str("Unexpected token"), tokens));
            };
            match parsed {
                Ok(statement) => {
                    let ghost s = statement;
                    ast.push(statement);
                    proof {
                        use_type_invariant(&*self);
                        lemma_after_prepend(statement_views(before), s@, statements_from(toks, self@.pos));
                        assert(statement_views(ast@) =~= statement_views(before).push(s@));
                    }
                },
                Err(error) => return Err(error),
            }
        }
    }

    fn advance(&mut self)
        requires
            old(self)@.pos < old(self)@.tokens.len(),
        ensures
            final(self)@ == (ParserView { tokens: old(self)@.tokens, pos: old(self)@.pos + 1 }),
    {
        assert(token_views(self.tokens@).len() == self.tokens@.len());
        assert(self.tokens@.len() == self.tokens.len());
        self.pos += 1;
    }

    fn current_token(&self) -> (r: Option<&Token>)
        ensures
            match r {
                Some(token) => self@.pos < self@.tokens.len() && token@ == self@.tokens[self@.pos],
                None => self@.pos >= self@.tokens.len(),
            },
    {
        if self.pos < self.tokens.len() {
            Some(&self.tokens[self.pos])
        } else {
            None
        }
    }

    /// The token at the parser's position, provided that at least one more token follows it.
    #[allow(dead_code)]
    fn next_token(&self) -> (r: Option<&Token>)
        ensures
            match r {
                Some(token) => self@.pos + 1 < self@.tokens.len() && token@ == self@.tokens[self@.pos],
                None => self@.pos + 1 >= self@.tokens.len(),
            },
    {
        proof {
            use_type_invariant(self);
        }
        if self.pos < self.tokens.len() && self.tokens.len() - self.pos > 1 {
            Some(&self.tokens[self.pos])
        } else {
            None
        }
    }

    /// Reads one token of one of `expected_token_kinds`.
    fn expect_and_consume_token(&mut self, expected_token_kinds: &[TokenKind]) -> (r: Result<Token, ParseError>)
        ensures
            final(self)@.tokens == old(self)@.tokens,
            match r {
                Ok(token) => expect_token(old(self)@.tokens, old(self)@.pos, expected_token_kinds@)
                    == Parsed::Done(token@, final(self)@.pos),
                Err(error) => expect_token(old(self)@.tokens, old(self)@.pos, expected_token_kinds@)
                    == Parsed::<TokenView>::Failed(error@, final(self)@.pos),
            },
    {
        match self.current_token() {
            Some(current) => {
                let token = copy_token(current);
                if kinds_contain(expected_token_kinds, token.kind) {
                    self.advance();
                    Ok(token)
                } else {
                    let message = expected_message_of(expected_token_kinds);
                    let mut tokens = Vec::new();
                    tokens.push(token);
                    proof {
                        assert(token_views(tokens@) =~= seq![token@]);
                    }
                    Err(ParseError::new(message, tokens))
                }
            },
            None => {
                let tokens: Vec<Token> = Vec::new();
                proof {
                    assert(token_views(tokens@) =~= Seq::<TokenView>::empty());
                }
                Err(ParseError::new(String::from_str("Unexpected end of token"), tokens))
            },
        }
    }

    /// Reads expressions separated by commas, up to a semicolon or the end of the tokens.
    #[verifier::loop_isolation(false)]
    fn parse_expressions(&mut self) -> (r: Result<Vec<Expression>, ParseError>)
        ensures
            final(self)@.tokens == old(self)@.tokens,
            final(self)@.pos >= old(self)@.pos,
            match r {
                Ok(items) => expression_list(old(self)@.tokens, old(self)@.pos)
                    == Parsed::Done(expression_views(items@), final(self)@.pos),
                Err(error) => expression_list(old(self)@.tokens, old(self)@.pos)
                    == Parsed::<Seq<ExpressionView>>::Failed(error@, final(self)@.pos),
            },
    {
        let ghost toks = old(self)@.tokens;
        let ghost p0 = old(self)@.pos;
        let mut items: Vec<Expression> = Vec::new();
        assert(expression_views(items@) =~= Seq::<ExpressionView>::empty());
        loop
            invariant
                self@.tokens == toks,
                self@.pos >= p0,
                expression_list(toks, p0) == after(expression_views(items@), expression_list(toks, self@.pos)),
            decreases toks.len() - self@.pos,
        {
            proof {
                use_type_invariant(&*self);
            }
            let ghost before = items@;
            let at_item = match self.current_token() {
                Some(token) => token.kind != TokenKind::Symbol(Symbol::Semicolon),
                None => false,
            };
            if !at_item {
                assert(expression_views(items@) + seq![] =~= expression_views(items@));
                break;
            }
            let item = match self.parse_expression() {
                Ok(item) => item,
                Err(error) => return Err(error),
            };
            let ghost x = item;
            items.push(item);
            assert(expression_views(items@) =~= expression_views(before).push(x@));
            let comma = match self.current_token() {
                Some(token) => token.kind == TokenKind::Symbol(Symbol::Comma),
                None => false,
            };
            if comma {
                self.advance();
                proof {
                    lemma_after_prepend(expression_views(before), x@, expression_list(toks, self@.pos));
                }
            } else {
                assert(expression_views(before) + seq![x@] =~= expression_views(items@));
                break;
            }
        }
        Ok(items)
    }

    #[verifier::loop_isolation(false)]
    fn parse_insert_statement(&mut self) -> (r: Result<Statement, ParseError>)
        ensures
            final(self)@.tokens == old(self)@.tokens,
            match r {
                Ok(statement) => insert_at(old(self)@.tokens, old(self)@.pos)
                    == Parsed::Done(statement@, final(self)@.pos) && final(self)@.pos > old(self)@.pos,
                Err(error) => insert_at(old(self)@.tokens, old(self)@.pos)
                    == Parsed::<StatementView>::Failed(error@, final(self)@.pos),
            },
    {
        match self.expect_and_consume_token(&[TokenKind::Keyword(Keyword::Insert)]) {
            Ok(_) => {},
            Err(error) => return Err(error),
        }
        match self.expect_and_consume_token(&[TokenKind::Keyword(Keyword::Into)]) {
            Ok(_) => {},
            Err(error) => return Err(error),
        }
        let table_name = match self.expect_and_consume_token(&[TokenKind::Identifier]) {
            Ok(token) => token,
            Err(error) => return Err(error),
        };
        match self.expect_and_consume_token(&[TokenKind::Keyword(Keyword::Values)]) {
            Ok(_) => {},
            Err(error) => return Err(error),
        }
        match self.expect_and_consume_token(&[TokenKind::Symbol(Symbol::LeftParen)]) {
            Ok(_) => {},
            Err(error) => return Err(error),
        }
        let values = match self.parse_expressions() {
            Ok(values) => values,
            Err(error) => return Err(error),
        };
        match self.expect_and_consume_token(&[TokenKind::Symbol(Symbol::RightParen)]) {
            Ok(_) => {},
            Err(error) => return Err(error),
        }
        match self.expect_and_consume_token(&[TokenKind::Symbol(Symbol::Semicolon)]) {
            Ok(_) => {},
            Err(error) => return Err(error),
        }
        Ok(Statement::Insert(InsertStatement::new(table_name, values)))
    }

    #[verifier::loop_isolation(false)]
    fn parse_select_statement(&mut self) -> (r: Result<Statement, ParseError>)
        ensures
            final(self)@.tokens == old(self)@.tokens,
            match r {
                Ok(statement) => select_at(old(self)@.tokens, old(self)@.pos)
                    == Parsed::Done(statement@, final(self)@.pos) && final(self)@.pos > old(self)@.pos,
                Err(error) => select_at(old(self)@.tokens, old(self)@.pos)
                    == Parsed::<StatementView>::Failed(error@, final(self)@.pos),
            },
    {
        match self.expect_and_consume_token(&[TokenKind::Keyword(Keyword::Select)]) {
            Ok(_) => {},
            Err(error) => return Err(error),
        }
        let asterisk = match self.current_token() {
            Some(token) => token.kind == TokenKind::Symbol(Symbol::Asterisk),
            None => false,
        };
        let items = if asterisk {
            self.advance();
            let items: Vec<Expression> = Vec::new();
            assert(expression_views(items@) =~= Seq::<ExpressionView>::empty());
            items
        } else {
            match self.parse_expressions() {
                Ok(items) => items,
                Err(error) => return Err(error),
            }
        };
        match self.expect_and_consume_token(&[TokenKind::Keyword(Keyword::From)]) {
            Ok(_) => {},
            Err(error) => return Err(error),
        }
        let from = match self.expect_and_consume_token(&[TokenKind::Identifier]) {
            Ok(token) => token,
            Err(error) => return Err(error),
        };
        match self.expect_and_consume_token(&[TokenKind::Symbol(Symbol::Semicolon)]) {
            Ok(_) => {},
            Err(error) => return Err(error),
        }
        Ok(Statement::Select(SelectStatement::new(items, from)))
    }

    #[verifier::loop_isolation(false)]
    fn parse_create_statement(&mut self) -> (r: Result<Statement, ParseError>)
        ensures
            final(self)@.tokens == old(self)@.tokens,
            match r {
                Ok(statement) => create_at(old(self)@.tokens, old(self)@.pos)
                    == Parsed::Done(statement@, final(self)@.pos) && final(self)@.pos > old(self)@.pos,
                Err(error) => create_at(old(self)@.tokens, old(self)@.pos)
                    == Parsed::<StatementView>::Failed(error@, final(self)@.pos),
            },
    {
        match self.expect_and_consume_token(&[TokenKind::Keyword(Keyword::Create)]) {
            Ok(_) => {},
            Err(error) => return Err(error),
        }
        match self.expect_and_consume_token(&[TokenKind::Keyword(Keyword::Table)]) {
            Ok(_) => {},
            Err(error) => return Err(error),
        }
        let name = match self.expect_and_consume_token(&[TokenKind::Identifier]) {
            Ok(token) => token,
            Err(error) => return Err(error),
        };
        match self.expect_and_consume_token(&[TokenKind::Symbol(Symbol::LeftParen)]) {
            Ok(_) => {},
            Err(error) => return Err(error),
        }
        let ghost toks = self@.tokens;
        let ghost q0 = self@.pos;
        let mut cols: Vec<ColumnDefinition> = Vec::new();
        assert(column_views(cols@) =~= Seq::<ColumnDefinitionView>::empty());
        let has_columns = match self.current_token() {
            Some(token) => token.kind != TokenKind::Symbol(Symbol::RightParen),
            None => false,
        };
        if has_columns {
            loop
                invariant
                    self@.tokens == toks,
                    self@.pos >= q0,
                    column_list(toks, q0) == after(column_views(cols@), column_list(toks, self@.pos)),
                decreases toks.len() - self@.pos,
            {
                proof {
                    use_type_invariant(&*self);
                }
                let ghost before = cols@;
                let at_column = match self.current_token() {
                    Some(token) => token.kind != TokenKind::Symbol(Symbol::Semicolon),
                    None => false,
                };
                if !at_column {
                    assert(column_views(cols@) + seq![] =~= column_views(cols@));
                    break;
                }
                let name = match self.expect_and_consume_token(&[TokenKind::Identifier]) {
                    Ok(token) => token,
                    Err(error) => return Err(error),
                };
                let datatype = match self.expect_and_consume_token(
                    &[TokenKind::Keyword(Keyword::Text), TokenKind::Keyword(Keyword::Int)],
                ) {
                    Ok(token) => token,
                    Err(error) => return Err(error),
                };
                let col = ColumnDefinition::new(name, datatype);
                let ghost c = col;
                cols.push(col);
                assert(column_views(cols@) =~= column_views(before).push(c@));
                let comma = match self.current_token() {
                    Some(token) => token.kind == TokenKind::Symbol(Symbol::Comma),
                    None => false,
                };
                if comma {
                    self.advance();
                    proof {
                        lemma_after_prepend(column_views(before), c@, column_list(toks, self@.pos));
                    }
                } else {
                    assert(column_views(before) + seq![c@] =~= column_views(cols@));
                    break;
                }
            }
        }
        match self.expect_and_consume_token(&[TokenKind::Symbol(Symbol::RightParen)]) {
            Ok(_) => {},
            Err(error) => return Err(error),
        }
        match self.expect_and_consume_token(&[TokenKind::Symbol(Symbol::Semicolon)]) {
            Ok(_) => {},
            Err(error) => return Err(error),
        }
        Ok(Statement::CreateTable(CreateTableStatement::new(name, cols)))
    }

    /// Reads one expression.
    pub fn parse_expression(&mut self) -> (r: Result<Expression, ParseError>)
        ensures
            final(self)@.tokens == old(self)@.tokens,
            match r {
                Ok(expression) => expression_at(old(self)@.tokens, old(self)@.pos)
                    == Parsed::Done(expression@, final(self)@.pos),
                Err(error) => expression_at(old(self)@.tokens, old(self)@.pos)
                    == Parsed::<ExpressionView>::Failed(error@, final(self)@.pos),
            },
    {
        match self.current_token() {
            Some(current) => {
                let token = copy_token(current);
                if token.kind == TokenKind::String || token.kind == TokenKind::Numberic
                    || token.kind == TokenKind::Identifier {
                    self.advance();
                    Ok(Expression::Literal(LiteralExpression::new(token)))
                } else {
                    let mut message = String::from_str("Unexpected token: ");
                    let shown = token.kind.to_string();
                    message.append(shown.as_str());
                    let mut tokens = Vec::new();
                    tokens.push(token);
                    proof {
                        assert(token_views(tokens@) =~= seq![token@]);
                    }
                    Err(ParseError::new(message, tokens))
                }
            },
            None => {
                let tokens: Vec<Token> = Vec::new();
                proof {
                    assert(token_views(tokens@) =~= Seq::<TokenView>::empty());
                }
                Err(ParseError::new(String::from_str("Unexpected end of token"), tokens))
            },
        }
    }
}

/// Whether `kinds` holds `kind`.
fn kinds_contain(kinds: &[TokenKind], kind: TokenKind) -> (r: bool)
    ensures
        r == kinds@.contains(kind),
{
    let mut i: usize = 0;
    while i < kinds.len()
        invariant
            0 <= i <= kinds@.len(),
            forall|j: int| 0 <= j < i ==> kinds@[j] != kind,
        decreases kinds@.len() - i,
    {
        if kinds[i] == kind {
            assert(kinds@[i as int] == kind);
            return true;
        }
        i += 1;
    }
    false
}

/// The message of a failed `expect_and_consume_token`.
fn expected_message_of(kinds: &[TokenKind]) -> (r: String)
    ensures
        r@ == expected_message(kinds@),
{
    let mut message = String::from_str("Expected token to be one of the following: ");
    let mut i: usize = 0;
    while i < kinds.len()
        invariant
            0 <= i <= kinds@.len(),
            message@ == "Expected token to be one of the following: "@ + kinds_text(kinds@.take(i as int)),
        decreases kinds@.len() - i,
    {
        if i > 0 {
            message.append(" or ");
        }
        let shown = kinds[i].to_string();
        message.append(shown.as_str());
        proof {
            assert(kinds@.take(i + 1).drop_last() =~= kinds@.take(i as int));
            assert(kinds@.take(i + 1).last() == kinds@[i as int]);
            if i == 0 {
                assert(kinds@.take(1)[0] == kinds@[0]);
                assert(kinds_text(kinds@.take(0)) =~= Seq::<char>::empty());
            }
        }
        i += 1;
    }
    assert(kinds@.take(kinds@.len() as int) =~= kinds@);
    message
}

/// Reading one more item after `items`, in front of what `rest` reads.
proof fn lemma_after_prepend<T>(items: Seq<T>, x: T, rest: Parsed<Seq<T>>)
    ensures
        after(items, prepend(x, rest)) == after(items.push(x), rest),
{
    match rest {
        Parsed::Done(r, p) => {
            assert(items + (seq![x] + r) =~= items.push(x) + r);
        },
        _ => {},
    }
}

// ---------------------------------------------------------------------------
// Laws of parsing.
// ---------------------------------------------------------------------------

/// No token between `a` (included) and `b` (excluded) is a semicolon.
pub open spec fn no_semicolon_in(toks: Seq<TokenView>, a: int, b: int) -> bool {
    forall|i: int| a <= i < b ==> (#[trigger] toks[i]).kind != TokenKind::Symbol(Symbol::Semicolon)
}

/// The number of semicolons among the tokens from `a` (included) to `b` (excluded).
pub open spec fn semicolons(toks: Seq<TokenView>, a: int, b: int) -> nat
    decreases b - a,
{
    if b <= a {
        0
    } else if toks[b - 1].kind == TokenKind::Symbol(Symbol::Semicolon) {
        semicolons(toks, a, b - 1) + 1
    } else {
        semicolons(toks, a, b - 1)
    }
}

proof fn lemma_expression_list_no_semicolon(toks: Seq<TokenView>, pos: int)
    requires
        0 <= pos <= toks.len(),
    ensures
        expression_list(toks, pos) matches Parsed::Done(_, q) ==> no_semicolon_in(toks, pos, q),
    decreases toks.len() - pos,
{
    if pos + 2 <= toks.len() {
        lemma_expression_list_no_semicolon(toks, pos + 2);
        lemma_expression_list_advances(toks, pos + 2);
    }
}

proof fn lemma_column_list_no_semicolon(toks: Seq<TokenView>, pos: int)
    requires
        0 <= pos <= toks.len(),
    ensures
        column_list(toks, pos) matches Parsed::Done(_, q) ==> no_semicolon_in(toks, pos, q),
    decreases toks.len() - pos,
{
    if pos + 3 <= toks.len() {
        lemma_column_list_no_semicolon(toks, pos + 3);
        lemma_column_list_advances(toks, pos + 3);
    }
}

/// A statement that is read ends with the first semicolon after its start.
pub proof fn law_statement_ends_at_semicolon(toks: Seq<TokenView>, pos: int)
    requires
        0 <= pos < toks.len(),
    ensures
        statement_at(toks, pos) matches Parsed::Done(_, p) ==> {
            &&& pos < p <= toks.len()
            &&& toks[p - 1].kind == TokenKind::Symbol(Symbol::Semicolon)
            &&& no_semicolon_in(toks, pos, p - 1)
        },
{
    lemma_statement_advances(toks, pos);
    let len = toks.len() as int;
    assert forall|p: int| 0 <= p <= len implies stays_within(#[trigger] expression_list(toks, p), p, len)
        && (expression_list(toks, p) matches Parsed::Done(_, q) ==> no_semicolon_in(toks, p, q)) by {
        lemma_expression_list_advances(toks, p);
        lemma_expression_list_no_semicolon(toks, p);
    }
    assert forall|p: int| 0 <= p <= len implies stays_within(#[trigger] column_list(toks, p), p, len)
        && (column_list(toks, p) matches Parsed::Done(_, q) ==> no_semicolon_in(toks, p, q)) by {
        lemma_column_list_advances(toks, p);
        lemma_column_list_no_semicolon(toks, p);
    }
}

/// Parsing that succeeds reads every token, and yields one statement for each semicolon.
pub proof fn law_parse_reads_all_tokens(toks: Seq<TokenView>, pos: int)
    requires
        0 <= pos <= toks.len(),
        statements_from(toks, pos) is Done,
    ensures
        statements_from(toks, pos)->Done_1 == toks.len(),
        statements_from(toks, pos)->Done_0.len() == semicolons(toks, pos, toks.len() as int),
    decreases toks.len() - pos,
{
    if pos < toks.len() {
        law_statement_ends_at_semicolon(toks, pos);
        let p = statement_at(toks, pos)->Done_1;
        law_parse_reads_all_tokens(toks, p);
        lemma_semicolons_split(toks, pos, p, toks.len() as int);
        lemma_semicolons_none(toks, pos, p - 1);
    }
}

proof fn lemma_semicolons_split(toks: Seq<TokenView>, a: int, m: int, b: int)
    requires
        a <= m <= b,
    ensures
        semicolons(toks, a, b) == semicolons(toks, a, m) + semicolons(toks, m, b),
    decreases b - m,
{
    if m < b {
        lemma_semicolons_split(toks, a, m, b - 1);
    }
}

proof fn lemma_semicolons_none(toks: Seq<TokenView>, a: int, b: int)
    requires
        a <= b,
        no_semicolon_in(toks, a, b),
    ensures
        semicolons(toks, a, b) == 0,
    decreases b - a,
{
    if a < b {
        lemma_semicolons_none(toks, a, b - 1);
    }
}

/// What `r` reads, with its positions moved on by `k`.
pub open spec fn shifted<T>(r: Parsed<T>, k: int) -> Parsed<T> {
    match r {
        Parsed::Done(x, q) => Parsed::Done(x, q + k),
        Parsed::Failed(e, q) => Parsed::Failed(e, q + k),
    }
}

proof fn lemma_expression_list_frame(a: Seq<TokenView>, b: Seq<TokenView>, pos: int)
    requires
        0 <= pos <= a.len(),
    ensures
        expression_list(a, pos) matches Parsed::Done(_, q) && q < a.len()
            ==> expression_list(a + b, pos) == expression_list(a, pos),
    decreases a.len() - pos,
{
    if pos < a.len() {
        assert((a + b)[pos] == a[pos]);
        if pos + 1 < a.len() {
            assert((a + b)[pos + 1] == a[pos + 1]);
        }
        if pos + 2 <= a.len() {
            lemma_expression_list_frame(a, b, pos + 2);
            lemma_expression_list_advances(a, pos + 2);
        }
    }
}

proof fn lemma_column_list_frame(a: Seq<TokenView>, b: Seq<TokenView>, pos: int)
    requires
        0 <= pos <= a.len(),
    ensures
        column_list(a, pos) matches Parsed::Done(_, q) && q < a.len()
            ==> column_list(a + b, pos) == column_list(a, pos),
    decreases a.len() - pos,
{
    if pos < a.len() {
        assert((a + b)[pos] == a[pos]);
        if pos + 1 < a.len() {
            assert((a + b)[pos + 1] == a[pos + 1]);
        }
        if pos + 2 < a.len() {
            assert((a + b)[pos + 2] == a[pos + 2]);
        }
        if pos + 3 <= a.len() {
            lemma_column_list_frame(a, b, pos + 3);
            lemma_column_list_advances(a, pos + 3);
        }
    }
}

/// A statement read from `a` is read the same when more tokens follow `a`.
proof fn lemma_statement_frame(a: Seq<TokenView>, b: Seq<TokenView>, pos: int)
    requires
        0 <= pos < a.len(),
        statement_at(a, pos) is Done,
    ensures
        statement_at(a + b, pos) == statement_at(a, pos),
{
    let len = a.len() as int;
    assert forall|i: int| 0 <= i < len implies #[trigger] (a + b)[i] == a[i] by {}
    assert forall|p: int| 0 <= p <= len implies stays_within(#[trigger] expression_list(a, p), p, len)
        && (expression_list(a, p) matches Parsed::Done(_, q) && q < len
            ==> expression_list(a + b, p) == expression_list(a, p)) by {
        lemma_expression_list_advances(a, p);
        lemma_expression_list_frame(a, b, p);
    }
    assert forall|p: int| 0 <= p <= len implies stays_within(#[trigger] column_list(a, p), p, len)
        && (column_list(a, p) matches Parsed::Done(_, q) && q < len
            ==> column_list(a + b, p) == column_list(a, p)) by {
        lemma_column_list_advances(a, p);
        lemma_column_list_frame(a, b, p);
    }
}

proof fn lemma_expect_token_shift(a: Seq<TokenView>, b: Seq<TokenView>, p: int, kinds: Seq<TokenKind>)
    requires
        0 <= p,
    ensures
        expect_token(a + b, p + a.len(), kinds) == shifted(expect_token(b, p, kinds), a.len() as int),
{
    if p < b.len() {
        assert((a + b)[p + a.len()] == b[p]);
    }
}

proof fn lemma_expression_list_shift(a: Seq<TokenView>, b: Seq<TokenView>, p: int)
    requires
        0 <= p,
    ensures
        expression_list(a + b, p + a.len()) == shifted(expression_list(b, p), a.len() as int),
    decreases b.len() - p,
{
    if p < b.len() {
        assert((a + b)[p + a.len()] == b[p]);
        if p + 1 < b.len() {
            assert((a + b)[p + a.len() + 1] == b[p + 1]);
        }
        if p + 2 <= b.len() {
            lemma_expression_list_shift(a, b, p + 2);
        }
    }
}

proof fn lemma_column_list_shift(a: Seq<TokenView>, b: Seq<TokenView>, p: int)
    requires
        0 <= p,
    ensures
        column_list(a + b, p + a.len()) == shifted(column_list(b, p), a.len() as int),
    decreases b.len() - p,
{
    if p < b.len() {
        assert((a + b)[p + a.len()] == b[p]);
        if p + 1 < b.len() {
            assert((a + b)[p + a.len() + 1] == b[p + 1]);
        }
        if p + 2 < b.len() {
            assert((a + b)[p + a.len() + 2] == b[p + 2]);
        }
        if p + 3 <= b.len() {
            lemma_column_list_shift(a, b, p + 3);
        }
    }
}

proof fn lemma_insert_shift(a: Seq<TokenView>, b: Seq<TokenView>, p: int)
    requires
        0 <= p,
    ensures
        insert_at(a + b, p + a.len()) == shifted(insert_at(b, p), a.len() as int),
{
    let k1 = one_kind(TokenKind::Keyword(Keyword::Insert));
    let k2 = one_kind(TokenKind::Keyword(Keyword::Into));
    let k3 = one_kind(TokenKind::Identifier);
    let k4 = one_kind(TokenKind::Keyword(Keyword::Values));
    let k5 = one_kind(TokenKind::Symbol(Symbol::LeftParen));
    let k7 = one_kind(TokenKind::Symbol(Symbol::RightParen));
    let k8 = one_kind(TokenKind::Symbol(Symbol::Semicolon));
    lemma_expect_token_shift(a, b, p, k1);
    if let Parsed::Done(_, p1) = expect_token(b, p, k1) {
        lemma_expect_token_shift(a, b, p1, k2);
        if let Parsed::Done(_, p2) = expect_token(b, p1, k2) {
            lemma_expect_token_shift(a, b, p2, k3);
            if let Parsed::Done(_, p3) = expect_token(b, p2, k3) {
                lemma_expect_token_shift(a, b, p3, k4);
                if let Parsed::Done(_, p4) = expect_token(b, p3, k4) {
                    lemma_expect_token_shift(a, b, p4, k5);
                    if let Parsed::Done(_, p5) = expect_token(b, p4, k5) {
                        lemma_expression_list_shift(a, b, p5);
                        lemma_expression_list_advances(b, p5);
                        if let Parsed::Done(_, p6) = expression_list(b, p5) {
                            lemma_expect_token_shift(a, b, p6, k7);
                            if let Parsed::Done(_, p7) = expect_token(b, p6, k7) {
                                lemma_expect_token_shift(a, b, p7, k8);
                            }
                        }
                    }
                }
            }
        }
    }
}

proof fn lemma_select_shift(a: Seq<TokenView>, b: Seq<TokenView>, p: int)
    requires
        0 <= p,
    ensures
        select_at(a + b, p + a.len()) == shifted(select_at(b, p), a.len() as int),
{
    let k = a.len() as int;
    let ab = a + b;
    let k1 = one_kind(TokenKind::Keyword(Keyword::Select));
    let k3 = one_kind(TokenKind::Keyword(Keyword::From));
    let k4 = one_kind(TokenKind::Identifier);
    let k5 = one_kind(TokenKind::Symbol(Symbol::Semicolon));
    lemma_expect_token_shift(a, b, p, k1);
    if let Parsed::Done(_, p1) = expect_token(b, p, k1) {
        lemma_expression_list_shift(a, b, p1);
        lemma_expression_list_advances(b, p1);
        if p1 < b.len() {
            assert(ab[p1 + k] == b[p1]);
        }
        assert(select_items(ab, p1 + k) == shifted(select_items(b, p1), k));
        if let Parsed::Done(_, p2) = select_items(b, p1) {
            lemma_expect_token_shift(a, b, p2, k3);
            if let Parsed::Done(_, p3) = expect_token(b, p2, k3) {
                lemma_expect_token_shift(a, b, p3, k4);
                if let Parsed::Done(_, p4) = expect_token(b, p3, k4) {
                    lemma_expect_token_shift(a, b, p4, k5);
                }
            }
        }
    }
}

proof fn lemma_create_shift(a: Seq<TokenView>, b: Seq<TokenView>, p: int)
    requires
        0 <= p,
    ensures
        create_at(a + b, p + a.len()) == shifted(create_at(b, p), a.len() as int),
{
    let k = a.len() as int;
    let ab = a + b;
    let k1 = one_kind(TokenKind::Keyword(Keyword::Create));
    let k2 = one_kind(TokenKind::Keyword(Keyword::Table));
    let k3 = one_kind(TokenKind::Identifier);
    let k4 = one_kind(TokenKind::Symbol(Symbol::LeftParen));
    let k6 = one_kind(TokenKind::Symbol(Symbol::RightParen));
    let k7 = one_kind(TokenKind::Symbol(Symbol::Semicolon));
    lemma_expect_token_shift(a, b, p, k1);
    if let Parsed::Done(_, p1) = expect_token(b, p, k1) {
        lemma_expect_token_shift(a, b, p1, k2);
        if let Parsed::Done(_, p2) = expect_token(b, p1, k2) {
            lemma_expect_token_shift(a, b, p2, k3);
            if let Parsed::Done(_, p3) = expect_token(b, p2, k3) {
                lemma_expect_token_shift(a, b, p3, k4);
                if let Parsed::Done(_, p4) = expect_token(b, p3, k4) {
                    lemma_column_list_shift(a, b, p4);
                    if p4 < b.len() {
                        assert(ab[p4 + k] == b[p4]);
                    }
                    assert(table_columns(ab, p4 + k) == shifted(table_columns(b, p4), k));
                    lemma_column_list_advances(b, p4);
                    if let Parsed::Done(_, p5) = table_columns(b, p4) {
                        lemma_expect_token_shift(a, b, p5, k6);
                        if let Parsed::Done(_, p6) = expect_token(b, p5, k6) {
                            lemma_expect_token_shift(a, b, p6, k7);
                        }
                    }
                }
            }
        }
    }
}

/// A statement read from `b` is read the same, further on, when tokens come before `b`.
proof fn lemma_statement_shift(a: Seq<TokenView>, b: Seq<TokenView>, p: int)
    requires
        0 <= p,
    ensures
        statement_at(a + b, p + a.len()) == shifted(statement_at(b, p), a.len() as int),
{
    if p < b.len() {
        assert((a + b)[p + a.len()] == b[p]);
        lemma_insert_shift(a, b, p);
        lemma_select_shift(a, b, p);
        lemma_create_shift(a, b, p);
    }
}

proof fn lemma_statements_shift(a: Seq<TokenView>, b: Seq<TokenView>, p: int)
    requires
        0 <= p,
    ensures
        statements_from(a + b, p + a.len()) == shifted(statements_from(b, p), a.len() as int),
    decreases b.len() - p,
{
    if p < b.len() {
        lemma_statement_shift(a, b, p);
        lemma_statement_advances(b, p);
        if let Parsed::Done(_, q) = statement_at(b, p) {
            lemma_statements_shift(a, b, q);
        }
    }
}

/// Statements read from `a` up to its end come first when more tokens follow `a`.
proof fn lemma_statements_frame(a: Seq<TokenView>, b: Seq<TokenView>, pos: int)
    requires
        0 <= pos <= a.len(),
        statements_from(a, pos) is Done,
    ensures
        statements_from(a + b, pos)
            == after(statements_from(a, pos)->Done_0, statements_from(a + b, a.len() as int)),
    decreases a.len() - pos,
{
    if pos < a.len() {
        lemma_statement_advances(a, pos);
        lemma_statement_frame(a, b, pos);
        let (s, p) = match statement_at(a, pos) {
            Parsed::Done(s, p) => (s, p),
            Parsed::Failed(_, p) => (arbitrary(), p),
        };
        lemma_statements_frame(a, b, p);
        let rest = statements_from(a + b, a.len() as int);
        let tail = statements_from(a, p)->Done_0;
        if let Parsed::Done(xs, _) = rest {
            assert(seq![s] + (tail + xs) =~= (seq![s] + tail) + xs);
        }
    } else {
        law_parse_reads_all_tokens(a, pos);
        if let Parsed::Done(xs, _) = statements_from(a + b, a.len() as int) {
            assert(Seq::<StatementView>::empty() + xs =~= xs);
        }
    }
}

/// Parsing tokens that follow a complete run of statements yields those statements,
/// then what the following tokens yield on their own (their positions counted from the
/// start of the whole).
pub proof fn law_statements_parse_independently(a: Seq<TokenView>, b: Seq<TokenView>)
    requires
        statements_from(a, 0) is Done,
    ensures
        statements_from(a + b, 0)
            == after(statements_from(a, 0)->Done_0, shifted(statements_from(b, 0), a.len() as int)),
{
    lemma_statements_frame(a, b, 0);
    lemma_statements_shift(a, b, 0);
}

// ---------------------------------------------------------------------------
// Well-formed statements parse to what they list.
// ---------------------------------------------------------------------------

/// The tokens `items[0] , items[1] , ... , items[k-1]`, separated by `comma`.
pub open spec fn listed_expressions(items: Seq<TokenView>, comma: TokenView) -> Seq<TokenView>
    decreases items.len(),
{
    if items.len() <= 1 {
        items
    } else {
        seq![items[0], comma] + listed_expressions(items.drop_first(), comma)
    }
}

/// The tokens `n0 t0 , n1 t1 , ... , nk tk` of column definitions, separated by `comma`.
pub open spec fn listed_columns(cols: Seq<ColumnDefinitionView>, comma: TokenView) -> Seq<TokenView>
    decreases cols.len(),
{
    if cols.len() == 0 {
        seq![]
    } else if cols.len() == 1 {
        seq![cols[0].name, cols[0].datatype]
    } else {
        seq![cols[0].name, cols[0].datatype, comma] + listed_columns(cols.drop_first(), comma)
    }
}

/// Each of `items` as a literal expression.
pub open spec fn literals(items: Seq<TokenView>) -> Seq<ExpressionView> {
    items.map_values(|t: TokenView| ExpressionView::Literal(t))
}

/// Whether `toks` holds `part` from position `p` on.
pub open spec fn holds_at(toks: Seq<TokenView>, p: int, part: Seq<TokenView>) -> bool {
    &&& 0 <= p
    &&& p + part.len() <= toks.len()
    &&& forall|i: int| 0 <= i < part.len() ==> toks[p + i] == #[trigger] part[i]
}

proof fn lemma_listed_expressions(
    toks: Seq<TokenView>,
    p: int,
    items: Seq<TokenView>,
    comma: TokenView,
)
    requires
        items.len() >= 1,
        forall|i: int| 0 <= i < items.len() ==> is_literal_kind(#[trigger] items[i].kind),
        comma.kind == TokenKind::Symbol(Symbol::Comma),
        holds_at(toks, p, listed_expressions(items, comma)),
        p + listed_expressions(items, comma).len() < toks.len(),
        toks[p + listed_expressions(items, comma).len()].kind != TokenKind::Symbol(Symbol::Comma),
    ensures
        listed_expressions(items, comma).len() == 2 * items.len() - 1,
        expression_list(toks, p) == Parsed::Done(literals(items), p + listed_expressions(items, comma).len()),
    decreases items.len(),
{
    let l = listed_expressions(items, comma);
    assert(l[0] == items[0]);
    assert(toks[p] == items[0]);
    assert(is_literal_kind(items[0].kind));
    if items.len() == 1 {
        assert(literals(items) =~= seq![ExpressionView::Literal(items[0])]);
    } else {
        let rest = items.drop_first();
        let lr = listed_expressions(rest, comma);
        assert(l[1] == comma);
        assert(toks[p + 1] == comma);
        assert forall|i: int| 0 <= i < lr.len() implies toks[(p + 2) + i] == #[trigger] lr[i] by {
            assert(l[i + 2] == lr[i]);
            assert(toks[p + (i + 2)] == l[i + 2]);
        }
        assert forall|i: int| 0 <= i < rest.len() implies is_literal_kind(#[trigger] rest[i].kind) by {
            assert(rest[i] == items[i + 1]);
        }
        lemma_listed_expressions(toks, p + 2, rest, comma);
        assert(literals(items) =~= seq![ExpressionView::Literal(items[0])] + literals(rest));
    }
}

proof fn lemma_listed_columns(
    toks: Seq<TokenView>,
    p: int,
    cols: Seq<ColumnDefinitionView>,
    comma: TokenView,
)
    requires
        cols.len() >= 1,
        forall|i: int| 0 <= i < cols.len() ==> (#[trigger] cols[i]).name.kind == TokenKind::Identifier
            && (cols[i].datatype.kind == TokenKind::Keyword(Keyword::Int)
                || cols[i].datatype.kind == TokenKind::Keyword(Keyword::Text)),
        comma.kind == TokenKind::Symbol(Symbol::Comma),
        holds_at(toks, p, listed_columns(cols, comma)),
        p + listed_columns(cols, comma).len() < toks.len(),
        toks[p + listed_columns(cols, comma).len()].kind != TokenKind::Symbol(Symbol::Comma),
    ensures
        listed_columns(cols, comma).len() == 3 * cols.len() - 1,
        column_list(toks, p) == Parsed::Done(cols, p + listed_columns(cols, comma).len()),
    decreases cols.len(),
{
    let l = listed_columns(cols, comma);
    let c0 = cols[0];
    assert(l[0] == c0.name);
    assert(l[1] == c0.datatype);
    assert(toks[p] == c0.name);
    assert(toks[p + 1] == c0.datatype);
    assert(column_type_kinds().contains(c0.datatype.kind)) by {
        if c0.datatype.kind == TokenKind::Keyword(Keyword::Int) {
            assert(column_type_kinds()[1] == c0.datatype.kind);
        } else {
            assert(column_type_kinds()[0] == c0.datatype.kind);
        }
    }
    assert(column_name_kinds()[0] == c0.name.kind);
    if cols.len() == 1 {
        assert(cols =~= seq![ColumnDefinitionView { name: c0.name, datatype: c0.datatype }]);
    } else {
        let rest = cols.drop_first();
        let lr = listed_columns(rest, comma);
        assert(l[2] == comma);
        assert(toks[p + 2] == comma);
        assert forall|i: int| 0 <= i < lr.len() implies toks[(p + 3) + i] == #[trigger] lr[i] by {
            assert(l[i + 3] == lr[i]);
            assert(toks[p + (i + 3)] == l[i + 3]);
        }
        assert forall|i: int| 0 <= i < rest.len() implies (#[trigger] rest[i]).name.kind == TokenKind::Identifier
            && (rest[i].datatype.kind == TokenKind::Keyword(Keyword::Int)
                || rest[i].datatype.kind == TokenKind::Keyword(Keyword::Text)) by {
            assert(rest[i] == cols[i + 1]);
        }
        lemma_listed_columns(toks, p + 3, rest, comma);
        assert(cols =~= seq![ColumnDefinitionView { name: c0.name, datatype: c0.datatype }] + rest);
    }
}

/// `CREATE TABLE name ( n1 t1 , ... , nk tk ) ;`, with each `ni` an identifier
/// and each `ti` the keyword INT or TEXT (k may be 0), parses to one CREATE TABLE
/// statement of that name whose columns are exactly `(n1, t1) ... (nk, tk)`, in
/// order, and parsing reads every token.
pub proof fn law_create_table_lists_its_columns(
    create: TokenView,
    table: TokenView,
    name: TokenView,
    lp: TokenView,
    cols: Seq<ColumnDefinitionView>,
    comma: TokenView,
    rp: TokenView,
    semi: TokenView,
)
    requires
        create.kind == TokenKind::Keyword(Keyword::Create),
        table.kind == TokenKind::Keyword(Keyword::Table),
        name.kind == TokenKind::Identifier,
        lp.kind == TokenKind::Symbol(Symbol::LeftParen),
        rp.kind == TokenKind::Symbol(Symbol::RightParen),
        semi.kind == TokenKind::Symbol(Symbol::Semicolon),
        comma.kind == TokenKind::Symbol(Symbol::Comma),
        forall|i: int| 0 <= i < cols.len() ==> (#[trigger] cols[i]).name.kind == TokenKind::Identifier
            && (cols[i].datatype.kind == TokenKind::Keyword(Keyword::Int)
                || cols[i].datatype.kind == TokenKind::Keyword(Keyword::Text)),
    ensures
        ({
            let toks = seq![create, table, name, lp] + listed_columns(cols, comma) + seq![rp, semi];
            statements_from(toks, 0) == Parsed::Done(
                seq![StatementView::CreateTable(CreateTableView { name, cols })],
                toks.len() as int,
            )
        }),
{
    let l = listed_columns(cols, comma);
    let toks = seq![create, table, name, lp] + l + seq![rp, semi];
    let m = l.len() as int;
    assert(toks[0] == create);
    assert(toks[1] == table);
    assert(toks[2] == name);
    assert(toks[3] == lp);
    assert(toks[4 + m] == rp);
    assert(toks[5 + m] == semi);
    assert(one_kind(create.kind)[0] == create.kind);
    assert(one_kind(table.kind)[0] == table.kind);
    assert(one_kind(name.kind)[0] == name.kind);
    assert(one_kind(lp.kind)[0] == lp.kind);
    assert(one_kind(rp.kind)[0] == rp.kind);
    assert(one_kind(semi.kind)[0] == semi.kind);
    if cols.len() == 0 {
        assert(cols =~= Seq::<ColumnDefinitionView>::empty());
        assert(table_columns(toks, 4) == Parsed::<Seq<ColumnDefinitionView>>::Done(cols, 4));
    } else {
        assert forall|i: int| 0 <= i < l.len() implies toks[4 + i] == #[trigger] l[i] by {}
        lemma_listed_columns(toks, 4, cols, comma);
        assert(toks[4].kind != TokenKind::Symbol(Symbol::RightParen)) by {
            assert(l[0] == cols[0].name);
        }
    }
    assert(create_at(toks, 0) == Parsed::Done(
        StatementView::CreateTable(CreateTableView { name, cols }),
        6 + m,
    ));
    assert(statements_from(toks, 6 + m) == Parsed::<Seq<StatementView>>::Done(seq![], 6 + m));
    assert(seq![StatementView::CreateTable(CreateTableView { name, cols })] + Seq::<StatementView>::empty()
        =~= seq![StatementView::CreateTable(CreateTableView { name, cols })]);
}

/// `SELECT e1 , ... , ek FROM name ;`, with k at least 1 and each `ei` a
/// literal (identifier, string or number), parses to one SELECT statement whose
/// items are exactly `e1 ... ek`, in order, from `name`; and parsing reads every
/// token.
pub proof fn law_select_lists_its_items(
    select: TokenView,
    items: Seq<TokenView>,
    comma: TokenView,
    from: TokenView,
    name: TokenView,
    semi: TokenView,
)
    requires
        select.kind == TokenKind::Keyword(Keyword::Select),
        items.len() >= 1,
        forall|i: int| 0 <= i < items.len() ==> is_literal_kind(#[trigger] items[i].kind),
        comma.kind == TokenKind::Symbol(Symbol::Comma),
        from.kind == TokenKind::Keyword(Keyword::From),
        name.kind == TokenKind::Identifier,
        semi.kind == TokenKind::Symbol(Symbol::Semicolon),
    ensures
        ({
            let toks = seq![select] + listed_expressions(items, comma) + seq![from, name, semi];
            statements_from(toks, 0) == Parsed::Done(
                seq![StatementView::Select(SelectView { items: literals(items), from: name })],
                toks.len() as int,
            )
        }),
{
    let l = listed_expressions(items, comma);
    let toks = seq![select] + l + seq![from, name, semi];
    let m = l.len() as int;
    assert(toks[0] == select);
    assert(toks[1 + m] == from);
    assert(toks[2 + m] == name);
    assert(toks[3 + m] == semi);
    assert(one_kind(select.kind)[0] == select.kind);
    assert(one_kind(from.kind)[0] == from.kind);
    assert(one_kind(name.kind)[0] == name.kind);
    assert(one_kind(semi.kind)[0] == semi.kind);
    assert forall|i: int| 0 <= i < l.len() implies toks[1 + i] == #[trigger] l[i] by {}
    lemma_listed_expressions(toks, 1, items, comma);
    assert(toks[1].kind != TokenKind::Symbol(Symbol::Asterisk)) by {
        assert(l[0] == items[0]);
        assert(is_literal_kind(items[0].kind));
    }
    let st = StatementView::Select(SelectView { items: literals(items), from: name });
    assert(select_at(toks, 0) == Parsed::Done(st, 4 + m));
    assert(statements_from(toks, 4 + m) == Parsed::<Seq<StatementView>>::Done(seq![], 4 + m));
    assert(seq![st] + Seq::<StatementView>::empty() =~= seq![st]);
}

/// `SELECT * FROM name ;` parses to one SELECT statement with no items, from `name`.
pub proof fn law_select_star_lists_nothing(
    select: TokenView,
    star: TokenView,
    from: TokenView,
    name: TokenView,
    semi: TokenView,
)
    requires
        select.kind == TokenKind::Keyword(Keyword::Select),
        star.kind == TokenKind::Symbol(Symbol::Asterisk),
        from.kind == TokenKind::Keyword(Keyword::From),
        name.kind == TokenKind::Identifier,
        semi.kind == TokenKind::Symbol(Symbol::Semicolon),
    ensures
        statements_from(seq![select, star, from, name, semi], 0) == Parsed::Done(
            seq![StatementView::Select(SelectView { items: seq![], from: name })],
            5,
        ),
{
    let toks = seq![select, star, from, name, semi];
    assert(one_kind(select.kind)[0] == select.kind);
    assert(one_kind(from.kind)[0] == from.kind);
    assert(one_kind(name.kind)[0] == name.kind);
    assert(one_kind(semi.kind)[0] == semi.kind);
    let st = StatementView::Select(SelectView { items: seq![], from: name });
    assert(select_at(toks, 0) == Parsed::Done(st, 5));
    assert(statements_from(toks, 5) == Parsed::<Seq<StatementView>>::Done(seq![], 5));
    assert(seq![st] + Seq::<StatementView>::empty() =~= seq![st]);
}

/// `INSERT INTO name VALUES ( e1 , ... , ek ) ;`, with k at least 1 and each
/// `ei` a literal, parses to one INSERT statement into `name` whose values are
/// exactly `e1 ... ek`, in order; and parsing reads every token.
pub proof fn law_insert_lists_its_values(
    insert: TokenView,
    into: TokenView,
    name: TokenView,
    values_kw: TokenView,
    lp: TokenView,
    items: Seq<TokenView>,
    comma: TokenView,
    rp: TokenView,
    semi: TokenView,
)
    requires
        insert.kind == TokenKind::Keyword(Keyword::Insert),
        into.kind == TokenKind::Keyword(Keyword::Into),
        name.kind == TokenKind::Identifier,
        values_kw.kind == TokenKind::Keyword(Keyword::Values),
        lp.kind == TokenKind::Symbol(Symbol::LeftParen),
        items.len() >= 1,
        forall|i: int| 0 <= i < items.len() ==> is_literal_kind(#[trigger] items[i].kind),
        comma.kind == TokenKind::Symbol(Symbol::Comma),
        rp.kind == TokenKind::Symbol(Symbol::RightParen),
        semi.kind == TokenKind::Symbol(Symbol::Semicolon),
    ensures
        ({
            let toks = seq![insert, into, name, values_kw, lp] + listed_expressions(items, comma) + seq![rp, semi];
            statements_from(toks, 0) == Parsed::Done(
                seq![StatementView::Insert(InsertView { table_name: name, values: literals(items) })],
                toks.len() as int,
            )
        }),
{
    let l = listed_expressions(items, comma);
    let toks = seq![insert, into, name, values_kw, lp] + l + seq![rp, semi];
    let m = l.len() as int;
    assert(toks[0] == insert);
    assert(toks[1] == into);
    assert(toks[2] == name);
    assert(toks[3] == values_kw);
    assert(toks[4] == lp);
    assert(toks[5 + m] == rp);
    assert(toks[6 + m] == semi);
    assert(one_kind(insert.kind)[0] == insert.kind);
    assert(one_kind(into.kind)[0] == into.kind);
    assert(one_kind(name.kind)[0] == name.kind);
    assert(one_kind(values_kw.kind)[0] == values_kw.kind);
    assert(one_kind(lp.kind)[0] == lp.kind);
    assert(one_kind(rp.kind)[0] == rp.kind);
    assert(one_kind(semi.kind)[0] == semi.kind);
    assert forall|i: int| 0 <= i < l.len() implies toks[5 + i] == #[trigger] l[i] by {}
    lemma_listed_expressions(toks, 5, items, comma);
    let st = StatementView::Insert(InsertView { table_name: name, values: literals(items) });
    assert(insert_at(toks, 0) == Parsed::Done(st, 7 + m));
    assert(statements_from(toks, 7 + m) == Parsed::<Seq<StatementView>>::Done(seq![], 7 + m));
    assert(seq![st] + Seq::<StatementView>::empty() =~= seq![st]);
}

} // verus!
