//! The lexer: source text to tokens, each with its place in the source.
use vstd::prelude::*;
use vstd::utf8::{is_ascii_chars, is_ascii_chars_encode_utf8};

use crate::text::{
    ascii_digit, ascii_letter, byte_len, char_is_alphabetic, char_is_numeric, char_to_string, chars_of, is_alphabetic,
    is_alphanumeric, is_numeric, lemma_byte_len_bounds, lemma_byte_len_char,
    lemma_byte_len_subrange, push_char, to_uppercase, upper_case,
};

verus! {

#[derive(Debug, PartialEq, Eq, Clone, Copy, Structural)]
pub enum Keyword {
    Create,
    Table,
    Select,
    Where,
    From,
    Insert,
    Into,
    Values,
    As,
    Int,
    Text,
}

#[derive(Debug, PartialEq, Eq, Clone, Copy, Structural)]
pub enum Symbol {
    Semicolon,
    Asterisk,
    Comma,
    LeftParen,
    RightParen,
}

#[derive(Debug, PartialEq, Eq, Clone, Copy, Structural)]
pub enum TokenKind {
    Keyword(Keyword),
    Symbol(Symbol),
    Identifier,
    String,
    Numberic,
}

/// The text by which a token kind is shown in messages.
pub open spec fn kind_text(kind: TokenKind) -> Seq<char> {
    match kind {
        TokenKind::Keyword(k) => match k {
            Keyword::Create => "CREATE"@,
            Keyword::Table => "TABLE"@,
            Keyword::Select => "SELECT"@,
            Keyword::Where => "WHERE"@,
            Keyword::From => "FROM"@,
            Keyword::Insert => "INSERT"@,
            Keyword::Into => "INTO"@,
            Keyword::Values => "VALUES"@,
            Keyword::As => "AS"@,
            Keyword::Int => "INT"@,
            Keyword::Text => "TEXT"@,
        },
        TokenKind::Symbol(s) => match s {
            Symbol::Semicolon => ";"@,
            Symbol::Asterisk => "*"@,
            Symbol::Comma => ","@,
            Symbol::LeftParen => "("@,
            Symbol::RightParen => ")"@,
        },
        TokenKind::Identifier => "<IDENTIFIER>"@,
        TokenKind::String => "<STRING>"@,
        TokenKind::Numberic => "<NUMERIC>"@,
    }
}

impl TokenKind {
    /// The text by which this kind is shown in messages.
    pub fn to_string(&self) -> (r: String)
        ensures
            r@ == kind_text(*self),
    {
        let text = match self {
            TokenKind::Keyword(k) => match k {
                Keyword::Create => "CREATE",
                Keyword::Table => "TABLE",
                Keyword::Select => "SELECT",
                Keyword::Where => "WHERE",
                Keyword::From => "FROM",
                Keyword::Insert => "INSERT",
                Keyword::Into => "INTO",
                Keyword::Values => "VALUES",
                Keyword::As => "AS",
                Keyword::Int => "INT",
                Keyword::Text => "TEXT",
            },
            TokenKind::Symbol(s) => match s {
                Symbol::Semicolon => ";",
                Symbol::Asterisk => "*",
                Symbol::Comma => ",",
                Symbol::LeftParen => "(",
                Symbol::RightParen => ")",
            },
            TokenKind::Identifier => "<IDENTIFIER>",
            TokenKind::String => "<STRING>",
            TokenKind::Numberic => "<NUMERIC>",
        };
        String::from_str(text)
    }
}

#[derive(Debug, PartialEq, Eq, Clone, Copy, Structural)]
pub struct Location {
    pub line: usize,
    pub col: usize,
    pub start: usize,
    pub end: usize,
}

impl Location {
    pub fn new(line: usize, col: usize, start: usize, end: usize) -> (r: Self)
        ensures
            r == (Location { line, col, start, end }),
    {
        Self { line, col, start, end }
    }
}

#[derive(Debug, PartialEq, Eq, Clone)]
pub struct Token {
    pub value: String,
    pub kind: TokenKind,
    pub loc: Location,
}

/// A token as the contracts see it.
pub struct TokenView {
    pub value: Seq<char>,
    pub kind: TokenKind,
    pub loc: Location,
}

impl View for Token {
    type V = TokenView;

    open spec fn view(&self) -> TokenView {
        TokenView { value: self.value@, kind: self.kind, loc: self.loc }
    }
}

/// The tokens of `ts`, as the contracts see them.
pub open spec fn token_views(ts: Seq<Token>) -> Seq<TokenView> {
    ts.map_values(|t: Token| t@)
}

impl Token {
    pub fn new(value: String, kind: TokenKind, loc: Location) -> (r: Self)
        ensures
            r@ == (TokenView { value: value@, kind, loc }),
    {
        Self { value, kind, loc }
    }
}

/// A copy of `t`, field by field.
pub(crate) fn copy_token(t: &Token) -> (r: Token)
    ensures
        r@ == t@,
{
    Token { value: t.value.clone(), kind: t.kind, loc: t.loc }
}

#[derive(Debug)]
pub struct LexError {
    pub value: String,
    pub message: String,
    pub loc: Location,
}

/// A lexing error as the contracts see it.
pub struct LexErrorView {
    pub value: Seq<char>,
    pub message: Seq<char>,
    pub loc: Location,
}

impl View for LexError {
    type V = LexErrorView;

    open spec fn view(&self) -> LexErrorView {
        LexErrorView { value: self.value@, message: self.message@, loc: self.loc }
    }
}

impl LexError {
    fn new(value: String, message: String, loc: Location) -> (r: Self)
        ensures
            r@ == (LexErrorView { value: value@, message: message@, loc }),
    {
        Self { value, message, loc }
    }
}

// ---------------------------------------------------------------------------
// What lexing a source means.
//
// A position in the source is a character index `pos`, with the `line` it is
// on (from 1) and `col`, the number of characters consumed on that line.  A
// token or an error is placed by its `end` (the position after it), by its
// `start`, which lies as many positions before `end` as its text has UTF-8
// bytes, and by the column of its first character, counted the same way.
// Where that count would fall below zero the token cannot be placed
// (`Unplaceable`): the subtraction would overflow.  A number that ends in a
// period or an exponent marker at the very end of the source is never left
// (`Endless`).
// ---------------------------------------------------------------------------

/// Where the lexer stands in a source.
pub struct Cursor {
    pub pos: int,
    pub line: int,
    pub col: int,
}

/// The location of a text of `len` bytes that ends at `pos`, on `line`, at column `col`.
pub open spec fn location_at(pos: int, line: int, col: int, len: int) -> Location {
    Location {
        line: line as usize,
        col: (col - len + 1) as usize,
        start: (pos - len) as usize,
        end: pos as usize,
    }
}

/// Whether a text of `len` bytes ending at `pos` and column `col` can be placed.
pub open spec fn location_fits(pos: int, col: int, len: int) -> bool {
    len <= pos && len <= col
}

/// Characters that separate tokens.
pub open spec fn is_blank(c: char) -> bool {
    c == ' ' || c == '\t' || c == '\r' || c == '\n'
}

/// The symbol that `c` stands for, if any.
pub open spec fn symbol_of(c: char) -> Option<Symbol> {
    if c == ';' {
        Some(Symbol::Semicolon)
    } else if c == '*' {
        Some(Symbol::Asterisk)
    } else if c == ',' {
        Some(Symbol::Comma)
    } else if c == '(' {
        Some(Symbol::LeftParen)
    } else if c == ')' {
        Some(Symbol::RightParen)
    } else {
        None
    }
}

/// Characters that begin a word (a keyword or an identifier).
pub open spec fn is_word_start(c: char) -> bool {
    char_is_alphabetic(c) || c == '_'
}

/// Characters that continue a word.
pub open spec fn is_word_char(c: char) -> bool {
    char_is_alphabetic(c) || char_is_numeric(c) || c == '_'
}

/// The kind of a word, given its upper-case form: a keyword, or an identifier.
pub open spec fn word_kind(upper: Seq<char>) -> TokenKind {
    if upper == "SELECT"@ {
        TokenKind::Keyword(Keyword::Select)
    } else if upper == "WHERE"@ {
        TokenKind::Keyword(Keyword::Where)
    } else if upper == "FROM"@ {
        TokenKind::Keyword(Keyword::From)
    } else if upper == "AS"@ {
        TokenKind::Keyword(Keyword::As)
    } else if upper == "TABLE"@ {
        TokenKind::Keyword(Keyword::Table)
    } else if upper == "CREATE"@ {
        TokenKind::Keyword(Keyword::Create)
    } else if upper == "INSERT"@ {
        TokenKind::Keyword(Keyword::Insert)
    } else if upper == "INTO"@ {
        TokenKind::Keyword(Keyword::Into)
    } else if upper == "VALUES"@ {
        TokenKind::Keyword(Keyword::Values)
    } else if upper == "INT"@ {
        TokenKind::Keyword(Keyword::Int)
    } else if upper == "TEXT"@ {
        TokenKind::Keyword(Keyword::Text)
    } else {
        TokenKind::Identifier
    }
}

/// The end of the word characters that run from `p`.
pub open spec fn word_end(src: Seq<char>, p: int) -> int
    decreases src.len() - p,
{
    if 0 <= p < src.len() && is_word_char(src[p]) {
        word_end(src, p + 1)
    } else {
        p
    }
}

/// The first quote or line break at or after `p`, or the end of the source.
pub open spec fn quote_end(src: Seq<char>, p: int) -> int
    decreases src.len() - p,
{
    if 0 <= p < src.len() && src[p] != '\'' && src[p] != '\n' {
        quote_end(src, p + 1)
    } else {
        p
    }
}

/// How a number ends.
pub enum NumberEnd {
    /// The number ends before this position.
    At(int),
    /// The period or exponent marker at this position is followed by a character
    /// that is not numeric.
    Malformed(int),
    /// A period or exponent marker is the last character of the source: the lexer
    /// never gets past it.
    Endless,
}

/// Scans the number that continues at `p`, with a period and an exponent marker
/// already seen or not.
pub open spec fn number_end(src: Seq<char>, p: int, period: bool, exponent: bool) -> NumberEnd
    decreases src.len() - p,
{
    if !(0 <= p < src.len()) {
        NumberEnd::At(p)
    } else if char_is_numeric(src[p]) {
        number_end(src, p + 1, period, exponent)
    } else if src[p] == '.' && !period && !exponent {
        if p + 1 < src.len() {
            if char_is_numeric(src[p + 1]) {
                number_end(src, p + 1, true, exponent)
            } else {
                NumberEnd::Malformed(p)
            }
        } else {
            NumberEnd::Endless
        }
    } else if src[p] == 'e' && !exponent {
        if p + 1 < src.len() {
            if char_is_numeric(src[p + 1]) {
                number_end(src, p + 1, period, true)
            } else {
                NumberEnd::Malformed(p)
            }
        } else {
            NumberEnd::Endless
        }
    } else {
        NumberEnd::At(p)
    }
}

/// One step of the lexer.
pub enum LexStep {
    /// A separator was passed; the lexer now stands at the cursor.
    Blank(Cursor),
    /// A token was read; the lexer now stands at the cursor.
    Emit(TokenView, Cursor),
    /// Lexing stops with an error; the lexer stands at the cursor.
    Fail(LexErrorView, Cursor),
    /// The lexer never gets past this point.
    Endless,
    /// A token or an error here cannot be placed.
    Unplaceable,
}

/// The step that reads a token `value` of `kind` ending at `pos`, on `line`, at column `col`.
pub open spec fn emit(value: Seq<char>, kind: TokenKind, pos: int, line: int, col: int) -> LexStep {
    let n = byte_len(value) as int;
    if location_fits(pos, col, n) {
        LexStep::Emit(
            TokenView { value, kind, loc: location_at(pos, line, col, n) },
            Cursor { pos, line, col },
        )
    } else {
        LexStep::Unplaceable
    }
}

/// The step that stops with an error about `value`, the lexer standing at `pos`, `line`, `col`.
pub open spec fn fail(value: Seq<char>, message: Seq<char>, pos: int, line: int, col: int) -> LexStep {
    let n = byte_len(value) as int;
    if location_fits(pos, col, n) {
        LexStep::Fail(
            LexErrorView { value, message, loc: location_at(pos, line, col, n) },
            Cursor { pos, line, col },
        )
    } else {
        LexStep::Unplaceable
    }
}

pub open spec fn unknown_character_message() -> Seq<char> {
    "Unknown character"@
}

pub open spec fn closing_quote_message() -> Seq<char> {
    "Expected closing qoute (')"@
}

pub open spec fn period_message() -> Seq<char> {
    "Expected numeric value after period (.)"@
}

pub open spec fn exponent_message() -> Seq<char> {
    "Expected numeric value after exponent marker (e)"@
}

/// Reading a string literal whose opening quote is at `pos`.
pub open spec fn string_step(src: Seq<char>, pos: int, line: int, col: int) -> LexStep {
    let q = quote_end(src, pos + 1);
    let col_q = col + (q - pos);
    if q < src.len() && src[q] == '\'' {
        emit(src.subrange(pos + 1, q), TokenKind::String, q + 1, line, col_q + 1)
    } else if q < src.len() {
        fail(seq![src[q]], closing_quote_message(), q + 1, line, col_q + 1)
    } else {
        fail(seq!['\0'], closing_quote_message(), q, line, col_q)
    }
}

/// Reading a number whose first character is at `pos`.
pub open spec fn number_step(src: Seq<char>, pos: int, line: int, col: int) -> LexStep {
    match number_end(src, pos, false, false) {
        NumberEnd::At(e) => emit(src.subrange(pos, e), TokenKind::Numberic, e, line, col + (e - pos)),
        NumberEnd::Malformed(q) => fail(
            seq![src[q + 1]],
            if src[q] == '.' { period_message() } else { exponent_message() },
            q,
            line,
            col + (q - pos),
        ),
        NumberEnd::Endless => LexStep::Endless,
    }
}

/// Reading a word whose first character is at `pos`.
pub open spec fn word_step(src: Seq<char>, pos: int, line: int, col: int) -> LexStep {
    let e = word_end(src, pos);
    let value = src.subrange(pos, e);
    emit(value, word_kind(upper_case(value)), e, line, col + (e - pos))
}

/// The step of the lexer at `pos`, on `line`, at column `col`.
pub open spec fn lex_step(src: Seq<char>, pos: int, line: int, col: int) -> LexStep
    recommends
        0 <= pos < src.len(),
{
    let c = src[pos];
    if c == '\n' {
        LexStep::Blank(Cursor { pos: pos + 1, line: line + 1, col: 0 })
    } else if is_blank(c) {
        LexStep::Blank(Cursor { pos: pos + 1, line, col: col + 1 })
    } else if symbol_of(c) is Some {
        emit(seq![c], TokenKind::Symbol(symbol_of(c)->0), pos + 1, line, col + 1)
    } else if c == '\'' {
        string_step(src, pos, line, col)
    } else if char_is_numeric(c) {
        number_step(src, pos, line, col)
    } else if is_word_start(c) {
        word_step(src, pos, line, col)
    } else {
        fail(seq![c], unknown_character_message(), pos + 1, line, col + 1)
    }
}

/// Where the lexer stands after the run of separators from `at`: each line
/// break starts a new line at column 0, any other separator moves one column on.
pub open spec fn past_blanks(src: Seq<char>, at: Cursor) -> Cursor
    decreases src.len() - at.pos,
{
    if 0 <= at.pos < src.len() && is_blank(src[at.pos]) {
        if src[at.pos] == '\n' {
            past_blanks(src, Cursor { pos: at.pos + 1, line: at.line + 1, col: 0 })
        } else {
            past_blanks(src, Cursor { pos: at.pos + 1, line: at.line, col: at.col + 1 })
        }
    } else {
        at
    }
}

/// How lexing ends.
pub enum LexOutcome {
    /// The whole source is read, into these tokens; the lexer stands at the cursor.
    Lexed(Seq<TokenView>, Cursor),
    /// Lexing stops with this error; the lexer stands at the cursor.
    Failed(LexErrorView, Cursor),
    /// The lexer never gets past a number that ends the source in a period or
    /// an exponent marker.
    Endless,
    /// A token or an error cannot be placed.
    Unplaceable,
}

/// `tokens` put in front of the tokens of `outcome`.
pub open spec fn after_tokens(tokens: Seq<TokenView>, outcome: LexOutcome) -> LexOutcome {
    match outcome {
        LexOutcome::Lexed(rest, at) => LexOutcome::Lexed(tokens + rest, at),
        other => other,
    }
}

/// Lexing the rest of `src` from `pos`, on `line`, at column `col`.
pub open spec fn lex_from(src: Seq<char>, pos: int, line: int, col: int) -> LexOutcome
    decreases src.len() - pos,
    via lex_from_decreases
{
    if !(0 <= pos < src.len()) {
        LexOutcome::Lexed(seq![], Cursor { pos, line, col })
    } else {
        match lex_step(src, pos, line, col) {
            LexStep::Blank(at) => lex_from(src, at.pos, at.line, at.col),
            LexStep::Emit(token, at) => after_tokens(seq![token], lex_from(src, at.pos, at.line, at.col)),
            LexStep::Fail(error, at) => LexOutcome::Failed(error, at),
            LexStep::Endless => LexOutcome::Endless,
            LexStep::Unplaceable => LexOutcome::Unplaceable,
        }
    }
}

#[via_fn]
proof fn lex_from_decreases(src: Seq<char>, pos: int, line: int, col: int) {
    if 0 <= pos < src.len() {
        lemma_step_advances(src, pos, line, col);
    }
}

/// Lexing a whole source.
pub open spec fn lex_source(src: Seq<char>) -> LexOutcome {
    lex_from(src, 0, 1, 0)
}

/// Whether the lexer reaches an end from `outcome`: a list of tokens or an error.
pub open spec fn finishes(outcome: LexOutcome) -> bool {
    outcome is Lexed || outcome is Failed
}

proof fn lemma_word_end(src: Seq<char>, p: int)
    requires
        0 <= p <= src.len(),
    ensures
        p <= word_end(src, p) <= src.len(),
        p < src.len() && is_word_char(src[p]) ==> p < word_end(src, p),
        forall|i: int| p <= i < word_end(src, p) ==> is_word_char(#[trigger] src[i]),
    decreases src.len() - p,
{
    if p < src.len() && is_word_char(src[p]) {
        lemma_word_end(src, p + 1);
    }
}

proof fn lemma_quote_end(src: Seq<char>, p: int)
    requires
        0 <= p <= src.len(),
    ensures
        p <= quote_end(src, p) <= src.len(),
        forall|i: int| p <= i < quote_end(src, p) ==> src[i] != '\'' && src[i] != '\n',
    decreases src.len() - p,
{
    if p < src.len() && src[p] != '\'' && src[p] != '\n' {
        lemma_quote_end(src, p + 1);
    }
}

proof fn lemma_number_end(src: Seq<char>, p: int, period: bool, exponent: bool)
    requires
        0 <= p <= src.len(),
    ensures
        number_end(src, p, period, exponent) matches NumberEnd::At(e) ==> p <= e <= src.len(),
        p < src.len() && char_is_numeric(src[p]) ==> (number_end(src, p, period, exponent) matches NumberEnd::At(e) ==> p < e),
        number_end(src, p, period, exponent) matches NumberEnd::Malformed(q) ==> p <= q && q + 1 < src.len(),
        p < src.len() && char_is_numeric(src[p]) ==> (number_end(src, p, period, exponent) matches NumberEnd::Malformed(q) ==> p < q),
        number_end(src, p, period, exponent) matches NumberEnd::At(e) ==> forall|i: int| p <= i < e
            ==> char_is_numeric(#[trigger] src[i]) || src[i] == '.' || src[i] == 'e',
    decreases src.len() - p,
{
    if p < src.len() {
        lemma_number_end(src, p + 1, period, exponent);
        lemma_number_end(src, p + 1, true, exponent);
        lemma_number_end(src, p + 1, period, true);
    }
}

/// Every step that does not end lexing moves the lexer forward, within the source.
pub proof fn lemma_step_advances(src: Seq<char>, pos: int, line: int, col: int)
    requires
        0 <= pos < src.len(),
    ensures
        lex_step(src, pos, line, col) matches LexStep::Blank(at) ==> pos < at.pos <= src.len(),
        lex_step(src, pos, line, col) matches LexStep::Emit(_, at) ==> pos < at.pos <= src.len(),
{
    lemma_word_end(src, pos);
    lemma_quote_end(src, pos + 1);
    lemma_number_end(src, pos, false, false);
}

// ---------------------------------------------------------------------------
// The lexer.
// ---------------------------------------------------------------------------

pub struct Lexer {
    source: Vec<char>,
    pos: usize,
    line: usize,
    col: usize,
}

/// A lexer as the contracts see it: its source and where it stands.
pub struct LexerView {
    pub source: Seq<char>,
    pub pos: int,
    pub line: int,
    pub col: int,
}

impl View for Lexer {
    type V = LexerView;

    closed spec fn view(&self) -> LexerView {
        LexerView {
            source: self.source@,
            pos: self.pos as int,
            line: self.line as int,
            col: self.col as int,
        }
    }
}

impl LexerView {
    /// Lexing the rest of the source from where the lexer stands.
    pub open spec fn outcome(self) -> LexOutcome {
        lex_from(self.source, self.pos, self.line, self.col)
    }

    pub open spec fn cursor(self) -> Cursor {
        Cursor { pos: self.pos, line: self.line, col: self.col }
    }
}

/// What `Lexer::try_lex` found.
pub enum LexAttempt {
    /// Lexing ended: with the tokens, or with an error.
    Finished(Result<Vec<Token>, LexError>),
    /// The source ends a number in a period or an exponent marker: `lex` would never return.
    Endless,
    /// A token or an error cannot be placed: computing its location in `lex` would overflow.
    Unplaceable,
}

/// What one of the lexer's readers found.
enum Scanned {
    Token(Token),
    Error(LexError),
    Endless,
    Unplaceable,
}

/// What a reader found, as the step it took.
spec fn scanned_is(r: Scanned, step: LexStep, at: Cursor) -> bool {
    match r {
        Scanned::Token(t) => step == LexStep::Emit(t@, at),
        Scanned::Error(e) => step == LexStep::Fail(e@, at),
        Scanned::Endless => step is Endless,
        Scanned::Unplaceable => step is Unplaceable,
    }
}

impl Lexer {
    #[verifier::type_invariant]
    spec fn well_formed(&self) -> bool {
        &&& self.source.len() < usize::MAX
        &&& byte_len(self.source@) < usize::MAX
        &&& self.pos <= self.source.len()
        &&& self.col <= self.pos
        &&& self.line <= self.pos + 1
    }

    /// A lexer at the start of `source`.  (Every string in memory is shorter
    /// than `usize::MAX` bytes, as the contract asks.)
    pub fn new(source: &str) -> (r: Self)
        requires
            byte_len(source@) < usize::MAX,
        ensures
            r@ == (LexerView { source: source@, pos: 0, line: 1, col: 0 }),
    {
        proof {
            lemma_byte_len_bounds(source@);
        }
        Self { source: chars_of(source), line: 1, pos: 0, col: 0 }
    }

    /// Reads the rest of the source into tokens.  The lexing must finish: the
    /// source may not end a number in a period or an exponent marker, and every
    /// token must be placeable (`try_lex` tells either case).
    pub fn lex(&mut self) -> (r: Result<Vec<Token>, LexError>)
        requires
            finishes(old(self)@.outcome()),
        ensures
            final(self)@.source == old(self)@.source,
            match r {
                Ok(tokens) => old(self)@.outcome() == LexOutcome::Lexed(
                    token_views(tokens@),
                    final(self)@.cursor(),
                ),
                Err(error) => old(self)@.outcome() == LexOutcome::Failed(error@, final(self)@.cursor()),
            },
    {
        match self.try_lex() {
            LexAttempt::Finished(r) => r,
            _ => {
                assert(false);
                Ok(Vec::new())
            },
        }
    }

    /// Reads the rest of the source into tokens as `lex` does, and tells instead
    /// where `lex` would never return or could not place a token.
    #[verifier::loop_isolation(false)]
    pub fn try_lex(&mut self) -> (r: LexAttempt)
        ensures
            final(self)@.source == old(self)@.source,
            match r {
                LexAttempt::Finished(Ok(tokens)) => old(self)@.outcome() == LexOutcome::Lexed(
                    token_views(tokens@),
                    final(self)@.cursor(),
                ),
                LexAttempt::Finished(Err(error)) => old(self)@.outcome()
                    == LexOutcome::Failed(error@, final(self)@.cursor()),
                LexAttempt::Endless => old(self)@.outcome() is Endless,
                LexAttempt::Unplaceable => old(self)@.outcome() is Unplaceable,
            },
    {
        let mut tokens: Vec<Token> = Vec::new();
        loop
            invariant
                self@.source == old(self)@.source,
                old(self)@.outcome() == after_tokens(token_views(tokens@), self@.outcome()),
            decreases self@.source.len() - self@.pos,
        {
            proof {
                use_type_invariant(&*self);
            }
            let ghost before = tokens@;
            let ghost at = self@;
            let c = match self.current_char() {
                None => {
                    assert(token_views(tokens@) + seq![] =~= token_views(tokens@));
                    return LexAttempt::Finished(Ok(tokens));
                },
                Some(c) => c,
            };
            proof {
                lemma_step_advances(at.source, at.pos, at.line, at.col);
            }
            if c == ' ' || c == '\t' || c == '\r' || c == '\n' {
                self.skip_whitespaces();
                proof {
                    use_type_invariant(&*self);
                }
            } else {
                let scanned = self.read_token(c);
                match scanned {
                    Scanned::Token(token) => {
                        let ghost t = token;
                        tokens.push(token);
                        proof {
                            lemma_push_token(before, t, self@.outcome());
                            use_type_invariant(&*self);
                        }
                    },
                    Scanned::Error(error) => return LexAttempt::Finished(Err(error)),
                    Scanned::Endless => return LexAttempt::Endless,
                    Scanned::Unplaceable => return LexAttempt::Unplaceable,
                }
            }
        }
    }

    /// Reads the token, or the error, that begins with `c` at the lexer's position.
    fn read_token(&mut self, c: char) -> (r: Scanned)
        requires
            old(self)@.pos < old(self)@.source.len(),
            c == old(self)@.source[old(self)@.pos],
            !is_blank(c),
        ensures
            final(self)@.source == old(self)@.source,
            scanned_is(
                r,
                lex_step(old(self)@.source, old(self)@.pos, old(self)@.line, old(self)@.col),
                final(self)@.cursor(),
            ),
    {
        if c == ';' || c == '*' || c == ',' || c == '(' || c == ')' {
            let kind = if c == ';' {
                TokenKind::Symbol(Symbol::Semicolon)
            } else if c == '*' {
                TokenKind::Symbol(Symbol::Asterisk)
            } else if c == ',' {
                TokenKind::Symbol(Symbol::Comma)
            } else if c == '(' {
                TokenKind::Symbol(Symbol::LeftParen)
            } else {
                TokenKind::Symbol(Symbol::RightParen)
            };
            self.advance();
            proof {
                lemma_byte_len_char(c);
            }
            self.token(char_to_string(c), kind)
        } else if c == '\'' {
            self.lex_string()
        } else if is_numeric(c) {
            self.lex_numeric()
        } else if is_alphabetic(c) || c == '_' {
            self.lex_keyword_or_identifier()
        } else {
            self.advance();
            self.error(char_to_string(c), String::from_str("Unknown character"))
        }
    }

    fn advance(&mut self)
        requires
            old(self)@.pos < old(self)@.source.len(),
        ensures
            final(self)@ == (LexerView {
                source: old(self)@.source,
                pos: old(self)@.pos + 1,
                line: old(self)@.line,
                col: old(self)@.col + 1,
            }),
    {
        proof {
            use_type_invariant(&*self);
        }
        self.pos += 1;
        self.col += 1;
    }

    fn current_char(&self) -> (r: Option<char>)
        ensures
            r == (if self@.pos < self@.source.len() {
                Some(self@.source[self@.pos])
            } else {
                None::<char>
            }),
    {
        if self.pos < self.source.len() {
            Some(self.source[self.pos])
        } else {
            None
        }
    }

    fn next_char(&self) -> (r: Option<char>)
        ensures
            r == (if self@.pos + 1 < self@.source.len() {
                Some(self@.source[self@.pos + 1])
            } else {
                None::<char>
            }),
    {
        proof {
            use_type_invariant(self);
        }
        if self.pos + 1 < self.source.len() {
            Some(self.source[self.pos + 1])
        } else {
            None
        }
    }

    /// Passes the run of separators at the lexer's position.
    #[verifier::loop_isolation(false)]
    fn skip_whitespaces(&mut self)
        requires
            old(self)@.pos < old(self)@.source.len(),
            is_blank(old(self)@.source[old(self)@.pos]),
        ensures
            final(self)@.source == old(self)@.source,
            final(self)@.cursor() == past_blanks(old(self)@.source, old(self)@.cursor()),
            final(self)@.pos == old(self)@.source.len() || !is_blank(old(self)@.source[final(self)@.pos]),
            final(self)@.outcome() == old(self)@.outcome(),
            final(self)@.pos > old(self)@.pos,
    {
        loop
            invariant
                self@.source == old(self)@.source,
                past_blanks(self@.source, self@.cursor()) == past_blanks(old(self)@.source, old(self)@.cursor()),
                self@.outcome() == old(self)@.outcome(),
                self@.pos >= old(self)@.pos,
                self@.pos == old(self)@.pos ==> self@.pos < self@.source.len()
                    && is_blank(self@.source[self@.pos]),
            decreases self@.source.len() - self@.pos,
        {
            proof {
                use_type_invariant(&*self);
            }
            match self.current_char() {
                Some(c) => {
                    if c == ' ' || c == '\t' || c == '\r' {
                        self.advance();
                    } else if c == '\n' {
                        self.advance();
                        proof {
                            use_type_invariant(&*self);
                        }
                        self.line += 1;
                        self.col = 0;
                    } else {
                        return;
                    }
                },
                None => {
                    return;
                },
            }
        }
    }

    /// Reads a number whose first character is at the lexer's position.
    #[verifier::loop_isolation(false)]
    fn lex_numeric(&mut self) -> (r: Scanned)
        requires
            old(self)@.pos < old(self)@.source.len(),
            char_is_numeric(old(self)@.source[old(self)@.pos]),
        ensures
            final(self)@.source == old(self)@.source,
            scanned_is(
                r,
                number_step(old(self)@.source, old(self)@.pos, old(self)@.line, old(self)@.col),
                final(self)@.cursor(),
            ),
    {
        let ghost src = old(self)@.source;
        let ghost start = old(self)@.pos;
        let ghost col0 = old(self)@.col;
        let mut period_found = false;
        let mut exp_marker_found = false;
        let mut number_to_be = String::new();
        loop
            invariant
                self@.source == src,
                self@.line == old(self)@.line,
                start <= self@.pos <= src.len(),
                self@.col == col0 + (self@.pos - start),
                number_to_be@ == src.subrange(start, self@.pos),
                number_end(src, start, false, false) == number_end(src, self@.pos, period_found, exp_marker_found),
                self@.pos == start ==> char_is_numeric(src[start]) && !period_found && !exp_marker_found,
                start < src.len(),
            decreases src.len() - self@.pos,
        {
            proof {
                use_type_invariant(&*self);
            }
            match self.current_char() {
                None => break,
                Some(c) => {
                    if is_numeric(c) {
                        push_char(&mut number_to_be, c);
                        self.advance();
                        assert(number_to_be@ =~= src.subrange(start, self@.pos));
                    } else if c == '.' && !period_found && !exp_marker_found {
                        match self.next_char() {
                            Some(next_char) => {
                                if is_numeric(next_char) {
                                    period_found = true;
                                    push_char(&mut number_to_be, c);
                                    self.advance();
                                    assert(number_to_be@ =~= src.subrange(start, self@.pos));
                                } else {
                                    return self.error(
                                        char_to_string(next_char),
                                        String::from_str("Expected numeric value after period (.)"),
                                    );
                                }
                            },
                            None => return Scanned::Endless,
                        }
                    } else if c == 'e' && !exp_marker_found {
                        match self.next_char() {
                            Some(next_char) => {
                                if is_numeric(next_char) {
                                    exp_marker_found = true;
                                    push_char(&mut number_to_be, c);
                                    self.advance();
                                    assert(number_to_be@ =~= src.subrange(start, self@.pos));
                                } else {
                                    return self.error(
                                        char_to_string(next_char),
                                        String::from_str("Expected numeric value after exponent marker (e)"),
                                    );
                                }
                            },
                            None => return Scanned::Endless,
                        }
                    } else {
                        break;
                    }
                },
            }
        }
        proof {
            lemma_byte_len_subrange(src, start, self@.pos);
        }
        self.token(number_to_be, TokenKind::Numberic)
    }

    /// Reads a string literal whose opening quote is at the lexer's position.
    #[verifier::loop_isolation(false)]
    fn lex_string(&mut self) -> (r: Scanned)
        requires
            old(self)@.pos < old(self)@.source.len(),
            old(self)@.source[old(self)@.pos] == '\'',
        ensures
            final(self)@.source == old(self)@.source,
            scanned_is(
                r,
                string_step(old(self)@.source, old(self)@.pos, old(self)@.line, old(self)@.col),
                final(self)@.cursor(),
            ),
    {
        let ghost src = old(self)@.source;
        let ghost start = old(self)@.pos;
        let ghost col0 = old(self)@.col;
        self.advance();  // the opening quote
        let mut string_to_be = String::new();
        loop
            invariant
                self@.source == src,
                self@.line == old(self)@.line,
                start + 1 <= self@.pos <= src.len(),
                self@.col == col0 + (self@.pos - start),
                string_to_be@ == src.subrange(start + 1, self@.pos),
                quote_end(src, start + 1) == quote_end(src, self@.pos),
            decreases src.len() - self@.pos,
        {
            proof {
                use_type_invariant(&*self);
            }
            match self.current_char() {
                None => break,
                Some(current_char) => {
                    if current_char == '\'' {
                        break;
                    } else if current_char == '\n' {
                        self.advance();
                        return self.error(
                            char_to_string(current_char),
                            String::from_str("Expected closing qoute (')"),
                        );
                    }
                    push_char(&mut string_to_be, current_char);
                    self.advance();
                    assert(string_to_be@ =~= src.subrange(start + 1, self@.pos));
                },
            }
        }
        proof {
            lemma_byte_len_subrange(src, start + 1, self@.pos);
        }
        match self.current_char() {
            Some(current_char) => {
                self.advance();
                if current_char == '\'' {
                    return self.token(string_to_be, TokenKind::String);
                }
            },
            None => {},
        }
        self.error(char_to_string('\0'), String::from_str("Expected closing qoute (')"))
    }

    /// Reads a keyword or an identifier whose first character is at the lexer's position.
    #[verifier::loop_isolation(false)]
    fn lex_keyword_or_identifier(&mut self) -> (r: Scanned)
        requires
            old(self)@.pos < old(self)@.source.len(),
            is_word_start(old(self)@.source[old(self)@.pos]),
        ensures
            final(self)@.source == old(self)@.source,
            scanned_is(
                r,
                word_step(old(self)@.source, old(self)@.pos, old(self)@.line, old(self)@.col),
                final(self)@.cursor(),
            ),
    {
        let ghost src = old(self)@.source;
        let ghost start = old(self)@.pos;
        let ghost col0 = old(self)@.col;
        let mut candidate = String::new();
        loop
            invariant
                self@.source == src,
                self@.line == old(self)@.line,
                start <= self@.pos <= src.len(),
                self@.col == col0 + (self@.pos - start),
                candidate@ == src.subrange(start, self@.pos),
                word_end(src, start) == word_end(src, self@.pos),
                self@.pos == start ==> is_word_start(src[start]),
                start < src.len(),
            decreases src.len() - self@.pos,
        {
            proof {
                use_type_invariant(&*self);
            }
            match self.current_char() {
                Some(current_char) => {
                    if is_alphanumeric(current_char) || current_char == '_' {
                        push_char(&mut candidate, current_char);
                        self.advance();
                        assert(candidate@ =~= src.subrange(start, self@.pos));
                    } else {
                        break;
                    }
                },
                None => break,
            }
        }
        proof {
            lemma_byte_len_subrange(src, start, self@.pos);
        }
        let upper = to_uppercase(candidate.as_str());
        let kind = word_kind_of(&upper);
        self.token(candidate, kind)
    }

    /// The token `value` of `kind` that ends where the lexer stands.
    fn token(&self, value: String, kind: TokenKind) -> (r: Scanned)
        requires
            byte_len(value@) < usize::MAX,
        ensures
            scanned_is(r, emit(value@, kind, self@.pos, self@.line, self@.col), self@.cursor()),
    {
        let value_len = value.as_str().len();
        if !self.fits(value_len) {
            return Scanned::Unplaceable;
        }
        let loc = self.location(value_len);
        Scanned::Token(Token::new(value, kind, loc))
    }

    /// The error about `value` that ends where the lexer stands.
    fn error(&self, value: String, message: String) -> (r: Scanned)
        requires
            byte_len(value@) < usize::MAX || value@.len() == 1,
        ensures
            scanned_is(r, fail(value@, message@, self@.pos, self@.line, self@.col), self@.cursor()),
    {
        proof {
            if value@.len() == 1 {
                assert(value@ =~= seq![value@[0]]);
                lemma_byte_len_char(value@[0]);
            }
        }
        let value_len = value.as_str().len();
        if !self.fits(value_len) {
            return Scanned::Unplaceable;
        }
        let loc = self.location(value_len);
        Scanned::Error(LexError::new(value, message, loc))
    }

    /// Whether a text of `value_len` bytes that ends where the lexer stands can be placed.
    fn fits(&self, value_len: usize) -> (r: bool)
        ensures
            r == location_fits(self@.pos, self@.col, value_len as int),
    {
        value_len <= self.pos && value_len <= self.col
    }

    /// The location of a text of `value_len` bytes that ends where the lexer stands.
    fn location(&self, value_len: usize) -> (r: Location)
        requires
            location_fits(self@.pos, self@.col, value_len as int),
        ensures
            r == location_at(self@.pos, self@.line, self@.col, value_len as int),
    {
        proof {
            use_type_invariant(self);
        }
        let end = self.pos;
        let start = self.pos - value_len;
        Location::new(self.line, (self.col - value_len) + 1, start, end)
    }
}

/// The kind of a word, from its upper-case form: a keyword, or an identifier.
pub fn word_kind_of(upper: &String) -> (r: TokenKind)
    ensures
        r == word_kind(upper@),
{
    if *upper == String::from_str("SELECT") {
        TokenKind::Keyword(Keyword::Select)
    } else if *upper == String::from_str("WHERE") {
        TokenKind::Keyword(Keyword::Where)
    } else if *upper == String::from_str("FROM") {
        TokenKind::Keyword(Keyword::From)
    } else if *upper == String::from_str("AS") {
        TokenKind::Keyword(Keyword::As)
    } else if *upper == String::from_str("TABLE") {
        TokenKind::Keyword(Keyword::Table)
    } else if *upper == String::from_str("CREATE") {
        TokenKind::Keyword(Keyword::Create)
    } else if *upper == String::from_str("INSERT") {
        TokenKind::Keyword(Keyword::Insert)
    } else if *upper == String::from_str("INTO") {
        TokenKind::Keyword(Keyword::Into)
    } else if *upper == String::from_str("VALUES") {
        TokenKind::Keyword(Keyword::Values)
    } else if *upper == String::from_str("INT") {
        TokenKind::Keyword(Keyword::Int)
    } else if *upper == String::from_str("TEXT") {
        TokenKind::Keyword(Keyword::Text)
    } else {
        TokenKind::Identifier
    }
}

/// Reading one more token: what was read before it and what follows it.
proof fn lemma_push_token(before: Seq<Token>, t: Token, rest: LexOutcome)
    ensures
        after_tokens(token_views(before), after_tokens(seq![t@], rest))
            == after_tokens(token_views(before.push(t)), rest),
{
    assert(token_views(before.push(t)) =~= token_views(before) + seq![t@]);
    match rest {
        LexOutcome::Lexed(r, at) => {
            assert(token_views(before) + (seq![t@] + r) =~= token_views(before.push(t)) + r);
        },
        _ => {},
    }
}

// ---------------------------------------------------------------------------
// Laws of lexing.
// ---------------------------------------------------------------------------

/// The token `t` is read verbatim from `src`, ending at `t.loc.end`: a string
/// literal with its quotes around it, any other token as it stands; and its
/// location spans as many positions as its text has UTF-8 bytes.
pub open spec fn read_verbatim(src: Seq<char>, t: TokenView) -> bool {
    let end = t.loc.end as int;
    let n = t.value.len() as int;
    &&& t.loc.end - t.loc.start == byte_len(t.value)
    &&& if t.kind == TokenKind::String {
        &&& n + 2 <= end <= src.len()
        &&& src.subrange(end - n - 2, end) == seq!['\''] + t.value + seq!['\'']
    } else {
        &&& n <= end <= src.len()
        &&& src.subrange(end - n, end) == t.value
    }
}

/// The kind of the token `t` agrees with its text: a word is a keyword exactly
/// when its upper-case form is the keyword's name; a symbol is its one
/// character; a number begins with a numeric character; a string holds no
/// quote and no line break.
pub open spec fn kind_agrees(t: TokenView) -> bool {
    match t.kind {
        TokenKind::Keyword(_) => t.kind == word_kind(upper_case(t.value)),
        TokenKind::Identifier => t.kind == word_kind(upper_case(t.value)),
        TokenKind::Symbol(sym) => t.value.len() == 1 && symbol_of(t.value[0]) == Some(sym),
        TokenKind::Numberic => t.value.len() > 0 && char_is_numeric(t.value[0]),
        TokenKind::String => forall|i: int|
            0 <= i < t.value.len() ==> #[trigger] t.value[i] != '\'' && t.value[i] != '\n',
    }
}

/// The token that a step reads is read verbatim, and its kind agrees with its text.
proof fn lemma_step_token(src: Seq<char>, pos: int, line: int, col: int)
    requires
        0 <= pos < src.len() <= usize::MAX,
    ensures
        lex_step(src, pos, line, col) matches LexStep::Emit(t, at) ==> {
            &&& read_verbatim(src, t)
            &&& kind_agrees(t)
            &&& t.loc.end == at.pos
            &&& at.line == line
            &&& location_fits(at.pos, at.col, byte_len(t.value) as int)
            &&& t.loc == location_at(at.pos, line, at.col, byte_len(t.value) as int)
        },
{
    lemma_step_advances(src, pos, line, col);
    lemma_word_end(src, pos);
    lemma_quote_end(src, pos + 1);
    lemma_number_end(src, pos, false, false);
    if let LexStep::Emit(t, at) = lex_step(src, pos, line, col) {
        let c = src[pos];
        let end = at.pos;
        if symbol_of(c) is Some {
            assert(src.subrange(end - 1, end) =~= seq![c]);
        } else if c == '\'' {
            let q = quote_end(src, pos + 1);
            assert(src.subrange(end - t.value.len() - 2, end) =~= seq!['\''] + t.value + seq!['\'']);
        } else {
            assert(src.subrange(end - t.value.len(), end) =~= t.value);
        }
    }
}

/// Every token of a lexed source is read verbatim from it, at increasing
/// positions, and its kind agrees with its text; the lexer ends at the end of
/// the source.
pub proof fn law_tokens_read_from_source(src: Seq<char>, pos: int, line: int, col: int)
    requires
        0 <= pos,
        src.len() <= usize::MAX,
        lex_from(src, pos, line, col) is Lexed,
    ensures
        ({
            let tokens = lex_from(src, pos, line, col)->Lexed_0;
            &&& lex_from(src, pos, line, col)->Lexed_1.pos == if pos < src.len() { src.len() as int } else { pos }
            &&& forall|i: int| 0 <= i < tokens.len() ==> read_verbatim(src, #[trigger] tokens[i])
            &&& forall|i: int| 0 <= i < tokens.len() ==> kind_agrees(#[trigger] tokens[i])
            &&& forall|i: int| 0 <= i < tokens.len() ==> pos < (#[trigger] tokens[i]).loc.end
            &&& forall|i: int, j: int| 0 <= i < j < tokens.len() ==> tokens[i].loc.end < tokens[j].loc.end
        }),
    decreases src.len() - pos,
{
    if pos < src.len() {
        lemma_step_advances(src, pos, line, col);
        lemma_step_token(src, pos, line, col);
        match lex_step(src, pos, line, col) {
            LexStep::Blank(at) => {
                law_tokens_read_from_source(src, at.pos, at.line, at.col);
            },
            LexStep::Emit(t, at) => {
                law_tokens_read_from_source(src, at.pos, at.line, at.col);
                let rest = lex_from(src, at.pos, at.line, at.col)->Lexed_0;
                let tokens = lex_from(src, pos, line, col)->Lexed_0;
                assert(tokens =~= seq![t] + rest);
                assert forall|i: int| 0 <= i < tokens.len() implies read_verbatim(src, #[trigger] tokens[i])
                    && kind_agrees(tokens[i]) && pos < tokens[i].loc.end by {
                    if i > 0 {
                        assert(tokens[i] == rest[i - 1]);
                    }
                }
                assert forall|i: int, j: int| 0 <= i < j < tokens.len() implies tokens[i].loc.end
                    < tokens[j].loc.end by {
                    assert(tokens[j] == rest[j - 1]);
                    if i > 0 {
                        assert(tokens[i] == rest[i - 1]);
                    }
                }
            },
            _ => {},
        }
    }
}

/// An ASCII source never holds a token or an error that cannot be placed: a
/// character there is one byte, and a token never has more characters than
/// its line holds before its end.
pub proof fn law_ascii_source_is_placeable(src: Seq<char>, pos: int, line: int, col: int)
    requires
        is_ascii_chars(src),
        0 <= pos,
        0 <= col,
    ensures
        lex_from(src, pos, line, col) !is Unplaceable,
    decreases src.len() - pos,
{
    if pos < src.len() {
        lemma_step_advances(src, pos, line, col);
        lemma_word_end(src, pos);
        lemma_quote_end(src, pos + 1);
        lemma_number_end(src, pos, false, false);
        let c = src[pos];
        lemma_byte_len_char(c);
        lemma_byte_len_char('\0');
        let q = quote_end(src, pos + 1);
        if q < src.len() {
            lemma_byte_len_char(src[q]);
        }
        if let NumberEnd::Malformed(m) = number_end(src, pos, false, false) {
            lemma_byte_len_char(src[m + 1]);
        }
        let e = word_end(src, pos);
        lemma_ascii_byte_len(src.subrange(pos, e));
        lemma_ascii_byte_len(src.subrange(pos + 1, q));
        if let NumberEnd::At(n) = number_end(src, pos, false, false) {
            lemma_ascii_byte_len(src.subrange(pos, n));
        }
        match lex_step(src, pos, line, col) {
            LexStep::Blank(at) => law_ascii_source_is_placeable(src, at.pos, at.line, at.col),
            LexStep::Emit(_, at) => law_ascii_source_is_placeable(src, at.pos, at.line, at.col),
            _ => {},
        }
    }
}

/// An ASCII text has one byte per character.
proof fn lemma_ascii_byte_len(s: Seq<char>)
    requires
        is_ascii_chars(s),
    ensures
        byte_len(s) == s.len(),
{
    is_ascii_chars_encode_utf8(s);
}

/// The number of line breaks among the first `p` characters of `src`.
pub open spec fn line_breaks(src: Seq<char>, p: int) -> nat
    decreases p,
{
    if p <= 0 {
        0
    } else if src[p - 1] == '\n' {
        line_breaks(src, p - 1) + 1
    } else {
        line_breaks(src, p - 1)
    }
}

/// The position where the line that holds position `p` begins: just after the
/// last line break before `p`, or 0.
pub open spec fn line_start(src: Seq<char>, p: int) -> int
    decreases p,
{
    if p <= 0 {
        0
    } else if src[p - 1] == '\n' {
        p
    } else {
        line_start(src, p - 1)
    }
}

/// The lexer stands at `pos` on the line that holds it, counted from 1, and
/// `col` characters after that line's start.
pub open spec fn cursor_on_its_line(src: Seq<char>, pos: int, line: int, col: int) -> bool {
    line == 1 + line_breaks(src, pos) && col == pos - line_start(src, pos)
}

proof fn lemma_no_line_break_between(src: Seq<char>, a: int, b: int)
    requires
        0 <= a <= b <= src.len(),
        forall|i: int| a <= i < b ==> #[trigger] src[i] != '\n',
    ensures
        line_breaks(src, b) == line_breaks(src, a),
        line_start(src, b) == line_start(src, a),
    decreases b - a,
{
    if a < b {
        lemma_no_line_break_between(src, a, b - 1);
    }
}

proof fn lemma_line_breaks_bound(src: Seq<char>, p: int)
    requires
        0 <= p,
    ensures
        line_breaks(src, p) <= p,
        0 <= line_start(src, p) <= p,
    decreases p,
{
    if p > 0 {
        lemma_line_breaks_bound(src, p - 1);
    }
}

/// The location of a token on the line that holds it.
pub open spec fn placed_on_its_line(src: Seq<char>, t: TokenView) -> bool {
    &&& t.loc.line == 1 + line_breaks(src, t.loc.end as int)
    &&& t.loc.col + byte_len(t.value) - 1 == t.loc.end - line_start(src, t.loc.end as int)
}

/// One step keeps the lexer on the line that holds it, and places its token there.
proof fn lemma_step_on_its_line(src: Seq<char>, pos: int, line: int, col: int)
    requires
        0 <= pos < src.len() < usize::MAX,
        cursor_on_its_line(src, pos, line, col),
    ensures
        lex_step(src, pos, line, col) matches LexStep::Blank(at) ==> cursor_on_its_line(src, at.pos, at.line, at.col),
        lex_step(src, pos, line, col) matches LexStep::Emit(t, at) ==> cursor_on_its_line(src, at.pos, at.line, at.col)
            && placed_on_its_line(src, t),
{
    lemma_step_advances(src, pos, line, col);
    lemma_step_token(src, pos, line, col);
    lemma_word_end(src, pos);
    lemma_quote_end(src, pos + 1);
    lemma_number_end(src, pos, false, false);
    lemma_line_breaks_bound(src, pos);
    lemma_line_breaks_bound(src, pos + 1);
    let c = src[pos];
    if let LexStep::Emit(t, at) = lex_step(src, pos, line, col) {
        let end = at.pos;
        lemma_line_breaks_bound(src, end);
        assert forall|i: int| pos <= i < end implies #[trigger] src[i] != '\n' by {
            if c == '\'' && pos < i && i < end - 1 {
                assert(src[i] != '\n');
            }
        }
        lemma_no_line_break_between(src, pos, end);
    }
}

/// Every token of a lexed source stands on the line that holds it: its line is one more than the line breaks before
/// its end, and its column, plus the UTF-8 length of its text, less one, counts
/// the characters from the start of that line to its end.
pub proof fn law_tokens_on_their_lines(src: Seq<char>, pos: int, line: int, col: int)
    requires
        0 <= pos,
        src.len() < usize::MAX,
        cursor_on_its_line(src, pos, line, col),
        lex_from(src, pos, line, col) is Lexed,
    ensures
        forall|i: int| 0 <= i < lex_from(src, pos, line, col)->Lexed_0.len()
            ==> placed_on_its_line(src, #[trigger] lex_from(src, pos, line, col)->Lexed_0[i]),
    decreases src.len() - pos,
{
    if pos < src.len() {
        lemma_step_advances(src, pos, line, col);
        lemma_step_on_its_line(src, pos, line, col);
        match lex_step(src, pos, line, col) {
            LexStep::Blank(at) => {
                law_tokens_on_their_lines(src, at.pos, at.line, at.col);
            },
            LexStep::Emit(t, at) => {
                law_tokens_on_their_lines(src, at.pos, at.line, at.col);
                let rest = lex_from(src, at.pos, at.line, at.col)->Lexed_0;
                let tokens = lex_from(src, pos, line, col)->Lexed_0;
                assert(tokens =~= seq![t] + rest);
                assert forall|i: int| 0 <= i < tokens.len() implies placed_on_its_line(src, #[trigger] tokens[i]) by {
                    if i > 0 {
                        assert(tokens[i] == rest[i - 1]);
                    }
                }
            },
            _ => {},
        }
    }
}

// ---------------------------------------------------------------------------
// Separators change only where tokens stand.
// ---------------------------------------------------------------------------

/// The texts and kinds of `ts`, without their locations.
pub open spec fn token_texts(ts: Seq<TokenView>) -> Seq<(Seq<char>, TokenKind)> {
    ts.map_values(|t: TokenView| (t.value, t.kind))
}

/// From `p` on, `s1` reads as `s2` does `d` positions further on, to the end of both.
pub open spec fn agree_shifted(s1: Seq<char>, s2: Seq<char>, p: int, d: int) -> bool {
    &&& 0 <= p
    &&& 0 <= p + d
    &&& s2.len() == s1.len() + d
    &&& forall|i: int| p <= i < s1.len() ==> #[trigger] s1[i] == s2[i + d]
}

/// How a number ends, `d` positions further on.
pub open spec fn shifted_end(n: NumberEnd, d: int) -> NumberEnd {
    match n {
        NumberEnd::At(e) => NumberEnd::At(e + d),
        NumberEnd::Malformed(q) => NumberEnd::Malformed(q + d),
        NumberEnd::Endless => NumberEnd::Endless,
    }
}

proof fn lemma_word_end_shift(s1: Seq<char>, s2: Seq<char>, p: int, d: int)
    requires
        agree_shifted(s1, s2, p, d),
        p <= s1.len(),
    ensures
        word_end(s2, p + d) == word_end(s1, p) + d,
    decreases s1.len() - p,
{
    if p < s1.len() {
        assert(s1[p] == s2[p + d]);
        lemma_word_end_shift(s1, s2, p + 1, d);
    }
}

proof fn lemma_quote_end_shift(s1: Seq<char>, s2: Seq<char>, p: int, d: int)
    requires
        agree_shifted(s1, s2, p, d),
        p <= s1.len(),
    ensures
        quote_end(s2, p + d) == quote_end(s1, p) + d,
    decreases s1.len() - p,
{
    if p < s1.len() {
        assert(s1[p] == s2[p + d]);
        lemma_quote_end_shift(s1, s2, p + 1, d);
    }
}

proof fn lemma_number_end_shift(s1: Seq<char>, s2: Seq<char>, p: int, d: int, period: bool, exponent: bool)
    requires
        agree_shifted(s1, s2, p, d),
        p <= s1.len(),
    ensures
        number_end(s2, p + d, period, exponent) == shifted_end(number_end(s1, p, period, exponent), d),
    decreases s1.len() - p,
{
    if p < s1.len() {
        assert(s1[p] == s2[p + d]);
        if p + 1 < s1.len() {
            assert(s1[p + 1] == s2[p + 1 + d]);
        }
        lemma_number_end_shift(s1, s2, p + 1, d, period, exponent);
        lemma_number_end_shift(s1, s2, p + 1, d, true, exponent);
        lemma_number_end_shift(s1, s2, p + 1, d, period, true);
    }
}

/// On ASCII sources, a step reads the same text, of the same kind, wherever the
/// characters it reads stand and whatever line and column the lexer counts.
proof fn lemma_step_shift(
    s1: Seq<char>,
    s2: Seq<char>,
    p: int,
    d: int,
    l1: int,
    c1: int,
    l2: int,
    c2: int,
)
    requires
        agree_shifted(s1, s2, p, d),
        p < s1.len(),
        is_ascii_chars(s1),
        is_ascii_chars(s2),
        0 <= c1,
        0 <= c2,
    ensures
        lex_step(s1, p, l1, c1) matches LexStep::Blank(a1) ==> {
            &&& lex_step(s2, p + d, l2, c2) matches LexStep::Blank(a2)
            &&& a2.pos == a1.pos + d
            &&& 0 <= a1.col
            &&& 0 <= a2.col
        },
        lex_step(s1, p, l1, c1) matches LexStep::Emit(t1, a1) ==> {
            &&& lex_step(s2, p + d, l2, c2) matches LexStep::Emit(t2, a2)
            &&& t2.value == t1.value
            &&& t2.kind == t1.kind
            &&& a2.pos == a1.pos + d
            &&& 0 <= a1.col
            &&& 0 <= a2.col
        },
{
    let q = p + d;
    assert(s1[p] == s2[q]);
    lemma_word_end(s1, p);
    lemma_quote_end(s1, p + 1);
    lemma_number_end(s1, p, false, false);
    lemma_word_end_shift(s1, s2, p, d);
    lemma_quote_end_shift(s1, s2, p + 1, d);
    lemma_number_end_shift(s1, s2, p, d, false, false);
    let c = s1[p];
    lemma_byte_len_char(c);
    let we = word_end(s1, p);
    assert(s2.subrange(q, we + d) =~= s1.subrange(p, we));
    lemma_ascii_byte_len(s1.subrange(p, we));
    let qe = quote_end(s1, p + 1);
    assert(s2.subrange(q + 1, qe + d) =~= s1.subrange(p + 1, qe));
    lemma_ascii_byte_len(s1.subrange(p + 1, qe));
    if qe < s1.len() {
        assert(s1[qe] == s2[qe + d]);
    }
    if let NumberEnd::At(e) = number_end(s1, p, false, false) {
        assert(s2.subrange(q, e + d) =~= s1.subrange(p, e));
        lemma_ascii_byte_len(s1.subrange(p, e));
    }
}

/// The texts of a concatenation are the texts of its parts.
proof fn lemma_token_texts_concat(a: Seq<TokenView>, b: Seq<TokenView>)
    ensures
        token_texts(a + b) == token_texts(a) + token_texts(b),
{
    assert(token_texts(a + b) =~= token_texts(a) + token_texts(b));
}

/// On ASCII sources that read the same from two positions on, lexing from
/// there yields the same texts and kinds, whatever line and column it starts at.
proof fn lemma_lex_shift(
    s1: Seq<char>,
    s2: Seq<char>,
    p: int,
    d: int,
    l1: int,
    c1: int,
    l2: int,
    c2: int,
)
    requires
        agree_shifted(s1, s2, p, d),
        p <= s1.len(),
        is_ascii_chars(s1),
        is_ascii_chars(s2),
        0 <= c1,
        0 <= c2,
        lex_from(s1, p, l1, c1) is Lexed,
    ensures
        lex_from(s2, p + d, l2, c2) is Lexed,
        token_texts(lex_from(s2, p + d, l2, c2)->Lexed_0) == token_texts(lex_from(s1, p, l1, c1)->Lexed_0),
    decreases s1.len() - p,
{
    if p < s1.len() {
        lemma_step_advances(s1, p, l1, c1);
        lemma_step_shift(s1, s2, p, d, l1, c1, l2, c2);
        match lex_step(s1, p, l1, c1) {
            LexStep::Blank(a1) => {
                let a2 = lex_step(s2, p + d, l2, c2)->Blank_0;
                lemma_lex_shift(s1, s2, a1.pos, d, a1.line, a1.col, a2.line, a2.col);
            },
            LexStep::Emit(t1, a1) => {
                let t2 = lex_step(s2, p + d, l2, c2)->Emit_0;
                let a2 = lex_step(s2, p + d, l2, c2)->Emit_1;
                lemma_lex_shift(s1, s2, a1.pos, d, a1.line, a1.col, a2.line, a2.col);
                let r1 = lex_from(s1, a1.pos, a1.line, a1.col)->Lexed_0;
                let r2 = lex_from(s2, a2.pos, a2.line, a2.col)->Lexed_0;
                lemma_token_texts_concat(seq![t1], r1);
                lemma_token_texts_concat(seq![t2], r2);
                assert(token_texts(seq![t1]) =~= token_texts(seq![t2]));
            },
            _ => {},
        }
    } else {
        assert(token_texts(Seq::<TokenView>::empty()) =~= Seq::<(Seq<char>, TokenKind)>::empty());
    }
}

/// Lexing from `at` until the lexer stands exactly at position `k`: the tokens
/// read on the way and where the lexer then stands; `None` when it never stands
/// there (it stops before, or a token runs across `k`).
pub open spec fn run_to(src: Seq<char>, at: Cursor, k: int) -> Option<(Seq<TokenView>, Cursor)>
    decreases src.len() - at.pos,
    via run_to_decreases
{
    if at.pos == k {
        Some((seq![], at))
    } else if 0 <= at.pos < src.len() && at.pos < k {
        match lex_step(src, at.pos, at.line, at.col) {
            LexStep::Blank(next) => run_to(src, next, k),
            LexStep::Emit(t, next) => match run_to(src, next, k) {
                Some((ts, c)) => Some((seq![t] + ts, c)),
                None => None,
            },
            _ => None,
        }
    } else {
        None
    }
}

#[via_fn]
proof fn run_to_decreases(src: Seq<char>, at: Cursor, k: int) {
    if 0 <= at.pos < src.len() {
        lemma_step_advances(src, at.pos, at.line, at.col);
    }
}

/// Lexing from `at` is the tokens read until `k`, then lexing from there.
proof fn lemma_run_to(src: Seq<char>, at: Cursor, k: int)
    requires
        run_to(src, at, k) is Some,
        0 <= at.col,
    ensures
        ({
            let (ts, c) = run_to(src, at, k)->Some_0;
            &&& c.pos == k
            &&& 0 <= c.col
            &&& lex_from(src, at.pos, at.line, at.col) == after_tokens(ts, lex_from(src, c.pos, c.line, c.col))
        }),
    decreases src.len() - at.pos,
{
    if at.pos != k {
        lemma_step_advances(src, at.pos, at.line, at.col);
        lemma_word_end(src, at.pos);
        lemma_quote_end(src, at.pos + 1);
        lemma_number_end(src, at.pos, false, false);
        match lex_step(src, at.pos, at.line, at.col) {
            LexStep::Blank(next) => {
                lemma_run_to(src, next, k);
            },
            LexStep::Emit(t, next) => {
                lemma_run_to(src, next, k);
                let (ts, c) = run_to(src, next, k)->Some_0;
                match lex_from(src, c.pos, c.line, c.col) {
                    LexOutcome::Lexed(rest, e) => {
                        assert(seq![t] + (ts + rest) =~= (seq![t] + ts) + rest);
                    },
                    _ => {},
                }
            },
            _ => {},
        }
    } else {
        match lex_from(src, at.pos, at.line, at.col) {
            LexOutcome::Lexed(rest, e) => {
                assert(Seq::<TokenView>::empty() + rest =~= rest);
            },
            _ => {},
        }
    }
}

/// Two sources that agree before `k` and both hold a separator at `k`.
pub open spec fn agree_before_blank(s1: Seq<char>, s2: Seq<char>, k: int) -> bool {
    &&& 0 <= k < s1.len()
    &&& k < s2.len()
    &&& forall|i: int| 0 <= i < k ==> #[trigger] s1[i] == s2[i]
    &&& is_blank(s1[k])
    &&& is_blank(s2[k])
}

proof fn lemma_word_end_before_blank(s1: Seq<char>, s2: Seq<char>, k: int, p: int)
    requires
        agree_before_blank(s1, s2, k),
        0 <= p <= k,
    ensures
        word_end(s1, p) == word_end(s2, p),
    decreases k - p,
{
    if p < k {
        assert(s1[p] == s2[p]);
        lemma_word_end_before_blank(s1, s2, k, p + 1);
    }
}

proof fn lemma_number_end_before_blank(s1: Seq<char>, s2: Seq<char>, k: int, p: int, period: bool, exponent: bool)
    requires
        agree_before_blank(s1, s2, k),
        0 <= p <= k,
    ensures
        number_end(s1, p, period, exponent) == number_end(s2, p, period, exponent),
    decreases k - p,
{
    if p < k {
        assert(s1[p] == s2[p]);
        if p + 1 < k {
            assert(s1[p + 1] == s2[p + 1]);
        }
        lemma_number_end_before_blank(s1, s2, k, p + 1, period, exponent);
        lemma_number_end_before_blank(s1, s2, k, p + 1, true, exponent);
        lemma_number_end_before_blank(s1, s2, k, p + 1, period, true);
    }
}

proof fn lemma_quote_end_before_blank(s1: Seq<char>, s2: Seq<char>, k: int, p: int)
    requires
        agree_before_blank(s1, s2, k),
        0 <= p <= k,
    ensures
        quote_end(s1, p) < k ==> quote_end(s2, p) == quote_end(s1, p),
    decreases k - p,
{
    lemma_quote_end(s1, p);
    if p < k {
        assert(s1[p] == s2[p]);
        lemma_quote_end_before_blank(s1, s2, k, p + 1);
    }
}

/// A step that ends at or before `k` is the same step in both sources.
proof fn lemma_step_before_blank(s1: Seq<char>, s2: Seq<char>, k: int, p: int, line: int, col: int)
    requires
        agree_before_blank(s1, s2, k),
        0 <= p < k,
    ensures
        lex_step(s1, p, line, col) matches LexStep::Blank(a) && a.pos <= k
            ==> lex_step(s2, p, line, col) == lex_step(s1, p, line, col),
        lex_step(s1, p, line, col) matches LexStep::Emit(_, a) && a.pos <= k
            ==> lex_step(s2, p, line, col) == lex_step(s1, p, line, col),
{
    assert(s1[p] == s2[p]);
    lemma_word_end(s1, p);
    lemma_quote_end(s1, p + 1);
    lemma_number_end(s1, p, false, false);
    lemma_word_end_before_blank(s1, s2, k, p);
    lemma_quote_end_before_blank(s1, s2, k, p + 1);
    lemma_number_end_before_blank(s1, s2, k, p, false, false);
    let we = word_end(s1, p);
    if we <= k {
        assert(s2.subrange(p, we) =~= s1.subrange(p, we));
    }
    let qe = quote_end(s1, p + 1);
    if qe < k {
        assert(s1[qe] == s2[qe]);
        assert(s2.subrange(p + 1, qe) =~= s1.subrange(p + 1, qe));
    }
    if let NumberEnd::At(e) = number_end(s1, p, false, false) {
        if e <= k {
            assert(s2.subrange(p, e) =~= s1.subrange(p, e));
        }
    }
}

/// Lexing until `k` goes the same way in both sources.
proof fn lemma_run_to_before_blank(s1: Seq<char>, s2: Seq<char>, k: int, at: Cursor)
    requires
        agree_before_blank(s1, s2, k),
        0 <= at.pos <= k,
        run_to(s1, at, k) is Some,
    ensures
        run_to(s2, at, k) == run_to(s1, at, k),
    decreases s1.len() - at.pos,
{
    if at.pos < k {
        lemma_step_advances(s1, at.pos, at.line, at.col);
        lemma_step_before_blank(s1, s2, k, at.pos, at.line, at.col);
        match lex_step(s1, at.pos, at.line, at.col) {
            LexStep::Blank(next) => {
                lemma_run_to_before_blank(s1, s2, k, next);
            },
            LexStep::Emit(_, next) => {
                lemma_run_to_before_blank(s1, s2, k, next);
            },
            _ => {},
        }
    }
}

/// Where the lexer stands after passing `m` separators from `at`.
pub open spec fn blank_steps(src: Seq<char>, at: Cursor, m: nat) -> Cursor
    decreases m,
{
    if m == 0 {
        at
    } else if src[at.pos] == '\n' {
        blank_steps(src, Cursor { pos: at.pos + 1, line: at.line + 1, col: 0 }, (m - 1) as nat)
    } else {
        blank_steps(src, Cursor { pos: at.pos + 1, line: at.line, col: at.col + 1 }, (m - 1) as nat)
    }
}

/// Passing separators one by one leaves the rest of the lexing unchanged.
proof fn lemma_blank_steps(src: Seq<char>, at: Cursor, m: nat)
    requires
        0 <= at.pos,
        at.pos + m <= src.len(),
        0 <= at.col,
        forall|i: int| at.pos <= i < at.pos + m ==> is_blank(#[trigger] src[i]),
    ensures
        blank_steps(src, at, m).pos == at.pos + m,
        0 <= blank_steps(src, at, m).col,
        lex_from(src, at.pos, at.line, at.col) == lex_from(
            src,
            blank_steps(src, at, m).pos,
            blank_steps(src, at, m).line,
            blank_steps(src, at, m).col,
        ),
    decreases m,
{
    if m > 0 {
        assert(is_blank(src[at.pos]));
        if src[at.pos] == '\n' {
            lemma_blank_steps(src, Cursor { pos: at.pos + 1, line: at.line + 1, col: 0 }, (m - 1) as nat);
        } else {
            lemma_blank_steps(src, Cursor { pos: at.pos + 1, line: at.line, col: at.col + 1 }, (m - 1) as nat);
        }
    }
}

/// Widening a separator between tokens into a run of separators changes where
/// the tokens stand, and nothing else: in an ASCII source that lexes, a
/// separator `w` at which the lexer stands between tokens (so not inside a
/// string literal) may be replaced by any run `r` of one or more separators,
/// and the new source lexes into tokens of the same texts and kinds, in order.
pub proof fn law_separators_change_only_locations(x: Seq<char>, w: char, y: Seq<char>, r: Seq<char>)
    requires
        is_ascii_chars(x + seq![w] + y),
        is_blank(w),
        r.len() > 0,
        forall|i: int| 0 <= i < r.len() ==> is_blank(#[trigger] r[i]),
        run_to(x + seq![w] + y, Cursor { pos: 0, line: 1, col: 0 }, x.len() as int) is Some,
        lex_source(x + seq![w] + y) is Lexed,
    ensures
        lex_source(x + r + y) is Lexed,
        token_texts(lex_source(x + r + y)->Lexed_0) == token_texts(lex_source(x + seq![w] + y)->Lexed_0),
{
    let s1 = x + seq![w] + y;
    let s2 = x + r + y;
    let k = x.len() as int;
    let start = Cursor { pos: 0, line: 1, col: 0 };
    assert forall|i: int| 0 <= i < s2.len() implies '\0' <= #[trigger] s2[i] <= '\u{7f}' by {
        if i < k {
            assert(s2[i] == s1[i]);
        } else if i >= k + r.len() {
            assert(s2[i] == s1[i - r.len() + 1]);
        } else {
            assert(s2[i] == r[i - k]);
            assert(is_blank(r[i - k]));
        }
    }
    assert(s1[k] == w);
    assert(s2[k] == r[0]);
    assert(is_blank(r[0]));
    assert forall|i: int| 0 <= i < k implies #[trigger] s1[i] == s2[i] by {
        assert(s1[i] == x[i]);
        assert(s2[i] == x[i]);
    }
    lemma_run_to(s1, start, k);
    lemma_run_to_before_blank(s1, s2, k, start);
    lemma_run_to(s2, start, k);
    let (ts, c) = run_to(s1, start, k)->Some_0;
    lemma_blank_steps(s1, c, 1);
    assert forall|i: int| k <= i < k + r.len() implies is_blank(#[trigger] s2[i]) by {
        assert(s2[i] == r[i - k]);
    }
    lemma_blank_steps(s2, c, r.len());
    let b1 = blank_steps(s1, c, 1);
    let b2 = blank_steps(s2, c, r.len());
    let d = r.len() - 1;
    assert forall|i: int| k + 1 <= i < s1.len() implies #[trigger] s1[i] == s2[i + d] by {
        assert(s1[i] == y[i - k - 1]);
        assert(s2[i + d] == y[i - k - 1]);
    }
    lemma_lex_shift(s1, s2, k + 1, d, b1.line, b1.col, b2.line, b2.col);
    let rest1 = lex_from(s1, b1.pos, b1.line, b1.col)->Lexed_0;
    let rest2 = lex_from(s2, b2.pos, b2.line, b2.col)->Lexed_0;
    lemma_token_texts_concat(ts, rest1);
    lemma_token_texts_concat(ts, rest2);
}

/// In an ASCII source, every token starts where its step starts or later, and
/// ends where the lexer then stands.
proof fn lemma_ascii_step_span(src: Seq<char>, pos: int, line: int, col: int)
    requires
        is_ascii_chars(src),
        0 <= pos < src.len() <= usize::MAX,
        0 <= col,
    ensures
        lex_step(src, pos, line, col) matches LexStep::Emit(t, at) ==> pos <= t.loc.start <= t.loc.end
            && t.loc.end == at.pos && 0 <= at.col,
        lex_step(src, pos, line, col) matches LexStep::Blank(at) ==> 0 <= at.col,
{
    lemma_step_advances(src, pos, line, col);
    lemma_step_token(src, pos, line, col);
    lemma_word_end(src, pos);
    lemma_quote_end(src, pos + 1);
    lemma_number_end(src, pos, false, false);
    lemma_byte_len_char(src[pos]);
    let e = word_end(src, pos);
    lemma_ascii_byte_len(src.subrange(pos, e));
    let q = quote_end(src, pos + 1);
    lemma_ascii_byte_len(src.subrange(pos + 1, q));
    if let NumberEnd::At(n) = number_end(src, pos, false, false) {
        lemma_ascii_byte_len(src.subrange(pos, n));
    }
}

/// In an ASCII source that lexes, the tokens do not overlap: each one starts
/// at or after the end of the one before it (and no earlier than where lexing
/// began).
pub proof fn law_ascii_tokens_do_not_overlap(src: Seq<char>, pos: int, line: int, col: int)
    requires
        is_ascii_chars(src),
        0 <= pos,
        0 <= col,
        src.len() <= usize::MAX,
        lex_from(src, pos, line, col) is Lexed,
    ensures
        ({
            let tokens = lex_from(src, pos, line, col)->Lexed_0;
            &&& forall|i: int| 0 <= i < tokens.len() ==> pos <= (#[trigger] tokens[i]).loc.start
                <= tokens[i].loc.end
            &&& forall|i: int, j: int| 0 <= i < j < tokens.len() ==> tokens[i].loc.end <= tokens[j].loc.start
        }),
    decreases src.len() - pos,
{
    if pos < src.len() {
        lemma_step_advances(src, pos, line, col);
        lemma_ascii_step_span(src, pos, line, col);
        match lex_step(src, pos, line, col) {
            LexStep::Blank(at) => {
                law_ascii_tokens_do_not_overlap(src, at.pos, at.line, at.col);
            },
            LexStep::Emit(t, at) => {
                law_ascii_tokens_do_not_overlap(src, at.pos, at.line, at.col);
                let rest = lex_from(src, at.pos, at.line, at.col)->Lexed_0;
                let tokens = lex_from(src, pos, line, col)->Lexed_0;
                assert(tokens =~= seq![t] + rest);
                assert forall|i: int| 0 <= i < tokens.len() implies pos <= (#[trigger] tokens[i]).loc.start
                    <= tokens[i].loc.end by {
                    if i > 0 {
                        assert(tokens[i] == rest[i - 1]);
                    }
                }
                assert forall|i: int, j: int| 0 <= i < j < tokens.len() implies tokens[i].loc.end
                    <= tokens[j].loc.start by {
                    assert(tokens[j] == rest[j - 1]);
                    if i > 0 {
                        assert(tokens[i] == rest[i - 1]);
                    }
                }
            },
            _ => {},
        }
    }
}

// ---------------------------------------------------------------------------
// String literals and words.
// ---------------------------------------------------------------------------

/// Whether `v` can stand between the quotes of a string literal: it holds no
/// quote and no line break.
pub open spec fn fits_in_quotes(v: Seq<char>) -> bool {
    forall|i: int| 0 <= i < v.len() ==> #[trigger] v[i] != '\'' && v[i] != '\n'
}

proof fn lemma_quote_end_over(src: Seq<char>, a: int, b: int)
    requires
        0 <= a <= b < src.len(),
        forall|i: int| a <= i < b ==> #[trigger] src[i] != '\'' && src[i] != '\n',
        src[b] == '\'',
    ensures
        quote_end(src, a) == b,
    decreases b - a,
{
    if a < b {
        lemma_quote_end_over(src, a + 1, b);
    }
}

/// A quote, a text `v` that holds no quote and no line break, and a closing
/// quote, wherever they stand in a source, lex to one string token whose value
/// is exactly `v`, placed at the closing quote; lexing then goes on after it.
/// (The token is placeable when `v` has no more UTF-8 bytes than characters
/// plus the two quotes, as every ASCII text has.)
pub proof fn law_string_literal_reads_to_its_closing_quote(
    x: Seq<char>,
    v: Seq<char>,
    y: Seq<char>,
    line: int,
    col: int,
)
    requires
        fits_in_quotes(v),
        0 <= col,
        byte_len(v) <= v.len() + 2,
    ensures
        ({
            let src = x + seq!['\''] + v + seq!['\''] + y;
            let e = (x.len() + v.len() + 2) as int;
            let ce = col + v.len() + 2;
            lex_from(src, x.len() as int, line, col) == after_tokens(
                seq![TokenView { value: v, kind: TokenKind::String, loc: location_at(e, line, ce, byte_len(v) as int) }],
                lex_from(src, e, line, ce),
            )
        }),
{
    let src = x + seq!['\''] + v + seq!['\''] + y;
    let k = x.len() as int;
    let q = k + 1 + v.len();
    assert(src[k] == '\'');
    assert(src[q] == '\'');
    assert forall|i: int| k + 1 <= i < q implies #[trigger] src[i] != '\'' && src[i] != '\n' by {
        assert(src[i] == v[i - k - 1]);
    }
    lemma_quote_end_over(src, k + 1, q);
    assert(src.subrange(k + 1, q) =~= v);
}

/// The source `'v'`, for a text `v` with no quote, no line break and only ASCII
/// characters, lexes to exactly one string token: its value is `v`, it stands
/// on line 1 at column 3 (just after the opening quote) and spans positions 2
/// to the end of the source.
pub proof fn law_quoted_text_lexes_to_one_string(v: Seq<char>)
    requires
        fits_in_quotes(v),
        is_ascii_chars(v),
        v.len() + 2 <= usize::MAX,
    ensures
        lex_source(seq!['\''] + v + seq!['\'']) == LexOutcome::Lexed(
            seq![
                TokenView {
                    value: v,
                    kind: TokenKind::String,
                    loc: Location { line: 1, col: 3, start: 2, end: (v.len() + 2) as usize },
                },
            ],
            Cursor { pos: v.len() + 2 as int, line: 1, col: v.len() + 2 as int },
        ),
{
    let empty = Seq::<char>::empty();
    lemma_ascii_byte_len(v);
    law_string_literal_reads_to_its_closing_quote(empty, v, empty, 1, 0);
    assert(empty + seq!['\''] + v + seq!['\''] + empty =~= seq!['\''] + v + seq!['\'']);
    let t = TokenView {
        value: v,
        kind: TokenKind::String,
        loc: Location { line: 1, col: 3, start: 2, end: (v.len() + 2) as usize },
    };
    assert(seq![t] + Seq::<TokenView>::empty() =~= seq![t]);
}

/// A word is a keyword exactly when its upper-case form is the name of one of
/// the eleven keywords, and then it is that keyword; every other word, however
/// it begins, is an identifier.
pub proof fn law_word_is_keyword_exactly_by_name(upper: Seq<char>)
    ensures
        word_kind(upper) == TokenKind::Identifier <==> !(upper == "SELECT"@ || upper == "WHERE"@
            || upper == "FROM"@ || upper == "AS"@ || upper == "TABLE"@ || upper == "CREATE"@
            || upper == "INSERT"@ || upper == "INTO"@ || upper == "VALUES"@ || upper == "INT"@
            || upper == "TEXT"@),
        upper == "SELECT"@ ==> word_kind(upper) == TokenKind::Keyword(Keyword::Select),
        upper == "WHERE"@ ==> word_kind(upper) == TokenKind::Keyword(Keyword::Where),
        upper == "FROM"@ ==> word_kind(upper) == TokenKind::Keyword(Keyword::From),
        upper == "AS"@ ==> word_kind(upper) == TokenKind::Keyword(Keyword::As),
        upper == "TABLE"@ ==> word_kind(upper) == TokenKind::Keyword(Keyword::Table),
        upper == "CREATE"@ ==> word_kind(upper) == TokenKind::Keyword(Keyword::Create),
        upper == "INSERT"@ ==> word_kind(upper) == TokenKind::Keyword(Keyword::Insert),
        upper == "INTO"@ ==> word_kind(upper) == TokenKind::Keyword(Keyword::Into),
        upper == "VALUES"@ ==> word_kind(upper) == TokenKind::Keyword(Keyword::Values),
        upper == "INT"@ ==> word_kind(upper) == TokenKind::Keyword(Keyword::Int),
        upper == "TEXT"@ ==> word_kind(upper) == TokenKind::Keyword(Keyword::Text),
{
    reveal_strlit("SELECT");
    reveal_strlit("WHERE");
    reveal_strlit("FROM");
    reveal_strlit("AS");
    reveal_strlit("TABLE");
    reveal_strlit("CREATE");
    reveal_strlit("INSERT");
    reveal_strlit("INTO");
    reveal_strlit("VALUES");
    reveal_strlit("INT");
    reveal_strlit("TEXT");
    assert("SELECT"@.len() == 6 && "SELECT"@[0] == 'S');
    assert("WHERE"@.len() == 5 && "WHERE"@[0] == 'W');
    assert("FROM"@.len() == 4 && "FROM"@[0] == 'F');
    assert("AS"@.len() == 2 && "AS"@[0] == 'A');
    assert("TABLE"@.len() == 5 && "TABLE"@[0] == 'T');
    assert("CREATE"@.len() == 6 && "CREATE"@[0] == 'C');
    assert("INSERT"@.len() == 6 && "INSERT"@[0] == 'I');
    assert("INTO"@.len() == 4 && "INTO"@[0] == 'I');
    assert("VALUES"@.len() == 6 && "VALUES"@[0] == 'V');
    assert("INT"@.len() == 3 && "INT"@[0] == 'I');
    assert("TEXT"@.len() == 4 && "TEXT"@[0] == 'T');
}

// ---------------------------------------------------------------------------
// Words, numbers, symbols and unknown characters, wherever they stand.
// ---------------------------------------------------------------------------

/// Whether `y` begins with a character that could continue a word.
pub open spec fn continues_word(y: Seq<char>) -> bool {
    y.len() > 0 && (ascii_letter(y[0]) || ascii_digit(y[0]) || y[0] == '_' || !(y[0] <= '\u{7f}'))
}

/// Whether `y` begins with a character that could continue a number: a digit,
/// a period, an exponent marker, or a character beyond ASCII.
pub open spec fn continues_number(y: Seq<char>) -> bool {
    y.len() > 0 && (ascii_digit(y[0]) || y[0] == '.' || y[0] == 'e' || !(y[0] <= '\u{7f}'))
}

/// Whether `w` is an ASCII word: a letter or `_`, then letters, digits or `_`.
pub open spec fn ascii_word(w: Seq<char>) -> bool {
    &&& w.len() > 0
    &&& ascii_letter(w[0]) || w[0] == '_'
    &&& forall|i: int| 0 <= i < w.len() ==> ascii_letter(#[trigger] w[i]) || ascii_digit(w[i]) || w[i] == '_'
}

/// Whether `d` is a non-empty run of ASCII digits.
pub open spec fn ascii_digits(d: Seq<char>) -> bool {
    d.len() > 0 && forall|i: int| 0 <= i < d.len() ==> ascii_digit(#[trigger] d[i])
}

/// The token of text `value` and `kind` that ends at `end`, on `line`, with the
/// lexer's column `col` after it.
pub open spec fn token_ending_at(value: Seq<char>, kind: TokenKind, end: int, line: int, col: int) -> TokenView {
    TokenView { value, kind, loc: location_at(end, line, col, byte_len(value) as int) }
}

proof fn lemma_word_end_over(src: Seq<char>, a: int, b: int)
    requires
        0 <= a <= b <= src.len(),
        forall|i: int| a <= i < b ==> is_word_char(#[trigger] src[i]),
        b == src.len() || !is_word_char(src[b]),
    ensures
        word_end(src, a) == b,
    decreases b - a,
{
    if a < b {
        lemma_word_end_over(src, a + 1, b);
    }
}

proof fn lemma_number_end_over_digits(src: Seq<char>, a: int, b: int, period: bool, exponent: bool)
    requires
        0 <= a <= b <= src.len(),
        forall|i: int| a <= i < b ==> ascii_digit(#[trigger] src[i]),
    ensures
        number_end(src, a, period, exponent) == number_end(src, b, period, exponent),
    decreases b - a,
{
    if a < b {
        assert(ascii_digit(src[a]));
        lemma_number_end_over_digits(src, a + 1, b, period, exponent);
    }
}

/// An ASCII word, followed by anything that cannot continue it, lexes to one
/// token whose text is the word and whose kind is decided by its upper-case
/// form; lexing then goes on right after it.
pub proof fn law_word_lexes_to_one_token(x: Seq<char>, w: Seq<char>, y: Seq<char>, line: int, col: int)
    requires
        ascii_word(w),
        !continues_word(y),
        0 <= col,
    ensures
        ({
            let src = x + w + y;
            let e = (x.len() + w.len()) as int;
            lex_from(src, x.len() as int, line, col) == after_tokens(
                seq![token_ending_at(w, word_kind(upper_case(w)), e, line, col + w.len())],
                lex_from(src, e, line, col + w.len()),
            )
        }),
{
    let src = x + w + y;
    let k = x.len() as int;
    let e = k + w.len();
    assert(src[k] == w[0]);
    assert forall|i: int| k <= i < e implies is_word_char(#[trigger] src[i]) by {
        assert(src[i] == w[i - k]);
        assert(ascii_letter(w[i - k]) || ascii_digit(w[i - k]) || w[i - k] == '_');
    }
    if e < src.len() {
        assert(src[e] == y[0]);
    }
    lemma_word_end_over(src, k, e);
    assert(src.subrange(k, e) =~= w);
    assert(is_ascii_chars(w));
    lemma_ascii_byte_len(w);
}

/// A run of ASCII digits, followed by anything that cannot continue a number,
/// lexes to one number token whose text is the run.
pub proof fn law_integer_lexes_to_one_number(x: Seq<char>, d: Seq<char>, y: Seq<char>, line: int, col: int)
    requires
        ascii_digits(d),
        !continues_number(y),
        0 <= col,
    ensures
        ({
            let src = x + d + y;
            let e = (x.len() + d.len()) as int;
            lex_from(src, x.len() as int, line, col) == after_tokens(
                seq![token_ending_at(d, TokenKind::Numberic, e, line, col + d.len())],
                lex_from(src, e, line, col + d.len()),
            )
        }),
{
    let src = x + d + y;
    let k = x.len() as int;
    let e = k + d.len();
    assert(src[k] == d[0]);
    assert(ascii_digit(d[0]));
    assert forall|i: int| k <= i < e implies ascii_digit(#[trigger] src[i]) by {
        assert(src[i] == d[i - k]);
    }
    if e < src.len() {
        assert(src[e] == y[0]);
    }
    lemma_number_end_over_digits(src, k, e, false, false);
    assert(src.subrange(k, e) =~= d);
    assert(is_ascii_chars(d));
    lemma_ascii_byte_len(d);
}

/// Digits, a period or an exponent marker `m`, and digits again, followed by
/// anything that cannot continue a number, lex to one number token whose text
/// is all of them.
pub proof fn law_decimal_lexes_to_one_number(
    x: Seq<char>,
    a: Seq<char>,
    m: char,
    b: Seq<char>,
    y: Seq<char>,
    line: int,
    col: int,
)
    requires
        ascii_digits(a),
        m == '.' || m == 'e',
        ascii_digits(b),
        !continues_number(y),
        0 <= col,
    ensures
        ({
            let src = x + a + seq![m] + b + y;
            let n = a + seq![m] + b;
            let e = (x.len() + n.len()) as int;
            lex_from(src, x.len() as int, line, col) == after_tokens(
                seq![token_ending_at(n, TokenKind::Numberic, e, line, col + n.len())],
                lex_from(src, e, line, col + n.len()),
            )
        }),
{
    let src = x + a + seq![m] + b + y;
    let n = a + seq![m] + b;
    let k = x.len() as int;
    let pm = k + a.len();
    let e = k + n.len();
    assert(src[k] == a[0]);
    assert(ascii_digit(a[0]));
    assert forall|i: int| k <= i < pm implies ascii_digit(#[trigger] src[i]) by {
        assert(src[i] == a[i - k]);
    }
    assert(src[pm] == m);
    assert(src[pm + 1] == b[0]);
    assert(ascii_digit(b[0]));
    assert forall|i: int| pm + 1 <= i < e implies ascii_digit(#[trigger] src[i]) by {
        assert(src[i] == b[i - pm - 1]);
    }
    if e < src.len() {
        assert(src[e] == y[0]);
    }
    lemma_number_end_over_digits(src, k, pm, false, false);
    lemma_number_end_over_digits(src, pm + 1, e, m == '.', m == 'e');
    assert(src.subrange(k, e) =~= n);
    assert(is_ascii_chars(n)) by {
        assert forall|i: int| 0 <= i < n.len() implies '\0' <= #[trigger] n[i] <= '\u{7f}' by {
            if i < a.len() {
                assert(n[i] == a[i]);
            } else if i == a.len() {
                assert(n[i] == m);
            } else {
                assert(n[i] == b[i - a.len() - 1]);
            }
        }
    }
    lemma_ascii_byte_len(n);
}

/// Each of the five symbol characters lexes on its own to its symbol token:
/// `;` a semicolon, `*` an asterisk, `,` a comma, `(` and `)` the parentheses.
pub proof fn law_symbol_lexes_to_its_token(
    x: Seq<char>,
    c: char,
    sym: Symbol,
    y: Seq<char>,
    line: int,
    col: int,
)
    requires
        (c == ';' && sym == Symbol::Semicolon) || (c == '*' && sym == Symbol::Asterisk)
            || (c == ',' && sym == Symbol::Comma) || (c == '(' && sym == Symbol::LeftParen)
            || (c == ')' && sym == Symbol::RightParen),
        0 <= col,
    ensures
        ({
            let src = x + seq![c] + y;
            let e = (x.len() + 1) as int;
            lex_from(src, x.len() as int, line, col) == after_tokens(
                seq![token_ending_at(seq![c], TokenKind::Symbol(sym), e, line, col + 1)],
                lex_from(src, e, line, col + 1),
            )
        }),
{
    let src = x + seq![c] + y;
    assert(src[x.len() as int] == c);
    lemma_byte_len_char(c);
}

/// An ASCII character that begins no token and separates none (not a letter,
/// digit, `_`, quote, symbol or separator) stops lexing with the error
/// "Unknown character", about that character, the lexer standing just past it.
pub proof fn law_unknown_character_is_refused(x: Seq<char>, c: char, y: Seq<char>, line: int, col: int)
    requires
        c <= '\u{7f}',
        !ascii_letter(c),
        !ascii_digit(c),
        c != '_',
        c != '\'',
        symbol_of(c) is None,
        !is_blank(c),
        0 <= col,
    ensures
        ({
            let src = x + seq![c] + y;
            let e = (x.len() + 1) as int;
            lex_from(src, x.len() as int, line, col) == LexOutcome::Failed(
                LexErrorView {
                    value: seq![c],
                    message: "Unknown character"@,
                    loc: location_at(e, line, col + 1, 1),
                },
                Cursor { pos: e, line, col: col + 1 },
            )
        }),
{
    let src = x + seq![c] + y;
    assert(src[x.len() as int] == c);
    lemma_byte_len_char(c);
}

} // verus!
