//! The errors that stop a run.
use vstd::prelude::*;

use crate::backend::{ExecutionError, ExecutionErrorView};
use crate::lexer::{LexError, LexErrorView};
use crate::parser::{ParseError, ParseErrorView};

verus! {

#[derive(Debug)]
pub enum Error {
    Lex(LexError),
    Parse(ParseError),
    Execution(ExecutionError),
}

pub enum ErrorView {
    Lex(LexErrorView),
    Parse(ParseErrorView),
    Execution(ExecutionErrorView),
}

impl View for Error {
    type V = ErrorView;

    open spec fn view(&self) -> ErrorView {
        match self {
            Error::Lex(e) => ErrorView::Lex(e@),
            Error::Parse(e) => ErrorView::Parse(e@),
            Error::Execution(e) => ErrorView::Execution(e@),
        }
    }
}

} // verus!
