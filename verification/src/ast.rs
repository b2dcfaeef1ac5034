//! The statements that the parser builds.
use vstd::prelude::*;

use crate::lexer::{Token, TokenView};

verus! {

pub type Ast = Vec<Statement>;

#[derive(Debug)]
pub enum Statement {
    CreateTable(CreateTableStatement),
    Select(SelectStatement),
    Insert(InsertStatement),
}

#[derive(Debug)]
pub struct ColumnDefinition {
    pub name: Token,
    pub datatype: Token,
}

impl ColumnDefinition {
    pub fn new(name: Token, datatype: Token) -> (r: Self)
        ensures
            r@ == (ColumnDefinitionView { name: name@, datatype: datatype@ }),
    {
        Self { name, datatype }
    }
}

#[derive(Debug)]
pub struct CreateTableStatement {
    pub name: Token,
    pub cols: Vec<ColumnDefinition>,
}

impl CreateTableStatement {
    pub fn new(name: Token, cols: Vec<ColumnDefinition>) -> (r: Self)
        ensures
            r@ == (CreateTableView { name: name@, cols: column_views(cols@) }),
    {
        Self { name, cols }
    }
}

#[derive(Debug)]
pub struct SelectStatement {
    pub items: Vec<Expression>,
    pub from: Token,
}

impl SelectStatement {
    pub fn new(items: Vec<Expression>, from: Token) -> (r: Self)
        ensures
            r@ == (SelectView { items: expression_views(items@), from: from@ }),
    {
        Self { items, from }
    }
}

#[derive(Debug)]
pub struct InsertStatement {
    pub table_name: Token,
    pub values: Vec<Expression>,
}

impl InsertStatement {
    pub fn new(table_name: Token, values: Vec<Expression>) -> (r: Self)
        ensures
            r@ == (InsertView { table_name: table_name@, values: expression_views(values@) }),
    {
        Self { table_name, values }
    }
}

#[derive(Debug)]
pub enum Expression {
    Literal(LiteralExpression),
}

#[derive(Debug)]
pub struct LiteralExpression {
    pub literal: Token,
}

impl LiteralExpression {
    pub fn new(literal: Token) -> (r: Self)
        ensures
            r@ == literal@,
    {
        Self { literal }
    }
}

// ---------------------------------------------------------------------------
// Statements as the contracts see them.
// ---------------------------------------------------------------------------

pub enum ExpressionView {
    Literal(TokenView),
}

pub struct ColumnDefinitionView {
    pub name: TokenView,
    pub datatype: TokenView,
}

pub struct CreateTableView {
    pub name: TokenView,
    pub cols: Seq<ColumnDefinitionView>,
}

pub struct SelectView {
    pub items: Seq<ExpressionView>,
    pub from: TokenView,
}

pub struct InsertView {
    pub table_name: TokenView,
    pub values: Seq<ExpressionView>,
}

pub enum StatementView {
    CreateTable(CreateTableView),
    Select(SelectView),
    Insert(InsertView),
}

impl View for LiteralExpression {
    type V = TokenView;

    open spec fn view(&self) -> TokenView {
        self.literal@
    }
}

impl View for Expression {
    type V = ExpressionView;

    open spec fn view(&self) -> ExpressionView {
        match self {
            Expression::Literal(l) => ExpressionView::Literal(l@),
        }
    }
}

impl View for ColumnDefinition {
    type V = ColumnDefinitionView;

    open spec fn view(&self) -> ColumnDefinitionView {
        ColumnDefinitionView { name: self.name@, datatype: self.datatype@ }
    }
}

impl View for CreateTableStatement {
    type V = CreateTableView;

    open spec fn view(&self) -> CreateTableView {
        CreateTableView { name: self.name@, cols: column_views(self.cols@) }
    }
}

impl View for SelectStatement {
    type V = SelectView;

    open spec fn view(&self) -> SelectView {
        SelectView { items: expression_views(self.items@), from: self.from@ }
    }
}

impl View for InsertStatement {
    type V = InsertView;

    open spec fn view(&self) -> InsertView {
        InsertView { table_name: self.table_name@, values: expression_views(self.values@) }
    }
}

impl View for Statement {
    type V = StatementView;

    open spec fn view(&self) -> StatementView {
        match self {
            Statement::CreateTable(s) => StatementView::CreateTable(s@),
            Statement::Select(s) => StatementView::Select(s@),
            Statement::Insert(s) => StatementView::Insert(s@),
        }
    }
}

pub open spec fn expression_views(s: Seq<Expression>) -> Seq<ExpressionView> {
    s.map_values(|e: Expression| e@)
}

pub open spec fn column_views(s: Seq<ColumnDefinition>) -> Seq<ColumnDefinitionView> {
    s.map_values(|c: ColumnDefinition| c@)
}

pub open spec fn statement_views(s: Seq<Statement>) -> Seq<StatementView> {
    s.map_values(|st: Statement| st@)
}

} // verus!
