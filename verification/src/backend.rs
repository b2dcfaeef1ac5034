//! The database that statements run against.
use vstd::prelude::*;
use vstd::hash_map::StringHashMap;

use crate::ast::{ColumnDefinitionView, CreateTableStatement, CreateTableView, Statement, StatementView};
use crate::lexer::{copy_token, token_views, Token, TokenView};
use crate::text::{to_uppercase, upper_case};

verus! {

#[derive(Debug, PartialEq, Eq, Clone, Copy, Structural)]
pub enum Datatype {
    Int,
    Text,
}

#[derive(Debug, PartialEq, Clone)]
pub enum Value {
    Int(i64),
    Text(String),
}

#[derive(Debug)]
pub struct Column {
    pub name: String,
    pub datatype: Datatype,
}

impl Column {
    pub fn new(name: String, datatype: Datatype) -> (r: Self)
        ensures
            r@ == (ColumnView { name: name@, datatype }),
    {
        Self { name, datatype }
    }
}

#[derive(Debug)]
pub struct Table {
    pub columns: Vec<Column>,
    pub rows: Vec<Vec<Value>>,
}

impl Table {
    pub fn new(columns: Vec<Column>, rows: Vec<Vec<Value>>) -> (r: Self)
        ensures
            r@ == (TableView { columns: column_views(columns@), rows: row_views(rows@) }),
    {
        Self { columns, rows }
    }
}

pub struct Database {
    pub tables: StringHashMap<Table>,
}

#[derive(Debug)]
pub struct QueryResult {
    pub columns: Vec<String>,
    pub rows: Vec<Vec<Value>>,
}

#[derive(Debug)]
pub enum ExecutionResult {
    Done,
    Rows(QueryResult),
}

#[derive(Debug)]
pub struct ExecutionError {
    pub message: String,
    pub tokens: Vec<Token>,
}

impl ExecutionError {
    pub fn new(message: String, tokens: Vec<Token>) -> (r: Self)
        ensures
            r@ == (ExecutionErrorView { message: message@, tokens: token_views(tokens@) }),
    {
        Self { message, tokens }
    }
}

// ---------------------------------------------------------------------------
// The database as the contracts see it: a map from table names to tables.
// ---------------------------------------------------------------------------

pub enum ValueView {
    Int(i64),
    Text(Seq<char>),
}

pub struct ColumnView {
    pub name: Seq<char>,
    pub datatype: Datatype,
}

pub struct TableView {
    pub columns: Seq<ColumnView>,
    pub rows: Seq<Seq<ValueView>>,
}

pub struct ExecutionErrorView {
    pub message: Seq<char>,
    pub tokens: Seq<TokenView>,
}

impl View for Value {
    type V = ValueView;

    open spec fn view(&self) -> ValueView {
        match self {
            Value::Int(i) => ValueView::Int(*i),
            Value::Text(s) => ValueView::Text(s@),
        }
    }
}

impl View for Column {
    type V = ColumnView;

    open spec fn view(&self) -> ColumnView {
        ColumnView { name: self.name@, datatype: self.datatype }
    }
}

impl View for Table {
    type V = TableView;

    open spec fn view(&self) -> TableView {
        TableView { columns: column_views(self.columns@), rows: row_views(self.rows@) }
    }
}

impl View for Database {
    type V = Map<Seq<char>, TableView>;

    open spec fn view(&self) -> Map<Seq<char>, TableView> {
        self.tables@.map_values(|t: Table| t@)
    }
}

impl View for ExecutionError {
    type V = ExecutionErrorView;

    open spec fn view(&self) -> ExecutionErrorView {
        ExecutionErrorView { message: self.message@, tokens: token_views(self.tokens@) }
    }
}

pub open spec fn column_views(s: Seq<Column>) -> Seq<ColumnView> {
    s.map_values(|c: Column| c@)
}

pub open spec fn row_views(s: Seq<Vec<Value>>) -> Seq<Seq<ValueView>> {
    s.map_values(|row: Vec<Value>| row@.map_values(|v: Value| v@))
}

/// The datatype that an upper-case type name stands for.
pub open spec fn datatype_of_upper(upper: Seq<char>) -> Option<Datatype> {
    if upper == "INT"@ {
        Some(Datatype::Int)
    } else if upper == "TEXT"@ {
        Some(Datatype::Text)
    } else {
        None
    }
}

/// The datatype that a type name stands for, whatever its case.
pub open spec fn datatype_named(name: Seq<char>) -> Option<Datatype> {
    datatype_of_upper(upper_case(name))
}

/// The datatype that an upper-case type name stands for.
pub fn datatype_of(upper: &String) -> (r: Option<Datatype>)
    ensures
        r == datatype_of_upper(upper@),
{
    if *upper == String::from_str("INT") {
        Some(Datatype::Int)
    } else if *upper == String::from_str("TEXT") {
        Some(Datatype::Text)
    } else {
        None
    }
}

pub open spec fn unknown_datatype(datatype: TokenView) -> ExecutionErrorView {
    ExecutionErrorView {
        message: "unknoown datatype: "@ + upper_case(upper_case(datatype.value)),
        tokens: seq![datatype],
    }
}

pub open spec fn table_exists(name: TokenView) -> ExecutionErrorView {
    ExecutionErrorView {
        message: "table '"@ + name.value + "' already exists"@,
        tokens: seq![name],
    }
}

/// The columns that column definitions describe, or the error about the first
/// definition whose type is unknown.
pub open spec fn table_columns_of(defs: Seq<ColumnDefinitionView>) -> Result<Seq<ColumnView>, ExecutionErrorView>
    decreases defs.len(),
{
    if defs.len() == 0 {
        Ok(seq![])
    } else {
        match datatype_named(defs[0].datatype.value) {
            Some(datatype) => match table_columns_of(defs.drop_first()) {
                Ok(rest) => Ok(seq![ColumnView { name: defs[0].name.value, datatype }] + rest),
                Err(e) => Err(e),
            },
            None => Err(unknown_datatype(defs[0].datatype)),
        }
    }
}

/// The tables after CREATE TABLE, or the error that refuses it.
pub open spec fn create_table_in(
    tables: Map<Seq<char>, TableView>,
    stmt: CreateTableView,
) -> Result<Map<Seq<char>, TableView>, ExecutionErrorView> {
    if tables.contains_key(stmt.name.value) {
        Err(table_exists(stmt.name))
    } else {
        match table_columns_of(stmt.cols) {
            Ok(columns) => Ok(tables.insert(stmt.name.value, TableView { columns, rows: seq![] })),
            Err(e) => Err(e),
        }
    }
}

/// The statements that the database can run.
pub open spec fn is_executable(stmt: StatementView) -> bool {
    stmt is CreateTable
}

impl Database {
    pub fn new() -> (r: Self)
        ensures
            r@ == Map::<Seq<char>, TableView>::empty(),
    {
        let r = Self { tables: StringHashMap::new() };
        assert(r@ =~= Map::<Seq<char>, TableView>::empty());
        r
    }

    /// Runs one statement.
    pub fn execute(&mut self, stmt: Statement) -> (r: Result<ExecutionResult, ExecutionError>)
        requires
            is_executable(stmt@),
        ensures
            match stmt@ {
                StatementView::CreateTable(create) => match create_table_in(old(self)@, create) {
                    Ok(tables) => r matches Ok(ExecutionResult::Done) && final(self)@ == tables,
                    Err(e) => r matches Err(error) && error@ == e && final(self)@ == old(self)@,
                },
                _ => false,
            },
    {
        match stmt {
            Statement::CreateTable(stmt) => self.create_table(stmt),
            Statement::Insert(_) => {
                assert(false);
                Ok(ExecutionResult::Done)
            },
            Statement::Select(_) => {
                assert(false);
                Ok(ExecutionResult::Done)
            },
        }
    }

    #[verifier::loop_isolation(false)]
    fn create_table(&mut self, stmt: CreateTableStatement) -> (r: Result<ExecutionResult, ExecutionError>)
        ensures
            match create_table_in(old(self)@, stmt@) {
                Ok(tables) => r matches Ok(ExecutionResult::Done) && final(self)@ == tables,
                Err(e) => r matches Err(error) && error@ == e && final(self)@ == old(self)@,
            },
    {
        let table_name = stmt.name.value.clone();
        if self.tables.contains_key(table_name.as_str()) {
            let mut message = String::from_str("table '");
            message.append(table_name.as_str());
            message.append("' already exists");
            let mut tokens = Vec::new();
            tokens.push(copy_token(&stmt.name));
            assert(token_views(tokens@) =~= seq![stmt.name@]);
            return Err(ExecutionError::new(message, tokens));
        }
        let ghost defs = stmt@.cols;
        let mut columns: Vec<Column> = Vec::new();
        let mut i: usize = 0;
        assert(defs.subrange(0, defs.len() as int) =~= defs);
        while i < stmt.cols.len()
            invariant
                0 <= i <= stmt.cols@.len(),
                defs == stmt@.cols,
                defs.len() == stmt.cols@.len(),
                table_columns_of(defs) == after_columns(column_views(columns@), table_columns_of(defs.subrange(i as int, defs.len() as int))),
                self@ == old(self)@,
            decreases stmt.cols@.len() - i,
        {
            let ghost rest = defs.subrange(i as int, defs.len() as int);
            assert(rest[0] == stmt.cols@[i as int]@);
            assert(rest.drop_first() =~= defs.subrange(i + 1, defs.len() as int));
            let col = &stmt.cols[i];
            let upper = to_uppercase(col.datatype.value.as_str());
            let datatype = if let Some(datatype) = datatype_of(&upper) {
                datatype
            } else {
                let mut message = String::from_str("unknoown datatype: ");
                let shown = to_uppercase(upper.as_str());
                message.append(shown.as_str());
                let mut tokens = Vec::new();
                tokens.push(copy_token(&col.datatype));
                assert(token_views(tokens@) =~= seq![col.datatype@]);
                return Err(ExecutionError::new(message, tokens));
            };
            let column = Column::new(col.name.value.clone(), datatype);
            let ghost before = columns@;
            columns.push(column);
            proof {
                assert(column_views(columns@) =~= column_views(before).push(column@));
                match table_columns_of(defs.subrange(i + 1, defs.len() as int)) {
                    Ok(r) => {
                        assert(column_views(before) + (seq![column@] + r) =~= column_views(columns@) + r);
                    },
                    _ => {},
                }
            }
            i += 1;
        }
        assert(defs.subrange(i as int, defs.len() as int) =~= Seq::<ColumnDefinitionView>::empty());
        assert(column_views(columns@) + seq![] =~= column_views(columns@));
        let rows: Vec<Vec<Value>> = Vec::new();
        let table = Table::new(columns, rows);
        assert(row_views(rows@) =~= Seq::<Seq<ValueView>>::empty());
        self.tables.insert(table_name, table);
        assert(self@ =~= old(self)@.insert(stmt@.name.value, table@));
        Ok(ExecutionResult::Done)
    }
}

/// `columns` put in front of the columns of `rest`.
pub open spec fn after_columns(
    columns: Seq<ColumnView>,
    rest: Result<Seq<ColumnView>, ExecutionErrorView>,
) -> Result<Seq<ColumnView>, ExecutionErrorView> {
    match rest {
        Ok(cs) => Ok(columns + cs),
        Err(e) => Err(e),
    }
}

/// CREATE TABLE on a name that is free adds a table of that name, with one
/// column for each definition, in order, and no rows, and leaves every other
/// table as it was.
pub proof fn law_create_table_adds_table(tables: Map<Seq<char>, TableView>, stmt: CreateTableView)
    requires
        create_table_in(tables, stmt) is Ok,
    ensures
        ({
            let after = create_table_in(tables, stmt)->Ok_0;
            &&& !tables.contains_key(stmt.name.value)
            &&& after.contains_key(stmt.name.value)
            &&& after[stmt.name.value].rows.len() == 0
            &&& after[stmt.name.value].columns.len() == stmt.cols.len()
            &&& forall|i: int| 0 <= i < stmt.cols.len() ==> {
                let column = #[trigger] after[stmt.name.value].columns[i];
                &&& column.name == stmt.cols[i].name.value
                &&& Some(column.datatype) == datatype_named(stmt.cols[i].datatype.value)
            }
            &&& forall|name: Seq<char>| name != stmt.name.value ==> (#[trigger] after.contains_key(name)
                <==> tables.contains_key(name)) && (tables.contains_key(name) ==> after[name] == tables[name])
        }),
{
    lemma_table_columns_of(stmt.cols);
}

/// CREATE TABLE on a name that is taken is refused with "table '<name>' already
/// exists", and the tables stay as they were.
pub proof fn law_create_existing_table_refused(tables: Map<Seq<char>, TableView>, stmt: CreateTableView)
    requires
        tables.contains_key(stmt.name.value),
    ensures
        create_table_in(tables, stmt) == Err::<Map<Seq<char>, TableView>, ExecutionErrorView>(table_exists(stmt.name)),
{
}

/// The same CREATE TABLE, run a second time after it succeeded, is refused.
pub proof fn law_create_table_twice_refused(tables: Map<Seq<char>, TableView>, stmt: CreateTableView)
    requires
        create_table_in(tables, stmt) is Ok,
    ensures
        create_table_in(create_table_in(tables, stmt)->Ok_0, stmt)
            == Err::<Map<Seq<char>, TableView>, ExecutionErrorView>(table_exists(stmt.name)),
{
}

/// CREATE TABLE is refused for an unknown type exactly when some definition
/// names a type other than INT or TEXT (in any case), and then the error is
/// about the first such definition.
pub proof fn law_unknown_datatype_refused(defs: Seq<ColumnDefinitionView>)
    ensures
        table_columns_of(defs) is Err <==> exists|i: int| 0 <= i < defs.len()
            && datatype_named(#[trigger] defs[i].datatype.value) is None,
        table_columns_of(defs) is Err ==> exists|i: int| 0 <= i < defs.len()
            && datatype_named(#[trigger] defs[i].datatype.value) is None
            && (forall|j: int| 0 <= j < i ==> datatype_named(defs[j].datatype.value) is Some)
            && table_columns_of(defs)->Err_0 == unknown_datatype(defs[i].datatype),
    decreases defs.len(),
{
    if defs.len() > 0 {
        law_unknown_datatype_refused(defs.drop_first());
        if datatype_named(defs[0].datatype.value) is Some {
            if table_columns_of(defs) is Err {
                let k = choose|k: int| 0 <= k < defs.drop_first().len()
                    && datatype_named(#[trigger] defs.drop_first()[k].datatype.value) is None
                    && (forall|j: int| 0 <= j < k ==> datatype_named(defs.drop_first()[j].datatype.value) is Some)
                    && table_columns_of(defs.drop_first())->Err_0 == unknown_datatype(defs.drop_first()[k].datatype);
                assert(defs[k + 1] == defs.drop_first()[k]);
                assert forall|j: int| 0 <= j < k + 1 implies datatype_named(defs[j].datatype.value) is Some by {
                    if j > 0 {
                        assert(defs[j] == defs.drop_first()[j - 1]);
                    }
                }
            } else {
                assert forall|i: int| 0 <= i < defs.len() implies datatype_named(
                    #[trigger] defs[i].datatype.value,
                ) is Some by {
                    if i > 0 {
                        assert(defs[i] == defs.drop_first()[i - 1]);
                    }
                }
            }
        }
    }
}

/// The columns that definitions describe, one for each, in order.
proof fn lemma_table_columns_of(defs: Seq<ColumnDefinitionView>)
    ensures
        table_columns_of(defs) matches Ok(columns) ==> {
            &&& columns.len() == defs.len()
            &&& forall|i: int| 0 <= i < defs.len() ==> {
                let column = #[trigger] columns[i];
                &&& column.name == defs[i].name.value
                &&& Some(column.datatype) == datatype_named(defs[i].datatype.value)
            }
        },
    decreases defs.len(),
{
    if defs.len() > 0 {
        lemma_table_columns_of(defs.drop_first());
        if let Ok(columns) = table_columns_of(defs) {
            let rest = table_columns_of(defs.drop_first())->Ok_0;
            assert forall|i: int| 0 <= i < defs.len() implies {
                let column = #[trigger] columns[i];
                &&& column.name == defs[i].name.value
                &&& Some(column.datatype) == datatype_named(defs[i].datatype.value)
            } by {
                if i > 0 {
                    assert(columns[i] == rest[i - 1]);
                    assert(defs[i] == defs.drop_first()[i - 1]);
                }
            }
        }
    }
}

/// CREATE TABLE succeeds exactly when its name is not taken and every column's
/// type, upper-cased, is INT or TEXT, however many tables there already are.
pub proof fn law_create_table_succeeds_on_free_name_and_known_types(
    tables: Map<Seq<char>, TableView>,
    stmt: CreateTableView,
)
    ensures
        create_table_in(tables, stmt) is Ok <==> {
            &&& !tables.contains_key(stmt.name.value)
            &&& forall|i: int| 0 <= i < stmt.cols.len() ==> {
                let upper = upper_case(#[trigger] stmt.cols[i].datatype.value);
                upper == "INT"@ || upper == "TEXT"@
            }
        },
{
    law_unknown_datatype_refused(stmt.cols);
    if !tables.contains_key(stmt.name.value) {
        if table_columns_of(stmt.cols) is Err {
            let i = choose|i: int| 0 <= i < stmt.cols.len()
                && datatype_named(#[trigger] stmt.cols[i].datatype.value) is None;
            assert(datatype_named(stmt.cols[i].datatype.value) is None);
        } else {
            assert forall|i: int| 0 <= i < stmt.cols.len() implies {
                let upper = upper_case(#[trigger] stmt.cols[i].datatype.value);
                upper == "INT"@ || upper == "TEXT"@
            } by {
                assert(datatype_named(stmt.cols[i].datatype.value) is Some);
            }
        }
    }
}

} // verus!
