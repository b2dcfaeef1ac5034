//! Running a line of statements against a database.
use vstd::prelude::*;

use crate::ast::{statement_views, Statement, StatementView};
use crate::backend::{create_table_in, Database, ExecutionResult, TableView};
use crate::error::{Error, ErrorView};
use crate::lexer::{lex_source, LexAttempt, LexOutcome, Lexer};
use crate::parser::{statements_from, Parsed, Parser};
use crate::text::byte_len;

verus! {

/// How a run ends.
#[derive(Debug)]
pub enum RunStatus {
    /// Every statement ran.
    Completed,
    /// The run stopped with this error.
    Stopped(Error),
    /// The run reached a statement that the database does not run (INSERT or SELECT).
    Unsupported,
    /// Lexing would never end: the source ends a number in a period or an exponent marker.
    LexerEndless,
    /// Lexing could not place a token: computing its location would overflow.
    LexerUnplaceable,
}

pub enum RunStatusView {
    Completed,
    Stopped(ErrorView),
    Unsupported,
    LexerEndless,
    LexerUnplaceable,
}

impl View for RunStatus {
    type V = RunStatusView;

    open spec fn view(&self) -> RunStatusView {
        match self {
            RunStatus::Completed => RunStatusView::Completed,
            RunStatus::Stopped(e) => RunStatusView::Stopped(e@),
            RunStatus::Unsupported => RunStatusView::Unsupported,
            RunStatus::LexerEndless => RunStatusView::LexerEndless,
            RunStatus::LexerUnplaceable => RunStatusView::LexerUnplaceable,
        }
    }
}

/// How a run ends: how many statements ran, how it ended, and the tables afterwards.
pub struct RunEnd {
    pub ran: nat,
    pub status: RunStatusView,
    pub tables: Map<Seq<char>, TableView>,
}

/// Running `stmts` in order until one fails or cannot be run.
pub open spec fn execute_all(tables: Map<Seq<char>, TableView>, stmts: Seq<StatementView>) -> RunEnd
    decreases stmts.len(),
{
    if stmts.len() == 0 {
        RunEnd { ran: 0, status: RunStatusView::Completed, tables }
    } else {
        match stmts[0] {
            StatementView::CreateTable(create) => match create_table_in(tables, create) {
                Ok(next) => {
                    let end = execute_all(next, stmts.drop_first());
                    RunEnd { ran: end.ran + 1, status: end.status, tables: end.tables }
                },
                Err(e) => RunEnd {
                    ran: 0,
                    status: RunStatusView::Stopped(ErrorView::Execution(e)),
                    tables,
                },
            },
            _ => RunEnd { ran: 0, status: RunStatusView::Unsupported, tables },
        }
    }
}

/// Running the source `src` against `tables`: lex it, parse it, run its statements.
pub open spec fn run_source(src: Seq<char>, tables: Map<Seq<char>, TableView>) -> RunEnd {
    match lex_source(src) {
        LexOutcome::Endless => RunEnd { ran: 0, status: RunStatusView::LexerEndless, tables },
        LexOutcome::Unplaceable => RunEnd { ran: 0, status: RunStatusView::LexerUnplaceable, tables },
        LexOutcome::Failed(e, _) => RunEnd {
            ran: 0,
            status: RunStatusView::Stopped(ErrorView::Lex(e)),
            tables,
        },
        LexOutcome::Lexed(tokens, _) => match statements_from(tokens, 0) {
            Parsed::Failed(e, _) => RunEnd {
                ran: 0,
                status: RunStatusView::Stopped(ErrorView::Parse(e)),
                tables,
            },
            Parsed::Done(stmts, _) => execute_all(tables, stmts),
        },
    }
}

/// A run that ends as `end` after `n` statements already ran.
pub open spec fn ran_before(n: nat, end: RunEnd) -> RunEnd {
    RunEnd { ran: end.ran + n, status: end.status, tables: end.tables }
}

/// Lexes, parses and runs `src` against `database`.  Returns the results of the
/// statements that ran, in order, and how the run ended.
#[verifier::loop_isolation(false)]
pub fn run(src: &str, database: &mut Database) -> (r: (Vec<ExecutionResult>, RunStatus))
    requires
        byte_len(src@) < usize::MAX,
    ensures
        ({
            let end = run_source(src@, old(database)@);
            &&& r.0@.len() == end.ran
            &&& forall|i: int| 0 <= i < r.0@.len() ==> r.0@[i] is Done
            &&& r.1@ == end.status
            &&& final(database)@ == end.tables
        }),
{
    let mut lexer = Lexer::new(src);
    let tokens = match lexer.try_lex() {
        LexAttempt::Finished(Ok(tokens)) => tokens,
        LexAttempt::Finished(Err(error)) => return (Vec::new(), RunStatus::Stopped(Error::Lex(error))),
        LexAttempt::Endless => return (Vec::new(), RunStatus::LexerEndless),
        LexAttempt::Unplaceable => return (Vec::new(), RunStatus::LexerUnplaceable),
    };
    let mut parser = Parser::new(tokens);
    let ast = match parser.parse() {
        Ok(ast) => ast,
        Err(error) => return (Vec::new(), RunStatus::Stopped(Error::Parse(error))),
    };
    let ghost stmts = statement_views(ast@);
    let ghost t0 = database@;
    let mut results: Vec<ExecutionResult> = Vec::new();
    assert(stmts.subrange(0, stmts.len() as int) =~= stmts);
    for stmt in it: ast
        invariant
            stmts == statement_views(it.seq()),
            results@.len() == it.index(),
            forall|i: int| 0 <= i < results@.len() ==> results@[i] is Done,
            execute_all(t0, stmts) == ran_before(
                results@.len(),
                execute_all(database@, stmts.subrange(it.index() as int, stmts.len() as int)),
            ),
    {
        let ghost rest = stmts.subrange(it.index() as int, stmts.len() as int);
        assert(rest[0] == stmt@);
        assert(rest.drop_first() =~= stmts.subrange(it.index() + 1, stmts.len() as int));
        let runnable = match &stmt {
            Statement::CreateTable(_) => true,
            _ => false,
        };
        if !runnable {
            return (results, RunStatus::Unsupported);
        }
        match database.execute(stmt) {
            Ok(result) => results.push(result),
            Err(error) => return (results, RunStatus::Stopped(Error::Execution(error))),
        }
    }
    assert(stmts.subrange(stmts.len() as int, stmts.len() as int) =~= Seq::<StatementView>::empty());
    (results, RunStatus::Completed)
}

/// Statements run in order, each at most once: a run of `stmts` runs no more of
/// them than there are, runs all of them exactly when it completes, and leaves
/// the tables as they were when it stops at the first statement.
pub proof fn law_statements_run_in_order(tables: Map<Seq<char>, TableView>, stmts: Seq<StatementView>)
    ensures
        execute_all(tables, stmts).ran <= stmts.len(),
        execute_all(tables, stmts).status is Completed <==> execute_all(tables, stmts).ran == stmts.len(),
        execute_all(tables, stmts).status is Completed || execute_all(tables, stmts).status is Unsupported
            || execute_all(tables, stmts).status matches RunStatusView::Stopped(ErrorView::Execution(_)),
        execute_all(tables, stmts).ran == 0 ==> execute_all(tables, stmts).tables == tables,
    decreases stmts.len(),
{
    if stmts.len() > 0 {
        if let StatementView::CreateTable(create) = stmts[0] {
            if let Ok(next) = create_table_in(tables, create) {
                law_statements_run_in_order(next, stmts.drop_first());
            }
        }
    }
}

/// A line that does not lex or parse runs no statement and changes no table.
pub proof fn law_rejected_input_changes_nothing(src: Seq<char>, tables: Map<Seq<char>, TableView>)
    requires
        lex_source(src) !is Lexed || statements_from(lex_source(src)->Lexed_0, 0) is Failed,
    ensures
        run_source(src, tables).ran == 0,
        run_source(src, tables).tables == tables,
{
}

/// The name of the table that the CREATE TABLE statement `stmt` creates.
pub open spec fn created_name(stmt: StatementView) -> Seq<char> {
    stmt->CreateTable_0.name.value
}

/// A run that completes ran only CREATE TABLE statements, each on a name that
/// was free before the run and differs from every other statement's; afterwards
/// every one of those tables exists, and every table that existed before is
/// still there, unchanged.
pub proof fn law_completed_run_creates_every_table(tables: Map<Seq<char>, TableView>, stmts: Seq<StatementView>)
    ensures
        execute_all(tables, stmts).status is Completed ==> {
            let after = execute_all(tables, stmts).tables;
            &&& forall|i: int| 0 <= i < stmts.len() ==> {
                &&& (#[trigger] stmts[i]) is CreateTable
                &&& !tables.contains_key(created_name(stmts[i]))
                &&& after.contains_key(created_name(stmts[i]))
            }
            &&& forall|i: int, j: int| 0 <= i < j < stmts.len() ==> created_name(#[trigger] stmts[i])
                != created_name(#[trigger] stmts[j])
            &&& forall|n: Seq<char>| #[trigger] tables.contains_key(n) ==> after.contains_key(n) && after[n]
                == tables[n]
        },
    decreases stmts.len(),
{
    if stmts.len() > 0 {
        if let StatementView::CreateTable(create) = stmts[0] {
            if let Ok(next) = create_table_in(tables, create) {
                let rest = stmts.drop_first();
                law_completed_run_creates_every_table(next, rest);
                if execute_all(tables, stmts).status is Completed {
                    let after = execute_all(tables, stmts).tables;
                    assert(after == execute_all(next, rest).tables);
                    assert(next.contains_key(create.name.value));
                    assert forall|i: int| 0 <= i < stmts.len() implies {
                        &&& (#[trigger] stmts[i]) is CreateTable
                        &&& !tables.contains_key(created_name(stmts[i]))
                        &&& after.contains_key(created_name(stmts[i]))
                    } by {
                        if i > 0 {
                            assert(stmts[i] == rest[i - 1]);
                        }
                    }
                    assert forall|i: int, j: int| 0 <= i < j < stmts.len() implies created_name(
                        #[trigger] stmts[i],
                    ) != created_name(#[trigger] stmts[j]) by {
                        assert(stmts[j] == rest[j - 1]);
                        if i > 0 {
                            assert(stmts[i] == rest[i - 1]);
                        }
                    }
                    assert forall|n: Seq<char>| #[trigger] tables.contains_key(n) implies after.contains_key(n)
                        && after[n] == tables[n] by {
                        assert(next.contains_key(n));
                    }
                }
            }
        }
    }
}

} // verus!
