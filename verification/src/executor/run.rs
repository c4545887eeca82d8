//! The executor: statements carried out on the tables, each change logged ahead.

use vstd::prelude::*;

use super::plan::altered;
use super::plan::change_views;
use super::plan::plan_statement;
use super::plan::planned;
use super::plan::records;
use super::plan::Alteration;
use super::plan::Change;
use super::plan::Conclusion;
use super::plan::Course;
use super::plan::Outcome;
use super::select::Answer;
use crate::number::push_u64;
use crate::number::show_nat;
use crate::persistence::wal::Log;
use crate::persistence::wal::WalLog;
use crate::sql::statement::statement_views;
use crate::sql::statement::text_rows;
use crate::sql::statement::SQLStatement;
use crate::sql::statement::Statement;
use crate::storage::engine::Database;
use crate::storage::engine::StorageEngine;
use crate::text::chars_of;
use crate::text::push_str;
use crate::text::string_of;
use crate::text::string_texts;

verus! {

// ---------------------------------------------------------------------------
// What statements return
// ---------------------------------------------------------------------------

/// What a statement returns.
#[verifier::ext_equal]
pub enum Reply {
    TableCreated(Seq<char>),
    TableDropped(Seq<char>),
    Inserted(u64),
    Deleted(usize),
    Updated(usize),
    SelectResult(Answer),
    Message(Seq<char>),
}

/// What a statement returns.
#[derive(Debug)]
pub enum ExecuteResult {
    TableCreated { name: String },
    TableDropped { name: String },
    Inserted { row_id: u64 },
    Deleted { count: usize },
    Updated { count: usize },
    SelectResult { columns: Vec<String>, rows: Vec<Vec<String>> },
    Message(String),
}

impl View for ExecuteResult {
    type V = Reply;

    open spec fn view(&self) -> Reply {
        match self {
            ExecuteResult::TableCreated { name } => Reply::TableCreated(name@),
            ExecuteResult::TableDropped { name } => Reply::TableDropped(name@),
            ExecuteResult::Inserted { row_id } => Reply::Inserted(*row_id),
            ExecuteResult::Deleted { count } => Reply::Deleted(*count),
            ExecuteResult::Updated { count } => Reply::Updated(*count),
            ExecuteResult::SelectResult { columns, rows } => Reply::SelectResult(
                Answer { columns: string_texts(columns@), rows: text_rows(rows@) },
            ),
            ExecuteResult::Message(m) => Reply::Message(m@),
        }
    }
}

/// What statements return.
pub open spec fn reply_views(v: Seq<ExecuteResult>) -> Seq<Reply> {
    v.map_values(|r: ExecuteResult| r@)
}

/// What a statement returns or its error, by its view.
pub open spec fn reply_result(r: Result<ExecuteResult, String>) -> Result<Reply, Seq<char>> {
    match r {
        Ok(x) => Ok(x@),
        Err(e) => Err(e@),
    }
}

/// What a script returns or its error, by its view.
pub open spec fn replies_result(r: Result<Vec<ExecuteResult>, String>) -> Result<
    Seq<Reply>,
    Seq<char>,
> {
    match r {
        Ok(v) => Ok(reply_views(v@)),
        Err(e) => Err(e@),
    }
}

/// The sum of numbers.
pub open spec fn sum(n: Seq<u64>) -> nat
    decreases n.len(),
{
    if n.len() == 0 {
        0
    } else {
        sum(n.drop_last()) + n.last() as nat
    }
}

/// The sum of numbers divided by their number.
pub open spec fn share(n: Seq<u64>) -> nat {
    sum(n) / (if n.len() == 0 {
        1
    } else {
        n.len()
    })
}

/// What is told of a statement whose changes returned the numbers `n`.
pub open spec fn concluded(c: Conclusion, n: Seq<u64>) -> Result<Reply, Seq<char>> {
    match c {
        Conclusion::Fails(e) => Err(e),
        Conclusion::Created(t) => Ok(Reply::TableCreated(t)),
        Conclusion::Dropped(t) => Ok(Reply::TableDropped(t)),
        Conclusion::Inserted => if n.len() == 1 {
            Ok(Reply::Inserted(n[0]))
        } else {
            Ok(Reply::Message("插入 "@ + show_nat(n.len()) + " 行数据"@))
        },
        Conclusion::Deleted => Ok(Reply::Deleted(sum(n) as usize)),
        Conclusion::Updated => Ok(Reply::Updated(share(n) as usize)),
        Conclusion::Selected(a) => Ok(Reply::SelectResult(a)),
    }
}

fn add_up(n: &Vec<u64>) -> (r: u128)
    ensures
        r == sum(n@),
{
    let mut r: u128 = 0;
    let mut i: usize = 0;
    assert(n@.take(0) =~= Seq::empty());
    while i < n.len()
        invariant
            i <= n@.len(),
            r == sum(n@.take(i as int)),
            r <= i * u64::MAX,
        decreases n@.len() - i,
    {
        proof {
            assert(n@.take(i + 1).drop_last() =~= n@.take(i as int));
            assert(i * u64::MAX + u64::MAX == (i + 1) * u64::MAX) by (nonlinear_arith);
            assert((i + 1) * u64::MAX <= u64::MAX * u64::MAX) by (nonlinear_arith)
                requires
                    i + 1 <= u64::MAX,
            ;
        }
        r += n[i] as u128;
        i += 1;
    }
    assert(n@.take(n@.len() as int) =~= n@);
    r
}

impl Outcome {
    /// What is told of a statement whose changes returned the numbers `n`.
    pub fn conclude(self, n: &Vec<u64>) -> (r: Result<ExecuteResult, String>)
        ensures
            reply_result(r) == concluded(self@, n@),
    {
        match self {
            Outcome::Fails(e) => Err(e),
            Outcome::Created(name) => Ok(ExecuteResult::TableCreated { name }),
            Outcome::Dropped(name) => Ok(ExecuteResult::TableDropped { name }),
            Outcome::Inserted => if n.len() == 1 {
                Ok(ExecuteResult::Inserted { row_id: n[0] })
            } else {
                let mut out = chars_of("插入 ");
                push_u64(&mut out, n.len() as u64);
                push_str(&mut out, " 行数据");
                Ok(ExecuteResult::Message(string_of(&out)))
            },
            Outcome::Deleted => {
                let total: u128 = add_up(n);
                Ok(ExecuteResult::Deleted { count: total as usize })
            },
            Outcome::Updated => {
                let total: u128 = add_up(n);
                let k: u128 = if n.len() == 0 {
                    1
                } else {
                    n.len() as u128
                };
                Ok(ExecuteResult::Updated { count: (total / k) as usize })
            },
            Outcome::Selected(a) => Ok(
                ExecuteResult::SelectResult { columns: a.columns, rows: a.rows },
            ),
        }
    }
}

// ---------------------------------------------------------------------------
// The executor
// ---------------------------------------------------------------------------

/// What an executor holds: the tables and, where changes are logged, the log.
#[verifier::ext_equal]
pub struct Machine {
    pub db: Database,
    pub log: Option<Log>,
}

impl Machine {
    /// Records more in the log, where there is one.
    pub open spec fn logged(self, entries: Seq<Seq<char>>) -> Machine {
        Machine {
            log: match self.log {
                Some(l) => Some(l.appended_all(entries)),
                None => None,
            },
            ..self
        }
    }

    /// The machine after a change: its records are logged, then the change is made. A
    /// change that cannot be made leaves the tables as they were.
    pub open spec fn stepped(self, a: Alteration) -> Machine {
        let m = self.logged(records(a, self.db.next_id));
        match altered(self.db, a) {
            Ok((db, _)) => Machine { db, ..m },
            Err(_) => m,
        }
    }

    /// The machine after the first `n` changes and the numbers that they returned, or
    /// the error of the first that cannot be made.
    pub open spec fn ran(self, a: Seq<Alteration>, n: int) -> (Machine, Result<
        Seq<u64>,
        Seq<char>,
    >)
        decreases n,
    {
        if n <= 0 {
            (self, Ok(Seq::empty()))
        } else {
            match self.ran(a, n - 1) {
                (m, Err(e)) => (m, Err(e)),
                (m, Ok(numbers)) => (
                    m.stepped(a[n - 1]),
                    match altered(m.db, a[n - 1]) {
                        Ok((_, k)) => Ok(numbers.push(k as u64)),
                        Err(e) => Err(e),
                    },
                ),
            }
        }
    }

    /// The machine after a course, and what is told.
    pub open spec fn followed(self, c: Course) -> (Machine, Result<Reply, Seq<char>>) {
        match self.ran(c.changes, c.changes.len() as int) {
            (m, Err(e)) => (m, Err(e)),
            (m, Ok(numbers)) => (m, concluded(c.conclusion, numbers)),
        }
    }

    /// The machine after a statement, and what it returns.
    pub open spec fn executed(self, s: Statement) -> (Machine, Result<Reply, Seq<char>>) {
        self.followed(planned(self.db, s))
    }

    /// The machine after the first `n` statements and what they return, or the error of
    /// the first that fails. What the statements before it have done stays done.
    pub open spec fn executed_all(self, s: Seq<Statement>, n: int) -> (Machine, Result<
        Seq<Reply>,
        Seq<char>,
    >)
        decreases n,
    {
        if n <= 0 {
            (self, Ok(Seq::empty()))
        } else {
            match self.executed_all(s, n - 1) {
                (m, Err(e)) => (m, Err(e)),
                (m, Ok(replies)) => {
                    let (next, reply) = m.executed(s[n - 1]);
                    (
                        next,
                        match reply {
                            Ok(r) => Ok(replies.push(r)),
                            Err(e) => Err(e),
                        },
                    )
                },
            }
        }
    }
}

/// What an optional log holds.
pub open spec fn opt_log(w: Option<WalLog>) -> Option<Log> {
    match w {
        Some(l) => Some(l@),
        None => None,
    }
}

/// Carries out statements on the tables.
pub struct Executor {
    pub engine: StorageEngine,
    /// The write-ahead log; without one, changes are not logged.
    pub wal: Option<WalLog>,
}

impl View for Executor {
    type V = Machine;

    open spec fn view(&self) -> Machine {
        Machine { db: self.engine@, log: opt_log(self.wal) }
    }
}

proof fn lemma_ran_error(m: Machine, a: Seq<Alteration>, k: int, n: int)
    requires
        0 <= k <= n,
        m.ran(a, k).1 is Err,
    ensures
        m.ran(a, n) == m.ran(a, k),
    decreases n - k,
{
    if k < n {
        lemma_ran_error(m, a, k, n - 1);
    }
}

proof fn lemma_executed_error(m: Machine, s: Seq<Statement>, k: int, n: int)
    requires
        0 <= k <= n,
        m.executed_all(s, k).1 is Err,
    ensures
        m.executed_all(s, n) == m.executed_all(s, k),
    decreases n - k,
{
    if k < n {
        lemma_executed_error(m, s, k, n - 1);
    }
}

impl Executor {
    pub open spec fn wf(&self) -> bool {
        self.engine.wf()
    }

    /// An executor without tables that logs nothing.
    pub fn new() -> (r: Executor)
        ensures
            r@ == (Machine { db: Database::empty(), log: None }),
            r.wf(),
    {
        Executor { engine: StorageEngine::new(), wal: None }
    }

    /// Logs records, where there is a log.
    fn append_wal(&mut self, entries: &Vec<String>)
        ensures
            final(self)@ == old(self)@.logged(string_texts(entries@)),
            final(self).engine == old(self).engine,
    {
        let ghost t = string_texts(entries@);
        match &mut self.wal {
            Some(wal) => {
                append_all(wal, entries);
            },
            None => {},
        }
    }

    /// Logs a change and makes it.
    fn step(&mut self, change: Change) -> (r: Result<u64, String>)
        requires
            old(self).wf(),
        ensures
            final(self).wf(),
            final(self)@ == old(self)@.stepped(change@),
            match altered(old(self)@.db, change@) {
                Ok((_, n)) => r is Ok && r->Ok_0 == n,
                Err(e) => r is Err && r->Err_0@ == e,
            },
    {
        let entries = change.records(self.engine.next_id());
        self.append_wal(&entries);
        change.apply(&mut self.engine)
    }

    /// Carries out a statement.
    pub fn execute_statement(&mut self, stmt: SQLStatement) -> (r: Result<ExecuteResult, String>)
        requires
            old(self).wf(),
        ensures
            final(self).wf(),
            (final(self)@, reply_result(r)) == old(self)@.executed(stmt@),
    {
        let plan = plan_statement(&self.engine, stmt);
        let ghost start = self@;
        let ghost course = plan@;
        let ghost all = change_views(plan.changes@);
        let outcome = plan.outcome;
        let mut rest = reversed(plan.changes);
        let mut numbers: Vec<u64> = Vec::new();
        let ghost n = all.len();
        let ghost mut i: int = 0;
        while rest.len() > 0
            invariant
                0 <= i <= n,
                n == all.len(),
                i + rest@.len() == n,
                forall|j: int| i <= j < n ==> rest@[n - 1 - j]@ == #[trigger] all[j],
                self.wf(),
                start.ran(all, i) == (self@, Ok::<Seq<u64>, Seq<char>>(numbers@)),
                all == course.changes,
                outcome@ == course.conclusion,
                course == planned(start.db, stmt@),
                start == old(self)@,
            decreases rest@.len(),
        {
            let ghost before = rest@;
            let change = rest.pop().unwrap();
            proof {
                assert(change@ == before[n - 1 - i]@);
                assert(change@ == all[i]);
            }
            match self.step(change) {
                Ok(k) => {
                    numbers.push(k);
                },
                Err(e) => {
                    proof {
                        assert(start.ran(all, i + 1).1 is Err);
                        lemma_ran_error(start, all, i + 1, n as int);
                    }
                    return Err(e);
                },
            }
            proof {
                i = i + 1;
            }
        }
        outcome.conclude(&numbers)
    }

    /// Carries out statements, up to the first that fails.
    pub fn execute(&mut self, stmts: Vec<SQLStatement>) -> (r: Result<Vec<ExecuteResult>, String>)
        requires
            old(self).wf(),
        ensures
            final(self).wf(),
            (final(self)@, replies_result(r)) == old(self)@.executed_all(
                statement_views(stmts@),
                stmts@.len() as int,
            ),
    {
        let ghost start = self@;
        let ghost all = statement_views(stmts@);
        let ghost n = all.len();
        let ghost mut i: int = 0;
        let mut rest = reversed(stmts);
        let mut results: Vec<ExecuteResult> = Vec::new();
        proof {
            assert(reply_views(results@) =~= Seq::empty());
        }
        while rest.len() > 0
            invariant
                0 <= i <= n,
                n == all.len(),
                i + rest@.len() == n,
                forall|j: int| i <= j < n ==> rest@[n - 1 - j]@ == #[trigger] all[j],
                self.wf(),
                start == old(self)@,
                all == statement_views(stmts@),
                start.executed_all(all, i) == (self@, Ok::<Seq<Reply>, Seq<char>>(
                    reply_views(results@),
                )),
            decreases rest@.len(),
        {
            let ghost before = rest@;
            let stmt = rest.pop().unwrap();
            proof {
                assert(stmt@ == before[n - 1 - i]@);
                assert(stmt@ == all[i]);
            }
            match self.execute_statement(stmt) {
                Ok(x) => {
                    let ghost was = results@;
                    results.push(x);
                    assert(reply_views(results@) =~= reply_views(was).push(x@));
                },
                Err(e) => {
                    proof {
                        assert(start.executed_all(all, i + 1).1 is Err);
                        lemma_executed_error(start, all, i + 1, n as int);
                    }
                    return Err(e);
                },
            }
            proof {
                i = i + 1;
            }
        }
        Ok(results)
    }
}

/// The items in the opposite order.
fn reversed<T>(v: Vec<T>) -> (r: Vec<T>)
    ensures
        r@.len() == v@.len(),
        forall|j: int| 0 <= j < v@.len() ==> r@[v@.len() - 1 - j] == #[trigger] v@[j],
{
    let ghost all = v@;
    let mut rest = v;
    let mut r: Vec<T> = Vec::new();
    while rest.len() > 0
        invariant
            rest@.len() + r@.len() == all.len(),
            rest@ == all.take(rest@.len() as int),
            forall|j: int| 0 <= j < r@.len() ==> r@[j] == all[all.len() - 1 - j],
        decreases rest@.len(),
    {
        match rest.pop() {
            Some(x) => {
                r.push(x);
            },
            None => {},
        }
    }
    r
}

fn append_all(wal: &mut WalLog, entries: &Vec<String>)
    ensures
        final(wal)@ == old(wal)@.appended_all(string_texts(entries@)),
{
    let ghost t = string_texts(entries@);
    let ghost start = wal@;
    let mut i: usize = 0;
    assert(t.take(0) =~= Seq::empty());
    while i < entries.len()
        invariant
            i <= entries@.len(),
            t == string_texts(entries@),
            wal@ == start.appended_all(t.take(i as int)),
        decreases entries@.len() - i,
    {
        proof {
            assert(t.take(i + 1).drop_last() =~= t.take(i as int));
            assert(t.take(i + 1).last() == entries@[i as int]@);
        }
        wal.append(entries[i].as_str());
        i += 1;
    }
    assert(t.take(entries@.len() as int) =~= t);
}

} // verus!
