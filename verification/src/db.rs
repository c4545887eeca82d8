//! The database: SQL text in, result text out.

use vstd::prelude::*;

use crate::executor::run::reply_views;
use crate::executor::run::ExecuteResult;
use crate::executor::run::Executor;
use crate::executor::run::Machine;
use crate::executor::run::Reply;
use crate::number::push_u64;
use crate::number::show_nat;
use crate::persistence::load::load;
use crate::persistence::load::loaded;
use crate::persistence::load::recover;
use crate::persistence::load::recovered;
use crate::persistence::wal::refusal_views;
use crate::persistence::wal::refusals;
use crate::persistence::wal::replayed_count;
use crate::persistence::wal::Log;
use crate::persistence::wal::Replay;
use crate::persistence::wal::WalLog;
use crate::sql::parse_sql;
use crate::sql::parser::script_of;
use crate::sql::statement::opt_text;
use crate::sql::statement::text_rows;
use crate::storage::engine::Database;
use crate::storage::engine::StorageEngine;
use crate::storage::snapshot::exported;
use crate::text::chars_of;
use crate::text::join;
use crate::text::joined;
use crate::text::lines;
use crate::text::push_str;
use crate::text::string_of;
use crate::text::string_texts;
use crate::text::texts;

verus! {

// ---------------------------------------------------------------------------
// The text of results
// ---------------------------------------------------------------------------

/// The cells of a row, side by side.
pub open spec fn row_text(cells: Seq<Seq<char>>) -> Seq<char> {
    join(cells, " | "@)
}

/// The lines that show what a statement returns.
pub open spec fn reply_lines(r: Reply) -> Seq<Seq<char>> {
    match r {
        Reply::TableCreated(t) => seq!["表 '"@ + t + "' 创建成功"@],
        Reply::TableDropped(t) => seq!["表 '"@ + t + "' 已删除"@],
        Reply::Inserted(id) => seq!["插入成功，行ID: "@ + show_nat(id as nat)],
        Reply::Deleted(n) => seq!["删除成功，共 "@ + show_nat(n as nat) + " 行"@],
        Reply::Updated(n) => seq!["更新成功，共 "@ + show_nat(n as nat) + " 行"@],
        Reply::SelectResult(a) => seq![
            "查询结果 ("@ + show_nat(a.rows.len()) + " 行):"@,
            row_text(a.columns),
            row_text(a.columns.map_values(|c: Seq<char>| "---"@)),
        ] + a.rows.map_values(|r: Seq<Seq<char>>| row_text(r)),
        Reply::Message(m) => seq![m],
    }
}

/// The lines that show what statements return.
pub open spec fn replies_lines(r: Seq<Reply>) -> Seq<Seq<char>>
    decreases r.len(),
{
    if r.len() == 0 {
        Seq::empty()
    } else {
        replies_lines(r.drop_last()) + reply_lines(r.last())
    }
}

/// The text that shows what statements return.
pub open spec fn replies_text(r: Seq<Reply>) -> Seq<char> {
    join(replies_lines(r), "\n"@)
}

fn push_line(out: &mut Vec<Vec<char>>, line: Vec<char>)
    ensures
        texts(final(out)@) == texts(old(out)@).push(line@),
{
    let ghost before = out@;
    out.push(line);
    assert(texts(out@) =~= texts(before).push(line@));
}

fn cells_of(row: &Vec<String>) -> (r: Vec<char>)
    ensures
        r@ == row_text(string_texts(row@)),
{
    let mut cells: Vec<Vec<char>> = Vec::new();
    let mut i: usize = 0;
    assert(texts(cells@) =~= string_texts(row@).take(0));
    while i < row.len()
        invariant
            i <= row@.len(),
            texts(cells@) == string_texts(row@).take(i as int),
        decreases row@.len() - i,
    {
        push_line(&mut cells, chars_of(row[i].as_str()));
        assert(string_texts(row@).take(i + 1) =~= string_texts(row@).take(i as int).push(
            row@[i as int]@,
        ));
        i += 1;
    }
    assert(string_texts(row@).take(row@.len() as int) =~= string_texts(row@));
    joined(&cells, " | ")
}

fn dashes(n: usize) -> (r: Vec<char>)
    ensures
        r@ == row_text(Seq::new(n as nat, |i: int| "---"@)),
{
    let mut cells: Vec<Vec<char>> = Vec::new();
    let mut i: usize = 0;
    assert(texts(cells@) =~= Seq::new(0, |i: int| "---"@));
    while i < n
        invariant
            i <= n,
            texts(cells@) == Seq::new(i as nat, |i: int| "---"@),
        decreases n - i,
    {
        push_line(&mut cells, chars_of("---"));
        assert(Seq::new((i + 1) as nat, |i: int| "---"@) =~= Seq::new(
            i as nat,
            |i: int| "---"@,
        ).push("---"@));
        i += 1;
    }
    joined(&cells, " | ")
}

fn push_answer(out: &mut Vec<Vec<char>>, columns: &Vec<String>, rows: &Vec<Vec<String>>)
    ensures
        texts(final(out)@) == texts(old(out)@) + reply_lines(
            Reply::SelectResult(
                crate::executor::select::Answer {
                    columns: string_texts(columns@),
                    rows: text_rows(rows@),
                },
            ),
        ),
{
    let ghost before = texts(out@);
    let ghost c = string_texts(columns@);
    let ghost all = text_rows(rows@);
    let mut head = chars_of("查询结果 (");
    push_u64(&mut head, rows.len() as u64);
    push_str(&mut head, " 行):");
    push_line(out, head);
    push_line(out, cells_of(columns));
    let line = dashes(columns.len());
    assert(Seq::new(columns@.len(), |i: int| "---"@) =~= c.map_values(|c: Seq<char>| "---"@));
    push_line(out, line);
    let ghost first = seq![
        "查询结果 ("@ + show_nat(all.len()) + " 行):"@,
        row_text(c),
        row_text(c.map_values(|c: Seq<char>| "---"@)),
    ];
    assert(texts(out@) =~= before + first);
    let mut i: usize = 0;
    assert(texts(out@) =~= before + first + all.take(0).map_values(
        |r: Seq<Seq<char>>| row_text(r),
    ));
    while i < rows.len()
        invariant
            i <= rows@.len(),
            all == text_rows(rows@),
            texts(out@) == before + first + all.take(i as int).map_values(
                |r: Seq<Seq<char>>| row_text(r),
            ),
        decreases rows@.len() - i,
    {
        push_line(out, cells_of(&rows[i]));
        proof {
            assert(all[i as int] == string_texts(rows@[i as int]@));
            assert(all.take(i + 1).map_values(|r: Seq<Seq<char>>| row_text(r)) =~= all.take(
                i as int,
            ).map_values(|r: Seq<Seq<char>>| row_text(r)).push(row_text(all[i as int])));
            assert(texts(out@) =~= before + first + all.take(i + 1).map_values(
                |r: Seq<Seq<char>>| row_text(r),
            ));
        }
        i += 1;
    }
    proof {
        assert(all.take(rows@.len() as int) =~= all);
        let tail = all.map_values(|r: Seq<Seq<char>>| row_text(r));
        assert(before + first + tail =~= before + (first + tail));
    }
}

fn quoted_line(before: &str, name: &str, after: &str) -> (r: Vec<char>)
    ensures
        r@ == before@ + name@ + after@,
{
    let mut out = chars_of(before);
    push_str(&mut out, name);
    push_str(&mut out, after);
    out
}

fn counted_line(before: &str, n: u64, after: &str) -> (r: Vec<char>)
    ensures
        r@ == before@ + show_nat(n as nat) + after@,
{
    let mut out = chars_of(before);
    push_u64(&mut out, n);
    push_str(&mut out, after);
    out
}

fn push_reply(out: &mut Vec<Vec<char>>, reply: &ExecuteResult)
    ensures
        texts(final(out)@) == texts(old(out)@) + reply_lines(reply@),
{
    let ghost before = texts(out@);
    match reply {
        ExecuteResult::TableCreated { name } => {
            push_line(out, quoted_line("表 '", name.as_str(), "' 创建成功"));
        },
        ExecuteResult::TableDropped { name } => {
            push_line(out, quoted_line("表 '", name.as_str(), "' 已删除"));
        },
        ExecuteResult::Inserted { row_id } => {
            let mut line = chars_of("插入成功，行ID: ");
            push_u64(&mut line, *row_id);
            push_line(out, line);
        },
        ExecuteResult::Deleted { count } => {
            push_line(out, counted_line("删除成功，共 ", *count as u64, " 行"));
        },
        ExecuteResult::Updated { count } => {
            push_line(out, counted_line("更新成功，共 ", *count as u64, " 行"));
        },
        ExecuteResult::SelectResult { columns, rows } => {
            push_answer(out, columns, rows);
        },
        ExecuteResult::Message(m) => {
            push_line(out, chars_of(m.as_str()));
        },
    }
    proof {
        if !(reply@ is SelectResult) {
            assert(reply_lines(reply@).len() == 1);
            assert(before.push(reply_lines(reply@)[0]) =~= before + reply_lines(reply@));
        }
    }
}

/// The text that shows what statements return.
pub fn show_results(results: &Vec<ExecuteResult>) -> (r: String)
    ensures
        r@ == replies_text(reply_views(results@)),
{
    let ghost all = reply_views(results@);
    let mut out: Vec<Vec<char>> = Vec::new();
    let mut i: usize = 0;
    assert(texts(out@) =~= Seq::empty());
    assert(all.take(0) =~= Seq::empty());
    while i < results.len()
        invariant
            i <= results@.len(),
            all == reply_views(results@),
            texts(out@) == replies_lines(all.take(i as int)),
        decreases results@.len() - i,
    {
        push_reply(&mut out, &results[i]);
        proof {
            assert(all.take(i + 1).drop_last() =~= all.take(i as int));
            assert(all.take(i + 1).last() == results@[i as int]@);
        }
        i += 1;
    }
    assert(all.take(results@.len() as int) =~= all);
    string_of(&joined(&out, "\n"))
}

// ---------------------------------------------------------------------------
// The database
// ---------------------------------------------------------------------------

/// What a database holds: its tables and its log, and the path of the file that it is
/// kept in. A database without one lives in memory only.
#[verifier::ext_equal]
pub struct Instance {
    pub machine: Machine,
    pub path: Option<Seq<char>>,
}

/// An embedded database.
pub struct ProbeDB {
    pub executor: Executor,
    path: Option<String>,
}

impl View for ProbeDB {
    type V = Instance;

    closed spec fn view(&self) -> Instance {
        Instance { machine: self.executor@, path: opt_text(self.path) }
    }
}

/// The machine after a script, and the text that is returned.
pub open spec fn script_run(m: Machine, sql: Seq<char>) -> (Machine, Result<
    Seq<char>,
    Seq<char>,
>) {
    match script_of(sql) {
        Err(e) => (m, Err(e)),
        Ok(s) => match m.executed_all(s, s.len() as int) {
            (next, Ok(replies)) => (next, Ok(replies_text(replies))),
            (next, Err(e)) => (next, Err(e)),
        },
    }
}

/// A text or an error, by its view.
pub open spec fn output_result(r: Result<String, String>) -> Result<Seq<char>, Seq<char>> {
    match r {
        Ok(s) => Ok(s@),
        Err(e) => Err(e@),
    }
}

/// The file that a database is to be saved to, and what is to be written there.
pub struct Saving {
    pub path: String,
    pub snapshot: String,
}

/// A database that was opened, and what the replay of its log did. Where `resave` is
/// set, the database is to be saved at once and the log emptied, so that nothing is
/// replayed twice.
pub struct Opened {
    pub db: ProbeDB,
    pub replay: Replay,
    pub resave: bool,
}

fn no_replay() -> (r: Replay)
    ensures
        r.replayed == 0,
        r.skipped@.len() == 0,
{
    Replay { replayed: 0, skipped: Vec::new() }
}

impl ProbeDB {
    pub closed spec fn wf(&self) -> bool {
        self.executor.wf()
    }

    /// An empty database in memory.
    pub fn new() -> (r: ProbeDB)
        ensures
            r.wf(),
            r@ == (Instance {
                machine: Machine { db: Database::empty(), log: None },
                path: None,
            }),
    {
        ProbeDB { executor: Executor::new(), path: None }
    }

    /// Opens the database that is kept at `path`, given what its file and its log hold,
    /// where there are such files. A new database starts a log. One that has a file but
    /// no log goes on without a log.
    pub fn open(path: &str, snapshot: &Option<String>, log: &Option<String>) -> (r: Result<
        Opened,
        String,
    >)
        ensures
            match (opt_text(*snapshot), opt_text(*log)) {
                (None, _) => {
                    &&& r is Ok
                    &&& r->Ok_0.db.wf()
                    &&& r->Ok_0.db@ == (Instance {
                        machine: Machine { db: Database::empty(), log: Some(Log::empty()) },
                        path: Some(path@),
                    })
                    &&& r->Ok_0.replay.replayed == 0
                    &&& r->Ok_0.replay.skipped@.len() == 0
                    &&& !r->Ok_0.resave
                },
                (Some(s), None) => match loaded(s) {
                    Err(e) => r is Err && r->Err_0@ == e,
                    Ok(db) => {
                        &&& r is Ok
                        &&& r->Ok_0.db.wf()
                        &&& r->Ok_0.db@ == (Instance {
                            machine: Machine { db, log: None },
                            path: Some(path@),
                        })
                        &&& r->Ok_0.replay.replayed == 0
                        &&& r->Ok_0.replay.skipped@.len() == 0
                        &&& !r->Ok_0.resave
                    },
                },
                (Some(s), Some(l)) => match loaded(s) {
                    Err(e) => r is Err && r->Err_0@ == e,
                    Ok(db) => {
                        let n = lines(l).len() as int;
                        &&& r is Ok
                        &&& r->Ok_0.db.wf()
                        &&& r->Ok_0.db@ == (Instance {
                            machine: Machine {
                                db: recovered(s, l)->Ok_0,
                                log: Some(Log::empty()),
                            },
                            path: Some(path@),
                        })
                        &&& r->Ok_0.replay.replayed == replayed_count(db, lines(l), n)
                        &&& refusal_views(r->Ok_0.replay.skipped@) == refusals(db, lines(l), n)
                        &&& r->Ok_0.resave == (replayed_count(db, lines(l), n) > 0)
                    },
                },
            },
    {
        let own = Some(path.to_owned());
        match (snapshot, log) {
            (None, _) => {
                let executor = Executor { engine: StorageEngine::new(), wal: Some(WalLog::new()) };
                Ok(
                    Opened {
                        db: ProbeDB { executor, path: own },
                        replay: no_replay(),
                        resave: false,
                    },
                )
            },
            (Some(s), None) => match load(s.as_str()) {
                Ok(engine) => Ok(
                    Opened {
                        db: ProbeDB { executor: Executor { engine, wal: None }, path: own },
                        replay: no_replay(),
                        resave: false,
                    },
                ),
                Err(e) => Err(e),
            },
            (Some(s), Some(l)) => match recover(s.as_str(), l.as_str()) {
                Ok((engine, replay)) => {
                    let resave = replay.replayed > 0;
                    let executor = Executor { engine, wal: Some(WalLog::new()) };
                    Ok(Opened { db: ProbeDB { executor, path: own }, replay, resave })
                },
                Err(e) => Err(e),
            },
        }
    }

    /// Runs SQL statements and returns their results as text.
    pub fn execute(&mut self, sql: &str) -> (r: Result<String, String>)
        requires
            old(self).wf(),
        ensures
            final(self).wf(),
            final(self)@.path == old(self)@.path,
            (final(self)@.machine, output_result(r)) == script_run(old(self)@.machine, sql@),
    {
        match parse_sql(sql) {
            Err(e) => Err(e),
            Ok(stmts) => match self.executor.execute(stmts) {
                Err(e) => Err(e),
                Ok(results) => Ok(show_results(&results)),
            },
        }
    }

    /// Prepares to save the database: lets go of the log records that are kept back,
    /// and tells what is to be written where. When it has been written, the log can be
    /// emptied.
    pub fn persist(&mut self) -> (r: Result<Saving, String>)
        requires
            old(self).wf(),
        ensures
            final(self).wf(),
            match old(self)@.path {
                None => {
                    &&& r is Err
                    &&& r->Err_0@
                        == "未绑定数据库文件，请使用 ProbeDB::open(path) 打开或创建数据库"@
                    &&& final(self)@ == old(self)@
                },
                Some(p) => {
                    &&& r is Ok
                    &&& r->Ok_0.path@ == p
                    &&& r->Ok_0.snapshot@ == exported(old(self)@.machine.db)
                    &&& final(self)@ == old(self)@.flushed()
                },
            },
    {
        let path = match &self.path {
            None => {
                return Err(
                    "未绑定数据库文件，请使用 ProbeDB::open(path) 打开或创建数据库".to_owned(),
                );
            },
            Some(p) => p.as_str().to_owned(),
        };
        self.flush();
        Ok(Saving { path, snapshot: self.executor.engine.export_state() })
    }

    /// Enters or leaves batch mode, where there is a log: log records are kept back
    /// until they are flushed. On leaving, all are let go.
    pub fn set_batch_mode(&mut self, enabled: bool)
        requires
            old(self).wf(),
        ensures
            final(self).wf(),
            final(self)@ == old(self)@.batched(enabled),
    {
        match &mut self.executor.wal {
            Some(wal) => {
                wal.set_batch(enabled);
            },
            None => {},
        }
    }

    /// Lets go of the log records that are kept back.
    pub fn flush(&mut self)
        requires
            old(self).wf(),
        ensures
            final(self).wf(),
            final(self)@ == old(self)@.flushed(),
    {
        match &mut self.executor.wal {
            Some(wal) => {
                wal.flush();
            },
            None => {},
        }
    }
}

impl Instance {
    /// With another log.
    pub open spec fn with_log(self, log: Option<Log>) -> Instance {
        Instance { machine: Machine { log, ..self.machine }, ..self }
    }

    /// With all log records let go.
    pub open spec fn flushed(self) -> Instance {
        match self.machine.log {
            Some(l) => self.with_log(Some(l.flushed())),
            None => self,
        }
    }

    /// In batch mode, or no longer.
    pub open spec fn batched(self, enabled: bool) -> Instance {
        match self.machine.log {
            Some(l) => self.with_log(Some(l.batched(enabled))),
            None => self,
        }
    }
}

} // verus!
