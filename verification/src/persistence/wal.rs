//! The write-ahead log: a line for each change, written before the change is made.
//!
//! ```text
//! # ProbeDB WAL v1
//! T|<table>|<column>:<type>|...
//! I|<table>|<id>|<value>|...
//! D|<table>|<id>
//! U|<table>|<id>|<column index>|<value>
//! DROP|<table>
//! ```
//!
//! Replaying a line that has been replayed before, or that a snapshot already holds,
//! changes nothing.

use vstd::prelude::*;

use crate::number::parse_u64;
use crate::number::parse_usize;
use crate::number::read_nat;
use crate::storage::codec::decode_value;
use crate::storage::codec::fields;
use crate::storage::codec::split_pipe_aware;
use crate::storage::codec::value_coded;
use crate::storage::engine::missing;
use crate::storage::engine::rows_without;
use crate::storage::engine::updated_rows;
use crate::storage::engine::Database;
use crate::storage::engine::StorageEngine;
use crate::storage::schema::rows_view;
use crate::storage::schema::Record;
use crate::storage::schema::Schema;
use crate::storage::schema::TableSchema;
use crate::storage::snapshot::columns_coded;
use crate::storage::snapshot::decode_columns;
use crate::storage::snapshot::decode_values;
use crate::storage::snapshot::values_coded;
use crate::text::chars_of;
use crate::text::is_text;
use crate::text::join2;
use crate::text::lines;
use crate::text::lines_of;
use crate::text::string_of;
use crate::text::string_texts;
use crate::text::texts;

verus! {

// ---------------------------------------------------------------------------
// The log
// ---------------------------------------------------------------------------

/// What a log holds: whether records are kept back, the records that are, at how many
/// of them they are let go (never for 0), and the records that are ready to be written.
#[verifier::ext_equal]
pub struct Log {
    pub batch: bool,
    pub pending: Seq<Seq<char>>,
    pub threshold: nat,
    pub ready: Seq<Seq<char>>,
}

impl Log {
    /// An empty log that keeps nothing back.
    pub open spec fn empty() -> Log {
        Log { batch: false, pending: Seq::empty(), threshold: 0, ready: Seq::empty() }
    }

    /// All records are ready, those that were kept back last.
    pub open spec fn flushed(self) -> Log {
        Log { pending: Seq::empty(), ready: self.ready + self.pending, ..self }
    }

    /// A record more.
    pub open spec fn appended(self, entry: Seq<char>) -> Log {
        if !self.batch {
            Log { ready: self.ready.push(entry), ..self }
        } else {
            let next = Log { pending: self.pending.push(entry), ..self };
            if self.threshold > 0 && next.pending.len() >= self.threshold {
                next.flushed()
            } else {
                next
            }
        }
    }

    /// Records more, one after the other.
    pub open spec fn appended_all(self, entries: Seq<Seq<char>>) -> Log
        decreases entries.len(),
    {
        if entries.len() == 0 {
            self
        } else {
            self.appended_all(entries.drop_last()).appended(entries.last())
        }
    }

    /// Keeping records back, or no longer.
    pub open spec fn batched(self, enabled: bool) -> Log {
        let next = Log { batch: enabled, ..self };
        if enabled {
            next
        } else {
            next.flushed()
        }
    }
}

/// The log in memory: the records that are kept back, and those that are ready to be
/// written.
#[derive(Debug)]
pub struct WalLog {
    batch: bool,
    pending: Vec<String>,
    auto_flush_threshold: usize,
    ready: Vec<String>,
}

impl View for WalLog {
    type V = Log;

    closed spec fn view(&self) -> Log {
        Log {
            batch: self.batch,
            pending: string_texts(self.pending@),
            threshold: self.auto_flush_threshold as nat,
            ready: string_texts(self.ready@),
        }
    }
}

impl WalLog {
    /// An empty log that keeps nothing back.
    pub fn new() -> (r: WalLog)
        ensures
            r@ == Log::empty(),
    {
        let r = WalLog {
            batch: false,
            pending: Vec::new(),
            auto_flush_threshold: 0,
            ready: Vec::new(),
        };
        assert(string_texts(r.pending@) =~= Seq::empty());
        assert(string_texts(r.ready@) =~= Seq::empty());
        r
    }

    /// Appends a record. It is ready at once, or kept back while the log is in batch
    /// mode and the threshold is not reached.
    pub fn append(&mut self, entry: &str)
        ensures
            final(self)@ == old(self)@.appended(entry@),
    {
        let e = entry.to_owned();
        if self.batch {
            let ghost before = self.pending@;
            self.pending.push(e);
            assert(string_texts(self.pending@) =~= string_texts(before).push(entry@));
            assert(string_texts(self.pending@).len() == self.pending@.len());
            if self.auto_flush_threshold > 0 && self.pending.len() >= self.auto_flush_threshold {
                self.flush();
            }
        } else {
            let ghost before = self.ready@;
            self.ready.push(e);
            assert(string_texts(self.ready@) =~= string_texts(before).push(entry@));
        }
    }

    /// Enters or leaves batch mode. On leaving, all records are let go.
    pub fn set_batch(&mut self, enabled: bool)
        ensures
            final(self)@ == old(self)@.batched(enabled),
    {
        self.batch = enabled;
        if !enabled {
            self.flush();
        }
    }

    /// Whether the log is in batch mode.
    pub fn is_batch(&self) -> (r: bool)
        ensures
            r == self@.batch,
    {
        self.batch
    }

    /// Sets at how many records those that are kept back are let go; never for 0.
    pub fn set_auto_flush_threshold(&mut self, threshold: usize)
        ensures
            final(self)@ == (Log { threshold: threshold as nat, ..old(self)@ }),
    {
        self.auto_flush_threshold = threshold;
    }

    /// Lets go of the records that are kept back.
    pub fn flush(&mut self)
        ensures
            final(self)@ == old(self)@.flushed(),
    {
        let ghost (p, r) = (self.pending@, self.ready@);
        self.ready.append(&mut self.pending);
        proof {
            assert(string_texts(self.ready@) =~= string_texts(r) + string_texts(p));
            assert(string_texts(self.pending@) =~= Seq::empty());
        }
    }

    /// The number of records that are kept back.
    pub fn pending_count(&self) -> (r: usize)
        ensures
            r == self@.pending.len(),
    {
        assert(string_texts(self.pending@).len() == self.pending@.len());
        self.pending.len()
    }

    /// Hands out the records that are ready to be written.
    pub fn take_ready(&mut self) -> (r: Vec<String>)
        ensures
            string_texts(r@) == old(self)@.ready,
            final(self)@ == (Log { ready: Seq::empty(), ..old(self)@ }),
    {
        let mut r: Vec<String> = Vec::new();
        r.append(&mut self.ready);
        proof {
            assert(r@ =~= old(self).ready@);
            assert(string_texts(self.ready@) =~= Seq::empty());
        }
        r
    }
}

// ---------------------------------------------------------------------------
// Replaying
// ---------------------------------------------------------------------------

/// A line that holds a record: it is neither empty nor a comment.
pub open spec fn is_record(line: Seq<char>) -> bool {
    line.len() > 0 && line[0] != '#'
}

/// Whether a table has a row with the id.
pub open spec fn has_row(rows: Seq<Record>, id: u64) -> bool {
    exists|i: int| 0 <= i < rows.len() && (#[trigger] rows[i]).id == id
}

/// The record has too few fields.
pub open spec fn too_few() -> Result<Database, Seq<char>> {
    Err("字段不足"@)
}

/// The field does not hold a row id.
pub open spec fn no_id(field: Seq<char>) -> Result<Database, Seq<char>> {
    Err("id解析失败: "@ + field)
}

/// The database after a record, or why the record cannot be replayed.
pub open spec fn replayed(db: Database, line: Seq<char>) -> Result<Database, Seq<char>> {
    let p = fields(line);
    if p[0] == "T"@ {
        if p.len() < 3 {
            too_few()
        } else {
            match columns_coded("列格式错误: "@, p.skip(2)) {
                Err(e) => Err(e),
                Ok(columns) => if db.has(p[1]) {
                    Ok(db)
                } else {
                    Ok(db.created(Schema { name: p[1], columns }))
                },
            }
        }
    } else if p[0] == "I"@ {
        if p.len() < 4 {
            too_few()
        } else {
            match read_nat(p[2], u64::MAX as nat) {
                None => no_id(p[2]),
                Some(id) => match values_coded(p.skip(3)) {
                    Err(e) => Err(e),
                    Ok(values) => if db.has(p[1]) && has_row(db.table(p[1]).rows, id as u64) {
                        Ok(db)
                    } else {
                        match db.insert_error(p[1], values) {
                            Some(e) => Err(e),
                            None => Ok(db.with_row(p[1], Record { id: id as u64, values })),
                        }
                    },
                },
            }
        }
    } else if p[0] == "D"@ {
        if p.len() < 3 {
            too_few()
        } else {
            match read_nat(p[2], u64::MAX as nat) {
                None => no_id(p[2]),
                Some(id) => if db.has(p[1]) {
                    Ok(
                        db.with_rows(
                            p[1],
                            rows_without(db.table(p[1]).rows, seq![id as u64]),
                        ),
                    )
                } else {
                    Err(missing(p[1]))
                },
            }
        }
    } else if p[0] == "U"@ {
        if p.len() < 5 {
            too_few()
        } else {
            match (
                read_nat(p[2], u64::MAX as nat),
                read_nat(p[3], usize::MAX as nat),
                value_coded(p[4]),
            ) {
                (None, _, _) => no_id(p[2]),
                (_, None, _) => Err("col_index解析失败: "@ + p[3]),
                (_, _, Err(e)) => Err(e),
                (Some(id), Some(col), Ok(d)) => if db.has(p[1]) {
                    Ok(
                        db.with_rows(
                            p[1],
                            updated_rows(db.table(p[1]).rows, seq![id as u64], col as int, d),
                        ),
                    )
                } else {
                    Err(missing(p[1]))
                },
            }
        }
    } else if p[0] == "DROP"@ {
        if p.len() < 2 {
            too_few()
        } else if db.has(p[1]) {
            Ok(db.dropped(p[1]))
        } else {
            Ok(db)
        }
    } else {
        Err("未知WAL操作码: "@ + p[0])
    }
}

/// The database after a line of a log. A record that cannot be replayed is passed over.
pub open spec fn after_line(db: Database, line: Seq<char>) -> Database {
    if !is_record(line) {
        db
    } else {
        match replayed(db, line) {
            Ok(d) => d,
            Err(_) => db,
        }
    }
}

/// The database after the first `n` lines of a log.
pub open spec fn after_log(db: Database, l: Seq<Seq<char>>, n: int) -> Database
    decreases n,
{
    if n <= 0 {
        db
    } else {
        after_line(after_log(db, l, n - 1), l[n - 1])
    }
}

/// The number of records among the first `n` lines of a log that can be replayed.
pub open spec fn replayed_count(db: Database, l: Seq<Seq<char>>, n: int) -> nat
    decreases n,
{
    if n <= 0 {
        0
    } else {
        replayed_count(db, l, n - 1) + (if is_record(l[n - 1]) && replayed(
            after_log(db, l, n - 1),
            l[n - 1],
        ) is Ok {
            1nat
        } else {
            0nat
        })
    }
}

/// A line that was passed over: its number from 1 on, the line, and why.
#[verifier::ext_equal]
pub struct Refusal {
    pub number: nat,
    pub line: Seq<char>,
    pub error: Seq<char>,
}

/// The records among the first `n` lines of a log that cannot be replayed.
pub open spec fn refusals(db: Database, l: Seq<Seq<char>>, n: int) -> Seq<Refusal>
    decreases n,
{
    if n <= 0 {
        Seq::empty()
    } else {
        let before = refusals(db, l, n - 1);
        if is_record(l[n - 1]) {
            match replayed(after_log(db, l, n - 1), l[n - 1]) {
                Ok(_) => before,
                Err(error) => before.push(Refusal { number: n as nat, line: l[n - 1], error }),
            }
        } else {
            before
        }
    }
}

/// The number of records among lines.
pub open spec fn record_count(l: Seq<Seq<char>>) -> nat
    decreases l.len(),
{
    if l.len() == 0 {
        0
    } else {
        record_count(l.drop_last()) + (if is_record(l.last()) {
            1nat
        } else {
            0nat
        })
    }
}

/// The number of records in the text of a log.
pub fn entry_count(content: &str) -> (r: usize)
    ensures
        r == record_count(lines(content@)),
{
    let l = lines_of(&chars_of(content));
    let ghost t = texts(l@);
    let mut n: usize = 0;
    let mut i: usize = 0;
    assert(t.take(0) =~= Seq::empty());
    while i < l.len()
        invariant
            i <= l.len(),
            t == texts(l@),
            n <= i,
            n == record_count(t.take(i as int)),
        decreases l.len() - i,
    {
        proof {
            assert(t.take(i + 1).drop_last() =~= t.take(i as int));
            assert(t.take(i + 1).last() == l@[i as int]@);
        }
        if l[i].len() > 0 && l[i][0] != '#' {
            n += 1;
        }
        i += 1;
    }
    assert(t.take(l@.len() as int) =~= t);
    n
}

fn row_exists(engine: &StorageEngine, table: &str, id: u64) -> (r: bool)
    ensures
        r == (engine@.has(table@) && has_row(engine@.table(table@).rows, id)),
{
    match engine.scan_table(table) {
        Err(_) => false,
        Ok(rows) => {
            let ghost v = rows_view(rows@);
            let mut i: usize = 0;
            while i < rows.len()
                invariant
                    i <= rows.len(),
                    v == rows_view(rows@),
                    engine@.has(table@),
                    v == engine@.table(table@).rows,
                    forall|j: int| 0 <= j < i ==> (#[trigger] v[j]).id != id,
                decreases rows.len() - i,
            {
                assert(v[i as int] == rows@[i as int]@);
                if rows[i].id == id {
                    assert(has_row(v, id));
                    return true;
                }
                i += 1;
            }
            false
        },
    }
}

fn bad_id(field: &Vec<char>) -> (r: String)
    ensures
        Err::<Database, Seq<char>>(r@) == no_id(field@),
{
    join2("id解析失败: ", string_of(field).as_str())
}

fn create(engine: &mut StorageEngine, p: &Vec<Vec<char>>) -> (r: Result<(), String>)
    requires
        old(engine).wf(),
        p@.len() >= 3,
    ensures
        final(engine).wf(),
        match columns_coded("列格式错误: "@, texts(p@).skip(2)) {
            Err(e) => r is Err && r->Err_0@ == e && final(engine)@ == old(engine)@,
            Ok(columns) => r is Ok && final(engine)@ == if old(engine)@.has(p@[1]@) {
                old(engine)@
            } else {
                old(engine)@.created(Schema { name: p@[1]@, columns })
            },
        },
{
    match decode_columns(&chars_of("列格式错误: "), p, 2) {
        Err(e) => Err(e),
        Ok(columns) => {
            let name = string_of(&p[1]);
            if engine.get_schema(name.as_str()).is_err() {
                return engine.create_table(TableSchema { name, columns });
            }
            Ok(())
        },
    }
}

fn insert(engine: &mut StorageEngine, p: &Vec<Vec<char>>) -> (r: Result<(), String>)
    requires
        old(engine).wf(),
        p@.len() >= 4,
    ensures
        final(engine).wf(),
        ({
            let db = old(engine)@;
            let t = texts(p@);
            match read_nat(t[2], u64::MAX as nat) {
                None => r is Err && Err::<Database, Seq<char>>(r->Err_0@) == no_id(t[2])
                    && final(engine)@ == db,
                Some(id) => match values_coded(t.skip(3)) {
                    Err(e) => r is Err && r->Err_0@ == e && final(engine)@ == db,
                    Ok(values) => if db.has(t[1]) && has_row(db.table(t[1]).rows, id as u64) {
                        r is Ok && final(engine)@ == db
                    } else {
                        match db.insert_error(t[1], values) {
                            Some(e) => r is Err && r->Err_0@ == e && final(engine)@ == db,
                            None => r is Ok && final(engine)@ == db.with_row(
                                t[1],
                                Record { id: id as u64, values },
                            ),
                        }
                    },
                },
            }
        }),
{
    assert(texts(p@)[1] == p@[1]@ && texts(p@)[2] == p@[2]@);
    match parse_u64(&p[2]) {
        None => Err(bad_id(&p[2])),
        Some(id) => match decode_values(p, 3) {
            Err(e) => Err(e),
            Ok(values) => {
                let name = string_of(&p[1]);
                if row_exists(engine, name.as_str(), id) {
                    return Ok(());
                }
                engine.insert_row_with_id(name.as_str(), id, values)
            },
        },
    }
}

/// Replays a record.
pub fn replay_record(engine: &mut StorageEngine, line: &Vec<char>) -> (r: Result<(), String>)
    requires
        old(engine).wf(),
    ensures
        final(engine).wf(),
        match replayed(old(engine)@, line@) {
            Ok(db) => r is Ok && final(engine)@ == db,
            Err(e) => r is Err && r->Err_0@ == e && final(engine)@ == old(engine)@,
        },
{
    let p = split_pipe_aware(line);
    let ghost t = texts(p@);
    proof {
        assert(t.len() == p@.len());
        assert(t[0] == p@[0]@);
        if p@.len() > 1 {
            assert(t[1] == p@[1]@);
        }
        if p@.len() > 2 {
            assert(t[2] == p@[2]@);
        }
        if p@.len() > 4 {
            assert(t[3] == p@[3]@ && t[4] == p@[4]@);
        }
    }
    if is_text(&p[0], "T") {
        if p.len() < 3 {
            return Err("字段不足".to_owned());
        }
        create(engine, &p)
    } else if is_text(&p[0], "I") {
        if p.len() < 4 {
            return Err("字段不足".to_owned());
        }
        insert(engine, &p)
    } else if is_text(&p[0], "D") {
        if p.len() < 3 {
            return Err("字段不足".to_owned());
        }
        match parse_u64(&p[2]) {
            None => Err(bad_id(&p[2])),
            Some(id) => {
                let ids: Vec<u64> = vec![id];
                assert(ids@ =~= seq![id]);
                match engine.delete_by_ids(string_of(&p[1]).as_str(), &ids) {
                    Ok(_) => Ok(()),
                    Err(e) => Err(e),
                }
            },
        }
    } else if is_text(&p[0], "U") {
        if p.len() < 5 {
            return Err("字段不足".to_owned());
        }
        match (parse_u64(&p[2]), parse_usize(&p[3]), decode_value(&p[4])) {
            (None, _, _) => Err(bad_id(&p[2])),
            (_, None, _) => Err(join2("col_index解析失败: ", string_of(&p[3]).as_str())),
            (_, _, Err(e)) => Err(e),
            (Some(id), Some(col), Ok(value)) => {
                let ids: Vec<u64> = vec![id];
                assert(ids@ =~= seq![id]);
                match engine.update_by_ids(string_of(&p[1]).as_str(), &ids, col, value) {
                    Ok(_) => Ok(()),
                    Err(e) => Err(e),
                }
            },
        }
    } else if is_text(&p[0], "DROP") {
        if p.len() < 2 {
            return Err("字段不足".to_owned());
        }
        let name = string_of(&p[1]);
        if engine.get_schema(name.as_str()).is_ok() {
            return engine.drop_table(name.as_str());
        }
        Ok(())
    } else {
        Err(join2("未知WAL操作码: ", string_of(&p[0]).as_str()))
    }
}

/// A line that was passed over: its number from 1 on, the line, and why.
#[derive(Debug)]
pub struct Skipped {
    pub number: usize,
    pub line: String,
    pub error: String,
}

impl View for Skipped {
    type V = Refusal;

    open spec fn view(&self) -> Refusal {
        Refusal { number: self.number as nat, line: self.line@, error: self.error@ }
    }
}

/// The lines that were passed over, by their views.
pub open spec fn refusal_views(v: Seq<Skipped>) -> Seq<Refusal> {
    v.map_values(|s: Skipped| s@)
}

/// What a replay did: the number of records that were replayed, and the lines that were
/// passed over.
#[derive(Debug)]
pub struct Replay {
    pub replayed: usize,
    pub skipped: Vec<Skipped>,
}

/// Replays the text of a log. A record that cannot be replayed is passed over: one
/// damaged record does not spoil the rest.
pub fn replay(content: &str, engine: &mut StorageEngine) -> (r: Replay)
    requires
        old(engine).wf(),
    ensures
        final(engine).wf(),
        ({
            let l = lines(content@);
            &&& final(engine)@ == after_log(old(engine)@, l, l.len() as int)
            &&& r.replayed == replayed_count(old(engine)@, l, l.len() as int)
            &&& refusal_views(r.skipped@) == refusals(old(engine)@, l, l.len() as int)
        }),
{
    let l = lines_of(&chars_of(content));
    let ghost t = texts(l@);
    let ghost start = engine@;
    let mut n: usize = 0;
    let mut skipped: Vec<Skipped> = Vec::new();
    let mut i: usize = 0;
    assert(refusal_views(skipped@) =~= Seq::empty());
    while i < l.len()
        invariant
            i <= l.len(),
            t == texts(l@),
            n <= i,
            engine.wf(),
            engine@ == after_log(start, t, i as int),
            n == replayed_count(start, t, i as int),
            refusal_views(skipped@) == refusals(start, t, i as int),
        decreases l.len() - i,
    {
        assert(t[i as int] == l@[i as int]@);
        if l[i].len() > 0 && l[i][0] != '#' {
            match replay_record(engine, &l[i]) {
                Ok(_) => {
                    n += 1;
                },
                Err(error) => {
                    let s = Skipped { number: i + 1, line: string_of(&l[i]), error };
                    let ghost before = skipped@;
                    skipped.push(s);
                    assert(refusal_views(skipped@) =~= refusal_views(before).push(s@));
                },
            }
        }
        i += 1;
    }
    Replay { replayed: n, skipped }
}

// ---------------------------------------------------------------------------
// Laws
// ---------------------------------------------------------------------------

/// Removing rows twice is removing them once.
proof fn lemma_rows_without_again(rows: Seq<Record>, ids: Seq<u64>)
    ensures
        rows_without(rows_without(rows, ids), ids) == rows_without(rows, ids),
    decreases rows.len(),
{
    if rows.len() > 0 {
        let rest = rows_without(rows.drop_last(), ids);
        lemma_rows_without_again(rows.drop_last(), ids);
        if !ids.contains(rows.last().id) {
            assert(rest.push(rows.last()).drop_last() =~= rest);
        }
    }
}

/// Replaying a record that has just been replayed changes nothing.
pub proof fn law_replay_idempotent(db: Database, line: Seq<char>)
    requires
        db.wf(),
    ensures
        after_line(after_line(db, line), line) == after_line(db, line),
{
    let p = fields(line);
    if is_record(line) && replayed(db, line) is Ok {
        let name = p[1];
        let next = replayed(db, line)->Ok_0;
        crate::storage::engine::lemma_found(db, name);
        let i = db.index(name);
        reveal_strlit("T");
        reveal_strlit("I");
        reveal_strlit("D");
        reveal_strlit("U");
        reveal_strlit("DROP");
        assert("DROP"@.len() == 4 && "T"@.len() == 1 && "I"@.len() == 1 && "D"@.len() == 1
            && "U"@.len() == 1);
        if p[0] == "T"@ {
            if !db.has(name) {
                lemma_index_pushed(db, next, name);
            }
            assert(replayed(next, line) == Ok::<Database, Seq<char>>(next));
        } else if p[0] == "DROP"@ {
            if db.has(name) {
                lemma_index_removed(db, name);
            }
            assert(replayed(next, line) == Ok::<Database, Seq<char>>(next));
        } else {
            // The other records change the rows of one table.
            if db.has(name) && next != db {
                lemma_index_updated(db, name, next.tables[i].rows);
                let rows = next.tables[i].rows;
                assert(next == db.with_rows(name, rows));
                assert(next.table(name).rows == rows);
                if p[0] == "I"@ {
                    let id = (read_nat(p[2], u64::MAX as nat)->0) as u64;
                    assert(rows.last().id == id);
                    assert(has_row(rows, id)) by {
                        assert(rows[rows.len() - 1].id == id);
                    }
                } else if p[0] == "D"@ {
                    let ids = seq![(read_nat(p[2], u64::MAX as nat)->0) as u64];
                    lemma_rows_without_again(db.table(name).rows, ids);
                    assert(next.with_rows(name, rows) =~= next);
                } else {
                    let ids = seq![(read_nat(p[2], u64::MAX as nat)->0) as u64];
                    let col = (read_nat(p[3], usize::MAX as nat)->0) as int;
                    let d = value_coded(p[4])->Ok_0;
                    lemma_updated_again(db.table(name).rows, ids, col, d);
                    assert(next.with_rows(name, rows) =~= next);
                }
                assert(replayed(next, line) == Ok::<Database, Seq<char>>(next));
            }
        }
    }
}

proof fn lemma_updated_again(
    rows: Seq<Record>,
    ids: Seq<u64>,
    col: int,
    d: crate::types::Datum,
)
    ensures
        updated_rows(updated_rows(rows, ids, col, d), ids, col, d) == updated_rows(
            rows,
            ids,
            col,
            d,
        ),
{
    let a = updated_rows(rows, ids, col, d);
    let b = updated_rows(a, ids, col, d);
    assert forall|i: int| 0 <= i < a.len() implies a[i] == b[i] by {
        assert(b[i].values =~= a[i].values);
    }
    assert(a =~= b);
}

pub proof fn lemma_index_pushed(db: Database, next: Database, name: Seq<char>)
    requires
        !db.has(name),
        exists|t: crate::storage::schema::Table|
            t.schema.name == name && next.tables == #[trigger] db.tables.push(t),
    ensures
        next.has(name),
{
    let t = choose|t: crate::storage::schema::Table|
        t.schema.name == name && next.tables == #[trigger] db.tables.push(t);
    crate::storage::engine::lemma_not_found(db, name);
    crate::storage::engine::lemma_table_index_is(next.tables, name, db.tables.len() as int);
}

pub proof fn lemma_index_removed(db: Database, name: Seq<char>)
    requires
        db.wf(),
        db.has(name),
    ensures
        !db.dropped(name).has(name),
{
    crate::storage::engine::lemma_found(db, name);
    let i = db.index(name);
    let t = db.dropped(name).tables;
    assert forall|j: int| 0 <= j < t.len() implies (#[trigger] t[j]).schema.name != name by {
        if j < i {
            assert(t[j] == db.tables[j]);
            assert(db.tables[j].schema.name != db.tables[i].schema.name);
        } else {
            assert(t[j] == db.tables[j + 1]);
            assert(db.tables[i].schema.name != db.tables[j + 1].schema.name);
        }
    }
    crate::storage::engine::lemma_table_index_is(t, name, t.len() as int);
}

pub proof fn lemma_index_updated(db: Database, name: Seq<char>, rows: Seq<Record>)
    requires
        db.has(name),
    ensures
        db.with_rows(name, rows).index(name) == db.index(name),
{
    crate::storage::engine::lemma_found(db, name);
    crate::storage::engine::lemma_before_found(db, name);
    let t = db.with_rows(name, rows).tables;
    assert forall|j: int| 0 <= j < db.index(name) implies (#[trigger] t[j]).schema.name != name by {
        assert(t[j] == db.tables[j]);
    }
    crate::storage::engine::lemma_table_index_is(t, name, db.index(name));
}

/// Replaying a log uses up no row ids.
pub proof fn law_replay_keeps_next_id(db: Database, l: Seq<Seq<char>>, n: int)
    ensures
        after_log(db, l, n).next_id == db.next_id,
    decreases n,
{
    if n > 0 {
        law_replay_keeps_next_id(db, l, n - 1);
    }
}

/// Leaving batch mode leaves no record behind: all of them become ready, in the order
/// in which they were appended.
pub proof fn law_leaving_batch_mode(log: Log, entries: Seq<Seq<char>>)
    requires
        log.batch,
        log.threshold == 0,
    ensures
        log.appended_all(entries).ready == log.ready,
        log.appended_all(entries).pending == log.pending + entries,
        log.appended_all(entries).batched(false).pending.len() == 0,
        log.appended_all(entries).batched(false).ready == log.ready + (log.pending + entries),
    decreases entries.len(),
{
    if entries.len() > 0 {
        law_leaving_batch_mode(log, entries.drop_last());
        let a = log.appended_all(entries.drop_last());
        lemma_batch_kept(log, entries.drop_last());
        assert((log.pending + entries.drop_last()).push(entries.last()) =~= log.pending + entries);
    } else {
        assert(log.pending + entries =~= log.pending);
    }
}

proof fn lemma_batch_kept(log: Log, entries: Seq<Seq<char>>)
    ensures
        log.appended_all(entries).batch == log.batch,
        log.appended_all(entries).threshold == log.threshold,
    decreases entries.len(),
{
    if entries.len() > 0 {
        lemma_batch_kept(log, entries.drop_last());
    }
}

/// Outside of batch mode every record is ready at once.
pub proof fn law_synchronous_append(log: Log, entries: Seq<Seq<char>>)
    requires
        !log.batch,
    ensures
        log.appended_all(entries).ready == log.ready + entries,
        log.appended_all(entries).pending == log.pending,
    decreases entries.len(),
{
    if entries.len() > 0 {
        law_synchronous_append(log, entries.drop_last());
        lemma_batch_kept(log, entries.drop_last());
        assert((log.ready + entries.drop_last()).push(entries.last()) =~= log.ready + entries);
    } else {
        assert(log.ready + entries =~= log.ready);
    }
}

} // verus!
