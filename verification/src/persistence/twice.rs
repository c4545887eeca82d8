//! Replaying a log that has been replayed before: a log that statements wrote changes no
//! table when it is replayed on the tables that it gave.

use vstd::prelude::*;

use super::load::recovered;
use super::recovery::after_change;
use super::recovery::entries;
use super::recovery::law_change_keeps_order;
use super::recovery::law_fresh_log_recoverable;
use super::recovery::law_replay_change;
use super::recovery::lemma_after_concat;
use super::recovery::lemma_appended_all;
use super::recovery::lemma_delete_records;
use super::recovery::lemma_empty_row_fields;
use super::recovery::lemma_empty_value;
use super::recovery::lemma_executed_id;
use super::recovery::lemma_heads;
use super::recovery::lemma_log_lines;
use super::recovery::lemma_ran_id;
use super::recovery::lemma_same_tables;
use super::recovery::lemma_step_recoverable;
use super::recovery::lemma_update_fields;
use super::recovery::lemma_update_records;
use super::recovery::lemma_with_rows_again;
use super::recovery::lemma_orderly_replayable;
use super::recovery::orderly;
use super::recovery::orderly_table;
use super::recovery::log_text;
use super::recovery::recordable;
use super::recovery::recordable_course;
use super::recovery::recordable_script;
use super::recovery::recoverable;
use super::recovery::settled;
use super::reopen::law_save_and_load;
use super::wal::after_line;
use super::wal::after_log;
use super::wal::has_row;
use super::wal::is_record;
use super::wal::law_replay_keeps_next_id;
use super::wal::lemma_index_removed;
use super::wal::lemma_index_updated;
use super::wal::replayed;
use super::wal::Log;
use crate::executor::condition::matched;
use crate::executor::filter::ascending;
use crate::executor::filter::law_condition_selects;
use crate::executor::filter::lemma_ascending_distinct;
use crate::executor::filter::lemma_filtered_from;
use crate::executor::laws::law_delete;
use crate::executor::laws::law_other_tables;
use crate::executor::plan::assignment_changes;
use crate::executor::plan::matched_ids;
use crate::executor::plan::planned;
use crate::executor::plan::records;
use crate::executor::plan::rows_read;
use crate::executor::plan::Alteration;
use crate::executor::run::Machine;
use crate::number::law_read_shown_nat;
use crate::number::read_nat;
use crate::number::show_nat;
use crate::sql::statement::Statement;
use crate::storage::codec::fields;
use crate::storage::codec::value_coded;
use crate::storage::engine::lemma_before_found;
use crate::storage::engine::lemma_found;
use crate::storage::engine::lemma_not_found;
use crate::storage::engine::lemma_table_index_is;
use crate::storage::engine::row_error;
use crate::storage::engine::rows_without;
use crate::storage::engine::updated_row;
use crate::storage::engine::updated_rows;
use crate::storage::engine::Database;
use crate::storage::round_trip::clean_name;
use crate::storage::round_trip::is_line;
use crate::storage::round_trip::law_value_round_trip;
use crate::storage::round_trip::lemma_columns_line;
use crate::storage::round_trip::lemma_name_line;
use crate::storage::round_trip::lemma_short_line;
use crate::storage::round_trip::lemma_values_line;
use crate::storage::round_trip::storable_database;
use crate::storage::schema::Column;
use crate::storage::schema::Record;
use crate::storage::schema::Schema;
use crate::storage::schema::Table;
use crate::storage::snapshot::columns_coded;
use crate::storage::snapshot::exported;
use crate::storage::snapshot::values_code;
use crate::storage::snapshot::values_coded;
use crate::types::Datum;

verus! {

// ---------------------------------------------------------------------------
// What a log does to one table
// ---------------------------------------------------------------------------

/// What a line of a log does to one table.
#[verifier::ext_equal]
pub enum Op {
    Nothing,
    Create(Schema),
    Drop,
    Insert(u64, Seq<Datum>),
    Delete(u64),
    Update(u64, int, Datum),
}

/// What a line of a log does to the table with the given name.
pub open spec fn op_of(line: Seq<char>, t: Seq<char>) -> Op {
    let p = fields(line);
    if !is_record(line) || p.len() < 2 || p[1] != t {
        Op::Nothing
    } else if p[0] == "T"@ {
        if p.len() < 3 {
            Op::Nothing
        } else {
            match columns_coded("列格式错误: "@, p.skip(2)) {
                Ok(columns) => Op::Create(Schema { name: t, columns }),
                Err(_) => Op::Nothing,
            }
        }
    } else if p[0] == "I"@ {
        if p.len() < 4 {
            Op::Nothing
        } else {
            match (read_nat(p[2], u64::MAX as nat), values_coded(p.skip(3))) {
                (Some(id), Ok(values)) => Op::Insert(id as u64, values),
                _ => Op::Nothing,
            }
        }
    } else if p[0] == "D"@ {
        if p.len() < 3 {
            Op::Nothing
        } else {
            match read_nat(p[2], u64::MAX as nat) {
                Some(id) => Op::Delete(id as u64),
                None => Op::Nothing,
            }
        }
    } else if p[0] == "U"@ {
        if p.len() < 5 {
            Op::Nothing
        } else {
            match (
                read_nat(p[2], u64::MAX as nat),
                read_nat(p[3], usize::MAX as nat),
                value_coded(p[4]),
            ) {
                (Some(id), Some(col), Ok(d)) => Op::Update(id as u64, col as int, d),
                _ => Op::Nothing,
            }
        }
    } else if p[0] == "DROP"@ {
        Op::Drop
    } else {
        Op::Nothing
    }
}

/// The table with the given name, where there is one.
pub open spec fn look(db: Database, t: Seq<char>) -> Option<Table> {
    if db.has(t) {
        Some(db.table(t))
    } else {
        None
    }
}

/// A table after a line of a log.
pub open spec fn step(x: Option<Table>, op: Op) -> Option<Table> {
    match (x, op) {
        (_, Op::Nothing) => x,
        (_, Op::Drop) => None,
        (None, Op::Create(schema)) => Some(Table { schema, rows: Seq::empty() }),
        (None, _) => None,
        (Some(_), Op::Create(_)) => x,
        (Some(t), Op::Insert(id, values)) => if has_row(t.rows, id) || row_error(
            t.schema.columns,
            values,
        ) is Some {
            x
        } else {
            Some(Table { schema: t.schema, rows: t.rows.push(Record { id, values }) })
        },
        (Some(t), Op::Delete(id)) => Some(
            Table { schema: t.schema, rows: rows_without(t.rows, seq![id]) },
        ),
        (Some(t), Op::Update(id, col, d)) => Some(
            Table { schema: t.schema, rows: updated_rows(t.rows, seq![id], col, d) },
        ),
    }
}

/// A table after the first `n` lines of a log.
pub open spec fn stepped(x: Option<Table>, ops: Seq<Op>, n: int) -> Option<Table>
    decreases n,
{
    if n <= 0 {
        x
    } else {
        step(stepped(x, ops, n - 1), ops[n - 1])
    }
}

/// What the lines of a log do to the table with the given name.
pub open spec fn ops_of(l: Seq<Seq<char>>, t: Seq<char>) -> Seq<Op> {
    l.map_values(|line: Seq<char>| op_of(line, t))
}

proof fn lemma_created(db: Database, s: Schema, t: Seq<char>)
    requires
        db.wf(),
        !db.has(s.name),
    ensures
        db.created(s).wf(),
        look(db.created(s), t) == if t == s.name {
            Some(Table { schema: s, rows: Seq::empty() })
        } else {
            look(db, t)
        },
{
    let next = db.created(s);
    lemma_not_found(db, s.name);
    assert forall|i: int, j: int| 0 <= i < j < next.tables.len() implies
        #[trigger] next.tables[i].schema.name != #[trigger] next.tables[j].schema.name by {
        if j < db.tables.len() {
            assert(db.tables[i].schema.name != db.tables[j].schema.name);
        } else {
            assert(db.tables[i].schema.name != s.name);
        }
    }
    if t == s.name {
        assert forall|j: int| 0 <= j < db.tables.len() implies (#[trigger] next.tables[j]).schema.name
            != t by {
            assert(db.tables[j].schema.name != s.name);
        }
        lemma_table_index_is(next.tables, t, db.tables.len() as int);
    } else {
        lemma_found(db, t);
        lemma_before_found(db, t);
        let k = if db.has(t) {
            db.index(t)
        } else {
            next.tables.len() as int
        };
        if !db.has(t) {
            lemma_not_found(db, t);
        }
        assert forall|j: int| 0 <= j < k implies (#[trigger] next.tables[j]).schema.name != t by {
            if j < db.tables.len() {
                assert(db.tables[j].schema.name != t);
            }
        }
        lemma_table_index_is(next.tables, t, k);
    }
}

proof fn lemma_dropped(db: Database, u: Seq<char>, t: Seq<char>)
    requires
        db.wf(),
        db.has(u),
    ensures
        db.dropped(u).wf(),
        look(db.dropped(u), t) == if t == u {
            None
        } else {
            look(db, t)
        },
{
    let next = db.dropped(u);
    lemma_found(db, u);
    let k = db.index(u);
    assert forall|i: int, j: int| 0 <= i < j < next.tables.len() implies
        #[trigger] next.tables[i].schema.name != #[trigger] next.tables[j].schema.name by {
        let o = if i < k {
            i
        } else {
            i + 1
        };
        let q = if j < k {
            j
        } else {
            j + 1
        };
        assert(db.tables[o].schema.name != db.tables[q].schema.name);
    }
    if t == u {
        lemma_index_removed(db, u);
    } else {
        lemma_found(db, t);
        lemma_before_found(db, t);
        let f = db.index(t);
        let g = if f <= k {
            f
        } else {
            f - 1
        };
        if f == k {
            assert(db.tables[k].schema.name == u);
        }
        assert forall|j: int| 0 <= j < g implies (#[trigger] next.tables[j]).schema.name != t by {
            if j < k {
                assert(db.tables[j].schema.name != t);
            } else {
                assert(next.tables[j] == db.tables[j + 1]);
                assert(db.tables[j + 1].schema.name != t);
            }
        }
        lemma_table_index_is(next.tables, t, g);
    }
}

proof fn lemma_with_rows(db: Database, u: Seq<char>, rows: Seq<Record>, t: Seq<char>)
    requires
        db.wf(),
        db.has(u),
    ensures
        db.with_rows(u, rows).wf(),
        look(db.with_rows(u, rows), t) == if t == u {
            Some(Table { schema: db.table(u).schema, rows })
        } else {
            look(db, t)
        },
{
    let next = db.with_rows(u, rows);
    lemma_found(db, u);
    assert forall|i: int, j: int| 0 <= i < j < next.tables.len() implies
        #[trigger] next.tables[i].schema.name != #[trigger] next.tables[j].schema.name by {
        assert(db.tables[i].schema.name != db.tables[j].schema.name);
    }
    if t == u {
        lemma_index_updated(db, u, rows);
    } else {
        law_other_tables(db, u, rows, t);
    }
}

proof fn lemma_codes()
    ensures
        "I"@ != "T"@,
        "D"@ != "T"@,
        "D"@ != "I"@,
        "U"@ != "T"@,
        "U"@ != "I"@,
        "U"@ != "D"@,
        "DROP"@ != "T"@,
        "DROP"@ != "I"@,
        "DROP"@ != "D"@,
        "DROP"@ != "U"@,
{
    reveal_strlit("T");
    reveal_strlit("I");
    reveal_strlit("D");
    reveal_strlit("U");
    reveal_strlit("DROP");
    assert("T"@[0] == 'T' && "I"@[0] == 'I' && "D"@[0] == 'D' && "U"@[0] == 'U');
    assert("DROP"@.len() == 4 && "T"@.len() == 1 && "I"@.len() == 1 && "D"@.len() == 1
        && "U"@.len() == 1);
}

/// A line does to a table what its operation says, and keeps the names distinct.
proof fn lemma_line(db: Database, line: Seq<char>, t: Seq<char>)
    requires
        db.wf(),
    ensures
        after_line(db, line).wf(),
        look(after_line(db, line), t) == step(look(db, t), op_of(line, t)),
{
    lemma_codes();
    let p = fields(line);
    let next = after_line(db, line);
    if is_record(line) && p.len() >= 2 {
        let u = p[1];
        if p[0] == "T"@ {
            if replayed(db, line) is Ok && !db.has(u) {
                lemma_created(
                    db,
                    Schema { name: u, columns: columns_coded("列格式错误: "@, p.skip(2))->Ok_0 },
                    t,
                );
            }
        } else if p[0] == "I"@ {
            if replayed(db, line) is Ok && !(has_row(
                db.table(u).rows,
                (read_nat(p[2], u64::MAX as nat)->0) as u64,
            )) {
                let r = Record {
                    id: (read_nat(p[2], u64::MAX as nat)->0) as u64,
                    values: values_coded(p.skip(3))->Ok_0,
                };
                lemma_with_rows(db, u, db.table(u).rows.push(r), t);
            }
        } else if p[0] == "D"@ {
            if replayed(db, line) is Ok {
                let ids = seq![(read_nat(p[2], u64::MAX as nat)->0) as u64];
                lemma_with_rows(db, u, rows_without(db.table(u).rows, ids), t);
            }
        } else if p[0] == "U"@ {
            if replayed(db, line) is Ok {
                let ids = seq![(read_nat(p[2], u64::MAX as nat)->0) as u64];
                let col = (read_nat(p[3], usize::MAX as nat)->0) as int;
                lemma_with_rows(
                    db,
                    u,
                    updated_rows(db.table(u).rows, ids, col, value_coded(p[4])->Ok_0),
                    t,
                );
            }
        } else if p[0] == "DROP"@ {
            if db.has(u) {
                lemma_dropped(db, u, t);
            }
        }
    }
}

/// A log does to a table what its operations say.
proof fn lemma_log(db: Database, l: Seq<Seq<char>>, n: int, t: Seq<char>)
    requires
        db.wf(),
        0 <= n <= l.len(),
    ensures
        after_log(db, l, n).wf(),
        look(after_log(db, l, n), t) == stepped(look(db, t), ops_of(l, t), n),
    decreases n,
{
    if n > 0 {
        lemma_log(db, l, n - 1, t);
        lemma_line(after_log(db, l, n - 1), l[n - 1], t);
        assert(ops_of(l, t)[n - 1] == op_of(l[n - 1], t));
    }
}

// ---------------------------------------------------------------------------
// One table, twice
// ---------------------------------------------------------------------------

/// No row that the table has had up to the line `n` has the id.
pub open spec fn never_had(x: Option<Table>, ops: Seq<Op>, n: int, id: u64) -> bool {
    forall|j: int|
        0 <= j <= n && #[trigger] stepped(x, ops, j) is Some ==> !has_row(
            stepped(x, ops, j)->0.rows,
            id,
        )
}

/// The id is larger than that of every row that the table has had up to the line `n`.
pub open spec fn above_all(x: Option<Table>, ops: Seq<Op>, n: int, id: u64) -> bool {
    forall|j: int, k: int|
        0 <= j <= n && #[trigger] stepped(x, ops, j) is Some && 0 <= k < stepped(
            x,
            ops,
            j,
        )->0.rows.len() ==> (#[trigger] stepped(x, ops, j)->0.rows[k]).id < id
}

/// The line `i` of a log has something to work on: rows are inserted, deleted and updated
/// where there is a table, and a row that is updated is there.
pub open spec fn workable_at(x: Option<Table>, ops: Seq<Op>, i: int) -> bool {
    let now = stepped(x, ops, i);
    match ops[i] {
        Op::Insert(_, _) => now is Some,
        Op::Delete(_) => now is Some,
        Op::Update(id, _, _) => now is Some && has_row(now->0.rows, id),
        _ => true,
    }
}

/// All lines of a log have something to work on.
pub open spec fn workable(x: Option<Table>, ops: Seq<Op>) -> bool {
    forall|i: int| 0 <= i < ops.len() ==> #[trigger] workable_at(x, ops, i)
}

/// The line `i` of a log has something to work on, a row that is deleted is there, and a
/// new row gets an id that no row of the table has had before.
pub open spec fn sensible_at(x: Option<Table>, ops: Seq<Op>, i: int) -> bool {
    let now = stepped(x, ops, i);
    match ops[i] {
        Op::Insert(id, values) => now is Some && (row_error(now->0.schema.columns, values) is None
            ==> never_had(x, ops, i, id)),
        Op::Delete(id) => now is Some && has_row(now->0.rows, id),
        Op::Update(id, _, _) => now is Some && has_row(now->0.rows, id),
        _ => true,
    }
}

/// All lines of a log have something to work on, and no id is given twice.
pub open spec fn sensible(x: Option<Table>, ops: Seq<Op>) -> bool {
    forall|i: int| 0 <= i < ops.len() ==> #[trigger] sensible_at(x, ops, i)
}

/// No line from `i` to `n` drops the table.
pub open spec fn no_drop(ops: Seq<Op>, i: int, n: int) -> bool {
    forall|j: int| i <= j < n ==> #[trigger] ops[j] != Op::Drop
}

/// A later line updates the column of the row.
pub open spec fn updated_later(ops: Seq<Op>, i: int, id: u64, col: int) -> bool {
    exists|j: int|
        i <= j < ops.len() && ((#[trigger] ops[j]) matches Op::Update(a, b, _) && a == id && b
            == col)
}

/// A later line deletes the row.
pub open spec fn deleted_later(ops: Seq<Op>, i: int, id: u64) -> bool {
    exists|j: int| i <= j < ops.len() && #[trigger] ops[j] == Op::Delete(id)
}

/// After a drop, it does not matter what was there before.
proof fn lemma_after_drop(x: Option<Table>, y: Option<Table>, ops: Seq<Op>, j: int, n: int)
    requires
        0 <= j < n,
        ops[j] == Op::Drop,
    ensures
        stepped(x, ops, n) == stepped(y, ops, n),
    decreases n,
{
    if n > j + 1 {
        lemma_after_drop(x, y, ops, j, n - 1);
    }
}

/// Without a drop a table stays, with its schema.
proof fn lemma_stays(x: Option<Table>, ops: Seq<Op>, i: int, n: int)
    requires
        0 <= i <= n <= ops.len(),
        no_drop(ops, i, n),
        stepped(x, ops, i) is Some,
    ensures
        stepped(x, ops, n) is Some,
        stepped(x, ops, n)->0.schema == stepped(x, ops, i)->0.schema,
    decreases n - i,
{
    if i < n {
        assert(no_drop(ops, i, n - 1)) by {
            assert forall|j: int| i <= j < n - 1 implies #[trigger] ops[j] != Op::Drop by {}
        }
        lemma_stays(x, ops, i, n - 1);
        assert(ops[n - 1] != Op::Drop);
    }
}

proof fn lemma_without_one(rows: Seq<Record>, gone: u64, id: u64)
    ensures
        has_row(rows_without(rows, seq![gone]), id) <==> has_row(rows, id) && id != gone,
{
    let left = rows_without(rows, seq![gone]);
    law_delete(rows, seq![gone]);
    assert(seq![gone].contains(id) <==> id == gone) by {
        assert(seq![gone][0] == gone);
    }
    if has_row(left, id) {
        let i = choose|i: int| 0 <= i < left.len() && (#[trigger] left[i]).id == id;
        assert(left.contains(left[i]));
        assert(rows.contains(left[i]));
        let k = choose|k: int| 0 <= k < rows.len() && rows[k] == left[i];
        assert(rows[k].id == id);
    }
    if has_row(rows, id) && id != gone {
        let k = choose|k: int| 0 <= k < rows.len() && (#[trigger] rows[k]).id == id;
        assert(rows.contains(rows[k]));
        assert(left.contains(rows[k]));
        let i = choose|i: int| 0 <= i < left.len() && left[i] == rows[k];
        assert(left[i].id == id);
    }
}

proof fn lemma_update_rows_ids(rows: Seq<Record>, u: u64, col: int, d: Datum, id: u64)
    ensures
        has_row(updated_rows(rows, seq![u], col, d), id) <==> has_row(rows, id),
{
    let after = updated_rows(rows, seq![u], col, d);
    if has_row(after, id) {
        let i = choose|i: int| 0 <= i < after.len() && (#[trigger] after[i]).id == id;
        assert(rows[i].id == id);
    }
    if has_row(rows, id) {
        let i = choose|i: int| 0 <= i < rows.len() && (#[trigger] rows[i]).id == id;
        assert(after[i].id == id);
    }
}

proof fn lemma_push_row(rows: Seq<Record>, r: Record, id: u64)
    ensures
        has_row(rows.push(r), id) <==> has_row(rows, id) || r.id == id,
{
    let more = rows.push(r);
    if has_row(rows, id) {
        let i = choose|i: int| 0 <= i < rows.len() && (#[trigger] rows[i]).id == id;
        assert(more[i].id == id);
    }
    if r.id == id {
        assert(more[rows.len() as int].id == id);
    }
    if has_row(more, id) {
        let i = choose|i: int| 0 <= i < more.len() && (#[trigger] more[i]).id == id;
        if i < rows.len() {
            assert(rows[i].id == id);
        }
    }
}

/// A row goes only where a line deletes it.
proof fn lemma_row_stays(x: Option<Table>, ops: Seq<Op>, i: int, n: int, id: u64)
    requires
        0 <= i <= n <= ops.len(),
        no_drop(ops, i, n),
        stepped(x, ops, i) is Some,
        has_row(stepped(x, ops, i)->0.rows, id),
        !deleted_later(ops, i, id),
    ensures
        stepped(x, ops, n) is Some,
        has_row(stepped(x, ops, n)->0.rows, id),
    decreases n - i,
{
    if i < n {
        assert(no_drop(ops, i, n - 1)) by {
            assert forall|j: int| i <= j < n - 1 implies #[trigger] ops[j] != Op::Drop by {}
        }
        lemma_row_stays(x, ops, i, n - 1, id);
        let t = stepped(x, ops, n - 1)->0;
        assert(ops[n - 1] != Op::Drop);
        match ops[n - 1] {
            Op::Insert(a, values) => {
                lemma_push_row(t.rows, Record { id: a, values }, id);
            },
            Op::Delete(a) => {
                assert(ops[n - 1] == Op::Delete(a));
                assert(a != id);
                lemma_without_one(t.rows, a, id);
            },
            Op::Update(a, col, d) => {
                lemma_update_rows_ids(t.rows, a, col, d, id);
            },
            _ => {},
        }
    }
}

/// A row that has been there and is gone does not come back.
proof fn lemma_row_stays_gone(x: Option<Table>, ops: Seq<Op>, seen: int, i: int, n: int, id: u64)
    requires
        sensible(x, ops),
        0 <= seen <= i <= n <= ops.len(),
        no_drop(ops, seen, n),
        stepped(x, ops, seen) is Some,
        has_row(stepped(x, ops, seen)->0.rows, id),
        stepped(x, ops, i) is Some,
        !has_row(stepped(x, ops, i)->0.rows, id),
    ensures
        stepped(x, ops, n) is Some,
        !has_row(stepped(x, ops, n)->0.rows, id),
    decreases n - i,
{
    if i < n {
        assert(no_drop(ops, seen, n - 1)) by {
            assert forall|j: int| seen <= j < n - 1 implies #[trigger] ops[j] != Op::Drop by {}
        }
        lemma_row_stays_gone(x, ops, seen, i, n - 1, id);
        let t = stepped(x, ops, n - 1)->0;
        assert(ops[n - 1] != Op::Drop);
        assert(sensible_at(x, ops, n - 1));
        match ops[n - 1] {
            Op::Insert(a, values) => {
                lemma_push_row(t.rows, Record { id: a, values }, id);
                if row_error(t.schema.columns, values) is None {
                    assert(stepped(x, ops, seen) is Some);
                    assert(a != id);
                }
            },
            Op::Delete(a) => {
                lemma_without_one(t.rows, a, id);
            },
            Op::Update(a, col, d) => {
                lemma_update_rows_ids(t.rows, a, col, d, id);
            },
            _ => {},
        }
    }
}

/// The rows with the id have the value in the column, where they have the column.
pub open spec fn has_value(rows: Seq<Record>, id: u64, col: int, d: Datum) -> bool {
    forall|k: int|
        0 <= k < rows.len() && (#[trigger] rows[k]).id == id && 0 <= col < rows[k].values.len()
            ==> rows[k].values[col] == d
}

/// The last update of a column of a row is what it holds.
proof fn lemma_last_update(
    x: Option<Table>,
    ops: Seq<Op>,
    i: int,
    n: int,
    id: u64,
    col: int,
    d: Datum,
)
    requires
        sensible(x, ops),
        0 <= i < n <= ops.len(),
        no_drop(ops, i, n),
        ops[i] == Op::Update(id, col, d),
        !updated_later(ops, i + 1, id, col),
    ensures
        stepped(x, ops, n) is Some,
        has_value(stepped(x, ops, n)->0.rows, id, col, d),
    decreases n - i,
{
    assert(sensible_at(x, ops, i));
    let first = stepped(x, ops, i)->0.rows;
    if n == i + 1 {
        let after = stepped(x, ops, n)->0.rows;
        assert(seq![id].contains(id)) by {
            assert(seq![id][0] == id);
        }
        assert forall|k: int|
            0 <= k < after.len() && (#[trigger] after[k]).id == id && 0 <= col
                < after[k].values.len() implies after[k].values[col] == d by {
            assert(after[k] == updated_row(first[k], seq![id], col, d));
        }
    } else {
        assert(no_drop(ops, i, n - 1)) by {
            assert forall|j: int| i <= j < n - 1 implies #[trigger] ops[j] != Op::Drop by {}
        }
        lemma_last_update(x, ops, i, n - 1, id, col, d);
        let t = stepped(x, ops, n - 1)->0;
        let after = stepped(x, ops, n)->0.rows;
        assert(ops[n - 1] != Op::Drop);
        assert(sensible_at(x, ops, n - 1));
        match ops[n - 1] {
            Op::Insert(a, values) => {
                if row_error(t.schema.columns, values) is None {
                    assert(stepped(x, ops, i) is Some);
                    assert(a != id);
                }
                assert forall|k: int|
                    0 <= k < after.len() && (#[trigger] after[k]).id == id && 0 <= col
                        < after[k].values.len() implies after[k].values[col] == d by {
                    if k < t.rows.len() {
                        assert(after[k] == t.rows[k]);
                    }
                }
            },
            Op::Delete(a) => {
                law_delete(t.rows, seq![a]);
                assert forall|k: int|
                    0 <= k < after.len() && (#[trigger] after[k]).id == id && 0 <= col
                        < after[k].values.len() implies after[k].values[col] == d by {
                    assert(after.contains(after[k]));
                    assert(t.rows.contains(after[k]));
                    let o = choose|o: int| 0 <= o < t.rows.len() && t.rows[o] == after[k];
                    assert(t.rows[o].id == id);
                }
            },
            Op::Update(a, c, e) => {
                assert(ops[n - 1] matches Op::Update(p, q, _) && !(p == id && q == col));
                assert(seq![a].contains(id) ==> a == id);
                assert forall|k: int|
                    0 <= k < after.len() && (#[trigger] after[k]).id == id && 0 <= col
                        < after[k].values.len() implies after[k].values[col] == d by {
                    assert(after[k] == updated_row(t.rows[k], seq![a], c, e));
                    assert(t.rows[k].id == id);
                }
            },
            _ => {},
        }
    }
}

/// The table `u` is the table `t` but for what later lines of the log settle: values
/// that are updated again, and rows at the end that are deleted again.
spec fn nearly(t: Table, u: Table, ops: Seq<Op>, i: int) -> bool {
    &&& u.schema == t.schema
    &&& u.rows.len() >= t.rows.len()
    &&& forall|k: int| 0 <= k < t.rows.len() ==> nearly_row(t.rows[k], #[trigger] u.rows[k], ops, i)
    &&& forall|k: int|
        t.rows.len() <= k < u.rows.len() ==> !has_row(t.rows, (#[trigger] u.rows[k]).id)
            && deleted_later(ops, i, u.rows[k].id)
}

/// The row `u` is the row `t` but for values that are updated again.
spec fn nearly_row(t: Record, u: Record, ops: Seq<Op>, i: int) -> bool {
    &&& u.id == t.id
    &&& u.values.len() == t.values.len()
    &&& forall|c: int|
        0 <= c < t.values.len() ==> #[trigger] u.values[c] == t.values[c] || updated_later(
            ops,
            i,
            t.id,
            c,
        )
}

proof fn lemma_later_update(ops: Seq<Op>, i: int, id: u64, col: int)
    requires
        0 <= i < ops.len(),
        updated_later(ops, i, id, col),
        !(ops[i] matches Op::Update(a, b, _) && a == id && b == col),
    ensures
        updated_later(ops, i + 1, id, col),
{
    let j = choose|j: int|
        i <= j < ops.len() && ((#[trigger] ops[j]) matches Op::Update(a, b, _) && a == id && b
            == col);
    assert(j != i);
}

proof fn lemma_later_delete(ops: Seq<Op>, i: int, id: u64)
    requires
        0 <= i < ops.len(),
        deleted_later(ops, i, id),
        ops[i] != Op::Delete(id),
    ensures
        deleted_later(ops, i + 1, id),
{
    let j = choose|j: int| i <= j < ops.len() && #[trigger] ops[j] == Op::Delete(id);
    assert(j != i);
}

/// Rows that no id stands for are not deleted.
proof fn lemma_front_kept(front: Seq<Record>, tail: Seq<Record>, id: u64)
    requires
        !has_row(front, id),
    ensures
        rows_without(front + tail, seq![id]) == front + rows_without(tail, seq![id]),
    decreases tail.len(),
{
    let all = front + tail;
    if tail.len() == 0 {
        assert(all =~= front);
        lemma_none_deleted(front, id);
        assert(front + rows_without(tail, seq![id]) =~= front);
    } else {
        assert(all.drop_last() =~= front + tail.drop_last());
        lemma_front_kept(front, tail.drop_last(), id);
        assert(rows_without(all, seq![id]) =~= front + rows_without(tail, seq![id]));
    }
}

proof fn lemma_none_deleted(rows: Seq<Record>, id: u64)
    requires
        !has_row(rows, id),
    ensures
        rows_without(rows, seq![id]) == rows,
    decreases rows.len(),
{
    if rows.len() > 0 {
        let front = rows.drop_last();
        assert(!has_row(front, id)) by {
            if has_row(front, id) {
                let i = choose|i: int| 0 <= i < front.len() && (#[trigger] front[i]).id == id;
                assert(rows[i].id == id);
            }
        }
        lemma_none_deleted(front, id);
        assert(rows[rows.len() - 1].id != id);
        assert(front.push(rows.last()) =~= rows);
    } else {
        assert(rows =~= Seq::empty());
    }
}

/// A row that is kept as it is, seen from the next line on.
proof fn lemma_nearly_row_on(t: Record, u: Record, ops: Seq<Op>, i: int)
    requires
        0 <= i < ops.len(),
        nearly_row(t, u, ops, i),
        !(ops[i] matches Op::Update(a, _, _) && a == t.id),
    ensures
        nearly_row(t, u, ops, i + 1),
{
    assert forall|c: int| 0 <= c < t.values.len() implies #[trigger] u.values[c] == t.values[c]
        || updated_later(ops, i + 1, t.id, c) by {
        if u.values[c] != t.values[c] {
            lemma_later_update(ops, i, t.id, c);
        }
    }
}

/// A table that is kept as it is, seen from the next line on.
proof fn lemma_nearly_on(t: Table, u: Table, ops: Seq<Op>, i: int)
    requires
        0 <= i < ops.len(),
        nearly(t, u, ops, i),
        !(ops[i] is Update),
        !(ops[i] is Delete),
    ensures
        nearly(t, u, ops, i + 1),
{
    assert forall|k: int| 0 <= k < t.rows.len() implies nearly_row(
        t.rows[k],
        #[trigger] u.rows[k],
        ops,
        i + 1,
    ) by {
        lemma_nearly_row_on(t.rows[k], u.rows[k], ops, i);
    }
    assert forall|k: int| t.rows.len() <= k < u.rows.len() implies !has_row(
        t.rows,
        (#[trigger] u.rows[k]).id,
    ) && deleted_later(ops, i + 1, u.rows[k].id) by {
        lemma_later_delete(ops, i, u.rows[k].id);
    }
}

/// The rows of `t` are among the rows of `u`.
proof fn lemma_nearly_has(t: Table, u: Table, ops: Seq<Op>, i: int, id: u64)
    requires
        nearly(t, u, ops, i),
        has_row(t.rows, id),
    ensures
        has_row(u.rows, id),
{
    let k = choose|k: int| 0 <= k < t.rows.len() && (#[trigger] t.rows[k]).id == id;
    assert(nearly_row(t.rows[k], u.rows[k], ops, i));
    assert(u.rows[k].id == id);
}

proof fn lemma_nearly_insert(
    x: Option<Table>,
    ops: Seq<Op>,
    u: Table,
    i: int,
    id: u64,
    v: Seq<Datum>,
)
    requires
        sensible(x, ops),
        no_drop(ops, 0, ops.len() as int),
        stepped(x, ops, ops.len() as int) is Some,
        0 <= i < ops.len(),
        nearly(stepped(x, ops, ops.len() as int)->0, u, ops, i),
        ops[i] == Op::Insert(id, v),
    ensures
        nearly(stepped(x, ops, ops.len() as int)->0, step(Some(u), ops[i])->0, ops, i + 1),
{
    let n = ops.len() as int;
    let t = stepped(x, ops, n)->0;
    let next = step(Some(u), ops[i])->0;
    lemma_nearly_on(t, u, ops, i);
    if !has_row(u.rows, id) && row_error(u.schema.columns, v) is None {
        let r = Record { id, values: v };
        assert(next.rows == u.rows.push(r));
        assert(!has_row(t.rows, id)) by {
            if has_row(t.rows, id) {
                lemma_nearly_has(t, u, ops, i, id);
            }
        }
        assert(sensible_at(x, ops, i));
        let now = stepped(x, ops, i)->0;
        assert(no_drop(ops, i, n)) by {
            assert forall|j: int| i <= j < n implies #[trigger] ops[j] != Op::Drop by {}
        }
        lemma_stays(x, ops, i, n);
        assert(never_had(x, ops, i, id));
        assert(!has_row(now.rows, id));
        lemma_push_row(now.rows, r, id);
        assert(has_row(stepped(x, ops, i + 1)->0.rows, id));
        if !deleted_later(ops, i + 1, id) {
            assert(no_drop(ops, i + 1, n)) by {
                assert forall|j: int| i + 1 <= j < n implies #[trigger] ops[j] != Op::Drop by {}
            }
            lemma_row_stays(x, ops, i + 1, n, id);
        }
        assert forall|k: int| 0 <= k < t.rows.len() implies nearly_row(
            t.rows[k],
            #[trigger] next.rows[k],
            ops,
            i + 1,
        ) by {
            assert(next.rows[k] == u.rows[k]);
        }
        assert forall|k: int| t.rows.len() <= k < next.rows.len() implies !has_row(
            t.rows,
            (#[trigger] next.rows[k]).id,
        ) && deleted_later(ops, i + 1, next.rows[k].id) by {
            if k < u.rows.len() {
                assert(next.rows[k] == u.rows[k]);
            }
        }
    }
}

proof fn lemma_nearly_delete(x: Option<Table>, ops: Seq<Op>, u: Table, i: int, id: u64)
    requires
        sensible(x, ops),
        no_drop(ops, 0, ops.len() as int),
        stepped(x, ops, ops.len() as int) is Some,
        0 <= i < ops.len(),
        nearly(stepped(x, ops, ops.len() as int)->0, u, ops, i),
        ops[i] == Op::Delete(id),
    ensures
        nearly(stepped(x, ops, ops.len() as int)->0, step(Some(u), ops[i])->0, ops, i + 1),
{
    let n = ops.len() as int;
    let t = stepped(x, ops, n)->0;
    let next = step(Some(u), ops[i])->0;
    let m = t.rows.len() as int;
    assert(sensible_at(x, ops, i));
    let now = stepped(x, ops, i)->0;
    assert(no_drop(ops, i, n)) by {
        assert forall|j: int| i <= j < n implies #[trigger] ops[j] != Op::Drop by {}
    }
    lemma_without_one(now.rows, id, id);
    lemma_row_stays_gone(x, ops, i, i + 1, n, id);
    assert(!has_row(t.rows, id));
    let front = u.rows.take(m);
    let tail = u.rows.skip(m);
    assert(u.rows =~= front + tail);
    assert(!has_row(front, id)) by {
        if has_row(front, id) {
            let k = choose|k: int| 0 <= k < front.len() && (#[trigger] front[k]).id == id;
            assert(nearly_row(t.rows[k], u.rows[k], ops, i));
            assert(t.rows[k].id == id);
        }
    }
    lemma_front_kept(front, tail, id);
    let left = rows_without(tail, seq![id]);
    assert(next.rows == front + left);
    law_delete(tail, seq![id]);
    assert(seq![id].contains(id)) by {
        assert(seq![id][0] == id);
    }
    assert forall|k: int| 0 <= k < m implies nearly_row(
        t.rows[k],
        #[trigger] next.rows[k],
        ops,
        i + 1,
    ) by {
        assert(next.rows[k] == u.rows[k]);
        lemma_nearly_row_on(t.rows[k], u.rows[k], ops, i);
    }
    assert forall|k: int| m <= k < next.rows.len() implies !has_row(
        t.rows,
        (#[trigger] next.rows[k]).id,
    ) && deleted_later(ops, i + 1, next.rows[k].id) by {
        let r = left[k - m];
        assert(next.rows[k] == r);
        assert(left.contains(r));
        assert(tail.contains(r) && !seq![id].contains(r.id));
        let o = choose|o: int| 0 <= o < tail.len() && tail[o] == r;
        assert(u.rows[m + o] == r);
        assert(r.id != id);
        lemma_later_delete(ops, i, r.id);
    }
}

proof fn lemma_nearly_update(
    x: Option<Table>,
    ops: Seq<Op>,
    u: Table,
    i: int,
    id: u64,
    col: int,
    d: Datum,
)
    requires
        sensible(x, ops),
        no_drop(ops, 0, ops.len() as int),
        stepped(x, ops, ops.len() as int) is Some,
        0 <= i < ops.len(),
        nearly(stepped(x, ops, ops.len() as int)->0, u, ops, i),
        ops[i] == Op::Update(id, col, d),
    ensures
        nearly(stepped(x, ops, ops.len() as int)->0, step(Some(u), ops[i])->0, ops, i + 1),
{
    let n = ops.len() as int;
    let t = stepped(x, ops, n)->0;
    let next = step(Some(u), ops[i])->0;
    let m = t.rows.len() as int;
    assert(no_drop(ops, i, n)) by {
        assert forall|j: int| i <= j < n implies #[trigger] ops[j] != Op::Drop by {}
    }
    assert(seq![id].contains(id)) by {
        assert(seq![id][0] == id);
    }
    if !updated_later(ops, i + 1, id, col) {
        lemma_last_update(x, ops, i, n, id, col, d);
    }
    assert forall|k: int| 0 <= k < m implies nearly_row(
        t.rows[k],
        #[trigger] next.rows[k],
        ops,
        i + 1,
    ) by {
        let a = t.rows[k];
        let b = u.rows[k];
        assert(nearly_row(a, b, ops, i));
        assert(next.rows[k] == updated_row(b, seq![id], col, d));
        if b.id == id {
            assert forall|c: int| 0 <= c < a.values.len() implies #[trigger] next.rows[k].values[c]
                == a.values[c] || updated_later(ops, i + 1, a.id, c) by {
                if c != col {
                    assert(next.rows[k].values[c] == b.values[c]);
                    if b.values[c] != a.values[c] {
                        lemma_later_update(ops, i, a.id, c);
                    }
                }
            }
        } else {
            assert(!seq![id].contains(b.id));
            lemma_nearly_row_on(a, b, ops, i);
        }
    }
    assert forall|k: int| m <= k < next.rows.len() implies !has_row(
        t.rows,
        (#[trigger] next.rows[k]).id,
    ) && deleted_later(ops, i + 1, next.rows[k].id) by {
        assert(next.rows[k].id == u.rows[k].id);
        lemma_later_delete(ops, i, u.rows[k].id);
    }
}

/// On the table that the log gave, the log goes through tables that are nearly it.
proof fn lemma_nearly(x: Option<Table>, ops: Seq<Op>, i: int)
    requires
        sensible(x, ops),
        no_drop(ops, 0, ops.len() as int),
        stepped(x, ops, ops.len() as int) is Some,
        0 <= i <= ops.len(),
    ensures
        stepped(stepped(x, ops, ops.len() as int), ops, i) is Some,
        nearly(
            stepped(x, ops, ops.len() as int)->0,
            stepped(stepped(x, ops, ops.len() as int), ops, i)->0,
            ops,
            i,
        ),
    decreases i,
{
    let last = stepped(x, ops, ops.len() as int);
    let t = last->0;
    if i == 0 {
        assert forall|k: int| 0 <= k < t.rows.len() implies nearly_row(
            t.rows[k],
            #[trigger] t.rows[k],
            ops,
            0,
        ) by {}
    } else {
        lemma_nearly(x, ops, i - 1);
        let u = stepped(last, ops, i - 1)->0;
        assert(ops[i - 1] != Op::Drop);
        match ops[i - 1] {
            Op::Insert(id, v) => {
                lemma_nearly_insert(x, ops, u, i - 1, id, v);
            },
            Op::Delete(id) => {
                lemma_nearly_delete(x, ops, u, i - 1, id);
            },
            Op::Update(id, col, d) => {
                lemma_nearly_update(x, ops, u, i - 1, id, col, d);
            },
            _ => {
                lemma_nearly_on(t, u, ops, i - 1);
            },
        }
    }
}

proof fn lemma_nearly_end(t: Table, u: Table, ops: Seq<Op>)
    requires
        nearly(t, u, ops, ops.len() as int),
    ensures
        t == u,
{
    if u.rows.len() > t.rows.len() {
        let k = t.rows.len() as int;
        assert(deleted_later(ops, ops.len() as int, u.rows[k].id));
    }
    assert forall|k: int| 0 <= k < t.rows.len() implies t.rows[k] == u.rows[k] by {
        assert(nearly_row(t.rows[k], u.rows[k], ops, ops.len() as int));
        assert(t.rows[k].values =~= u.rows[k].values);
    }
    assert(t.rows =~= u.rows);
}

/// Without a table and without a line that makes one, there is none.
proof fn lemma_never_there(x: Option<Table>, ops: Seq<Op>, i: int)
    requires
        no_drop(ops, 0, ops.len() as int),
        stepped(x, ops, ops.len() as int) is None,
        0 <= i <= ops.len(),
    ensures
        stepped(None, ops, i) is None,
    decreases i,
{
    if i > 0 {
        lemma_never_there(x, ops, i - 1);
        let n = ops.len() as int;
        if stepped(x, ops, i) is Some {
            assert(no_drop(ops, i, n)) by {
                assert forall|j: int| i <= j < n implies #[trigger] ops[j] != Op::Drop by {}
            }
            lemma_stays(x, ops, i, n);
        }
        if stepped(x, ops, i - 1) is Some {
            assert(no_drop(ops, i - 1, n)) by {
                assert forall|j: int| i - 1 <= j < n implies #[trigger] ops[j] != Op::Drop by {}
            }
            lemma_stays(x, ops, i - 1, n);
        }
        assert(ops[i - 1] != Op::Drop);
    }
}

// ---------------------------------------------------------------------------
// The rows with one id, twice
// ---------------------------------------------------------------------------

/// The rows with the given id, in their order.
pub open spec fn rows_with(rows: Seq<Record>, id: u64) -> Seq<Record>
    decreases rows.len(),
{
    if rows.len() == 0 {
        Seq::empty()
    } else {
        let rest = rows_with(rows.drop_last(), id);
        if rows.last().id == id {
            rest.push(rows.last())
        } else {
            rest
        }
    }
}

/// Two tables have one schema and the same rows under each id.
pub open spec fn same_rows(a: Option<Table>, b: Option<Table>) -> bool {
    match (a, b) {
        (None, None) => true,
        (Some(x), Some(y)) => x.schema == y.schema && forall|id: u64| #[trigger]
            rows_with(x.rows, id) == rows_with(y.rows, id),
        _ => false,
    }
}

proof fn lemma_with_push(rows: Seq<Record>, r: Record, id: u64)
    ensures
        rows_with(rows.push(r), id) == if r.id == id {
            rows_with(rows, id).push(r)
        } else {
            rows_with(rows, id)
        },
{
    assert(rows.push(r).drop_last() =~= rows);
}

proof fn lemma_with_without(rows: Seq<Record>, gone: u64, id: u64)
    ensures
        rows_with(rows_without(rows, seq![gone]), id) == if id == gone {
            Seq::empty()
        } else {
            rows_with(rows, id)
        },
    decreases rows.len(),
{
    if rows.len() > 0 {
        let r = rows.last();
        lemma_with_without(rows.drop_last(), gone, id);
        assert(seq![gone].contains(r.id) <==> r.id == gone) by {
            assert(seq![gone][0] == gone);
        }
        lemma_with_push(rows_without(rows.drop_last(), seq![gone]), r, id);
    }
}

proof fn lemma_with_updated(rows: Seq<Record>, u: u64, col: int, d: Datum, id: u64)
    ensures
        rows_with(updated_rows(rows, seq![u], col, d), id) == updated_rows(
            rows_with(rows, id),
            seq![u],
            col,
            d,
        ),
    decreases rows.len(),
{
    let after = updated_rows(rows, seq![u], col, d);
    if rows.len() > 0 {
        let r = rows.last();
        lemma_with_updated(rows.drop_last(), u, col, d, id);
        assert(after.drop_last() =~= updated_rows(rows.drop_last(), seq![u], col, d));
        assert(after.last() == updated_row(r, seq![u], col, d));
        let rest = rows_with(rows.drop_last(), id);
        assert(updated_rows(rest.push(r), seq![u], col, d) =~= updated_rows(
            rest,
            seq![u],
            col,
            d,
        ).push(updated_row(r, seq![u], col, d)));
    } else {
        assert(after =~= Seq::empty());
        assert(updated_rows(Seq::empty(), seq![u], col, d) =~= Seq::empty());
    }
}

proof fn lemma_with_has(rows: Seq<Record>, id: u64)
    ensures
        has_row(rows, id) <==> rows_with(rows, id).len() > 0,
        forall|k: int|
            0 <= k < rows_with(rows, id).len() ==> (#[trigger] rows_with(rows, id)[k]).id == id
                && rows.contains(rows_with(rows, id)[k]),
    decreases rows.len(),
{
    if rows.len() > 0 {
        let front = rows.drop_last();
        let r = rows.last();
        lemma_with_has(front, id);
        assert(rows =~= front.push(r));
        lemma_push_row(front, r, id);
        let w = rows_with(rows, id);
        let rest = rows_with(front, id);
        assert forall|k: int| 0 <= k < w.len() implies (#[trigger] w[k]).id == id && rows.contains(
            w[k],
        ) by {
            if k < rest.len() {
                assert(w[k] == rest[k]);
                let o = choose|o: int| 0 <= o < front.len() && front[o] == rest[k];
                assert(rows[o] == w[k]);
            } else {
                assert(rows[rows.len() - 1] == w[k]);
            }
        }
    }
}

/// A line does the same to the rows with one id of two tables with one schema that have
/// the same rows with that id.
proof fn lemma_alike_step(a: Table, b: Table, op: Op, id: u64)
    requires
        op != Op::Drop,
        a.schema == b.schema,
        rows_with(a.rows, id) == rows_with(b.rows, id),
    ensures
        step(Some(a), op) is Some,
        step(Some(b), op) is Some,
        step(Some(a), op)->0.schema == a.schema,
        step(Some(b), op)->0.schema == a.schema,
        rows_with(step(Some(a), op)->0.rows, id) == rows_with(step(Some(b), op)->0.rows, id),
{
    match op {
        Op::Insert(i, values) => {
            let r = Record { id: i, values };
            lemma_with_push(a.rows, r, id);
            lemma_with_push(b.rows, r, id);
            lemma_with_has(a.rows, id);
            lemma_with_has(b.rows, id);
        },
        Op::Delete(i) => {
            lemma_with_without(a.rows, i, id);
            lemma_with_without(b.rows, i, id);
        },
        Op::Update(i, col, d) => {
            lemma_with_updated(a.rows, i, col, d, id);
            lemma_with_updated(b.rows, i, col, d, id);
        },
        _ => {},
    }
}

proof fn lemma_alike(x: Option<Table>, y: Option<Table>, ops: Seq<Op>, j: int, n: int, id: u64)
    requires
        0 <= j <= n <= ops.len(),
        no_drop(ops, j, n),
        stepped(x, ops, j) is Some,
        stepped(y, ops, j) is Some,
        stepped(x, ops, j)->0.schema == stepped(y, ops, j)->0.schema,
        rows_with(stepped(x, ops, j)->0.rows, id) == rows_with(stepped(y, ops, j)->0.rows, id),
    ensures
        stepped(x, ops, n) is Some,
        stepped(y, ops, n) is Some,
        stepped(x, ops, n)->0.schema == stepped(y, ops, n)->0.schema,
        rows_with(stepped(x, ops, n)->0.rows, id) == rows_with(stepped(y, ops, n)->0.rows, id),
    decreases n - j,
{
    if j < n {
        assert(no_drop(ops, j, n - 1)) by {
            assert forall|k: int| j <= k < n - 1 implies #[trigger] ops[k] != Op::Drop by {}
        }
        lemma_alike(x, y, ops, j, n - 1, id);
        assert(ops[n - 1] != Op::Drop);
        lemma_alike_step(
            stepped(x, ops, n - 1)->0,
            stepped(y, ops, n - 1)->0,
            ops[n - 1],
            id,
        );
    }
}

/// The last update of a column of a row that is not deleted is what it holds.
proof fn lemma_last_update_kept(
    x: Option<Table>,
    ops: Seq<Op>,
    i: int,
    n: int,
    id: u64,
    col: int,
    d: Datum,
)
    requires
        workable(x, ops),
        0 <= i < n <= ops.len(),
        no_drop(ops, i, n),
        ops[i] == Op::Update(id, col, d),
        !updated_later(ops, i + 1, id, col),
        !deleted_later(ops, i, id),
    ensures
        stepped(x, ops, n) is Some,
        has_value(stepped(x, ops, n)->0.rows, id, col, d),
    decreases n - i,
{
    assert(workable_at(x, ops, i));
    let first = stepped(x, ops, i)->0.rows;
    if n == i + 1 {
        let after = stepped(x, ops, n)->0.rows;
        assert(seq![id].contains(id)) by {
            assert(seq![id][0] == id);
        }
        assert forall|k: int|
            0 <= k < after.len() && (#[trigger] after[k]).id == id && 0 <= col
                < after[k].values.len() implies after[k].values[col] == d by {
            assert(after[k] == updated_row(first[k], seq![id], col, d));
        }
    } else {
        assert(no_drop(ops, i, n - 1)) by {
            assert forall|j: int| i <= j < n - 1 implies #[trigger] ops[j] != Op::Drop by {}
        }
        lemma_last_update_kept(x, ops, i, n - 1, id, col, d);
        lemma_row_stays(x, ops, i, n - 1, id);
        let t = stepped(x, ops, n - 1)->0;
        let after = stepped(x, ops, n)->0.rows;
        assert(ops[n - 1] != Op::Drop);
        match ops[n - 1] {
            Op::Insert(a, values) => {
                assert forall|k: int|
                    0 <= k < after.len() && (#[trigger] after[k]).id == id && 0 <= col
                        < after[k].values.len() implies after[k].values[col] == d by {
                    if k < t.rows.len() {
                        assert(after[k] == t.rows[k]);
                    }
                }
            },
            Op::Delete(a) => {
                law_delete(t.rows, seq![a]);
                assert forall|k: int|
                    0 <= k < after.len() && (#[trigger] after[k]).id == id && 0 <= col
                        < after[k].values.len() implies after[k].values[col] == d by {
                    assert(after.contains(after[k]));
                    assert(t.rows.contains(after[k]));
                    let o = choose|o: int| 0 <= o < t.rows.len() && t.rows[o] == after[k];
                    assert(t.rows[o].id == id);
                }
            },
            Op::Update(a, c, e) => {
                assert(ops[n - 1] matches Op::Update(p, q, _) && !(p == id && q == col));
                assert(seq![a].contains(id) ==> a == id);
                assert forall|k: int|
                    0 <= k < after.len() && (#[trigger] after[k]).id == id && 0 <= col
                        < after[k].values.len() implies after[k].values[col] == d by {
                    assert(after[k] == updated_row(t.rows[k], seq![a], c, e));
                    assert(t.rows[k].id == id);
                }
            },
            _ => {},
        }
    }
}

/// The rows `u` are the rows `w`, which have one id, but for values that are updated
/// again.
spec fn nearly_rows(w: Seq<Record>, u: Seq<Record>, ops: Seq<Op>, i: int) -> bool {
    &&& u.len() == w.len()
    &&& forall|k: int| 0 <= k < w.len() ==> nearly_row(w[k], #[trigger] u[k], ops, i)
}

/// The rows with an id that no line deletes, on the table that the log gave.
proof fn lemma_kept_id(x: Option<Table>, ops: Seq<Op>, i: int, id: u64)
    requires
        workable(x, ops),
        no_drop(ops, 0, ops.len() as int),
        stepped(x, ops, ops.len() as int) is Some,
        !deleted_later(ops, 0, id),
        0 <= i <= ops.len(),
    ensures
        ({
            let last = stepped(x, ops, ops.len() as int);
            let y = stepped(last, ops, i);
            &&& y is Some
            &&& y->0.schema == last->0.schema
            &&& nearly_rows(rows_with(last->0.rows, id), rows_with(y->0.rows, id), ops, i)
        }),
    decreases i,
{
    let n = ops.len() as int;
    let last = stepped(x, ops, n);
    let w = rows_with(last->0.rows, id);
    lemma_with_has(last->0.rows, id);
    if i == 0 {
        assert forall|k: int| 0 <= k < w.len() implies nearly_row(w[k], #[trigger] w[k], ops, 0) by {}
    } else {
        lemma_kept_id(x, ops, i - 1, id);
        let op = ops[i - 1];
        let u = stepped(last, ops, i - 1)->0;
        let now = rows_with(u.rows, id);
        let next = stepped(last, ops, i);
        assert(op != Op::Drop);
        lemma_with_has(u.rows, id);
        assert(no_drop(ops, i - 1, n) && no_drop(ops, i, n)) by {
            assert forall|j: int| i - 1 <= j < n implies #[trigger] ops[j] != Op::Drop by {}
        }
        assert(workable_at(x, ops, i - 1));
        assert(!deleted_later(ops, i - 1, id) && !deleted_later(ops, i, id)) by {
            if deleted_later(ops, i - 1, id) {
                let j = choose|j: int|
                    i - 1 <= j < ops.len() && #[trigger] ops[j] == Op::Delete(id);
                assert(deleted_later(ops, 0, id));
            }
        }
        if !(op matches Op::Update(a, _, _) && a == id) {
            assert forall|k: int| 0 <= k < w.len() implies nearly_row(
                w[k],
                #[trigger] now[k],
                ops,
                i,
            ) by {
                assert(w[k].id == id);
                lemma_nearly_row_on(w[k], now[k], ops, i - 1);
            }
        }
        match op {
            Op::Insert(a, values) => {
                let r = Record { id: a, values };
                lemma_with_push(u.rows, r, id);
                if a == id && now.len() == 0 && row_error(u.schema.columns, values) is None {
                    let then = stepped(x, ops, i - 1)->0;
                    lemma_stays(x, ops, i - 1, n);
                    lemma_push_row(then.rows, r, id);
                    assert(has_row(stepped(x, ops, i)->0.rows, id));
                    lemma_row_stays(x, ops, i, n, id);
                }
            },
            Op::Delete(a) => {
                assert(a != id);
                lemma_with_without(u.rows, a, id);
            },
            Op::Update(a, col, d) => {
                lemma_with_updated(u.rows, a, col, d, id);
                let after = rows_with(next->0.rows, id);
                assert(after == updated_rows(now, seq![a], col, d));
                if a == id {
                    assert(seq![id].contains(id)) by {
                        assert(seq![id][0] == id);
                    }
                    if !updated_later(ops, i, id, col) {
                        lemma_last_update_kept(x, ops, i - 1, n, id, col, d);
                    }
                    assert forall|k: int| 0 <= k < w.len() implies nearly_row(
                        w[k],
                        #[trigger] after[k],
                        ops,
                        i,
                    ) by {
                        let b = now[k];
                        assert(nearly_row(w[k], b, ops, i - 1));
                        assert(after[k] == updated_row(b, seq![a], col, d));
                        assert(w[k].id == id);
                        assert forall|c: int| 0 <= c < w[k].values.len() implies
                            #[trigger] after[k].values[c] == w[k].values[c] || updated_later(
                            ops,
                            i,
                            w[k].id,
                            c,
                        ) by {
                            if c != col {
                                assert(after[k].values[c] == b.values[c]);
                                if b.values[c] != w[k].values[c] {
                                    lemma_later_update(ops, i - 1, id, c);
                                }
                            } else if !updated_later(ops, i, id, col) {
                                let rows = last->0.rows;
                                let o = choose|o: int| 0 <= o < rows.len() && rows[o] == w[k];
                                assert(rows[o].id == id);
                            }
                        }
                    }
                } else {
                    assert(after =~= now) by {
                        assert forall|k: int| 0 <= k < now.len() implies after[k] == now[k] by {
                            assert(now[k].id == id);
                            assert(!seq![a].contains(id));
                        }
                    }
                }
            },
            _ => {},
        }
    }
}

proof fn lemma_one_id_twice(x: Option<Table>, ops: Seq<Op>, id: u64)
    requires
        workable(x, ops),
        no_drop(ops, 0, ops.len() as int),
        stepped(x, ops, ops.len() as int) is Some,
    ensures
        ({
            let last = stepped(x, ops, ops.len() as int);
            let again = stepped(last, ops, ops.len() as int);
            &&& again is Some
            &&& again->0.schema == last->0.schema
            &&& rows_with(again->0.rows, id) == rows_with(last->0.rows, id)
        }),
{
    let n = ops.len() as int;
    let last = stepped(x, ops, n);
    let again = stepped(last, ops, n);
    if deleted_later(ops, 0, id) {
        let j = choose|j: int| 0 <= j < n && #[trigger] ops[j] == Op::Delete(id);
        assert(no_drop(ops, j, n) && no_drop(ops, j + 1, n) && no_drop(ops, 0, j)) by {
            assert forall|k: int| 0 <= k < n implies #[trigger] ops[k] != Op::Drop by {}
        }
        assert(workable_at(x, ops, j));
        lemma_stays(x, ops, j, n);
        assert(stepped(last, ops, 0) == last);
        lemma_stays(last, ops, 0, j);
        lemma_with_without(stepped(x, ops, j)->0.rows, id, id);
        lemma_with_without(stepped(last, ops, j)->0.rows, id, id);
        lemma_alike(last, x, ops, j + 1, n, id);
    } else {
        lemma_kept_id(x, ops, n, id);
        let w = rows_with(last->0.rows, id);
        let u = rows_with(again->0.rows, id);
        assert forall|k: int| 0 <= k < w.len() implies w[k] == u[k] by {
            assert(nearly_row(w[k], u[k], ops, n));
            assert(w[k].values =~= u[k].values);
        }
        assert(w =~= u);
    }
}

proof fn lemma_rows_twice(x: Option<Table>, ops: Seq<Op>)
    requires
        workable(x, ops),
    ensures
        same_rows(
            stepped(stepped(x, ops, ops.len() as int), ops, ops.len() as int),
            stepped(x, ops, ops.len() as int),
        ),
{
    let n = ops.len() as int;
    let last = stepped(x, ops, n);
    if !no_drop(ops, 0, n) {
        let j = choose|j: int| 0 <= j < n && #[trigger] ops[j] == Op::Drop;
        lemma_after_drop(last, x, ops, j, n);
    } else if last is None {
        lemma_never_there(x, ops, n);
    } else {
        let again = stepped(last, ops, n);
        lemma_one_id_twice(x, ops, 0);
        assert forall|id: u64| #[trigger]
            rows_with(again->0.rows, id) == rows_with(last->0.rows, id) by {
            lemma_one_id_twice(x, ops, id);
        }
    }
}

/// A log whose lines have something to work on, replayed on what it made of a table,
/// changes neither the schema nor the rows under any id. Where no id is given twice, it
/// does not change their order either.
pub proof fn law_table_replayed_twice(x: Option<Table>, ops: Seq<Op>)
    requires
        workable(x, ops),
    ensures
        same_rows(
            stepped(stepped(x, ops, ops.len() as int), ops, ops.len() as int),
            stepped(x, ops, ops.len() as int),
        ),
        sensible(x, ops) ==> stepped(stepped(x, ops, ops.len() as int), ops, ops.len() as int)
            == stepped(x, ops, ops.len() as int),
{
    let n = ops.len() as int;
    let last = stepped(x, ops, n);
    lemma_rows_twice(x, ops);
    if sensible(x, ops) {
        if !no_drop(ops, 0, n) {
            let j = choose|j: int| 0 <= j < n && #[trigger] ops[j] == Op::Drop;
            lemma_after_drop(last, x, ops, j, n);
        } else if last is None {
            lemma_never_there(x, ops, n);
        } else {
            lemma_nearly(x, ops, n);
            lemma_nearly_end(last->0, stepped(last, ops, n)->0, ops);
        }
    }
}

/// A log that has been replayed, replayed again, changes neither the schema of a table
/// nor its rows under any id. Where no id is given twice, it does not change their order
/// either.
pub proof fn law_log_replayed_twice(db: Database, l: Seq<Seq<char>>, t: Seq<char>)
    requires
        db.wf(),
        workable(look(db, t), ops_of(l, t)),
    ensures
        ({
            let once = after_log(db, l, l.len() as int);
            let twice = after_log(once, l, l.len() as int);
            &&& same_rows(look(twice, t), look(once, t))
            &&& sensible(look(db, t), ops_of(l, t)) ==> look(twice, t) == look(once, t)
        }),
{
    let n = l.len() as int;
    lemma_log(db, l, n, t);
    lemma_log(after_log(db, l, n), l, n, t);
    law_table_replayed_twice(look(db, t), ops_of(l, t));
}

// ---------------------------------------------------------------------------
// The logs of statements
// ---------------------------------------------------------------------------

/// A database whose tables have columns.
pub open spec fn columned(db: Database) -> bool {
    &&& db.wf()
    &&& forall|i: int|
        0 <= i < db.tables.len() ==> (#[trigger] db.tables[i]).schema.columns.len() > 0
}

/// A log all of whose lines have something to work on, whatever the table.
pub open spec fn workable_log(base: Database, l: Seq<Seq<char>>) -> bool {
    forall|t: Seq<char>| #[trigger] workable(look(base, t), ops_of(l, t))
}

/// The table `p`, where there is one, has the schema of the table `x` and all its ids.
pub open spec fn covers(p: Option<Table>, x: Option<Table>) -> bool {
    match (p, x) {
        (None, None) => true,
        (Some(a), Some(b)) => a.schema == b.schema && forall|id: u64| #[trigger]
            has_row(b.rows, id) ==> has_row(a.rows, id),
        _ => false,
    }
}

/// The lines of the machine's log have something to work on when the log is replayed on
/// `base`, and the replay gives tables with the schemas and the ids of the machine's.
/// Nothing is asked of the next id.
pub open spec fn traceable(base: Database, m: Machine) -> bool {
    &&& base.wf()
    &&& m.log is Some
    &&& settled(m.log->0)
    &&& columned(m.db)
    &&& workable_log(base, entries(m.log->0))
    &&& forall|t: Seq<char>| #[trigger]
        covers(
            stepped(look(base, t), ops_of(entries(m.log->0), t), entries(m.log->0).len() as int),
            look(m.db, t),
        )
}

/// The table is there, with rows that have the ids.
pub open spec fn stands(db: Database, t: Seq<char>, ids: Seq<u64>) -> bool {
    db.has(t) && forall|i: int|
        0 <= i < ids.len() ==> has_row(db.table(t).rows, #[trigger] ids[i])
}

/// A change is about a table that is there, and updates rows that are there.
pub open spec fn works_on(db: Database, a: Alteration) -> bool {
    match a {
        Alteration::Insert(t, _) => db.has(t),
        Alteration::Delete(t, _) => db.has(t),
        Alteration::Update(t, ids, _, _) => stands(db, t, ids),
        _ => true,
    }
}

proof fn lemma_stepped_prefix(x: Option<Table>, a: Seq<Op>, b: Seq<Op>, n: int)
    requires
        0 <= n <= a.len(),
    ensures
        stepped(x, a + b, n) == stepped(x, a, n),
    decreases n,
{
    if n > 0 {
        lemma_stepped_prefix(x, a, b, n - 1);
        assert((a + b)[n - 1] == a[n - 1]);
    }
}

proof fn lemma_above_prefix(x: Option<Table>, a: Seq<Op>, b: Seq<Op>, n: int, id: u64)
    requires
        0 <= n <= a.len(),
        above_all(x, a, n, id),
    ensures
        above_all(x, a + b, n, id),
{
    assert forall|j: int, k: int|
        0 <= j <= n && #[trigger] stepped(x, a + b, j) is Some && 0 <= k < stepped(
            x,
            a + b,
            j,
        )->0.rows.len() implies (#[trigger] stepped(x, a + b, j)->0.rows[k]).id < id by {
        lemma_stepped_prefix(x, a, b, j);
        assert(stepped(x, a, j)->0.rows[k].id < id);
    }
}

proof fn lemma_stepped_concat(x: Option<Table>, a: Seq<Op>, b: Seq<Op>, k: int)
    requires
        0 <= k <= b.len(),
    ensures
        stepped(x, a + b, a.len() + k) == stepped(stepped(x, a, a.len() as int), b, k),
    decreases k,
{
    if k > 0 {
        lemma_stepped_concat(x, a, b, k - 1);
        assert((a + b)[a.len() + k - 1] == b[k - 1]);
    } else {
        lemma_stepped_prefix(x, a, b, a.len() as int);
    }
}

proof fn lemma_nothing(x: Option<Table>, ops: Seq<Op>, n: int)
    requires
        0 <= n <= ops.len(),
        forall|i: int| 0 <= i < ops.len() ==> #[trigger] ops[i] == Op::Nothing,
    ensures
        stepped(x, ops, n) == x,
    decreases n,
{
    if n > 0 {
        lemma_nothing(x, ops, n - 1);
        assert(ops[n - 1] == Op::Nothing);
    }
}

/// The table that a change is about.
pub open spec fn table_of(a: Alteration) -> Seq<char> {
    match a {
        Alteration::Create(s) => s.name,
        Alteration::Drop(t) => t,
        Alteration::Insert(t, _) => t,
        Alteration::Delete(t, _) => t,
        Alteration::Update(t, _, _, _) => t,
    }
}

/// What the records of a change do to a table.
proof fn lemma_record_ops(a: Alteration, next_id: u64, k: int, t: Seq<char>)
    requires
        recordable(a),
        0 <= k < records(a, next_id).len(),
    ensures
        op_of(records(a, next_id)[k], t) == if t != table_of(a) {
            Op::Nothing
        } else {
            match a {
                Alteration::Create(s) => Op::Create(s),
                Alteration::Drop(_) => Op::Drop,
                Alteration::Insert(_, v) => if v.len() > 0 {
                    Op::Insert(next_id, v)
                } else {
                    Op::Nothing
                },
                Alteration::Delete(_, ids) => Op::Delete(ids[k]),
                Alteration::Update(_, ids, col, d) => Op::Update(ids[k], col as int, d),
            }
        },
{
    lemma_heads();
    match a {
        Alteration::Create(s) => {
            let l = records(a, next_id)[k];
            lemma_columns_line("T"@, s.name, s.columns);
            assert(columns_coded("列格式错误: "@, fields(l).skip(2)) == Ok::<
                Seq<Column>,
                Seq<char>,
            >(s.columns));
        },
        Alteration::Drop(u) => {
            lemma_name_line("DROP"@, u);
        },
        Alteration::Insert(u, v) => {
            if v.len() > 0 {
                lemma_values_line("I"@, u, next_id, v);
                law_read_shown_nat(next_id as nat, u64::MAX as nat);
            } else {
                assert(v =~= Seq::empty());
                lemma_empty_row_ops(u, next_id, t);
            }
        },
        Alteration::Delete(u, ids) => {
            lemma_short_line("D"@, u, ids[k]);
            law_read_shown_nat(ids[k] as nat, u64::MAX as nat);
        },
        Alteration::Update(u, ids, col, d) => {
            lemma_update_fields(u, ids[k], col, d);
            law_read_shown_nat(ids[k] as nat, u64::MAX as nat);
            law_read_shown_nat(col as nat, usize::MAX as nat);
            law_value_round_trip(d);
        },
    }
}

proof fn lemma_empty_row_ops(u: Seq<char>, id: u64, t: Seq<char>)
    requires
        clean_name(u),
    ensures
        op_of(
            "I|"@ + u + "|"@ + show_nat(id as nat) + "|"@ + values_code(Seq::empty()),
            t,
        ) is Nothing,
{
    lemma_empty_row_fields(u, id);
    lemma_heads();
    lemma_empty_value();
    let e = Seq::<char>::empty();
    let l = "I|"@ + u + "|"@ + show_nat(id as nat) + "|"@ + values_code(Seq::empty());
    assert(fields(l).skip(3) =~= seq![e]);
    assert(seq![e].drop_last() =~= Seq::empty());
    assert(values_coded(seq![e]) is Err);
}

/// A change does nothing to other tables, and makes no table without columns.
proof fn lemma_change_look(db: Database, a: Alteration, t: Seq<char>)
    requires
        columned(db),
        recordable(a),
    ensures
        columned(after_change(db, a)),
        t != table_of(a) ==> look(after_change(db, a), t) == look(db, t),
{
    let next = after_change(db, a);
    let u = table_of(a);
    lemma_found(db, u);
    match a {
        Alteration::Create(s) => {
            if !db.has(u) {
                lemma_created(db, s, t);
                assert forall|i: int| 0 <= i < next.tables.len() implies (
                #[trigger] next.tables[i]).schema.columns.len() > 0 by {
                    if i < db.tables.len() {
                        assert(db.tables[i].schema.columns.len() > 0);
                    }
                }
            }
        },
        Alteration::Drop(_) => {
            if db.has(u) {
                lemma_dropped(db, u, t);
                assert forall|i: int| 0 <= i < next.tables.len() implies (
                #[trigger] next.tables[i]).schema.columns.len() > 0 by {
                    let o = if i < db.index(u) {
                        i
                    } else {
                        i + 1
                    };
                    assert(next.tables[i] == db.tables[o]);
                    assert(db.tables[o].schema.columns.len() > 0);
                }
            }
        },
        Alteration::Insert(_, v) => {
            if next != db {
                let rows = db.table(u).rows.push(Record { id: db.next_id, values: v });
                lemma_rows_look(db, u, rows, next, t);
            }
        },
        Alteration::Delete(_, ids) => {
            if db.has(u) {
                lemma_rows_look(db, u, rows_without(db.table(u).rows, ids), next, t);
            }
        },
        Alteration::Update(_, ids, col, d) => {
            if db.has(u) {
                lemma_rows_look(
                    db,
                    u,
                    updated_rows(db.table(u).rows, ids, col as int, d),
                    next,
                    t,
                );
            }
        },
    }
}

proof fn lemma_rows_look(
    db: Database,
    u: Seq<char>,
    rows: Seq<Record>,
    next: Database,
    t: Seq<char>,
)
    requires
        columned(db),
        db.has(u),
        next.tables == db.with_rows(u, rows).tables,
    ensures
        columned(next),
        look(next, t) == if t == u {
            Some(Table { schema: db.table(u).schema, rows })
        } else {
            look(db, t)
        },
{
    lemma_found(db, u);
    lemma_with_rows(db, u, rows, t);
    assert forall|i: int| 0 <= i < next.tables.len() implies (
    #[trigger] next.tables[i]).schema.columns.len() > 0 by {
        assert(db.tables[i].schema.columns.len() > 0);
    }
}

proof fn lemma_delete_steps(p: Table, ids: Seq<u64>, ops: Seq<Op>, k: int)
    requires
        ops.len() == ids.len(),
        forall|i: int| 0 <= i < ids.len() ==> #[trigger] ops[i] == Op::Delete(ids[i]),
        0 <= k <= ids.len(),
    ensures
        stepped(Some(p), ops, k) is Some,
        stepped(Some(p), ops, k)->0.schema == p.schema,
        forall|id: u64| #[trigger]
            has_row(stepped(Some(p), ops, k)->0.rows, id) <==> has_row(p.rows, id) && !ids.take(
                k,
            ).contains(id),
    decreases k,
{
    if k > 0 {
        lemma_delete_steps(p, ids, ops, k - 1);
        let before = stepped(Some(p), ops, k - 1)->0;
        assert(ops[k - 1] == Op::Delete(ids[k - 1]));
        let after = stepped(Some(p), ops, k)->0;
        assert(ids.take(k) =~= ids.take(k - 1).push(ids[k - 1]));
        assert forall|id: u64| #[trigger]
            has_row(after.rows, id) <==> has_row(p.rows, id) && !ids.take(k).contains(id) by {
            lemma_without_one(before.rows, ids[k - 1], id);
            assert(has_row(before.rows, id) <==> has_row(p.rows, id) && !ids.take(k - 1).contains(
                id,
            ));
            lemma_push_id(ids.take(k - 1), ids[k - 1], id);
        }
    }
}

proof fn lemma_push_id(ids: Seq<u64>, x: u64, id: u64)
    ensures
        ids.push(x).contains(id) <==> ids.contains(id) || x == id,
{
    let more = ids.push(x);
    if ids.contains(id) {
        let k = choose|k: int| 0 <= k < ids.len() && ids[k] == id;
        assert(more[k] == id);
    }
    if x == id {
        assert(more[ids.len() as int] == id);
    }
    if more.contains(id) {
        let k = choose|k: int| 0 <= k < more.len() && more[k] == id;
        if k < ids.len() {
            assert(ids[k] == id);
        }
    }
}

proof fn lemma_update_steps(p: Table, ids: Seq<u64>, col: int, d: Datum, ops: Seq<Op>, k: int)
    requires
        ops.len() == ids.len(),
        forall|i: int| 0 <= i < ids.len() ==> #[trigger] ops[i] == Op::Update(ids[i], col, d),
        0 <= k <= ids.len(),
    ensures
        stepped(Some(p), ops, k) is Some,
        stepped(Some(p), ops, k)->0.schema == p.schema,
        forall|id: u64| #[trigger]
            has_row(stepped(Some(p), ops, k)->0.rows, id) <==> has_row(p.rows, id),
    decreases k,
{
    if k > 0 {
        lemma_update_steps(p, ids, col, d, ops, k - 1);
        let before = stepped(Some(p), ops, k - 1)->0;
        assert(ops[k - 1] == Op::Update(ids[k - 1], col, d));
        let after = stepped(Some(p), ops, k)->0;
        assert forall|id: u64| #[trigger] has_row(after.rows, id) <==> has_row(p.rows, id) by {
            lemma_update_rows_ids(before.rows, ids[k - 1], col, d, id);
            assert(has_row(before.rows, id) <==> has_row(p.rows, id));
        }
    }
}

/// The records of a change have something to work on in a table that covers the one that
/// the change is made to, and leave it covering that one.
proof fn lemma_change_ops(p: Option<Table>, db: Database, a: Alteration, t: Seq<char>)
    requires
        columned(db),
        recordable(a),
        works_on(db, a),
        covers(p, look(db, t)),
    ensures
        ({
            let ops = ops_of(records(a, db.next_id), t);
            &&& workable(p, ops)
            &&& covers(stepped(p, ops, ops.len() as int), look(after_change(db, a), t))
        }),
{
    let r = records(a, db.next_id);
    let ops = ops_of(r, t);
    let n = ops.len() as int;
    let u = table_of(a);
    lemma_change_look(db, a, t);
    assert forall|k: int| 0 <= k < n implies #[trigger] ops[k] == op_of(r[k], t) by {}
    if t != u {
        assert forall|k: int| 0 <= k < n implies #[trigger] ops[k] == Op::Nothing by {
            lemma_record_ops(a, db.next_id, k, t);
        }
        lemma_nothing(p, ops, n);
    } else {
        match a {
            Alteration::Create(s) => {
                lemma_record_ops(a, db.next_id, 0, t);
                reveal_with_fuel(stepped, 2);
                if !db.has(u) {
                    lemma_created(db, s, t);
                }
            },
            Alteration::Drop(_) => {
                lemma_record_ops(a, db.next_id, 0, t);
                reveal_with_fuel(stepped, 2);
                if db.has(u) {
                    lemma_dropped(db, u, t);
                }
            },
            Alteration::Insert(_, v) => {
                lemma_record_ops(a, db.next_id, 0, t);
                reveal_with_fuel(stepped, 2);
                lemma_insert_covers(p, db, u, v);
            },
            Alteration::Delete(_, ids) => {
                assert forall|k: int| 0 <= k < ids.len() implies #[trigger] ops[k]
                    == Op::Delete(ids[k]) by {
                    lemma_record_ops(a, db.next_id, k, t);
                }
                lemma_delete_covers(p, db, u, ids, ops);
            },
            Alteration::Update(_, ids, col, d) => {
                assert forall|k: int| 0 <= k < ids.len() implies #[trigger] ops[k]
                    == Op::Update(ids[k], col as int, d) by {
                    lemma_record_ops(a, db.next_id, k, t);
                }
                lemma_update_covers(p, db, u, ids, col, d, ops);
            },
        }
    }
}

proof fn lemma_insert_covers(p: Option<Table>, db: Database, u: Seq<char>, v: Seq<Datum>)
    requires
        columned(db),
        db.has(u),
        covers(p, look(db, u)),
    ensures
        covers(
            step(
                p,
                if v.len() > 0 {
                    Op::Insert(db.next_id, v)
                } else {
                    Op::Nothing
                },
            ),
            look(after_change(db, Alteration::Insert(u, v)), u),
        ),
{
    let next = after_change(db, Alteration::Insert(u, v));
    let rows = db.table(u).rows;
    let r = Record { id: db.next_id, values: v };
    lemma_found(db, u);
    assert(db.tables[db.index(u)].schema.columns.len() > 0);
    let op = if v.len() > 0 {
        Op::Insert(db.next_id, v)
    } else {
        Op::Nothing
    };
    let q = step(p, op)->0;
    if next != db {
        lemma_rows_look(db, u, rows.push(r), next, u);
        assert forall|id: u64| #[trigger] has_row(rows.push(r), id) implies has_row(q.rows, id) by {
            lemma_push_row(rows, r, id);
            lemma_push_row(p->0.rows, r, id);
            assert(has_row(rows, id) ==> has_row(p->0.rows, id));
        }
    } else {
        assert forall|id: u64| #[trigger] has_row(rows, id) implies has_row(q.rows, id) by {
            lemma_push_row(p->0.rows, r, id);
        }
    }
}

proof fn lemma_delete_covers(
    p: Option<Table>,
    db: Database,
    u: Seq<char>,
    ids: Seq<u64>,
    ops: Seq<Op>,
)
    requires
        columned(db),
        db.has(u),
        covers(p, look(db, u)),
        ops.len() == ids.len(),
        forall|i: int| 0 <= i < ids.len() ==> #[trigger] ops[i] == Op::Delete(ids[i]),
    ensures
        workable(p, ops),
        covers(
            stepped(p, ops, ops.len() as int),
            look(after_change(db, Alteration::Delete(u, ids)), u),
        ),
{
    let n = ops.len() as int;
    let rows = db.table(u).rows;
    let left = rows_without(rows, ids);
    let next = after_change(db, Alteration::Delete(u, ids));
    lemma_rows_look(db, u, left, next, u);
    assert forall|k: int| 0 <= k < n implies #[trigger] workable_at(p, ops, k) by {
        lemma_delete_steps(p->0, ids, ops, k);
        assert(ops[k] == Op::Delete(ids[k]));
    }
    lemma_delete_steps(p->0, ids, ops, n);
    law_delete(rows, ids);
    assert(ids.take(n) =~= ids);
    let q = stepped(p, ops, n)->0;
    assert forall|id: u64| #[trigger] has_row(left, id) implies has_row(q.rows, id) by {
        let i = choose|i: int| 0 <= i < left.len() && (#[trigger] left[i]).id == id;
        assert(left.contains(left[i]));
        assert(rows.contains(left[i]) && !ids.contains(id));
        let k = choose|k: int| 0 <= k < rows.len() && rows[k] == left[i];
        assert(rows[k].id == id);
        assert(has_row(rows, id));
    }
}

proof fn lemma_update_covers(
    p: Option<Table>,
    db: Database,
    u: Seq<char>,
    ids: Seq<u64>,
    col: usize,
    d: Datum,
    ops: Seq<Op>,
)
    requires
        columned(db),
        stands(db, u, ids),
        covers(p, look(db, u)),
        ops.len() == ids.len(),
        forall|i: int|
            0 <= i < ids.len() ==> #[trigger] ops[i] == Op::Update(ids[i], col as int, d),
    ensures
        workable(p, ops),
        covers(
            stepped(p, ops, ops.len() as int),
            look(after_change(db, Alteration::Update(u, ids, col, d)), u),
        ),
{
    let n = ops.len() as int;
    let rows = db.table(u).rows;
    let after = updated_rows(rows, ids, col as int, d);
    let next = after_change(db, Alteration::Update(u, ids, col, d));
    lemma_rows_look(db, u, after, next, u);
    assert forall|k: int| 0 <= k < n implies #[trigger] workable_at(p, ops, k) by {
        lemma_update_steps(p->0, ids, col as int, d, ops, k);
        assert(ops[k] == Op::Update(ids[k], col as int, d));
        assert(has_row(rows, ids[k]));
        assert(has_row(p->0.rows, ids[k]));
        assert(has_row(stepped(p, ops, k)->0.rows, ids[k]) <==> has_row(p->0.rows, ids[k]));
    }
    lemma_update_steps(p->0, ids, col as int, d, ops, n);
    let q = stepped(p, ops, n)->0;
    assert forall|id: u64| #[trigger] has_row(after, id) implies has_row(q.rows, id) by {
        let i = choose|i: int| 0 <= i < after.len() && (#[trigger] after[i]).id == id;
        assert(rows[i].id == id);
        assert(has_row(rows, id));
    }
}

/// A logged change keeps the machine traceable: the part on one table.
proof fn lemma_step_workable(base: Database, m: Machine, a: Alteration, t: Seq<char>)
    requires
        traceable(base, m),
        recordable(a),
        works_on(m.db, a),
    ensures
        ({
            let e = entries(m.log->0) + records(a, m.db.next_id);
            &&& workable(look(base, t), ops_of(e, t))
            &&& covers(
                stepped(look(base, t), ops_of(e, t), e.len() as int),
                look(after_change(m.db, a), t),
            )
        }),
{
    let e = entries(m.log->0);
    let r = records(a, m.db.next_id);
    let x = look(base, t);
    let old_ops = ops_of(e, t);
    let new_ops = ops_of(r, t);
    let ops = ops_of(e + r, t);
    let p = stepped(x, old_ops, e.len() as int);
    assert(ops =~= old_ops + new_ops);
    assert(workable(x, old_ops));
    assert(covers(p, look(m.db, t)));
    lemma_change_ops(p, m.db, a, t);
    assert forall|i: int| 0 <= i < ops.len() implies #[trigger] workable_at(x, ops, i) by {
        if i < e.len() {
            assert(workable_at(x, old_ops, i));
            lemma_stepped_prefix(x, old_ops, new_ops, i);
            assert(ops[i] == old_ops[i]);
        } else {
            let k = i - e.len();
            assert(workable_at(p, new_ops, k));
            lemma_stepped_concat(x, old_ops, new_ops, k);
            assert(ops[i] == new_ops[k]);
        }
    }
    lemma_stepped_concat(x, old_ops, new_ops, r.len() as int);
}

/// A logged change keeps the machine traceable.
proof fn lemma_step_traceable(base: Database, m: Machine, a: Alteration)
    requires
        traceable(base, m),
        recordable(a),
        works_on(m.db, a),
    ensures
        traceable(base, m.stepped(a)),
{
    let e = entries(m.log->0);
    let r = records(a, m.db.next_id);
    lemma_appended_all(m.log->0, r);
    assert(m.stepped(a).log == Some(m.log->0.appended_all(r)));
    assert(entries(m.stepped(a).log->0) == e + r);
    assert(m.stepped(a).db == after_change(m.db, a));
    lemma_change_look(m.db, a, Seq::empty());
    assert forall|t: Seq<char>| #[trigger] workable(look(base, t), ops_of(e + r, t)) by {
        lemma_step_workable(base, m, a, t);
    }
    assert forall|t: Seq<char>| #[trigger]
        covers(
            stepped(look(base, t), ops_of(e + r, t), (e + r).len() as int),
            look(m.stepped(a).db, t),
        ) by {
        lemma_step_workable(base, m, a, t);
    }
}

// ---------------------------------------------------------------------------
// Statements are about what is there
// ---------------------------------------------------------------------------

proof fn lemma_rows_stand(db: Database, t: Seq<char>, rows: Seq<Record>, next: u64, ids: Seq<u64>)
    requires
        stands(db, t, ids),
        forall|id: u64| has_row(db.table(t).rows, id) ==> #[trigger] has_row(rows, id),
    ensures
        stands(Database { next_id: next, ..db.with_rows(t, rows) }, t, ids),
{
    lemma_with_rows_again(db, t, rows, rows);
    let d = Database { next_id: next, ..db.with_rows(t, rows) };
    assert(d.tables == db.with_rows(t, rows).tables);
    assert(d.has(t) && d.table(t).rows == rows);
    assert forall|i: int| 0 <= i < ids.len() implies has_row(d.table(t).rows, #[trigger] ids[i]) by {
        assert(has_row(db.table(t).rows, ids[i]));
    }
}

/// Inserting rows into a table or updating its rows leaves them there.
proof fn lemma_change_stands(db: Database, a: Alteration, t: Seq<char>, ids: Seq<u64>)
    requires
        stands(db, t, ids),
        (a matches Alteration::Insert(u, _) && u == t) || (a matches Alteration::Update(
            u,
            _,
            _,
            _,
        ) && u == t),
    ensures
        stands(after_change(db, a), t, ids),
{
    let rows = db.table(t).rows;
    match a {
        Alteration::Insert(_, v) => {
            if db.insert_error(t, v) is None && db.next_id < u64::MAX {
                let r = Record { id: db.next_id, values: v };
                assert forall|id: u64| has_row(rows, id) implies #[trigger] has_row(
                    rows.push(r),
                    id,
                ) by {
                    lemma_push_row(rows, r, id);
                }
                lemma_rows_stand(db, t, rows.push(r), (db.next_id + 1) as u64, ids);
            }
        },
        Alteration::Update(_, changed, col, d) => {
            let after = updated_rows(rows, changed, col as int, d);
            assert forall|id: u64| has_row(rows, id) implies #[trigger] has_row(after, id) by {
                lemma_ids_after_update(rows, changed, col as int, d, id);
            }
            lemma_rows_stand(db, t, after, db.next_id, ids);
        },
        _ => {},
    }
}

proof fn lemma_ran_stands(m: Machine, a: Seq<Alteration>, n: int, t: Seq<char>, ids: Seq<u64>)
    requires
        stands(m.db, t, ids),
        0 <= n <= a.len(),
        forall|i: int|
            0 <= i < a.len() ==> ((#[trigger] a[i]) matches Alteration::Insert(u, _) && u == t) || (
            a[i] matches Alteration::Update(u, _, _, _) && u == t),
    ensures
        stands(m.ran(a, n).0.db, t, ids),
    decreases n,
{
    if n > 0 {
        lemma_ran_stands(m, a, n - 1, t, ids);
        if m.ran(a, n - 1).1 is Ok {
            lemma_change_stands(m.ran(a, n - 1).0.db, a[n - 1], t, ids);
        }
    }
}

/// The ids that a statement is about are those of rows of the table; each once, where
/// the table's rows stand in the order of their ids.
proof fn lemma_matched_ids(db: Database, t: Seq<char>, condition: Option<Seq<char>>)
    requires
        db.has(t),
    ensures
        ascending(db.table(t).rows) ==> matched_ids(db, t, condition).no_duplicates(),
        stands(db, t, matched_ids(db, t, condition)),
{
    let rows = db.table(t).rows;
    let c = db.table(t).schema.columns;
    let found = matched(rows, condition, c);
    let ids = matched_ids(db, t, condition);
    match condition {
        Some(w) => {
            lemma_filtered_from(rows, w, c);
            if ascending(rows) {
                lemma_ascending_distinct(rows);
                law_condition_selects(rows, w, c);
            }
        },
        None => {},
    }
    if ascending(rows) {
        assert forall|i: int, j: int|
            0 <= i < ids.len() && 0 <= j < ids.len() && i != j implies ids[i] != ids[j] by {
            if i < j {
                assert(found[i].id < found[j].id);
            } else {
                assert(found[j].id < found[i].id);
            }
        }
    }
    assert forall|i: int| 0 <= i < ids.len() implies has_row(rows, #[trigger] ids[i]) by {
        assert(found.contains(found[i]));
        assert(rows.contains(found[i]));
        let k = choose|k: int| 0 <= k < rows.len() && rows[k] == found[i];
        assert(rows[k].id == ids[i]);
    }
}

proof fn lemma_assignments(
    columns: Seq<Column>,
    table: Seq<char>,
    ids: Seq<u64>,
    a: Seq<(Seq<char>, Seq<char>)>,
)
    ensures
        forall|i: int|
            0 <= i < assignment_changes(columns, table, ids, a).changes.len() ==> ((
            #[trigger] assignment_changes(columns, table, ids, a).changes[i])
                matches Alteration::Update(u, w, _, _) && u == table && w == ids),
    decreases a.len(),
{
    if a.len() > 0 {
        lemma_assignments(columns, table, ids, a.drop_last());
        let before = assignment_changes(columns, table, ids, a.drop_last());
        let all = assignment_changes(columns, table, ids, a);
        assert forall|i: int| 0 <= i < all.changes.len() implies ((#[trigger] all.changes[i])
            matches Alteration::Update(u, w, _, _) && u == table && w == ids) by {
            if i < before.changes.len() {
                assert(all.changes[i] == before.changes[i]);
            }
        }
    }
}

/// Each change of a statement is about what is there when it comes up.
proof fn lemma_course_targets(m: Machine, s: Statement, k: int)
    requires
        0 <= k < planned(m.db, s).changes.len(),
        m.ran(planned(m.db, s).changes, k).1 is Ok,
    ensures
        works_on(m.ran(planned(m.db, s).changes, k).0.db, planned(m.db, s).changes[k]),
        orderly(m.db) ==> targets(
            m.ran(planned(m.db, s).changes, k).0.db,
            planned(m.db, s).changes[k],
        ),
{
    let db = m.db;
    let a = planned(db, s).changes;
    match s {
        Statement::Insert { table, columns, values } => {
            if db.has(table) {
                let rows = rows_read(db.table(table).schema.columns, values)->Ok_0;
                assert forall|i: int| 0 <= i < a.len() implies ((#[trigger] a[i])
                    matches Alteration::Insert(u, _) && u == table) by {
                    assert(a[i] == Alteration::Insert(table, rows[i]));
                }
                lemma_ran_stands(m, a, k, table, Seq::empty());
            }
        },
        Statement::Delete { table, condition } => {
            if db.has(table) {
                lemma_matched_ids(db, table, condition);
                lemma_found(db, table);
                if orderly(db) {
                    assert(orderly_table(db.tables[db.index(table)], db.next_id));
                }
            }
        },
        Statement::Update { table, assignments, condition } => {
            if db.has(table) {
                let ids = matched_ids(db, table, condition);
                lemma_matched_ids(db, table, condition);
                lemma_assignments(db.table(table).schema.columns, table, ids, assignments);
                lemma_ran_stands(m, a, k, table, ids);
                let now = m.ran(a, k).0.db;
                assert(a[k] matches Alteration::Update(u, w, _, _) && u == table && w == ids);
                assert(stands(now, table, ids));
            }
        },
        _ => {},
    }
}

proof fn lemma_ran_traceable(base: Database, m: Machine, s: Statement, n: int)
    requires
        traceable(base, m),
        recordable_course(planned(m.db, s)),
        0 <= n <= planned(m.db, s).changes.len(),
    ensures
        traceable(base, m.ran(planned(m.db, s).changes, n).0),
    decreases n,
{
    let a = planned(m.db, s).changes;
    if n > 0 {
        lemma_ran_traceable(base, m, s, n - 1);
        if m.ran(a, n - 1).1 is Ok {
            lemma_course_targets(m, s, n - 1);
            lemma_step_traceable(base, m.ran(a, n - 1).0, a[n - 1]);
        }
    }
}

/// A statement keeps the machine traceable, whatever the ids are. This leaves out names,
/// values and tables that the log cannot tell in full.
pub proof fn law_statement_traceable(base: Database, m: Machine, s: Statement)
    requires
        traceable(base, m),
        recordable_course(planned(m.db, s)),
    ensures
        traceable(base, m.executed(s).0),
{
    lemma_ran_traceable(base, m, s, planned(m.db, s).changes.len() as int);
}

/// With an empty log, a machine is traceable.
pub proof fn law_fresh_log_traceable(db: Database, l: Log)
    requires
        columned(db),
        entries(l).len() == 0,
    ensures
        traceable(db, Machine { db, log: Some(l) }),
{
}

/// A script keeps the machine traceable, up to the statement that fails, if one does.
pub proof fn law_script_traceable(base: Database, m: Machine, s: Seq<Statement>, n: int)
    requires
        traceable(base, m),
        0 <= n <= s.len(),
        recordable_script(m, s, n),
    ensures
        traceable(base, m.executed_all(s, n).0),
    decreases n,
{
    if n > 0 {
        law_script_traceable(base, m, s, n - 1);
        if m.executed_all(s, n - 1).1 is Ok {
            law_statement_traceable(base, m.executed_all(s, n - 1).0, s[n - 1]);
        }
    }
}

/// The log of statements, replayed twice, gives the tables that it gives when it is
/// replayed once: the same schemas, and the same rows under each id.
pub proof fn law_statements_replayed_twice(base: Database, m: Machine, t: Seq<char>)
    requires
        traceable(base, m),
    ensures
        ({
            let e = entries(m.log->0);
            let once = after_log(base, e, e.len() as int);
            let twice = after_log(once, e, e.len() as int);
            &&& same_rows(look(twice, t), look(once, t))
            &&& sensible(look(base, t), ops_of(e, t)) ==> look(twice, t) == look(once, t)
            &&& once.next_id == base.next_id
            &&& twice.next_id == base.next_id
        }),
{
    let e = entries(m.log->0);
    let once = after_log(base, e, e.len() as int);
    assert(workable(look(base, t), ops_of(e, t)));
    law_log_replayed_twice(base, e, t);
    law_replay_keeps_next_id(base, e, e.len() as int);
    law_replay_keeps_next_id(once, e, e.len() as int);
}

/// A log that statements wrote, replayed on the tables that they left, changes neither
/// the schema of a table nor its rows under any id: it does no harm that a database was
/// saved and its log was not emptied. Where no id is given twice, it does not change the
/// order of the rows either.
pub proof fn law_log_replayed_on_its_tables(base: Database, m: Machine, t: Seq<char>)
    requires
        traceable(base, m),
        recoverable(base, m),
    ensures
        ({
            let e = entries(m.log->0);
            let again = look(after_log(m.db, e, e.len() as int), t);
            &&& same_rows(again, look(m.db, t))
            &&& sensible(look(base, t), ops_of(e, t)) ==> again == look(m.db, t)
        }),
{
    let e = entries(m.log->0);
    let n = e.len() as int;
    law_statements_replayed_twice(base, m, t);
    lemma_same_tables(after_log(base, e, n), m.db, e, n);
}

/// A crash after a database was saved and before its log was emptied loses and repeats
/// nothing.
pub proof fn law_crash_before_log_is_emptied(base: Database, m: Machine, t: Seq<char>)
    requires
        traceable(base, m),
        recoverable(base, m),
        storable_database(m.db),
        m.log->0.pending.len() == 0,
    ensures
        ({
            let r = recovered(exported(m.db), log_text(m.log->0.ready));
            &&& r is Ok
            &&& same_rows(look(r->Ok_0, t), look(m.db, t))
            &&& sensible(look(base, t), ops_of(m.log->0.ready, t)) ==> look(r->Ok_0, t) == look(
                m.db,
                t,
            )
        }),
{
    let e = m.log->0.ready;
    assert(entries(m.log->0) =~= e);
    law_log_replayed_on_its_tables(base, m, t);
    law_save_and_load(m.db);
    assert forall|i: int| 0 <= i < e.len() implies is_line(#[trigger] e[i]) by {
        assert(is_line(entries(m.log->0)[i]));
    }
    lemma_log_lines(e);
    let h = seq!["# ProbeDB WAL v1"@];
    reveal_strlit("# ProbeDB WAL v1");
    reveal_with_fuel(after_log, 2);
    lemma_after_concat(m.db, h, e, e.len() as int);
    assert(after_log(m.db, h, 1) == m.db);
}

// ---------------------------------------------------------------------------
// Logs in which no id is given twice
// ---------------------------------------------------------------------------

/// A log that makes sense for each table: its lines have something to work on, and no id
/// is given twice.
pub open spec fn sensible_log(base: Database, l: Seq<Seq<char>>) -> bool {
    forall|t: Seq<char>| #[trigger] sensible(look(base, t), ops_of(l, t))
}

/// All rows that there have been have ids below `bound`.
pub open spec fn ids_below(base: Database, l: Seq<Seq<char>>, bound: u64) -> bool {
    forall|t: Seq<char>| #[trigger]
        above_all(look(base, t), ops_of(l, t), l.len() as int, bound)
}

/// The machine's tables are orderly, its log, replayed on `base`, gives them, and no id
/// is given twice.
pub open spec fn in_order(base: Database, m: Machine) -> bool {
    &&& base.wf()
    &&& recoverable(base, m)
    &&& orderly(m.db)
    &&& sensible_log(base, entries(m.log->0))
    &&& ids_below(base, entries(m.log->0), m.db.next_id)
}

/// A change is about what is there.
pub open spec fn targets(db: Database, a: Alteration) -> bool {
    match a {
        Alteration::Insert(t, _) => db.has(t),
        Alteration::Delete(t, ids) => db.has(t) && ids.no_duplicates() && forall|i: int|
            0 <= i < ids.len() ==> has_row(db.table(t).rows, #[trigger] ids[i]),
        Alteration::Update(t, ids, _, _) => db.has(t) && forall|i: int|
            0 <= i < ids.len() ==> has_row(db.table(t).rows, #[trigger] ids[i]),
        _ => true,
    }
}

proof fn lemma_above_never(x: Option<Table>, ops: Seq<Op>, n: int, id: u64)
    requires
        above_all(x, ops, n, id),
    ensures
        never_had(x, ops, n, id),
{
    assert forall|j: int| 0 <= j <= n && #[trigger] stepped(x, ops, j) is Some implies !has_row(
        stepped(x, ops, j)->0.rows,
        id,
    ) by {
        let rows = stepped(x, ops, j)->0.rows;
        if has_row(rows, id) {
            let k = choose|k: int| 0 <= k < rows.len() && (#[trigger] rows[k]).id == id;
            assert(stepped(x, ops, j)->0.rows[k].id < id);
        }
    }
}

/// Where a log makes sense for the table, so it does with lines behind it.
proof fn lemma_sensible_prefix(x: Option<Table>, a: Seq<Op>, b: Seq<Op>, i: int)
    requires
        0 <= i < a.len(),
        sensible_at(x, a, i),
    ensures
        sensible_at(x, a + b, i),
{
    lemma_stepped_prefix(x, a, b, i);
    assert((a + b)[i] == a[i]);
    match a[i] {
        Op::Insert(id, values) => {
            if row_error(stepped(x, a, i)->0.schema.columns, values) is None {
                assert forall|j: int|
                    0 <= j <= i && #[trigger] stepped(x, a + b, j) is Some implies !has_row(
                    stepped(x, a + b, j)->0.rows,
                    id,
                ) by {
                    lemma_stepped_prefix(x, a, b, j);
                    assert(stepped(x, a, j) is Some);
                }
            }
        },
        _ => {},
    }
}

/// The rows that are still there while rows are deleted one by one.
proof fn lemma_still_there(rows: Seq<Record>, ids: Seq<u64>, k: int)
    requires
        0 <= k < ids.len(),
        ids.no_duplicates(),
        has_row(rows, ids[k]),
    ensures
        has_row(rows_without(rows, ids.take(k)), ids[k]),
{
    law_delete(rows, ids.take(k));
    let left = rows_without(rows, ids.take(k));
    let i = choose|i: int| 0 <= i < rows.len() && (#[trigger] rows[i]).id == ids[k];
    assert(rows.contains(rows[i]));
    assert(!ids.take(k).contains(ids[k])) by {
        if ids.take(k).contains(ids[k]) {
            let j = choose|j: int| 0 <= j < k && ids.take(k)[j] == ids[k];
            assert(ids[j] == ids[k]);
        }
    }
    assert(left.contains(rows[i]));
    let j = choose|j: int| 0 <= j < left.len() && left[j] == rows[i];
    assert(left[j].id == ids[k]);
}

proof fn lemma_ids_after_update(
    rows: Seq<Record>,
    ids: Seq<u64>,
    col: int,
    d: Datum,
    id: u64,
)
    requires
        has_row(rows, id),
    ensures
        has_row(updated_rows(rows, ids, col, d), id),
{
    let after = updated_rows(rows, ids, col, d);
    let i = choose|i: int| 0 <= i < rows.len() && (#[trigger] rows[i]).id == id;
    assert(after[i].id == id);
}

/// The database between the records of a change is orderly, and each record makes sense
/// for the table as it then is.
proof fn lemma_between(db: Database, a: Alteration, k: int, t: Seq<char>)
    requires
        orderly(db),
        recordable(a),
        targets(db, a),
        a is Insert ==> db.next_id < u64::MAX,
        0 <= k <= records(a, db.next_id).len(),
    ensures
        ({
            let r = records(a, db.next_id);
            let now = look(after_log(db, r, k), t);
            let next = after_change(db, a).next_id;
            &&& db.next_id <= next
            &&& now is Some ==> forall|j: int|
                0 <= j < now->0.rows.len() ==> (#[trigger] now->0.rows[j]).id < next
            &&& k < r.len() ==> match op_of(r[k], t) {
                Op::Insert(id, _) => k == 0 && id == db.next_id && now is Some,
                Op::Delete(id) => now is Some && has_row(now->0.rows, id),
                Op::Update(id, _, _) => now is Some && has_row(now->0.rows, id),
                _ => true,
            }
        }),
{
    let r = records(a, db.next_id);
    let n = r.len() as int;
    let mid = after_log(db, r, k);
    if k < n {
        lemma_record_ops(a, db.next_id, k, t);
    }
    law_change_keeps_order(db, a);
    match a {
        Alteration::Delete(u, ids) => {
            lemma_delete_records(db, u, ids, k);
            lemma_found(db, u);
            law_change_keeps_order(db, Alteration::Delete(u, ids.take(k)));
            let b = rows_without(db.table(u).rows, ids.take(k));
            lemma_with_rows_again(db, u, b, b);
            assert(mid == after_change(db, Alteration::Delete(u, ids.take(k))));
            if k < n {
                assert(has_row(db.table(u).rows, ids[k]));
                lemma_still_there(db.table(u).rows, ids, k);
            }
        },
        Alteration::Update(u, ids, col, d) => {
            lemma_update_records(db, u, ids, col, d, k);
            lemma_found(db, u);
            law_change_keeps_order(db, Alteration::Update(u, ids.take(k), col, d));
            let b = updated_rows(db.table(u).rows, ids.take(k), col as int, d);
            lemma_with_rows_again(db, u, b, b);
            assert(mid == after_change(db, Alteration::Update(u, ids.take(k), col, d)));
            if k < n {
                assert(has_row(db.table(u).rows, ids[k]));
                lemma_ids_after_update(db.table(u).rows, ids.take(k), col as int, d, ids[k]);
            }
        },
        _ => {
            lemma_orderly_replayable(db, a);
            law_replay_change(db, a);
            assert(n == 1);
            if k == 0 {
                assert(mid == db);
            } else {
                assert(mid.tables == after_change(db, a).tables);
            }
        },
    }
    if mid.has(t) {
        lemma_found(mid, t);
        let full = after_change(db, a);
        if a is Delete || a is Update || k == 0 {
            assert(orderly_table(mid.tables[mid.index(t)], mid.next_id));
        } else {
            assert(orderly_table(full.tables[mid.index(t)], full.next_id));
        }
    }
}

/// A logged change keeps the machine in order: the part on one table.
proof fn lemma_step_sensible(base: Database, m: Machine, a: Alteration, t: Seq<char>)
    requires
        in_order(base, m),
        recordable(a),
        targets(m.db, a),
        m.stepped(a).db.next_id < u64::MAX,
    ensures
        ({
            let e = entries(m.log->0) + records(a, m.db.next_id);
            &&& sensible(look(base, t), ops_of(e, t))
            &&& above_all(look(base, t), ops_of(e, t), e.len() as int, m.stepped(a).db.next_id)
        }),
{
    let e = entries(m.log->0);
    let r = records(a, m.db.next_id);
    let all = e + r;
    let x = look(base, t);
    let old_ops = ops_of(e, t);
    let new_ops = ops_of(r, t);
    let ops = ops_of(all, t);
    let next = m.stepped(a).db.next_id;
    assert(ops =~= old_ops + new_ops);
    assert(m.stepped(a).db == after_change(m.db, a));
    law_change_keeps_order(m.db, a);
    assert(sensible(x, old_ops));
    assert(above_all(x, old_ops, e.len() as int, m.db.next_id));
    assert forall|k: int| 0 <= k <= r.len() implies #[trigger] stepped(x, ops, e.len() + k) == look(
        after_log(m.db, r, k),
        t,
    ) by {
        lemma_log(base, all, e.len() + k, t);
        lemma_after_concat(base, e, r, k);
        lemma_same_tables(after_log(base, e, e.len() as int), m.db, r, k);
    }
    assert forall|i: int| 0 <= i < ops.len() implies #[trigger] sensible_at(x, ops, i) by {
        if i < e.len() {
            assert(sensible_at(x, old_ops, i));
            lemma_sensible_prefix(x, old_ops, new_ops, i);
        } else {
            let k = i - e.len();
            lemma_between(m.db, a, k, t);
            assert(stepped(x, ops, e.len() + k) == look(after_log(m.db, r, k), t));
            assert(ops[i] == op_of(r[k], t));
            if ops[i] is Insert {
                lemma_above_prefix(x, old_ops, new_ops, e.len() as int, m.db.next_id);
                lemma_above_never(x, ops, e.len() as int, m.db.next_id);
            }
        }
    }
    assert forall|j: int, k: int|
        0 <= j <= all.len() && #[trigger] stepped(x, ops, j) is Some && 0 <= k < stepped(
            x,
            ops,
            j,
        )->0.rows.len() implies (#[trigger] stepped(x, ops, j)->0.rows[k]).id < next by {
        if j < e.len() {
            lemma_stepped_prefix(x, old_ops, new_ops, j);
            assert(stepped(x, old_ops, j)->0.rows[k].id < m.db.next_id);
        } else {
            let o = j - e.len();
            lemma_between(m.db, a, o, t);
            assert(stepped(x, ops, e.len() + o) == look(after_log(m.db, r, o), t));
        }
    }
}

/// A logged change keeps the machine in order.
proof fn lemma_step_in_order(base: Database, m: Machine, a: Alteration)
    requires
        in_order(base, m),
        recordable(a),
        targets(m.db, a),
        m.stepped(a).db.next_id < u64::MAX,
    ensures
        in_order(base, m.stepped(a)),
{
    let e = entries(m.log->0);
    let r = records(a, m.db.next_id);
    if a is Insert && m.db.next_id == u64::MAX {
        assert(m.stepped(a).db.next_id == u64::MAX);
    }
    lemma_orderly_replayable(m.db, a);
    law_change_keeps_order(m.db, a);
    assert(m.stepped(a).db == after_change(m.db, a));
    lemma_step_recoverable(base, m, a);
    lemma_appended_all(m.log->0, r);
    assert(m.stepped(a).log == Some(m.log->0.appended_all(r)));
    assert(entries(m.stepped(a).log->0) == e + r);
    assert forall|t: Seq<char>| #[trigger] sensible(look(base, t), ops_of(e + r, t)) by {
        lemma_step_sensible(base, m, a, t);
    }
    assert forall|t: Seq<char>| #[trigger]
        above_all(
            look(base, t),
            ops_of(e + r, t),
            (e + r).len() as int,
            m.stepped(a).db.next_id,
        ) by {
        lemma_step_sensible(base, m, a, t);
    }
}

proof fn lemma_ran_in_order(base: Database, m: Machine, s: Statement, n: int)
    requires
        in_order(base, m),
        recordable_course(planned(m.db, s)),
        0 <= n <= planned(m.db, s).changes.len(),
        m.ran(planned(m.db, s).changes, n).0.db.next_id < u64::MAX,
    ensures
        in_order(base, m.ran(planned(m.db, s).changes, n).0),
    decreases n,
{
    let a = planned(m.db, s).changes;
    if n > 0 {
        lemma_ran_id(m, a, n);
        lemma_ran_in_order(base, m, s, n - 1);
        if m.ran(a, n - 1).1 is Ok {
            lemma_course_targets(m, s, n - 1);
            lemma_step_in_order(base, m.ran(a, n - 1).0, a[n - 1]);
        }
    }
}

/// Where the next id is larger than all others, no statement gives an id twice, as long
/// as ids are left.
pub proof fn law_statement_in_order(base: Database, m: Machine, s: Statement)
    requires
        in_order(base, m),
        recordable_course(planned(m.db, s)),
        m.executed(s).0.db.next_id < u64::MAX,
    ensures
        in_order(base, m.executed(s).0),
{
    lemma_ran_in_order(base, m, s, planned(m.db, s).changes.len() as int);
}

/// With an empty log, an orderly machine is in order.
pub proof fn law_fresh_log_in_order(db: Database, l: Log)
    requires
        orderly(db),
        entries(l).len() == 0,
    ensures
        in_order(db, Machine { db, log: Some(l) }),
{
    let e = entries(l);
    law_fresh_log_recoverable(db, l);
    assert forall|t: Seq<char>| #[trigger]
        above_all(look(db, t), ops_of(e, t), e.len() as int, db.next_id) by {
        if db.has(t) {
            lemma_found(db, t);
            assert(orderly_table(db.tables[db.index(t)], db.next_id));
        }
    }
}

/// A script keeps the machine in order, up to the statement that fails, if one does.
pub proof fn law_script_in_order(base: Database, m: Machine, s: Seq<Statement>, n: int)
    requires
        in_order(base, m),
        0 <= n <= s.len(),
        recordable_script(m, s, n),
        m.executed_all(s, n).0.db.next_id < u64::MAX,
    ensures
        in_order(base, m.executed_all(s, n).0),
    decreases n,
{
    if n > 0 {
        let before = m.executed_all(s, n - 1).0;
        if m.executed_all(s, n - 1).1 is Ok {
            lemma_executed_id(before, s[n - 1]);
            law_script_in_order(base, m, s, n - 1);
            law_statement_in_order(base, before, s[n - 1]);
        } else {
            law_script_in_order(base, m, s, n - 1);
        }
    }
}

} // verus!
