//! Recovery: the records that are logged ahead of changes make the same changes when
//! they are replayed.

use vstd::prelude::*;

use super::load::loaded;
use super::load::recovered;
use super::wal::after_line;
use super::wal::after_log;
use super::wal::has_row;
use super::wal::is_record;
use super::wal::lemma_index_updated;
use super::wal::replayed;
use super::wal::Log;
use crate::executor::filter::ascending;
use crate::executor::filter::distinct_ids;
use crate::executor::laws::law_delete;
use crate::executor::plan::altered;
use crate::executor::plan::assignment_changes;
use crate::executor::plan::delete_record;
use crate::executor::plan::matched_ids;
use crate::executor::plan::planned;
use crate::executor::plan::records;
use crate::executor::plan::update_record;
use crate::executor::plan::Alteration;
use crate::executor::plan::Course;
use crate::executor::run::Machine;
use crate::number::law_read_shown_nat;
use crate::number::lemma_show_nat;
use crate::number::read_nat;
use crate::number::show_nat;
use crate::sql::statement::Statement;
use crate::storage::codec::fields;
use crate::storage::codec::is_closed_field;
use crate::storage::codec::lemma_fields_cons;
use crate::storage::codec::lemma_fields_single;
use crate::storage::codec::lemma_plain_closed;
use crate::storage::codec::value_code;
use crate::storage::codec::value_coded;
use crate::storage::engine::lemma_found;
use crate::storage::engine::rows_without;
use crate::storage::engine::updated_row;
use crate::storage::engine::updated_rows;
use crate::storage::engine::Database;
use crate::storage::round_trip::clean_name;
use crate::storage::round_trip::is_head;
use crate::storage::round_trip::is_line;
use crate::storage::round_trip::law_import_export;
use crate::storage::round_trip::law_value_round_trip;
use crate::storage::round_trip::lemma_columns_line;
use crate::storage::round_trip::lemma_id_line;
use crate::storage::round_trip::lemma_lines_back;
use crate::storage::round_trip::lemma_name_line;
use crate::storage::round_trip::lemma_plain_digits;
use crate::storage::round_trip::lemma_plain_text;
use crate::storage::round_trip::lemma_short_line;
use crate::storage::round_trip::lemma_value_field;
use crate::storage::round_trip::lemma_values_line;
use crate::storage::round_trip::storable;
use crate::storage::round_trip::storable_column;
use crate::storage::round_trip::storable_database;
use crate::storage::schema::Column;
use crate::storage::schema::Record;
use crate::storage::schema::Schema;
use crate::storage::schema::Table;
use crate::storage::snapshot::columns_code;
use crate::storage::snapshot::columns_coded;
use crate::storage::snapshot::exported;
use crate::storage::snapshot::lines_text;
use crate::storage::snapshot::values_code;
use crate::storage::snapshot::values_coded;
use crate::text::join;
use crate::text::lines;
use crate::types::Datum;

verus! {

// ---------------------------------------------------------------------------
// What can be recorded
// ---------------------------------------------------------------------------

/// A change that its records tell in full: names hold nothing that parts fields or
/// lines, a new table has columns, and values can be read back from their codes.
pub open spec fn recordable(a: Alteration) -> bool {
    match a {
        Alteration::Create(s) => {
            &&& clean_name(s.name)
            &&& 0 < s.columns.len() <= usize::MAX
            &&& forall|i: int|
                0 <= i < s.columns.len() ==> storable_column(#[trigger] s.columns[i], i)
        },
        Alteration::Drop(t) => clean_name(t) && (t.len() > 0 ==> t.last() != '\r'),
        Alteration::Insert(t, v) => clean_name(t) && forall|i: int|
            0 <= i < v.len() ==> storable(#[trigger] v[i]),
        Alteration::Delete(t, _) => clean_name(t),
        Alteration::Update(t, _, _, d) => clean_name(t) && storable(d),
    }
}

/// A database whose tables have columns, whose rows stand in the order of their ids, and
/// whose next id is larger than all others.
pub open spec fn orderly(db: Database) -> bool {
    &&& db.wf()
    &&& forall|i: int| 0 <= i < db.tables.len() ==> orderly_table(#[trigger] db.tables[i], db.next_id)
}

/// A table that has columns, with its rows in the order of their ids, which are all
/// below `next_id`.
pub open spec fn orderly_table(t: Table, next_id: u64) -> bool {
    &&& t.schema.columns.len() > 0
    &&& ascending(t.rows)
    &&& forall|j: int| 0 <= j < t.rows.len() ==> (#[trigger] t.rows[j]).id < next_id
}

/// The database after a change that may fail.
pub open spec fn after_change(db: Database, a: Alteration) -> Database {
    match altered(db, a) {
        Ok((next, _)) => next,
        Err(_) => db,
    }
}

/// A change makes of the tables what its records make of them: it can be told in full,
/// and a row is inserted exactly where its record inserts it. A record inserts no row
/// with an id that its table holds.
pub open spec fn replayable(db: Database, a: Alteration) -> bool {
    &&& recordable(a)
    &&& a matches Alteration::Insert(t, v) ==> db.insert_error(t, v) is None ==> (db.next_id
        < u64::MAX <==> v.len() > 0 && !has_row(db.table(t).rows, db.next_id))
}

// ---------------------------------------------------------------------------
// Records
// ---------------------------------------------------------------------------

proof fn lemma_rows_without_more(rows: Seq<Record>, ids: Seq<u64>, id: u64)
    ensures
        rows_without(rows_without(rows, ids), seq![id]) == rows_without(rows, ids.push(id)),
    decreases rows.len(),
{
    if rows.len() > 0 {
        let rest = rows_without(rows.drop_last(), ids);
        let r = rows.last();
        lemma_rows_without_more(rows.drop_last(), ids, id);
        assert(seq![id].contains(r.id) <==> r.id == id) by {
            assert(seq![id][0] == id);
        }
        assert(ids.push(id).contains(r.id) <==> ids.contains(r.id) || r.id == id) by {
            let both = ids.push(id);
            assert(both[ids.len() as int] == id);
            if ids.contains(r.id) {
                let k = choose|k: int| 0 <= k < ids.len() && ids[k] == r.id;
                assert(both[k] == r.id);
            }
            if both.contains(r.id) {
                let k = choose|k: int| 0 <= k < both.len() && both[k] == r.id;
                if k < ids.len() {
                    assert(ids[k] == r.id);
                }
            }
        }
        if !ids.contains(r.id) {
            assert(rest.push(r).drop_last() =~= rest);
            assert(rest.push(r).last() == r);
        }
    }
}

proof fn lemma_rows_without_none(rows: Seq<Record>)
    ensures
        rows_without(rows, Seq::empty()) == rows,
    decreases rows.len(),
{
    if rows.len() > 0 {
        lemma_rows_without_none(rows.drop_last());
        assert(rows.drop_last().push(rows.last()) =~= rows);
    } else {
        assert(rows =~= Seq::empty());
    }
}

proof fn lemma_updated_more(rows: Seq<Record>, ids: Seq<u64>, id: u64, col: int, d: Datum)
    ensures
        updated_rows(updated_rows(rows, ids, col, d), seq![id], col, d) == updated_rows(
            rows,
            ids.push(id),
            col,
            d,
        ),
{
    let a = updated_rows(updated_rows(rows, ids, col, d), seq![id], col, d);
    let b = updated_rows(rows, ids.push(id), col, d);
    let both = ids.push(id);
    assert forall|i: int| 0 <= i < rows.len() implies a[i] == b[i] by {
        let r = rows[i];
        assert(seq![id].contains(r.id) <==> r.id == id) by {
            assert(seq![id][0] == id);
        }
        assert(both.contains(r.id) <==> ids.contains(r.id) || r.id == id) by {
            assert(both[ids.len() as int] == id);
            if ids.contains(r.id) {
                let k = choose|k: int| 0 <= k < ids.len() && ids[k] == r.id;
                assert(both[k] == r.id);
            }
            if both.contains(r.id) {
                let k = choose|k: int| 0 <= k < both.len() && both[k] == r.id;
                if k < ids.len() {
                    assert(ids[k] == r.id);
                }
            }
        }
        let once = updated_row(r, ids, col, d);
        let twice = updated_row(once, seq![id], col, d);
        assert(once.id == r.id);
        assert(twice.values =~= updated_row(r, both, col, d).values);
    }
    assert(a =~= b);
}

/// Changing the rows of a table twice is changing them once.
pub proof fn lemma_with_rows_again(db: Database, t: Seq<char>, a: Seq<Record>, b: Seq<Record>)
    requires
        db.has(t),
    ensures
        db.with_rows(t, a).has(t),
        db.with_rows(t, a).table(t).rows == a,
        db.with_rows(t, a).table(t).schema == db.table(t).schema,
        db.with_rows(t, a).with_rows(t, b) == db.with_rows(t, b),
{
    lemma_found(db, t);
    lemma_index_updated(db, t, a);
    assert(db.with_rows(t, a).with_rows(t, b) =~= db.with_rows(t, b));
}

pub proof fn lemma_heads()
    ensures
        is_head("T"@),
        is_head("I"@),
        is_head("D"@),
        is_head("U"@),
        is_head("DROP"@),
        "T|"@ == "T"@ + "|"@,
        "I|"@ == "I"@ + "|"@,
        "D|"@ == "D"@ + "|"@,
        "U|"@ == "U"@ + "|"@,
        "DROP|"@ == "DROP"@ + "|"@,
        "I"@ != "T"@,
        "D"@ != "T"@,
        "D"@ != "I"@,
        "U"@ != "T"@,
        "U"@ != "I"@,
        "U"@ != "D"@,
        "DROP"@ != "T"@,
        "DROP"@ != "I"@,
        "DROP"@ != "D"@,
        "DROP"@ != "U"@,
{
    reveal_strlit("T");
    reveal_strlit("I");
    reveal_strlit("D");
    reveal_strlit("U");
    reveal_strlit("DROP");
    reveal_strlit("T|");
    reveal_strlit("I|");
    reveal_strlit("D|");
    reveal_strlit("U|");
    reveal_strlit("DROP|");
    reveal_strlit("|");
    assert("T|"@ =~= "T"@ + "|"@);
    assert("I|"@ =~= "I"@ + "|"@);
    assert("D|"@ =~= "D"@ + "|"@);
    assert("U|"@ =~= "U"@ + "|"@);
    assert("DROP|"@ =~= "DROP"@ + "|"@);
    assert("T"@[0] == 'T' && "I"@[0] == 'I' && "D"@[0] == 'D' && "U"@[0] == 'U');
    assert("DROP"@.len() == 4 && "T"@.len() == 1 && "I"@.len() == 1 && "D"@.len() == 1
        && "U"@.len() == 1);
}

proof fn lemma_create_record(db: Database, s: Schema)
    requires
        recordable(Alteration::Create(s)),
    ensures
        ({
            let l = records(Alteration::Create(s), db.next_id)[0];
            &&& is_line(l)
            &&& is_record(l)
            &&& after_line(db, l) == after_change(db, Alteration::Create(s))
        }),
{
    lemma_heads();
    let l = "T|"@ + s.name + "|"@ + columns_code(s.columns);
    lemma_columns_line("T"@, s.name, s.columns);
    assert(columns_coded("列格式错误: "@, fields(l).skip(2)) == Ok::<Seq<Column>, Seq<char>>(
        s.columns,
    ));
    assert(s == (Schema { name: s.name, columns: s.columns }));
}

proof fn lemma_drop_record(db: Database, t: Seq<char>)
    requires
        recordable(Alteration::Drop(t)),
    ensures
        ({
            let l = records(Alteration::Drop(t), db.next_id)[0];
            &&& is_line(l)
            &&& is_record(l)
            &&& after_line(db, l) == after_change(db, Alteration::Drop(t))
        }),
{
    lemma_heads();
    lemma_name_line("DROP"@, t);
}

pub proof fn lemma_empty_value()
    ensures
        value_coded(Seq::empty()) is Err,
{
    reveal_strlit("INT:");
    reveal_strlit("FLOAT:");
    reveal_strlit("TEXT:");
    reveal_strlit("BOOL:");
    reveal_strlit("DATE:");
    reveal_strlit("TIME:");
    reveal_strlit("VEC:");
}

/// The record of a row without values ends with an empty field.
pub proof fn lemma_empty_row_fields(t: Seq<char>, id: u64)
    requires
        clean_name(t),
    ensures
        ({
            let l = "I|"@ + t + "|"@ + show_nat(id as nat) + "|"@ + values_code(Seq::empty());
            &&& is_line(l)
            &&& is_record(l)
            &&& fields(l) == seq!["I"@, t, show_nat(id as nat), Seq::empty()]
        }),
{
    lemma_heads();
    reveal_strlit("|");
    let e = Seq::<char>::empty();
    let n = show_nat(id as nat);
    let codes = Seq::<Datum>::empty().map_values(|d: Datum| value_code(d));
    assert(codes =~= Seq::empty());
    assert(values_code(Seq::empty()) == e);
    let l = "I|"@ + t + "|"@ + n + "|"@ + values_code(Seq::empty());
    lemma_short_line("I"@, t, id);
    let s = "I"@ + "|"@ + t + "|"@ + n;
    assert(l =~= s + seq!['|']);
    lemma_plain_closed(e);
    lemma_plain_closed("I"@);
    lemma_show_nat(id as nat);
    lemma_plain_digits(n);
    lemma_plain_text(n);
    lemma_plain_closed(n);
    lemma_fields_single(e);
    lemma_fields_cons(n, e);
    lemma_fields_cons(t, n + seq!['|'] + e);
    lemma_fields_cons("I"@, t + seq!['|'] + (n + seq!['|'] + e));
    assert(l =~= "I"@ + seq!['|'] + (t + seq!['|'] + (n + seq!['|'] + e)));
    assert(fields(l) =~= seq!["I"@, t, n, e]);
    assert forall|i: int| 0 <= i < l.len() implies l[i] != '\n' by {
        if i < s.len() {
            assert(s.contains(s[i]));
        }
    }
}

/// The record of a row without values cannot be replayed.
proof fn lemma_empty_row_record(db: Database, t: Seq<char>, id: u64)
    requires
        clean_name(t),
    ensures
        ({
            let l = "I|"@ + t + "|"@ + show_nat(id as nat) + "|"@ + values_code(Seq::empty());
            &&& is_line(l)
            &&& is_record(l)
            &&& after_line(db, l) == db
        }),
{
    lemma_heads();
    lemma_empty_row_fields(t, id);
    let e = Seq::<char>::empty();
    let l = "I|"@ + t + "|"@ + show_nat(id as nat) + "|"@ + values_code(Seq::empty());
    assert(fields(l).skip(3) =~= seq![e]);
    lemma_empty_value();
    assert(seq![e].drop_last() =~= Seq::empty());
    assert(values_coded(seq![e]) is Err);
    law_read_shown_nat(id as nat, u64::MAX as nat);
    assert(replayed(db, l) is Err);
}

proof fn lemma_insert_record(db: Database, t: Seq<char>, v: Seq<Datum>)
    requires
        replayable(db, Alteration::Insert(t, v)),
    ensures
        ({
            let l = records(Alteration::Insert(t, v), db.next_id)[0];
            &&& is_line(l)
            &&& is_record(l)
            &&& after_line(db, l).tables == after_change(db, Alteration::Insert(t, v)).tables
        }),
{
    lemma_heads();
    let id = db.next_id;
    let l = "I|"@ + t + "|"@ + show_nat(id as nat) + "|"@ + values_code(v);
    if v.len() == 0 {
        assert(v =~= Seq::empty());
        lemma_empty_row_record(db, t, id);
    } else {
        lemma_values_line("I"@, t, id, v);
        law_read_shown_nat(id as nat, u64::MAX as nat);
    }
}

proof fn lemma_delete_record(db: Database, t: Seq<char>, id: u64)
    requires
        clean_name(t),
    ensures
        ({
            let l = delete_record(t, id);
            &&& is_line(l)
            &&& is_record(l)
            &&& after_line(db, l) == if db.has(t) {
                db.with_rows(t, rows_without(db.table(t).rows, seq![id]))
            } else {
                db
            }
        }),
{
    lemma_heads();
    lemma_short_line("D"@, t, id);
    law_read_shown_nat(id as nat, u64::MAX as nat);
}

/// The record of an updated row holds the table, the id, the column and the value.
pub proof fn lemma_update_fields(t: Seq<char>, id: u64, col: usize, d: Datum)
    requires
        clean_name(t),
        storable(d),
    ensures
        ({
            let l = update_record(t, id, col, d);
            &&& is_line(l)
            &&& is_record(l)
            &&& fields(l) == seq![
                "U"@,
                t,
                show_nat(id as nat),
                show_nat(col as nat),
                value_code(d),
            ]
        }),
{
    lemma_heads();
    let n = show_nat(col as nat);
    let code = value_code(d);
    let q = seq![n, code];
    lemma_show_nat(col as nat);
    lemma_plain_digits(n);
    lemma_plain_text(n);
    lemma_plain_closed(n);
    lemma_value_field(d);
    assert(code.contains(code.last()));
    assert forall|i: int| 0 <= i < q.len() implies is_closed_field(#[trigger] q[i])
        && !q[i].contains('\n') && q[i].len() > 0 by {}
    lemma_id_line("U"@, t, id, q);
    assert(q.drop_last() =~= seq![n]);
    assert(join(q, "|"@) == join(seq![n], "|"@) + "|"@ + code);
    let l = update_record(t, id, col, d);
    assert(l =~= "U"@ + "|"@ + t + "|"@ + show_nat(id as nat) + "|"@ + join(q, "|"@));
    assert(fields(l) =~= seq!["U"@, t, show_nat(id as nat), n, code]);
}

proof fn lemma_update_record(db: Database, t: Seq<char>, id: u64, col: usize, d: Datum)
    requires
        clean_name(t),
        storable(d),
    ensures
        ({
            let l = update_record(t, id, col, d);
            &&& is_line(l)
            &&& is_record(l)
            &&& after_line(db, l) == if db.has(t) {
                db.with_rows(t, updated_rows(db.table(t).rows, seq![id], col as int, d))
            } else {
                db
            }
        }),
{
    lemma_update_fields(t, id, col, d);
    lemma_heads();
    law_read_shown_nat(id as nat, u64::MAX as nat);
    law_read_shown_nat(col as nat, usize::MAX as nat);
    law_value_round_trip(d);
}

pub proof fn lemma_delete_records(db: Database, t: Seq<char>, ids: Seq<u64>, n: int)
    requires
        clean_name(t),
        0 <= n <= ids.len(),
    ensures
        after_log(db, ids.map_values(|id: u64| delete_record(t, id)), n) == if db.has(t) {
            db.with_rows(t, rows_without(db.table(t).rows, ids.take(n)))
        } else {
            db
        },
    decreases n,
{
    let l = ids.map_values(|id: u64| delete_record(t, id));
    if n > 0 {
        lemma_delete_records(db, t, ids, n - 1);
        let before = after_log(db, l, n - 1);
        lemma_delete_record(before, t, ids[n - 1]);
        assert(ids.take(n) =~= ids.take(n - 1).push(ids[n - 1]));
        if db.has(t) {
            let rows = db.table(t).rows;
            let a = rows_without(rows, ids.take(n - 1));
            let b = rows_without(rows, ids.take(n));
            lemma_rows_without_more(rows, ids.take(n - 1), ids[n - 1]);
            lemma_with_rows_again(db, t, a, b);
        }
    } else if db.has(t) {
        let rows = db.table(t).rows;
        assert(ids.take(0) =~= Seq::empty());
        lemma_rows_without_none(rows);
        lemma_found(db, t);
        assert(db.with_rows(t, rows) =~= db);
    }
}

pub proof fn lemma_update_records(
    db: Database,
    t: Seq<char>,
    ids: Seq<u64>,
    col: usize,
    d: Datum,
    n: int,
)
    requires
        clean_name(t),
        storable(d),
        0 <= n <= ids.len(),
    ensures
        after_log(db, ids.map_values(|id: u64| update_record(t, id, col, d)), n) == if db.has(t) {
            db.with_rows(t, updated_rows(db.table(t).rows, ids.take(n), col as int, d))
        } else {
            db
        },
    decreases n,
{
    let l = ids.map_values(|id: u64| update_record(t, id, col, d));
    if n > 0 {
        lemma_update_records(db, t, ids, col, d, n - 1);
        let before = after_log(db, l, n - 1);
        lemma_update_record(before, t, ids[n - 1], col, d);
        assert(ids.take(n) =~= ids.take(n - 1).push(ids[n - 1]));
        if db.has(t) {
            let rows = db.table(t).rows;
            let a = updated_rows(rows, ids.take(n - 1), col as int, d);
            let b = updated_rows(rows, ids.take(n), col as int, d);
            lemma_updated_more(rows, ids.take(n - 1), ids[n - 1], col as int, d);
            lemma_with_rows_again(db, t, a, b);
        }
    } else if db.has(t) {
        let rows = db.table(t).rows;
        assert(updated_rows(rows, ids.take(0), col as int, d) =~= rows);
        lemma_found(db, t);
        assert(db.with_rows(t, rows) =~= db);
    }
}

/// The records of a change are lines of the log, and replaying them on the database
/// ahead of the change gives the tables after the change.
pub proof fn law_replay_change(db: Database, a: Alteration)
    requires
        replayable(db, a),
    ensures
        ({
            let l = records(a, db.next_id);
            &&& forall|i: int| 0 <= i < l.len() ==> is_line(#[trigger] l[i]) && is_record(l[i])
            &&& after_log(db, l, l.len() as int).tables == after_change(db, a).tables
        }),
{
    let l = records(a, db.next_id);
    match a {
        Alteration::Create(s) => {
            lemma_create_record(db, s);
            reveal_with_fuel(after_log, 2);
        },
        Alteration::Drop(t) => {
            lemma_drop_record(db, t);
            reveal_with_fuel(after_log, 2);
        },
        Alteration::Insert(t, v) => {
            lemma_insert_record(db, t, v);
            reveal_with_fuel(after_log, 2);
        },
        Alteration::Delete(t, ids) => {
            lemma_delete_records(db, t, ids, ids.len() as int);
            assert(ids.take(ids.len() as int) =~= ids);
            assert forall|i: int| 0 <= i < l.len() implies is_line(#[trigger] l[i]) && is_record(
                l[i],
            ) by {
                lemma_delete_record(db, t, ids[i]);
            }
        },
        Alteration::Update(t, ids, col, d) => {
            lemma_update_records(db, t, ids, col, d, ids.len() as int);
            assert(ids.take(ids.len() as int) =~= ids);
            assert forall|i: int| 0 <= i < l.len() implies is_line(#[trigger] l[i]) && is_record(
                l[i],
            ) by {
                lemma_update_record(db, t, ids[i], col, d);
            }
        },
    }
}

// ---------------------------------------------------------------------------
// Logs
// ---------------------------------------------------------------------------

proof fn lemma_same_tables_line(a: Database, b: Database, line: Seq<char>)
    requires
        a.tables == b.tables,
    ensures
        after_line(a, line).tables == after_line(b, line).tables,
{
}

/// What a log does to the tables does not depend on the next id.
pub proof fn lemma_same_tables(a: Database, b: Database, l: Seq<Seq<char>>, n: int)
    requires
        a.tables == b.tables,
    ensures
        after_log(a, l, n).tables == after_log(b, l, n).tables,
    decreases n,
{
    if n > 0 {
        lemma_same_tables(a, b, l, n - 1);
        lemma_same_tables_line(after_log(a, l, n - 1), after_log(b, l, n - 1), l[n - 1]);
    }
}

/// A log can be replayed in two parts.
pub proof fn lemma_after_concat(db: Database, a: Seq<Seq<char>>, b: Seq<Seq<char>>, n: int)
    requires
        0 <= n <= b.len(),
    ensures
        after_log(db, a + b, a.len() + n) == after_log(after_log(db, a, a.len() as int), b, n),
    decreases n,
{
    if n > 0 {
        lemma_after_concat(db, a, b, n - 1);
        assert((a + b)[a.len() + n - 1] == b[n - 1]);
    } else {
        lemma_after_prefix(db, a, b, a.len() as int);
    }
}

proof fn lemma_after_prefix(db: Database, a: Seq<Seq<char>>, b: Seq<Seq<char>>, n: int)
    requires
        0 <= n <= a.len(),
    ensures
        after_log(db, a + b, n) == after_log(db, a, n),
    decreases n,
{
    if n > 0 {
        lemma_after_prefix(db, a, b, n - 1);
        assert((a + b)[n - 1] == a[n - 1]);
    }
}

/// All records of a log, in the order in which they were appended.
pub open spec fn entries(l: Log) -> Seq<Seq<char>> {
    l.ready + l.pending
}

/// Outside of batch mode nothing is kept back.
pub open spec fn settled(l: Log) -> bool {
    !l.batch ==> l.pending.len() == 0
}

proof fn lemma_appended(l: Log, e: Seq<char>)
    requires
        settled(l),
    ensures
        settled(l.appended(e)),
        entries(l.appended(e)) == entries(l).push(e),
{
    assert(entries(l.appended(e)) =~= entries(l).push(e));
}

pub proof fn lemma_appended_all(l: Log, e: Seq<Seq<char>>)
    requires
        settled(l),
    ensures
        settled(l.appended_all(e)),
        entries(l.appended_all(e)) == entries(l) + e,
    decreases e.len(),
{
    if e.len() > 0 {
        lemma_appended_all(l, e.drop_last());
        lemma_appended(l.appended_all(e.drop_last()), e.last());
        assert((entries(l) + e.drop_last()).push(e.last()) =~= entries(l) + e);
    } else {
        assert(entries(l) + e =~= entries(l));
    }
}

/// Entering or leaving batch mode and flushing lose no record and keep the order.
pub proof fn law_log_keeps_entries(l: Log, enabled: bool)
    requires
        settled(l),
    ensures
        entries(l.flushed()) == entries(l),
        entries(l.batched(enabled)) == entries(l),
        settled(l.flushed()),
        settled(l.batched(enabled)),
        l.flushed().ready == entries(l),
{
    assert(entries(l.flushed()) =~= entries(l));
}

/// The log of the machine, replayed on `base`, gives the machine's tables.
pub open spec fn recoverable(base: Database, m: Machine) -> bool {
    &&& m.log is Some
    &&& settled(m.log->0)
    &&& forall|i: int|
        0 <= i < entries(m.log->0).len() ==> is_line(#[trigger] entries(m.log->0)[i])
    &&& after_log(base, entries(m.log->0), entries(m.log->0).len() as int).tables == m.db.tables
}

proof fn lemma_orderly_rows(db: Database, t: Seq<char>, rows: Seq<Record>, next: u64)
    requires
        orderly(db),
        db.has(t),
        db.next_id <= next,
        ascending(rows),
        forall|j: int| 0 <= j < rows.len() ==> (#[trigger] rows[j]).id < next,
    ensures
        orderly(Database { next_id: next, ..db.with_rows(t, rows) }),
{
    lemma_found(db, t);
    let d = Database { next_id: next, ..db.with_rows(t, rows) };
    assert forall|i: int| 0 <= i < d.tables.len() implies orderly_table(#[trigger] d.tables[i], next) by {
        assert(orderly_table(db.tables[i], db.next_id));
        if i != db.index(t) {
            assert(d.tables[i] == db.tables[i]);
            assert forall|j: int| 0 <= j < d.tables[i].rows.len() implies (
            #[trigger] d.tables[i].rows[j]).id < next by {
                assert(db.tables[i].rows[j].id < db.next_id);
            }
        }
    }
    assert forall|i: int, j: int| 0 <= i < j < d.tables.len() implies #[trigger] d.tables[i].schema.name
        != #[trigger] d.tables[j].schema.name by {
        assert(db.tables[i].schema.name != db.tables[j].schema.name);
    }
}

proof fn lemma_ids_kept(rows: Seq<Record>, ids: Seq<u64>, next: u64)
    requires
        forall|j: int| 0 <= j < rows.len() ==> (#[trigger] rows[j]).id < next,
    ensures
        forall|j: int|
            0 <= j < rows_without(rows, ids).len() ==> (#[trigger] rows_without(rows, ids)[j]).id
                < next,
    decreases rows.len(),
{
    if rows.len() > 0 {
        let front = rows.drop_last();
        assert forall|j: int| 0 <= j < front.len() implies (#[trigger] front[j]).id < next by {
            assert(rows[j].id < next);
        }
        lemma_ids_kept(front, ids, next);
        assert(rows[rows.len() - 1].id < next);
        let rest = rows_without(front, ids);
        let all = rows_without(rows, ids);
        assert forall|j: int| 0 <= j < all.len() implies (#[trigger] all[j]).id < next by {
            if j < rest.len() {
                assert(all[j] == rest[j]);
            }
        }
    }
}

/// A change keeps a database orderly, and never lowers the next id. Ids are not used
/// again: a new row gets an id that is larger than all others.
pub proof fn law_change_keeps_order(db: Database, a: Alteration)
    requires
        orderly(db),
        a matches Alteration::Create(s) ==> s.columns.len() > 0,
    ensures
        orderly(after_change(db, a)),
        db.next_id <= after_change(db, a).next_id,
{
    let next = after_change(db, a);
    match a {
        Alteration::Create(s) => {
            if !db.has(s.name) {
                crate::storage::engine::lemma_not_found(db, s.name);
                assert forall|i: int| 0 <= i < next.tables.len() implies orderly_table(
                    #[trigger] next.tables[i],
                    next.next_id,
                ) by {
                    if i < db.tables.len() {
                        assert(orderly_table(db.tables[i], db.next_id));
                    }
                }
                assert forall|i: int, j: int| 0 <= i < j < next.tables.len() implies
                    #[trigger] next.tables[i].schema.name != #[trigger] next.tables[j].schema.name by {
                    if j < db.tables.len() {
                        assert(db.tables[i].schema.name != db.tables[j].schema.name);
                    } else {
                        assert(db.tables[i].schema.name != s.name);
                    }
                }
            }
        },
        Alteration::Drop(t) => {
            if db.has(t) {
                lemma_found(db, t);
                let k = db.index(t);
                assert forall|i: int| 0 <= i < next.tables.len() implies orderly_table(
                    #[trigger] next.tables[i],
                    next.next_id,
                ) by {
                    let o = if i < k {
                        i
                    } else {
                        i + 1
                    };
                    assert(next.tables[i] == db.tables[o]);
                    assert(orderly_table(db.tables[o], db.next_id));
                }
                assert forall|i: int, j: int| 0 <= i < j < next.tables.len() implies
                    #[trigger] next.tables[i].schema.name != #[trigger] next.tables[j].schema.name by {
                    let o = if i < k {
                        i
                    } else {
                        i + 1
                    };
                    let q = if j < k {
                        j
                    } else {
                        j + 1
                    };
                    assert(db.tables[o].schema.name != db.tables[q].schema.name);
                }
            }
        },
        Alteration::Insert(t, v) => {
            if db.insert_error(t, v) is None && db.next_id < u64::MAX {
                lemma_found(db, t);
                assert(orderly_table(db.tables[db.index(t)], db.next_id));
                let rows = db.table(t).rows.push(Record { id: db.next_id, values: v });
                let up = (db.next_id + 1) as u64;
                assert forall|j: int| 0 <= j < rows.len() implies (#[trigger] rows[j]).id < up by {
                    if j < rows.len() - 1 {
                        assert(db.table(t).rows[j].id < db.next_id);
                    }
                }
                assert forall|i: int, j: int| 0 <= i < j < rows.len() implies (
                #[trigger] rows[i]).id < (#[trigger] rows[j]).id by {
                    assert(db.table(t).rows[i].id < db.next_id);
                    if j < rows.len() - 1 {
                        assert(db.table(t).rows[i].id < db.table(t).rows[j].id);
                    }
                }
                lemma_orderly_rows(db, t, rows, up);
            }
        },
        Alteration::Delete(t, ids) => {
            if db.has(t) {
                lemma_found(db, t);
                assert(orderly_table(db.tables[db.index(t)], db.next_id));
                lemma_ids_kept(db.table(t).rows, ids, db.next_id);
                law_delete(db.table(t).rows, ids);
                lemma_orderly_rows(db, t, rows_without(db.table(t).rows, ids), db.next_id);
            }
        },
        Alteration::Update(t, ids, col, d) => {
            if db.has(t) {
                lemma_found(db, t);
                assert(orderly_table(db.tables[db.index(t)], db.next_id));
                let rows = updated_rows(db.table(t).rows, ids, col as int, d);
                assert forall|j: int| 0 <= j < rows.len() implies (#[trigger] rows[j]).id
                    < db.next_id by {
                    assert(db.table(t).rows[j].id < db.next_id);
                }
                assert forall|i: int, j: int| 0 <= i < j < rows.len() implies (
                #[trigger] rows[i]).id < (#[trigger] rows[j]).id by {
                    assert(db.table(t).rows[i].id < db.table(t).rows[j].id);
                }
                lemma_orderly_rows(db, t, rows, db.next_id);
            }
        },
    }
}

/// Statements keep a database orderly: no two rows of a table ever have one id, and rows
/// stand in the order in which they were inserted.
pub proof fn law_statement_keeps_order(m: Machine, s: Statement)
    requires
        orderly(m.db),
        s matches Statement::CreateTable { columns, .. } ==> columns.len() > 0,
    ensures
        orderly(m.executed(s).0.db),
        m.db.next_id <= m.executed(s).0.db.next_id,
{
    let a = planned(m.db, s).changes;
    assert forall|i: int| 0 <= i < a.len() && (#[trigger] a[i]) is Create implies (
    a[i]->Create_0).columns.len() > 0 by {
        if s is Update {
            lemma_no_insert(m.db, s);
        }
    }
    lemma_ran_order(m, a, a.len() as int);
}

proof fn lemma_assignments_update(
    columns: Seq<Column>,
    table: Seq<char>,
    ids: Seq<u64>,
    a: Seq<(Seq<char>, Seq<char>)>,
)
    ensures
        forall|i: int|
            0 <= i < assignment_changes(columns, table, ids, a).changes.len() ==> (
            #[trigger] assignment_changes(columns, table, ids, a).changes[i]) is Update,
    decreases a.len(),
{
    if a.len() > 0 {
        lemma_assignments_update(columns, table, ids, a.drop_last());
        let before = assignment_changes(columns, table, ids, a.drop_last());
        let all = assignment_changes(columns, table, ids, a);
        assert forall|i: int| 0 <= i < all.changes.len() implies (#[trigger] all.changes[i])
            is Update by {
            if i < before.changes.len() {
                assert(all.changes[i] == before.changes[i]);
            }
        }
    }
}

proof fn lemma_ran_order(m: Machine, a: Seq<Alteration>, n: int)
    requires
        orderly(m.db),
        0 <= n <= a.len(),
        forall|i: int|
            0 <= i < a.len() && (#[trigger] a[i]) is Create ==> (a[i]->Create_0).columns.len() > 0,
    ensures
        orderly(m.ran(a, n).0.db),
        m.db.next_id <= m.ran(a, n).0.db.next_id,
    decreases n,
{
    if n > 0 {
        lemma_ran_order(m, a, n - 1);
        if m.ran(a, n - 1).1 is Ok {
            law_change_keeps_order(m.ran(a, n - 1).0.db, a[n - 1]);
        }
    }
}

/// A logged change keeps the tables recoverable.
pub proof fn lemma_step_recoverable(base: Database, m: Machine, a: Alteration)
    requires
        recoverable(base, m),
        replayable(m.db, a),
    ensures
        recoverable(base, m.stepped(a)),
{
    let r = records(a, m.db.next_id);
    let e = entries(m.log->0);
    let next = m.stepped(a);
    assert(next.db == after_change(m.db, a));
    law_replay_change(m.db, a);
    lemma_appended_all(m.log->0, r);
    assert(next.log == Some(m.log->0.appended_all(r)));
    assert(entries(next.log->0) == e + r);
    lemma_after_concat(base, e, r, r.len() as int);
    lemma_same_tables(after_log(base, e, e.len() as int), m.db, r, r.len() as int);
    assert forall|i: int| 0 <= i < (e + r).len() implies is_line(#[trigger] (e + r)[i]) by {
        if i < e.len() {
            assert(is_line(e[i]));
        } else {
            assert(is_line(r[i - e.len()]));
        }
    }
}

/// A course all of whose changes are recordable.
pub open spec fn recordable_course(c: Course) -> bool {
    forall|i: int| 0 <= i < c.changes.len() ==> recordable(#[trigger] c.changes[i])
}

/// Whether the first `n` changes are replayable as they come up.
pub open spec fn replayable_run(m: Machine, a: Seq<Alteration>, n: int) -> bool
    decreases n,
{
    n <= 0 || {
        &&& replayable_run(m, a, n - 1)
        &&& m.ran(a, n - 1).1 is Ok ==> replayable(m.ran(a, n - 1).0.db, a[n - 1])
    }
}

/// Whether the changes of a statement are replayable as they come up.
pub open spec fn replayable_statement(m: Machine, s: Statement) -> bool {
    replayable_run(m, planned(m.db, s).changes, planned(m.db, s).changes.len() as int)
}

proof fn lemma_ran_recoverable(base: Database, m: Machine, a: Seq<Alteration>, n: int)
    requires
        recoverable(base, m),
        replayable_run(m, a, n),
    ensures
        recoverable(base, m.ran(a, n).0),
    decreases n,
{
    if n > 0 {
        lemma_ran_recoverable(base, m, a, n - 1);
        if m.ran(a, n - 1).1 is Ok {
            lemma_step_recoverable(base, m.ran(a, n - 1).0, a[n - 1]);
        }
    }
}

/// A statement keeps the tables recoverable, whether it succeeds or fails. This leaves
/// out names, values and tables that the log cannot tell in full, the exhaustion of row
/// ids, and a row that gets an id that its table holds.
pub proof fn law_statement_recoverable(base: Database, m: Machine, s: Statement)
    requires
        recoverable(base, m),
        replayable_statement(m, s),
    ensures
        recoverable(base, m.executed(s).0),
{
    let c = planned(m.db, s);
    lemma_ran_recoverable(base, m, c.changes, c.changes.len() as int);
}

/// Whether the first `n` statements are replayable as they come up.
pub open spec fn replayable_script(m: Machine, s: Seq<Statement>, n: int) -> bool
    decreases n,
{
    n <= 0 || {
        &&& replayable_script(m, s, n - 1)
        &&& m.executed_all(s, n - 1).1 is Ok ==> replayable_statement(
            m.executed_all(s, n - 1).0,
            s[n - 1],
        )
    }
}

/// A script keeps the tables recoverable, up to the statement that fails, if one does.
pub proof fn law_script_recoverable(base: Database, m: Machine, s: Seq<Statement>, n: int)
    requires
        recoverable(base, m),
        0 <= n <= s.len(),
        replayable_script(m, s, n),
    ensures
        recoverable(base, m.executed_all(s, n).0),
    decreases n,
{
    if n > 0 {
        law_script_recoverable(base, m, s, n - 1);
        if m.executed_all(s, n - 1).1 is Ok {
            law_statement_recoverable(base, m.executed_all(s, n - 1).0, s[n - 1]);
        }
    }
}

/// With an empty log, the tables are recoverable from themselves.
pub proof fn law_fresh_log_recoverable(db: Database, l: Log)
    requires
        entries(l).len() == 0,
    ensures
        recoverable(db, Machine { db, log: Some(l) }),
{
}

// ---------------------------------------------------------------------------
// Which statements are replayable
// ---------------------------------------------------------------------------

/// Where the next id is larger than all others, every change that can be told in full is
/// replayable, as long as ids are left.
pub proof fn lemma_orderly_replayable(db: Database, a: Alteration)
    requires
        orderly(db),
        recordable(a),
        a is Insert ==> db.next_id < u64::MAX,
    ensures
        replayable(db, a),
{
    match a {
        Alteration::Insert(t, v) => {
            lemma_found(db, t);
            if db.has(t) {
                assert(orderly_table(db.tables[db.index(t)], db.next_id));
            }
        },
        _ => {},
    }
}

pub proof fn lemma_ran_id(m: Machine, a: Seq<Alteration>, n: int)
    requires
        n > 0,
    ensures
        m.ran(a, n - 1).0.db.next_id <= m.ran(a, n).0.db.next_id,
{
}

proof fn lemma_ran_ids(m: Machine, a: Seq<Alteration>, n: int)
    ensures
        m.db.next_id <= m.ran(a, n).0.db.next_id,
    decreases n,
{
    if n > 0 {
        lemma_ran_ids(m, a, n - 1);
        lemma_ran_id(m, a, n);
    }
}

pub proof fn lemma_executed_id(m: Machine, s: Statement)
    ensures
        m.db.next_id <= m.executed(s).0.db.next_id,
{
    let a = planned(m.db, s).changes;
    lemma_ran_ids(m, a, a.len() as int);
}

/// A run with an orderly start stays orderly and is replayable.
proof fn lemma_orderly_run(m: Machine, a: Seq<Alteration>, n: int)
    requires
        orderly(m.db),
        0 <= n <= a.len(),
        forall|i: int| 0 <= i < a.len() ==> recordable(#[trigger] a[i]),
        m.ran(a, n).0.db.next_id < u64::MAX,
    ensures
        replayable_run(m, a, n),
        orderly(m.ran(a, n).0.db),
    decreases n,
{
    if n > 0 {
        lemma_ran_id(m, a, n);
        lemma_orderly_run(m, a, n - 1);
        if m.ran(a, n - 1).1 is Ok {
            assert(recordable(a[n - 1]));
            lemma_orderly_replayable(m.ran(a, n - 1).0.db, a[n - 1]);
            law_change_keeps_order(m.ran(a, n - 1).0.db, a[n - 1]);
        }
    }
}

/// Where the next id is larger than all others, as it is from the first statement on
/// until a log is replayed, a statement that can be told in full is replayable, as long
/// as ids are left.
pub proof fn law_orderly_statement_replayable(m: Machine, s: Statement)
    requires
        orderly(m.db),
        recordable_course(planned(m.db, s)),
        m.executed(s).0.db.next_id < u64::MAX,
    ensures
        replayable_statement(m, s),
        orderly(m.executed(s).0.db),
{
    let a = planned(m.db, s).changes;
    lemma_orderly_run(m, a, a.len() as int);
}

proof fn lemma_plain_run(m: Machine, a: Seq<Alteration>, n: int)
    requires
        0 <= n <= a.len(),
        forall|i: int| 0 <= i < a.len() ==> recordable(#[trigger] a[i]) && !(a[i] is Insert),
    ensures
        replayable_run(m, a, n),
    decreases n,
{
    if n > 0 {
        lemma_plain_run(m, a, n - 1);
        assert(recordable(a[n - 1]));
    }
}

/// Whatever the ids are, a statement that inserts no row is replayable, where it can be
/// told in full.
pub proof fn law_other_statement_replayable(m: Machine, s: Statement)
    requires
        !(s is Insert),
        recordable_course(planned(m.db, s)),
    ensures
        replayable_statement(m, s),
{
    let a = planned(m.db, s).changes;
    if s is Update {
        lemma_no_insert(m.db, s);
    }
    lemma_plain_run(m, a, a.len() as int);
}

proof fn lemma_no_insert(db: Database, s: Statement)
    requires
        s is Update,
    ensures
        forall|i: int|
            0 <= i < planned(db, s).changes.len() ==> (#[trigger] planned(db, s).changes[i])
                is Update,
{
    match s {
        Statement::Update { table, assignments, condition } => {
            if db.has(table) {
                lemma_assignments_update(
                    db.table(table).schema.columns,
                    table,
                    matched_ids(db, table, condition),
                    assignments,
                );
            }
        },
        _ => {},
    }
}

/// Whether the courses of the first `n` statements are recordable as they come up.
pub open spec fn recordable_script(m: Machine, s: Seq<Statement>, n: int) -> bool
    decreases n,
{
    n <= 0 || {
        &&& recordable_script(m, s, n - 1)
        &&& m.executed_all(s, n - 1).1 is Ok ==> recordable_course(
            planned(m.executed_all(s, n - 1).0.db, s[n - 1]),
        )
    }
}

/// Where the next id is larger than all others, a script that can be told in full is
/// replayable, as long as ids are left.
pub proof fn law_orderly_script_replayable(m: Machine, s: Seq<Statement>, n: int)
    requires
        orderly(m.db),
        0 <= n <= s.len(),
        recordable_script(m, s, n),
        m.executed_all(s, n).0.db.next_id < u64::MAX,
    ensures
        replayable_script(m, s, n),
        orderly(m.executed_all(s, n).0.db),
    decreases n,
{
    if n > 0 {
        let before = m.executed_all(s, n - 1).0;
        if m.executed_all(s, n - 1).1 is Ok {
            lemma_executed_id(before, s[n - 1]);
            law_orderly_script_replayable(m, s, n - 1);
            law_orderly_statement_replayable(before, s[n - 1]);
        } else {
            law_orderly_script_replayable(m, s, n - 1);
        }
    }
}

// ---------------------------------------------------------------------------
// Files
// ---------------------------------------------------------------------------

/// The text of a log file with the given records.
pub open spec fn log_text(e: Seq<Seq<char>>) -> Seq<char> {
    "# ProbeDB WAL v1\n"@ + lines_text(e)
}

pub proof fn lemma_log_lines(e: Seq<Seq<char>>)
    requires
        forall|i: int| 0 <= i < e.len() ==> is_line(#[trigger] e[i]),
    ensures
        lines(log_text(e)) == seq!["# ProbeDB WAL v1"@] + e,
{
    reveal_strlit("# ProbeDB WAL v1\n");
    reveal_strlit("# ProbeDB WAL v1");
    reveal_strlit("\n");
    let h = "# ProbeDB WAL v1"@;
    let l = seq![h] + e;
    assert(is_line(h));
    assert forall|i: int| 0 <= i < l.len() implies is_line(#[trigger] l[i]) by {
        if i > 0 {
            assert(l[i] == e[i - 1]);
        }
    }
    lemma_lines_front(h, e);
    assert("# ProbeDB WAL v1\n"@ =~= h + "\n"@);
    lemma_lines_back(l, Seq::empty());
    assert(lines_text(l) + Seq::<char>::empty() =~= log_text(e));
    assert(lines(Seq::empty()) =~= Seq::empty());
    assert(l + lines(Seq::empty()) =~= l);
}

proof fn lemma_lines_front(h: Seq<char>, e: Seq<Seq<char>>)
    ensures
        lines_text(seq![h] + e) == h + "\n"@ + lines_text(e),
    decreases e.len(),
{
    let l = seq![h] + e;
    if e.len() == 0 {
        assert(l.drop_last() =~= Seq::empty());
        assert(lines_text(Seq::empty()) =~= Seq::empty());
        assert(l.last() == h);
        assert(lines_text(l) =~= h + "\n"@ + lines_text(e));
    } else {
        assert(l.drop_last() =~= seq![h] + e.drop_last());
        lemma_lines_front(h, e.drop_last());
        assert(lines_text(l) =~= h + "\n"@ + lines_text(e));
    }
}

/// After a crash, the snapshot of a database and the log that was written since give
/// back the tables as they were when the last record was written.
pub proof fn law_crash_recovery(base: Database, m: Machine)
    requires
        storable_database(base),
        recoverable(base, m),
        m.log->0.pending.len() == 0,
    ensures
        recovered(exported(base), log_text(m.log->0.ready)) is Ok,
        recovered(exported(base), log_text(m.log->0.ready))->Ok_0.tables == m.db.tables,
{
    let e = m.log->0.ready;
    assert(entries(m.log->0) =~= e);
    super::check::law_snapshot_is_valid(base);
    law_import_export(base);
    assert(loaded(exported(base)) == Ok::<Database, Seq<char>>(base));
    assert forall|i: int| 0 <= i < e.len() implies is_line(#[trigger] e[i]) by {
        assert(is_line(entries(m.log->0)[i]));
    }
    lemma_log_lines(e);
    let h = seq!["# ProbeDB WAL v1"@];
    reveal_strlit("# ProbeDB WAL v1");
    reveal_with_fuel(after_log, 2);
    lemma_after_concat(base, h, e, e.len() as int);
    assert(after_log(base, h, 1) == base);
}

// ---------------------------------------------------------------------------
// Replaying any log
// ---------------------------------------------------------------------------

/// No two rows of a table have one id.
pub open spec fn unique_rows(db: Database) -> bool {
    forall|i: int| 0 <= i < db.tables.len() ==> distinct_ids((#[trigger] db.tables[i]).rows)
}

proof fn lemma_rows_unique(db: Database, t: Seq<char>, rows: Seq<Record>)
    requires
        unique_rows(db),
        db.has(t),
        distinct_ids(rows),
    ensures
        unique_rows(db.with_rows(t, rows)),
{
    lemma_found(db, t);
    let next = db.with_rows(t, rows);
    assert forall|i: int| 0 <= i < next.tables.len() implies distinct_ids(
        (#[trigger] next.tables[i]).rows,
    ) by {
        assert(distinct_ids(db.tables[i].rows));
    }
}

/// Replaying a line never makes a second row with the id of another.
proof fn lemma_line_unique(db: Database, line: Seq<char>)
    requires
        unique_rows(db),
    ensures
        unique_rows(after_line(db, line)),
{
    let p = fields(line);
    let next = after_line(db, line);
    if is_record(line) && replayed(db, line) is Ok && next != db {
        let t = p[1];
        lemma_found(db, t);
        if p[0] == "T"@ {
            assert forall|i: int| 0 <= i < next.tables.len() implies distinct_ids(
                (#[trigger] next.tables[i]).rows,
            ) by {
                if i < db.tables.len() {
                    assert(distinct_ids(db.tables[i].rows));
                }
            }
        } else if p[0] == "I"@ {
            let rows = db.table(t).rows;
            let id = (read_nat(p[2], u64::MAX as nat)->0) as u64;
            let more = rows.push(Record { id, values: values_coded(p.skip(3))->Ok_0 });
            assert(distinct_ids(db.tables[db.index(t)].rows));
            assert(!has_row(rows, id));
            assert forall|i: int, j: int| 0 <= i < j < more.len() implies (#[trigger] more[i]).id
                != (#[trigger] more[j]).id by {
                assert(rows[i].id != id);
                if j < rows.len() {
                    assert(rows[i].id != rows[j].id);
                }
            }
            lemma_rows_unique(db, t, more);
        } else if p[0] == "D"@ {
            let ids = seq![(read_nat(p[2], u64::MAX as nat)->0) as u64];
            assert(distinct_ids(db.tables[db.index(t)].rows));
            law_delete(db.table(t).rows, ids);
            lemma_rows_unique(db, t, rows_without(db.table(t).rows, ids));
        } else if p[0] == "U"@ {
            let ids = seq![(read_nat(p[2], u64::MAX as nat)->0) as u64];
            let col = (read_nat(p[3], usize::MAX as nat)->0) as int;
            let rows = updated_rows(db.table(t).rows, ids, col, value_coded(p[4])->Ok_0);
            assert(distinct_ids(db.tables[db.index(t)].rows));
            assert forall|i: int, j: int| 0 <= i < j < rows.len() implies (#[trigger] rows[i]).id
                != (#[trigger] rows[j]).id by {
                assert(db.table(t).rows[i].id != db.table(t).rows[j].id);
            }
            lemma_rows_unique(db, t, rows);
        } else {
            let k = db.index(t);
            assert forall|i: int| 0 <= i < next.tables.len() implies distinct_ids(
                (#[trigger] next.tables[i]).rows,
            ) by {
                let o = if i < k {
                    i
                } else {
                    i + 1
                };
                assert(next.tables[i] == db.tables[o]);
                assert(distinct_ids(db.tables[o].rows));
            }
        }
    }
}

/// Replaying a log, whatever it holds and however often it has been replayed before,
/// never makes a second row with the id of another.
pub proof fn law_replay_makes_no_duplicates(db: Database, l: Seq<Seq<char>>, n: int)
    requires
        unique_rows(db),
    ensures
        unique_rows(after_log(db, l, n)),
    decreases n,
{
    if n > 0 {
        law_replay_makes_no_duplicates(db, l, n - 1);
        lemma_line_unique(after_log(db, l, n - 1), l[n - 1]);
    }
}

/// The empty database is orderly and can be saved.
pub proof fn law_empty_database()
    ensures
        orderly(Database::empty()),
        storable_database(Database::empty()),
        unique_rows(Database::empty()),
{
}

} // verus!
