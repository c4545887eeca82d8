//! Saving and loading: what statements put into a database can be saved and read back.

use vstd::prelude::*;

use super::check::law_snapshot_is_valid;
use super::load::loaded;
use super::load::recovered;
use super::recovery::after_change;
use super::recovery::law_crash_recovery;
use super::recovery::lemma_log_lines;
use super::recovery::log_text;
use super::recovery::recordable;
use super::recovery::recordable_course;
use super::recovery::recoverable;
use super::wal::after_log;
use super::wal::law_replay_keeps_next_id;
use super::wal::record_count;
use crate::double::nan;
use crate::double::Double;
use crate::executor::plan::assignment_changes;
use crate::executor::plan::columns_given;
use crate::executor::plan::defined_columns;
use crate::executor::plan::planned;
use crate::executor::plan::row_read;
use crate::executor::plan::rows_read;
use crate::executor::plan::Alteration;
use crate::executor::run::Machine;
use crate::sql::statement::Statement;
use crate::storage::codec::fits;
use crate::storage::codec::numbers_of;
use crate::storage::codec::value_read;
use crate::storage::engine::lemma_found;
use crate::storage::engine::lemma_not_found;
use crate::storage::engine::misfit;
use crate::storage::engine::rows_without;
use crate::storage::engine::updated_row;
use crate::storage::engine::updated_rows;
use crate::storage::engine::Database;
use crate::storage::round_trip::clean_name;
use crate::storage::round_trip::law_import_export;
use crate::storage::round_trip::storable;
use crate::storage::round_trip::storable_column;
use crate::storage::round_trip::storable_database;
use crate::storage::round_trip::storable_double;
use crate::storage::round_trip::storable_row;
use crate::storage::round_trip::storable_table;
use crate::storage::schema::Column;
use crate::storage::schema::Record;
use crate::storage::snapshot::exported;
use crate::text::lines;
use crate::text::split;
use crate::text::trim_char;
use crate::types::law_date_normal;
use crate::types::law_time_normal;
use crate::types::DataType;
use crate::types::Datum;

verus! {

// ---------------------------------------------------------------------------
// Values
// ---------------------------------------------------------------------------

/// A NaN with its sign bit set: its text does not show the sign.
pub open spec fn negative_nan(x: Double) -> bool {
    x.is_nan() && x != nan()
}

/// A value without negative NaNs, and not longer than a vector can be.
pub open spec fn showable(d: Datum) -> bool {
    match d {
        Datum::Float(x) => !negative_nan(x),
        Datum::Vector(v) => v.len() <= usize::MAX && forall|i: int|
            0 <= i < v.len() ==> !negative_nan(#[trigger] v[i]),
        _ => true,
    }
}

proof fn lemma_numbers_len(p: Seq<Seq<char>>)
    requires
        numbers_of(p) is Some,
    ensures
        numbers_of(p)->0.len() == p.len(),
    decreases p.len(),
{
    if p.len() > 0 {
        lemma_numbers_len(p.drop_last());
    }
}

/// A value that is read from a statement can be saved and read back.
pub proof fn law_read_value_storable(s: Seq<char>, t: DataType)
    requires
        value_read(s, t) is Ok,
        showable(value_read(s, t)->Ok_0),
    ensures
        storable(value_read(s, t)->Ok_0),
{
    match t {
        DataType::Date => {
            law_date_normal(s);
        },
        DataType::Time => {
            law_time_normal(s);
        },
        DataType::Vector(_) => {
            let p = split(trim_char(trim_char(s, '['), ']'), ',');
            lemma_numbers_len(p);
            let v = numbers_of(p)->0;
            assert forall|i: int| 0 <= i < v.len() implies storable_double(#[trigger] v[i]) by {
                assert(!negative_nan(v[i]));
            }
        },
        _ => {},
    }
}

/// A value that is read for a column fits the column; but the number of a vector's
/// numbers is not looked at.
pub proof fn law_read_value_fits(s: Seq<char>, t: DataType)
    requires
        value_read(s, t) is Ok,
    ensures
        match (t, value_read(s, t)->Ok_0) {
            (DataType::Vector(n), Datum::Vector(v)) => true,
            (DataType::Vector(_), _) => false,
            (_, d) => fits(t, d),
        },
{
}

// ---------------------------------------------------------------------------
// Statements
// ---------------------------------------------------------------------------

/// The names that a statement gives to new tables, or drops, hold nothing that parts
/// fields or lines, and a new table has columns.
pub open spec fn plain_names(s: Statement) -> bool {
    match s {
        Statement::CreateTable { name, columns } => {
            &&& clean_name(name)
            &&& 0 < columns.len() <= usize::MAX
            &&& forall|i: int|
                0 <= i < columns.len() ==> storable_column(
                    #[trigger] defined_columns(columns)[i],
                    i,
                )
        },
        Statement::DropTable { table } => clean_name(table) && (table.len() > 0 ==> table.last()
            != '\r'),
        _ => true,
    }
}

/// The values that a change writes are showable.
pub open spec fn showable_change(a: Alteration) -> bool {
    match a {
        Alteration::Insert(_, v) => forall|i: int| 0 <= i < v.len() ==> showable(#[trigger] v[i]),
        Alteration::Update(_, _, _, d) => showable(d),
        _ => true,
    }
}

proof fn lemma_row_values(columns: Seq<Column>, t: Seq<Seq<char>>, n: int)
    requires
        row_read(columns, t, n) is Ok,
    ensures
        forall|i: int|
            0 <= i < row_read(columns, t, n)->Ok_0.len() && showable(
                #[trigger] row_read(columns, t, n)->Ok_0[i],
            ) ==> storable(row_read(columns, t, n)->Ok_0[i]),
    decreases n,
{
    if n > 0 {
        lemma_row_values(columns, t, n - 1);
        let v = row_read(columns, t, n - 1)->Ok_0;
        let all = row_read(columns, t, n)->Ok_0;
        let text = trim_char(t[n - 1], '\'');
        let d = value_read(text, columns[n - 1].data_type)->Ok_0;
        assert(all == v.push(d));
        if showable(d) {
            law_read_value_storable(text, columns[n - 1].data_type);
        }
        assert forall|i: int| 0 <= i < all.len() && showable(#[trigger] all[i]) implies storable(
            all[i],
        ) by {
            if i < v.len() {
                assert(all[i] == v[i]);
            }
        }
    }
}

proof fn lemma_insertions_recordable(
    columns: Seq<Column>,
    table: Seq<char>,
    rows: Seq<Seq<Seq<char>>>,
)
    requires
        clean_name(table),
        rows_read(columns, rows) is Ok,
    ensures
        forall|i: int|
            0 <= i < rows_read(columns, rows)->Ok_0.len() && showable_change(
                Alteration::Insert(table, #[trigger] rows_read(columns, rows)->Ok_0[i]),
            ) ==> recordable(Alteration::Insert(table, rows_read(columns, rows)->Ok_0[i])),
    decreases rows.len(),
{
    if rows.len() > 0 {
        lemma_insertions_recordable(columns, table, rows.drop_last());
        let before = rows_read(columns, rows.drop_last())->Ok_0;
        let all = rows_read(columns, rows)->Ok_0;
        let n = columns_given(columns, rows.last());
        lemma_row_values(columns, rows.last(), n);
        let d = row_read(columns, rows.last(), n)->Ok_0;
        assert(all == before.push(d));
        assert forall|i: int|
            0 <= i < all.len() && showable_change(
                Alteration::Insert(table, #[trigger] all[i]),
            ) implies recordable(Alteration::Insert(table, all[i])) by {
            if i < before.len() {
                assert(all[i] == before[i]);
            } else {
                assert(all[i] == d);
                let a = Alteration::Insert(table, d);
                assert(showable_change(a));
                assert(a->Insert_1 == d);
                assert(forall|j: int| 0 <= j < d.len() ==> showable(#[trigger] d[j]));
            }
        }
    }
}

proof fn lemma_assignments_recordable(
    columns: Seq<Column>,
    table: Seq<char>,
    ids: Seq<u64>,
    a: Seq<(Seq<char>, Seq<char>)>,
)
    requires
        clean_name(table),
    ensures
        forall|i: int|
            0 <= i < assignment_changes(columns, table, ids, a).changes.len() && showable_change(
                #[trigger] assignment_changes(columns, table, ids, a).changes[i],
            ) ==> recordable(assignment_changes(columns, table, ids, a).changes[i]),
        !(assignment_changes(columns, table, ids, a).conclusion is Fails) ==> assignment_changes(
            columns,
            table,
            ids,
            a,
        ).conclusion is Updated,
    decreases a.len(),
{
    if a.len() > 0 {
        lemma_assignments_recordable(columns, table, ids, a.drop_last());
        let before = assignment_changes(columns, table, ids, a.drop_last());
        let all = assignment_changes(columns, table, ids, a);
        assert forall|i: int|
            0 <= i < all.changes.len() && showable_change(#[trigger] all.changes[i]) implies recordable(
            all.changes[i],
        ) by {
            if i < before.changes.len() {
                assert(all.changes[i] == before.changes[i]);
            } else {
                let (name, text) = a.last();
                let c = crate::executor::column::find_column(
                    columns,
                    crate::executor::column::Naming::Exact,
                    name,
                )->0;
                law_read_value_storable(text, c.data_type);
            }
        }
    }
}

/// What a statement with plain names does to a database whose table names are clean can
/// be told in full by log records, where its values are showable.
pub proof fn law_statement_recordable(db: Database, s: Statement)
    requires
        plain_names(s),
        forall|i: int| 0 <= i < db.tables.len() ==> clean_name((#[trigger] db.tables[i]).schema.name),
        forall|i: int|
            0 <= i < planned(db, s).changes.len() ==> showable_change(
                #[trigger] planned(db, s).changes[i],
            ),
    ensures
        recordable_course(planned(db, s)),
{
    let c = planned(db, s);
    match s {
        Statement::CreateTable { name, columns } => {
            assert(defined_columns(columns).len() == columns.len());
        },
        Statement::Insert { table, columns, values } => {
            if db.has(table) {
                lemma_found(db, table);
                assert(clean_name(db.tables[db.index(table)].schema.name));
                let cols = db.table(table).schema.columns;
                if rows_read(cols, values) is Ok {
                    lemma_insertions_recordable(cols, table, values);
                    let rows = rows_read(cols, values)->Ok_0;
                    assert forall|i: int| 0 <= i < c.changes.len() implies recordable(
                        #[trigger] c.changes[i],
                    ) by {
                        assert(c.changes[i] == Alteration::Insert(table, rows[i]));
                    }
                }
            }
        },
        Statement::Delete { table, condition } => {
            if db.has(table) {
                lemma_found(db, table);
                assert(clean_name(db.tables[db.index(table)].schema.name));
            }
        },
        Statement::Update { table, assignments, condition } => {
            if db.has(table) {
                lemma_found(db, table);
                assert(clean_name(db.tables[db.index(table)].schema.name));
                lemma_assignments_recordable(
                    db.table(table).schema.columns,
                    table,
                    crate::executor::plan::matched_ids(db, table, condition),
                    assignments,
                );
            }
        },
        _ => {},
    }
}

// ---------------------------------------------------------------------------
// Databases
// ---------------------------------------------------------------------------

/// An update gives its column a value that fits. This is not looked at when a statement
/// is carried out: a vector of another dimension is let in.
pub open spec fn fitting(db: Database, a: Alteration) -> bool {
    match a {
        Alteration::Update(t, _, col, d) => db.has(t) && col < db.table(t).schema.columns.len()
            ==> fits(db.table(t).schema.columns[col as int].data_type, d),
        _ => true,
    }
}

proof fn lemma_misfit(columns: Seq<Column>, v: Seq<Datum>, k: int)
    requires
        0 <= k <= v.len(),
        columns.len() == v.len(),
    ensures
        misfit(columns, v, k) is None <==> forall|i: int|
            k <= i < v.len() ==> fits(columns[i].data_type, #[trigger] v[i]),
    decreases v.len() - k,
{
    if k < v.len() {
        lemma_misfit(columns, v, k + 1);
        if misfit(columns, v, k) is None {
            assert forall|i: int| k <= i < v.len() implies fits(
                columns[i].data_type,
                #[trigger] v[i],
            ) by {}
        }
    }
}

proof fn lemma_updated_storable(c: Seq<Column>, r: Record, ids: Seq<u64>, col: int, d: Datum)
    requires
        storable_row(c, r),
        storable(d),
        0 <= col < c.len() ==> fits(c[col].data_type, d),
    ensures
        storable_row(c, updated_row(r, ids, col, d)),
{
    let u = updated_row(r, ids, col, d);
    lemma_misfit(c, r.values, 0);
    lemma_misfit(c, u.values, 0);
    assert forall|i: int| 0 <= i < u.values.len() implies fits(
        c[i].data_type,
        #[trigger] u.values[i],
    ) by {
        if i != col {
            assert(u.values[i] == r.values[i]);
        }
    }
    assert forall|i: int| 0 <= i < u.values.len() implies storable(#[trigger] u.values[i]) by {
        if i != col {
            assert(u.values[i] == r.values[i]);
        }
    }
}

proof fn lemma_left_storable(c: Seq<Column>, rows: Seq<Record>, ids: Seq<u64>)
    requires
        forall|i: int| 0 <= i < rows.len() ==> storable_row(c, #[trigger] rows[i]),
    ensures
        forall|i: int|
            0 <= i < rows_without(rows, ids).len() ==> storable_row(
                c,
                #[trigger] rows_without(rows, ids)[i],
            ),
    decreases rows.len(),
{
    if rows.len() > 0 {
        let front = rows.drop_last();
        assert forall|i: int| 0 <= i < front.len() implies storable_row(c, #[trigger] front[i]) by {
            assert(storable_row(c, rows[i]));
        }
        lemma_left_storable(c, front, ids);
        assert(storable_row(c, rows[rows.len() - 1]));
        let rest = rows_without(front, ids);
        let all = rows_without(rows, ids);
        assert forall|i: int| 0 <= i < all.len() implies storable_row(c, #[trigger] all[i]) by {
            if i < rest.len() {
                assert(all[i] == rest[i]);
            }
        }
    }
}

proof fn lemma_rows_storable(db: Database, t: Seq<char>, rows: Seq<Record>, next: u64)
    requires
        storable_database(db),
        db.has(t),
        forall|i: int|
            0 <= i < rows.len() ==> storable_row(db.table(t).schema.columns, #[trigger] rows[i]),
    ensures
        storable_database(Database { next_id: next, ..db.with_rows(t, rows) }),
{
    lemma_found(db, t);
    let d = Database { next_id: next, ..db.with_rows(t, rows) };
    assert forall|i: int| 0 <= i < d.tables.len() implies storable_table(#[trigger] d.tables[i]) by {
        assert(storable_table(db.tables[i]));
    }
    assert forall|i: int, j: int| 0 <= i < j < d.tables.len() implies #[trigger] d.tables[i].schema.name
        != #[trigger] d.tables[j].schema.name by {
        assert(db.tables[i].schema.name != db.tables[j].schema.name);
    }
}

/// A change that can be told in full, with values that fit, keeps a database storable.
pub proof fn law_change_keeps_storable(db: Database, a: Alteration)
    requires
        storable_database(db),
        recordable(a),
        fitting(db, a),
    ensures
        storable_database(after_change(db, a)),
{
    let next = after_change(db, a);
    match a {
        Alteration::Create(s) => {
            if !db.has(s.name) {
                lemma_not_found(db, s.name);
                assert forall|i: int| 0 <= i < next.tables.len() implies storable_table(
                    #[trigger] next.tables[i],
                ) by {
                    if i < db.tables.len() {
                        assert(storable_table(db.tables[i]));
                    }
                }
                assert forall|i: int, j: int| 0 <= i < j < next.tables.len() implies
                    #[trigger] next.tables[i].schema.name != #[trigger] next.tables[j].schema.name by {
                    if j < db.tables.len() {
                        assert(db.tables[i].schema.name != db.tables[j].schema.name);
                    } else {
                        assert(db.tables[i].schema.name != s.name);
                    }
                }
            }
        },
        Alteration::Drop(t) => {
            if db.has(t) {
                lemma_found(db, t);
                let k = db.index(t);
                assert forall|i: int| 0 <= i < next.tables.len() implies storable_table(
                    #[trigger] next.tables[i],
                ) by {
                    let o = if i < k {
                        i
                    } else {
                        i + 1
                    };
                    assert(next.tables[i] == db.tables[o]);
                    assert(storable_table(db.tables[o]));
                }
                assert forall|i: int, j: int| 0 <= i < j < next.tables.len() implies
                    #[trigger] next.tables[i].schema.name != #[trigger] next.tables[j].schema.name by {
                    let o = if i < k {
                        i
                    } else {
                        i + 1
                    };
                    let q = if j < k {
                        j
                    } else {
                        j + 1
                    };
                    assert(db.tables[o].schema.name != db.tables[q].schema.name);
                }
            }
        },
        Alteration::Insert(t, v) => {
            if db.insert_error(t, v) is None && db.next_id < u64::MAX {
                lemma_found(db, t);
                assert(storable_table(db.tables[db.index(t)]));
                let c = db.table(t).schema.columns;
                let rows = db.table(t).rows.push(Record { id: db.next_id, values: v });
                assert forall|i: int| 0 <= i < rows.len() implies storable_row(
                    c,
                    #[trigger] rows[i],
                ) by {
                    if i < rows.len() - 1 {
                        assert(storable_row(c, db.table(t).rows[i]));
                    }
                }
                lemma_rows_storable(db, t, rows, (db.next_id + 1) as u64);
            }
        },
        Alteration::Delete(t, ids) => {
            if db.has(t) {
                lemma_found(db, t);
                assert(storable_table(db.tables[db.index(t)]));
                lemma_left_storable(db.table(t).schema.columns, db.table(t).rows, ids);
                lemma_rows_storable(db, t, rows_without(db.table(t).rows, ids), db.next_id);
            }
        },
        Alteration::Update(t, ids, col, d) => {
            if db.has(t) {
                lemma_found(db, t);
                assert(storable_table(db.tables[db.index(t)]));
                let c = db.table(t).schema.columns;
                let rows = updated_rows(db.table(t).rows, ids, col as int, d);
                assert forall|i: int| 0 <= i < rows.len() implies storable_row(
                    c,
                    #[trigger] rows[i],
                ) by {
                    assert(storable_row(c, db.table(t).rows[i]));
                    lemma_updated_storable(c, db.table(t).rows[i], ids, col as int, d);
                }
                lemma_rows_storable(db, t, rows, db.next_id);
            }
        },
    }
}

/// Whether the first `n` changes fit as they come up.
pub open spec fn fitting_run(m: Machine, a: Seq<Alteration>, n: int) -> bool
    decreases n,
{
    n <= 0 || {
        &&& fitting_run(m, a, n - 1)
        &&& m.ran(a, n - 1).1 is Ok ==> fitting(m.ran(a, n - 1).0.db, a[n - 1])
    }
}

proof fn lemma_ran_storable(m: Machine, a: Seq<Alteration>, n: int)
    requires
        storable_database(m.db),
        0 <= n <= a.len(),
        forall|i: int| 0 <= i < a.len() ==> recordable(#[trigger] a[i]),
        fitting_run(m, a, n),
    ensures
        storable_database(m.ran(a, n).0.db),
    decreases n,
{
    if n > 0 {
        lemma_ran_storable(m, a, n - 1);
        if m.ran(a, n - 1).1 is Ok {
            law_change_keeps_storable(m.ran(a, n - 1).0.db, a[n - 1]);
        }
    }
}

/// What a database holds after a statement is what a snapshot of it gives back. This
/// leaves out names that part fields or lines, tables without columns, negative NaNs,
/// and updates that give a vector column a vector of another dimension.
pub proof fn law_statement_then_reload(m: Machine, s: Statement)
    requires
        storable_database(m.db),
        plain_names(s),
        forall|i: int|
            0 <= i < planned(m.db, s).changes.len() ==> showable_change(
                #[trigger] planned(m.db, s).changes[i],
            ),
        fitting_run(m, planned(m.db, s).changes, planned(m.db, s).changes.len() as int),
    ensures
        storable_database(m.executed(s).0.db),
        loaded(exported(m.executed(s).0.db)) == Ok::<Database, Seq<char>>(m.executed(s).0.db),
{
    let a = planned(m.db, s).changes;
    assert forall|i: int| 0 <= i < m.db.tables.len() implies clean_name(
        (#[trigger] m.db.tables[i]).schema.name,
    ) by {
        assert(storable_table(m.db.tables[i]));
    }
    law_statement_recordable(m.db, s);
    lemma_ran_storable(m, a, a.len() as int);
    law_save_and_load(m.executed(s).0.db);
}

/// A storable database is loaded from its snapshot as it was saved.
pub proof fn law_save_and_load(db: Database)
    requires
        storable_database(db),
    ensures
        loaded(exported(db)) == Ok::<Database, Seq<char>>(db),
{
    law_snapshot_is_valid(db);
    law_import_export(db);
}

/// After a crash, what is recovered is what was there, and can be saved at once: its
/// snapshot, with the log emptied, gives it back again.
pub proof fn law_recovered_is_saved(base: Database, m: Machine)
    requires
        storable_database(base),
        recoverable(base, m),
        m.log->0.pending.len() == 0,
        storable_database(m.db),
    ensures
        ({
            let r = recovered(exported(base), log_text(m.log->0.ready));
            &&& r is Ok
            &&& r->Ok_0 == (Database { next_id: base.next_id, ..m.db })
            &&& loaded(exported(r->Ok_0)) == r
            &&& recovered(exported(r->Ok_0), log_text(Seq::empty())) == r
            &&& record_count(lines(log_text(Seq::empty()))) == 0
        }),
{
    let e = m.log->0.ready;
    let none = Seq::<Seq<char>>::empty();
    law_crash_recovery(base, m);
    let r = recovered(exported(base), log_text(e))->Ok_0;
    law_save_and_load(base);
    law_replay_keeps_next_id(base, lines(log_text(e)), lines(log_text(e)).len() as int);
    assert(r.tables == m.db.tables);
    assert(r.next_id == base.next_id);
    assert(storable_database(r));
    law_save_and_load(r);
    lemma_log_lines(none);
    reveal_strlit("# ProbeDB WAL v1");
    let l = lines(log_text(none));
    assert(l =~= seq!["# ProbeDB WAL v1"@]);
    reveal_with_fuel(after_log, 2);
    assert(l.drop_last() =~= none);
    reveal_with_fuel(record_count, 2);
}

} // verus!
