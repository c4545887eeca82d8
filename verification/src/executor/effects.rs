//! What statements do to the tables, and what they reply.

use vstd::prelude::*;

use crate::executor::answers::distinct_columns;
use crate::executor::answers::law_exact_column;
use crate::executor::column::find_column;
use crate::executor::column::Naming;
use crate::executor::condition::matched;
use crate::executor::condition::or_parts;
use crate::executor::filter::ascending;
use crate::executor::filter::law_condition_selects;
use crate::executor::filter::lemma_ascending_distinct;
use crate::executor::filter::meets_any;
use crate::executor::filter::rows_meeting;
use crate::executor::laws::law_other_tables;
use crate::executor::plan::altered;
use crate::executor::plan::assignment_changes;
use crate::executor::plan::columns_given;
use crate::executor::plan::defined_columns;
use crate::executor::plan::ids_of;
use crate::executor::plan::insertions;
use crate::executor::plan::matched_ids;
use crate::executor::plan::row_read;
use crate::executor::plan::rows_read;
use crate::executor::plan::Alteration;
use crate::executor::plan::Conclusion;
use crate::executor::plan::Course;
use crate::executor::run::concluded;
use crate::executor::run::share;
use crate::executor::run::sum;
use crate::executor::run::Machine;
use crate::executor::run::Reply;
use crate::executor::select::selected;
use crate::number::is_digit;
use crate::number::show_nat;
use crate::sql::statement::Query;
use crate::sql::statement::Statement;
use crate::storage::codec::fits;
use crate::storage::codec::value_read;
use crate::storage::engine::lemma_before_found;
use crate::storage::engine::lemma_found;
use crate::storage::engine::lemma_not_found;
use crate::storage::engine::lemma_table_index_is;
use crate::storage::engine::misfit;
use crate::storage::engine::row_error;
use crate::storage::engine::rows_without;
use crate::storage::engine::updated_count;
use crate::storage::engine::updated_rows;
use crate::storage::engine::Database;
use crate::storage::round_trip::is_plain;
use crate::storage::round_trip::lemma_double_text;
use crate::storage::round_trip::lemma_int_text;
use crate::storage::round_trip::storable;
use crate::storage::schema::Column;
use crate::storage::schema::Record;
use crate::storage::schema::Schema;
use crate::text::split;
use crate::text::trim_char;
use crate::texts::law_trim_char;
use crate::types::lemma_three_pieces;
use crate::types::lemma_time_parts;
use crate::types::shown;
use crate::types::DataType;
use crate::types::Datum;
use crate::values::is_of;
use crate::values::law_fits;
use crate::values::law_read_shown_value;

verus! {

// ---------------------------------------------------------------------------
// Tables
// ---------------------------------------------------------------------------

/// Every table but the one named `t` is in both databases or in neither, and is the same.
pub open spec fn same_but(a: Database, b: Database, t: Seq<char>) -> bool {
    forall|other: Seq<char>|
        other != t ==> (#[trigger] a.has(other) == b.has(other)) && (a.has(other) ==> a.table(other)
            == b.table(other))
}

/// `CREATE TABLE` makes an empty table with the columns in the order in which they are
/// defined; it fails, and changes nothing, where there is a table with the name.
pub proof fn law_create_table(m: Machine, name: Seq<char>, columns: Seq<(Seq<char>, DataType)>)
    requires
        m.db.wf(),
        columns.len() <= usize::MAX,
    ensures
        ({
            let (next, reply) = m.executed(Statement::CreateTable { name, columns });
            &&& m.db.has(name) ==> reply is Err && next.db == m.db
            &&& !m.db.has(name) ==> {
                &&& reply == Ok::<Reply, Seq<char>>(Reply::TableCreated(name))
                &&& next.db.has(name)
                &&& next.db.table(name).rows.len() == 0
                &&& next.db.table(name).schema.columns.len() == columns.len()
                &&& forall|i: int|
                    0 <= i < columns.len() ==> {
                        let x = #[trigger] next.db.table(name).schema.columns[i];
                        x.name == columns[i].0 && x.data_type == columns[i].1 && x.index == i
                    }
                &&& same_but(m.db, next.db, name)
                &&& next.db.next_id == m.db.next_id
            }
        }),
{
    let s = Schema { name, columns: defined_columns(columns) };
    let a = Alteration::Create(s);
    lemma_one_change(m, a, Conclusion::Created(name));
    if !m.db.has(name) {
        let db = m.db.created(s);
        lemma_not_found(m.db, name);
        assert forall|j: int| 0 <= j < m.db.tables.len() implies (#[trigger] db.tables[j]).schema.name
            != name by {
            assert(m.db.tables[j].schema.name != name);
        }
        lemma_table_index_is(db.tables, name, m.db.tables.len() as int);
        assert forall|other: Seq<char>| other != name implies (#[trigger] m.db.has(other)
            == db.has(other)) && (m.db.has(other) ==> m.db.table(other) == db.table(other)) by {
            lemma_found(m.db, other);
            lemma_before_found(m.db, other);
            let k = if m.db.has(other) {
                m.db.index(other)
            } else {
                db.tables.len() as int
            };
            assert forall|j: int| 0 <= j < k implies (#[trigger] db.tables[j]).schema.name
                != other by {
                if j < m.db.tables.len() {
                    assert(m.db.tables[j].schema.name != other);
                }
            }
            lemma_table_index_is(db.tables, other, k);
        }
    }
}

/// A statement of one change.
proof fn lemma_one_change(m: Machine, a: Alteration, conclusion: Conclusion)
    ensures
        ({
            let (next, reply) = m.followed(Course::one(a, conclusion));
            &&& next == m.stepped(a)
            &&& altered(m.db, a) matches Err(e) ==> reply == Err::<Reply, Seq<char>>(e) && next.db
                == m.db
            &&& altered(m.db, a) matches Ok(x) ==> reply == concluded(
                conclusion,
                seq![x.1 as u64],
            ) && next.db == x.0
        }),
{
    reveal_with_fuel(Machine::ran, 2);
    let c = seq![a];
    assert(c[0] == a);
    match altered(m.db, a) {
        Ok(x) => {
            assert(Seq::<u64>::empty().push(x.1 as u64) =~= seq![x.1 as u64]);
        },
        Err(_) => {},
    }
}

/// `DROP TABLE` takes the table away and leaves all others; it fails, and changes nothing,
/// where there is no such table.
pub proof fn law_drop_table(m: Machine, name: Seq<char>)
    requires
        m.db.wf(),
    ensures
        ({
            let (next, reply) = m.executed(Statement::DropTable { table: name });
            &&& !m.db.has(name) ==> reply is Err && next.db == m.db
            &&& m.db.has(name) ==> {
                &&& reply == Ok::<Reply, Seq<char>>(Reply::TableDropped(name))
                &&& !next.db.has(name)
                &&& same_but(m.db, next.db, name)
                &&& next.db.next_id == m.db.next_id
            }
        }),
{
    lemma_one_change(m, Alteration::Drop(name), Conclusion::Dropped(name));
    if m.db.has(name) {
        let db = m.db.dropped(name);
        let d = m.db.index(name);
        lemma_found(m.db, name);
        assert forall|j: int| 0 <= j < db.tables.len() implies #[trigger] db.tables[j]
            == m.db.tables[if j < d {
            j
        } else {
            j + 1
        }] by {}
        assert forall|j: int| 0 <= j < db.tables.len() implies (#[trigger] db.tables[j]).schema.name
            != name by {
            if j < d {
                assert(m.db.tables[j].schema.name != m.db.tables[d].schema.name);
            } else {
                assert(m.db.tables[d].schema.name != m.db.tables[j + 1].schema.name);
            }
        }
        lemma_table_index_is(db.tables, name, db.tables.len() as int);
        assert forall|other: Seq<char>| other != name implies (#[trigger] m.db.has(other)
            == db.has(other)) && (m.db.has(other) ==> m.db.table(other) == db.table(other)) by {
            lemma_found(m.db, other);
            lemma_before_found(m.db, other);
            let i = m.db.index(other);
            let k = if !m.db.has(other) {
                db.tables.len() as int
            } else if i < d {
                i
            } else {
                i - 1
            };
            assert forall|j: int| 0 <= j < k implies (#[trigger] db.tables[j]).schema.name
                != other by {
                if j < d {
                    assert(m.db.tables[j].schema.name != other);
                } else {
                    assert(m.db.tables[j + 1].schema.name != other);
                }
            }
            lemma_table_index_is(db.tables, other, k);
        }
    }
}

/// What names no table fails and changes nothing.
pub proof fn law_no_table(
    m: Machine,
    t: Seq<char>,
    columns: Seq<Seq<char>>,
    values: Seq<Seq<Seq<char>>>,
    assignments: Seq<(Seq<char>, Seq<char>)>,
    condition: Option<Seq<char>>,
    q: Query,
)
    requires
        !m.db.has(t),
        q.table == t,
    ensures
        m.executed(Statement::Insert { table: t, columns, values }).1 is Err,
        m.executed(Statement::Insert { table: t, columns, values }).0 == m,
        m.executed(Statement::Delete { table: t, condition }).1 is Err,
        m.executed(Statement::Delete { table: t, condition }).0 == m,
        m.executed(Statement::Update { table: t, assignments, condition }).1 is Err,
        m.executed(Statement::Update { table: t, assignments, condition }).0 == m,
        m.executed(Statement::Select(q)).1 is Err,
        m.executed(Statement::Select(q)).0 == m,
{
}

/// A query changes nothing, and replies with what it selects.
pub proof fn law_select(m: Machine, q: Query)
    ensures
        m.executed(Statement::Select(q)).0 == m,
        selected(m.db, q) matches Ok(a) ==> m.executed(Statement::Select(q)).1 == Ok::<
            Reply,
            Seq<char>,
        >(Reply::SelectResult(a)),
        selected(m.db, q) matches Err(e) ==> m.executed(Statement::Select(q)).1 == Err::<
            Reply,
            Seq<char>,
        >(e),
{
}

// ---------------------------------------------------------------------------
// INSERT
// ---------------------------------------------------------------------------

/// A value that can be written in a statement as it is shown.
pub open spec fn writable(d: Datum, t: DataType) -> bool {
    &&& is_of(d, t)
    &&& storable(d)
    &&& d is Text && d->Text_0.len() > 0 ==> d->Text_0[0] != '\'' && d->Text_0.last() != '\''
    &&& d is Vector ==> d->Vector_0.len() > 0
}

/// A row of values that can be written, one for each column.
pub open spec fn writable_row(columns: Seq<Column>, v: Seq<Datum>) -> bool {
    &&& v.len() == columns.len()
    &&& forall|i: int| 0 <= i < v.len() ==> writable(#[trigger] v[i], columns[i].data_type)
}

/// A row as texts.
pub open spec fn shown_values(v: Seq<Datum>) -> Seq<Seq<char>> {
    v.map_values(|d: Datum| shown(d))
}

proof fn lemma_no_quote(s: Seq<char>)
    requires
        s.len() > 0 ==> s[0] != '\'' && s.last() != '\'',
    ensures
        trim_char(s, '\'') == s,
{
    let e = Seq::<char>::empty();
    law_trim_char(e, s, e, '\'');
    assert(e + s + e =~= s);
}

proof fn lemma_shown_ends(d: Datum, t: DataType)
    requires
        writable(d, t),
    ensures
        trim_char(shown(d), '\'') == shown(d),
{
    let s = shown(d);
    match d {
        Datum::Integer(n) => {
            lemma_int_text(n as int);
            if s.len() > 0 {
                assert(is_plain(s[0]) && is_plain(s[s.len() - 1]));
            }
        },
        Datum::Float(x) => {
            lemma_double_text(x);
            assert(is_plain(s[0]) && is_plain(s[s.len() - 1]));
        },
        Datum::Boolean(_) => {
            reveal_strlit("true");
            reveal_strlit("false");
        },
        Datum::Date(x) => {
            lemma_three_pieces(x, '-');
            let p = split(x, '-');
            assert(is_digit(p[0][0]) && is_digit(p[2][1]));
            assert(s[0] == p[0][0]);
            assert(s.last() == p[2][1]);
        },
        Datum::Time(x) => {
            lemma_time_parts(x);
            lemma_three_pieces(x, ':');
            let p = split(x, ':');
            assert(is_digit(p[0][0]) && is_digit(p[2][1]));
            assert(s[0] == p[0][0]);
            assert(s.last() == p[2][1]);
        },
        Datum::Vector(v) => {
            reveal_strlit("[");
            reveal_strlit("]");
            assert(s[0] == '[');
            assert(s.last() == ']');
        },
        Datum::Text(_) => {},
    }
    lemma_no_quote(s);
}

proof fn lemma_row_read(columns: Seq<Column>, v: Seq<Datum>, n: int)
    requires
        writable_row(columns, v),
        0 <= n <= v.len(),
    ensures
        row_read(columns, shown_values(v), n) == Ok::<Seq<Datum>, Seq<char>>(v.take(n)),
    decreases n,
{
    if n == 0 {
        assert(v.take(0) =~= Seq::empty());
    } else {
        lemma_row_read(columns, v, n - 1);
        let d = v[n - 1];
        let t = columns[n - 1].data_type;
        assert(writable(v[n - 1], columns[n - 1].data_type));
        lemma_shown_ends(d, t);
        law_read_shown_value(d, t);
        assert(v.take(n - 1).push(d) =~= v.take(n));
    }
}

/// Rows of values that can be written.
pub open spec fn writable_rows(columns: Seq<Column>, rows: Seq<Seq<Datum>>) -> bool {
    forall|i: int| 0 <= i < rows.len() ==> writable_row(columns, #[trigger] rows[i])
}

/// Rows as texts.
pub open spec fn shown_table(rows: Seq<Seq<Datum>>) -> Seq<Seq<Seq<char>>> {
    rows.map_values(|v: Seq<Datum>| shown_values(v))
}

proof fn lemma_rows_read(columns: Seq<Column>, rows: Seq<Seq<Datum>>)
    requires
        writable_rows(columns, rows),
    ensures
        rows_read(columns, shown_table(rows)) == Ok::<Seq<Seq<Datum>>, Seq<char>>(rows),
    decreases rows.len(),
{
    let t = shown_table(rows);
    if rows.len() == 0 {
        assert(rows =~= Seq::empty());
    } else {
        let front = rows.drop_last();
        assert(t.drop_last() =~= shown_table(front));
        assert forall|i: int| 0 <= i < front.len() implies writable_row(
            columns,
            #[trigger] front[i],
        ) by {
            assert(front[i] == rows[i]);
        }
        lemma_rows_read(columns, front);
        let v = rows[rows.len() - 1];
        assert(writable_row(columns, rows[rows.len() - 1]));
        lemma_row_read(columns, v, v.len() as int);
        assert(v.take(v.len() as int) =~= v);
        assert(t.last() == shown_values(v));
        assert(front.push(v) =~= rows);
    }
}

proof fn lemma_no_misfit(columns: Seq<Column>, v: Seq<Datum>, i: int)
    requires
        writable_row(columns, v),
        0 <= i <= v.len(),
    ensures
        misfit(columns, v, i) is None,
    decreases v.len() - i,
{
    if i < v.len() {
        assert(writable(v[i], columns[i].data_type));
        law_fits(columns[i].data_type, v[i]);
        lemma_no_misfit(columns, v, i + 1);
    }
}

/// Rows with the ids from `id` on.
pub open spec fn rows_from(id: u64, v: Seq<Seq<Datum>>) -> Seq<Record> {
    Seq::new(v.len(), |i: int| Record { id: (id + i) as u64, values: v[i] })
}

/// The table with other rows stays where it is.
proof fn lemma_with_rows(db: Database, t: Seq<char>, rows: Seq<Record>)
    requires
        db.has(t),
    ensures
        db.with_rows(t, rows).has(t),
        db.with_rows(t, rows).index(t) == db.index(t),
        db.with_rows(t, rows).table(t).rows == rows,
        db.with_rows(t, rows).table(t).schema == db.table(t).schema,
{
    let next = db.with_rows(t, rows);
    lemma_found(db, t);
    lemma_before_found(db, t);
    assert forall|j: int| 0 <= j < db.index(t) implies (#[trigger] next.tables[j]).schema.name
        != t by {
        assert(db.tables[j].schema.name != t);
    }
    lemma_table_index_is(next.tables, t, db.index(t));
}

/// The database with rows more in a table.
pub open spec fn with_more(db: Database, t: Seq<char>, v: Seq<Seq<Datum>>) -> Database {
    Database {
        next_id: (db.next_id + v.len()) as u64,
        ..db.with_rows(t, db.table(t).rows + rows_from(db.next_id, v))
    }
}

proof fn lemma_more(db: Database, t: Seq<char>, v: Seq<Seq<Datum>>)
    requires
        db.has(t),
    ensures
        with_more(db, t, v).has(t),
        with_more(db, t, v).index(t) == db.index(t),
        with_more(db, t, v).table(t).rows == db.table(t).rows + rows_from(db.next_id, v),
        with_more(db, t, v).table(t).schema == db.table(t).schema,
{
    lemma_with_rows(db, t, db.table(t).rows + rows_from(db.next_id, v));
    let a = db.with_rows(t, db.table(t).rows + rows_from(db.next_id, v));
    let b = with_more(db, t, v);
    assert(a.tables == b.tables);
}

proof fn lemma_insert_run(m: Machine, t: Seq<char>, v: Seq<Seq<Datum>>, n: int)
    requires
        m.db.has(t),
        writable_rows(m.db.table(t).schema.columns, v),
        m.db.next_id + v.len() <= u64::MAX,
        0 <= n <= v.len(),
    ensures
        ({
            let (next, numbers) = m.ran(insertions(t, v), n);
            &&& numbers is Ok
            &&& numbers->Ok_0.len() == n
            &&& forall|i: int|
                0 <= i < n ==> #[trigger] numbers->Ok_0[i] == m.db.next_id + i
            &&& next.db == with_more(m.db, t, v.take(n))
        }),
    decreases n,
{
    let db = m.db;
    lemma_found(db, t);
    if n == 0 {
        let r = db.table(t).rows;
        assert(r + rows_from(db.next_id, v.take(0)) =~= r);
        let same = db.with_rows(t, r);
        assert(same.tables =~= db.tables);
        assert(with_more(db, t, v.take(0)) =~= db);
    } else {
        lemma_insert_run(m, t, v, n - 1);
        let (before, numbers) = m.ran(insertions(t, v), n - 1);
        let w = v[n - 1];
        let a = insertions(t, v)[n - 1];
        assert(a == Alteration::Insert(t, w));
        let mid = before.db;
        lemma_more(db, t, v.take(n - 1));
        assert(writable_row(db.table(t).schema.columns, v[n - 1]));
        lemma_no_misfit(db.table(t).schema.columns, w, 0);
        assert(mid.insert_error(t, w) is None);
        let id = mid.next_id;
        assert(id == db.next_id + (n - 1));
        let r = db.table(t).rows;
        let old_rows = r + rows_from(db.next_id, v.take(n - 1));
        let new_rows = r + rows_from(db.next_id, v.take(n));
        assert(old_rows.push(Record { id, values: w }) =~= new_rows);
        let after = altered(mid, a)->Ok_0.0;
        assert(after.tables =~= with_more(db, t, v.take(n)).tables);
        assert(after == with_more(db, t, v.take(n)));
    }
}

/// `INSERT` puts the rows that are written behind those of the table, under the ids from the
/// next one on, and changes nothing else. It replies with the id of a single row, and with
/// the number of several.
pub proof fn law_insert(
    m: Machine,
    t: Seq<char>,
    columns: Seq<Seq<char>>,
    v: Seq<Seq<Datum>>,
)
    requires
        m.db.wf(),
        m.db.has(t),
        writable_rows(m.db.table(t).schema.columns, v),
        m.db.next_id + v.len() <= u64::MAX,
    ensures
        ({
            let (next, reply) = m.executed(
                Statement::Insert { table: t, columns, values: shown_table(v) },
            );
            &&& reply is Ok
            &&& v.len() == 1 ==> reply->Ok_0 == Reply::Inserted(m.db.next_id)
            &&& v.len() != 1 ==> reply->Ok_0 == Reply::Message(
                "插入 "@ + show_nat(v.len()) + " 行数据"@,
            )
            &&& next.db.has(t)
            &&& next.db.table(t).schema == m.db.table(t).schema
            &&& next.db.table(t).rows == m.db.table(t).rows + rows_from(m.db.next_id, v)
            &&& next.db.next_id == m.db.next_id + v.len()
            &&& same_but(m.db, next.db, t)
        }),
{
    let db = m.db;
    lemma_rows_read(db.table(t).schema.columns, v);
    lemma_insert_run(m, t, v, v.len() as int);
    assert(v.take(v.len() as int) =~= v);
    lemma_more(db, t, v);
    let next = with_more(db, t, v);
    let rows = db.table(t).rows + rows_from(db.next_id, v);
    let same = db.with_rows(t, rows);
    assert(same.tables == next.tables);
    lemma_same_but(db, t, rows);
    assert forall|other: Seq<char>| other != t implies (#[trigger] db.has(other) == next.has(other))
        && (db.has(other) ==> db.table(other) == next.table(other)) by {
        assert(db.has(other) == same.has(other));
        assert(same.index(other) == next.index(other));
    }
    if v.len() == 1 {
        let numbers = m.ran(insertions(t, v), 1).1->Ok_0;
        assert(numbers[0] == db.next_id + 0);
    }
}

proof fn lemma_same_but(db: Database, t: Seq<char>, rows: Seq<Record>)
    requires
        db.wf(),
        db.has(t),
    ensures
        same_but(db, db.with_rows(t, rows), t),
{
    let next = db.with_rows(t, rows);
    assert forall|other: Seq<char>| other != t implies (#[trigger] db.has(other) == next.has(other))
        && (db.has(other) ==> db.table(other) == next.table(other)) by {
        law_other_tables(db, t, rows, other);
    }
}

// ---------------------------------------------------------------------------
// DELETE
// ---------------------------------------------------------------------------

/// A row is one that a statement with an optional condition is about.
pub open spec fn is_meant(r: Record, condition: Option<Seq<char>>, c: Seq<Column>) -> bool {
    match condition {
        Some(s) => meets_any(or_parts(s), r, c),
        None => true,
    }
}

/// The rows that a statement is about, in their order.
pub open spec fn meant(rows: Seq<Record>, condition: Option<Seq<char>>, c: Seq<Column>) -> Seq<
    Record,
> {
    rows.filter(|r: Record| is_meant(r, condition, c))
}

/// The other rows, in their order.
pub open spec fn not_meant(rows: Seq<Record>, condition: Option<Seq<char>>, c: Seq<Column>) -> Seq<
    Record,
> {
    rows.filter(|r: Record| !is_meant(r, condition, c))
}

proof fn lemma_meeting(rows: Seq<Record>, condition: Seq<char>, c: Seq<Column>)
    ensures
        rows_meeting(rows, or_parts(condition), c) == meant(rows, Some(condition), c),
    decreases rows.len(),
{
    reveal(Seq::filter);
    if rows.len() > 0 {
        lemma_meeting(rows.drop_last(), condition, c);
    } else {
        assert(meant(rows, Some(condition), c) =~= Seq::empty());
    }
}

proof fn lemma_all_meant(rows: Seq<Record>, c: Seq<Column>)
    ensures
        meant(rows, None, c) == rows,
    decreases rows.len(),
{
    reveal(Seq::filter);
    if rows.len() > 0 {
        lemma_all_meant(rows.drop_last(), c);
        assert(rows.drop_last().push(rows.last()) =~= rows);
    }
}

/// A statement is about the rows that meet its condition, in the order of the table; about
/// all of them where it has none.
pub proof fn law_matched(rows: Seq<Record>, condition: Option<Seq<char>>, c: Seq<Column>)
    requires
        ascending(rows),
    ensures
        matched(rows, condition, c) == meant(rows, condition, c),
{
    lemma_ascending_distinct(rows);
    match condition {
        Some(s) => {
            law_condition_selects(rows, s, c);
            lemma_meeting(rows, s, c);
        },
        None => {
            lemma_all_meant(rows, c);
        },
    }
}

/// The ids of the rows that are meant are those of rows that are meant.
proof fn lemma_meant_ids(rows: Seq<Record>, condition: Option<Seq<char>>, c: Seq<Column>, i: int)
    requires
        ascending(rows),
        0 <= i < rows.len(),
    ensures
        ids_of(matched(rows, condition, c)).contains(rows[i].id) <==> is_meant(
            rows[i],
            condition,
            c,
        ),
{
    let found = matched(rows, condition, c);
    let ids = ids_of(found);
    lemma_ascending_distinct(rows);
    assert(rows.contains(rows[i]));
    match condition {
        Some(s) => {
            law_condition_selects(rows, s, c);
        },
        None => {},
    }
    assert(found.contains(rows[i]) <==> is_meant(rows[i], condition, c));
    if found.contains(rows[i]) {
        let k = choose|k: int| 0 <= k < found.len() && found[k] == rows[i];
        assert(ids[k] == rows[i].id);
    }
    if ids.contains(rows[i].id) {
        let k = choose|k: int| 0 <= k < ids.len() && ids[k] == rows[i].id;
        let f = found[k];
        assert(found.contains(f));
        assert(rows.contains(f));
        let j = choose|j: int| 0 <= j < rows.len() && rows[j] == f;
        if j < i {
            assert(rows[j].id < rows[i].id);
        } else if i < j {
            assert(rows[i].id < rows[j].id);
        }
    }
}

proof fn lemma_left(
    rows: Seq<Record>,
    ids: Seq<u64>,
    condition: Option<Seq<char>>,
    c: Seq<Column>,
)
    requires
        forall|i: int|
            0 <= i < rows.len() ==> ids.contains((#[trigger] rows[i]).id) == is_meant(
                rows[i],
                condition,
                c,
            ),
    ensures
        rows_without(rows, ids) == not_meant(rows, condition, c),
        rows.len() == not_meant(rows, condition, c).len() + meant(rows, condition, c).len(),
    decreases rows.len(),
{
    reveal(Seq::filter);
    if rows.len() > 0 {
        let front = rows.drop_last();
        assert forall|i: int| 0 <= i < front.len() implies ids.contains((#[trigger] front[i]).id)
            == is_meant(front[i], condition, c) by {
            assert(front[i] == rows[i]);
        }
        lemma_left(front, ids, condition, c);
        let n = rows.len() - 1;
        assert(ids.contains(rows[n].id) == is_meant(rows[n], condition, c));
    } else {
        assert(not_meant(rows, condition, c) =~= Seq::empty());
    }
}

/// `DELETE` takes away the rows that meet its condition, all where it has none, and leaves
/// the others in their order, and every other table. It replies with the number of rows that
/// it took away.
pub proof fn law_delete_rows(m: Machine, t: Seq<char>, condition: Option<Seq<char>>)
    requires
        m.db.wf(),
        m.db.has(t),
        ascending(m.db.table(t).rows),
        m.db.table(t).rows.len() <= usize::MAX,
    ensures
        ({
            let (next, reply) = m.executed(Statement::Delete { table: t, condition });
            let c = m.db.table(t).schema.columns;
            &&& reply == Ok::<Reply, Seq<char>>(
                Reply::Deleted(meant(m.db.table(t).rows, condition, c).len() as usize),
            )
            &&& next.db.has(t)
            &&& next.db.table(t).schema == m.db.table(t).schema
            &&& next.db.table(t).rows == not_meant(m.db.table(t).rows, condition, c)
            &&& next.db.next_id == m.db.next_id
            &&& same_but(m.db, next.db, t)
        }),
{
    let db = m.db;
    let rows = db.table(t).rows;
    let c = db.table(t).schema.columns;
    let ids = matched_ids(db, t, condition);
    let a = Alteration::Delete(t, ids);
    assert forall|i: int| 0 <= i < rows.len() implies ids.contains((#[trigger] rows[i]).id)
        == is_meant(rows[i], condition, c) by {
        lemma_meant_ids(rows, condition, c, i);
    }
    lemma_left(rows, ids, condition, c);
    lemma_one_change(m, a, Conclusion::Deleted);
    let left = rows_without(rows, ids);
    lemma_with_rows(db, t, left);
    lemma_same_but(db, t, left);
    let k = (rows.len() - left.len()) as nat;
    reveal_with_fuel(sum, 2);
    let n = seq![k as u64];
    assert(n.drop_last() =~= Seq::empty());
    assert(n.last() == k as u64);
    assert(sum(n) == k);
}

// ---------------------------------------------------------------------------
// UPDATE
// ---------------------------------------------------------------------------

/// An assignment of a value to a column.
pub struct Assignment {
    pub column: int,
    pub value: Datum,
}

/// Assignments as they are written.
pub open spec fn written(c: Seq<Column>, a: Seq<Assignment>) -> Seq<(Seq<char>, Seq<char>)> {
    a.map_values(|x: Assignment| (c[x.column].name, shown(x.value)))
}

/// The changes that assignments make.
pub open spec fn changes(t: Seq<char>, ids: Seq<u64>, c: Seq<Column>, a: Seq<Assignment>) -> Seq<
    Alteration,
> {
    a.map_values(|x: Assignment| Alteration::Update(t, ids, c[x.column].index, x.value))
}

/// Assignments to columns that there are, of values that can be written.
pub open spec fn assignable(c: Seq<Column>, a: Seq<Assignment>) -> bool {
    forall|i: int|
        0 <= i < a.len() ==> 0 <= (#[trigger] a[i]).column < c.len() && writable(
            a[i].value,
            c[a[i].column].data_type,
        )
}

proof fn lemma_assignments(c: Seq<Column>, t: Seq<char>, ids: Seq<u64>, a: Seq<Assignment>)
    requires
        distinct_columns(c),
        assignable(c, a),
    ensures
        assignment_changes(c, t, ids, written(c, a)) == (Course {
            changes: changes(t, ids, c, a),
            conclusion: Conclusion::Updated,
        }),
    decreases a.len(),
{
    let w = written(c, a);
    if a.len() == 0 {
        assert(changes(t, ids, c, a) =~= Seq::empty());
    } else {
        let front = a.drop_last();
        assert forall|i: int| 0 <= i < front.len() implies 0 <= (#[trigger] front[i]).column
            < c.len() && writable(front[i].value, c[front[i].column].data_type) by {
            assert(front[i] == a[i]);
        }
        lemma_assignments(c, t, ids, front);
        assert(w.drop_last() =~= written(c, front));
        let x = a[a.len() - 1];
        assert(0 <= a[a.len() - 1].column < c.len());
        assert(w.last() == (c[x.column].name, shown(x.value)));
        law_exact_column(c, c[x.column].name);
        assert(find_column(c, Naming::Exact, c[x.column].name) == Some(c[x.column]));
        law_read_shown_value(x.value, c[x.column].data_type);
        assert(changes(t, ids, c, front).push(
            Alteration::Update(t, ids, c[x.column].index, x.value),
        ) =~= changes(t, ids, c, a));
    }
}

/// The row after the assignments, in their order.
pub open spec fn assigned(r: Record, c: Seq<Column>, a: Seq<Assignment>) -> Record
    decreases a.len(),
{
    if a.len() == 0 {
        r
    } else {
        let before = assigned(r, c, a.drop_last());
        Record {
            id: before.id,
            values: before.values.update(c[a.last().column].index as int, a.last().value),
        }
    }
}

/// Rows where those with the given ids have the assigned values.
pub open spec fn rows_assigned(
    rows: Seq<Record>,
    ids: Seq<u64>,
    c: Seq<Column>,
    a: Seq<Assignment>,
) -> Seq<Record> {
    rows.map_values(
        |r: Record|
            if ids.contains(r.id) {
                assigned(r, c, a)
            } else {
                r
            },
    )
}

/// The number of rows with the given ids.
pub open spec fn rows_with_ids(rows: Seq<Record>, ids: Seq<u64>) -> nat
    decreases rows.len(),
{
    if rows.len() == 0 {
        0
    } else {
        rows_with_ids(rows.drop_last(), ids) + if ids.contains(rows.last().id) {
            1nat
        } else {
            0nat
        }
    }
}

proof fn lemma_assigned_shape(r: Record, c: Seq<Column>, a: Seq<Assignment>)
    requires
        is_full(r, c),
        assignable(c, a),
        forall|i: int| 0 <= i < c.len() ==> (#[trigger] c[i]).index == i,
    ensures
        assigned(r, c, a).id == r.id,
        assigned(r, c, a).values.len() == r.values.len(),
    decreases a.len(),
{
    if a.len() > 0 {
        let front = a.drop_last();
        assert forall|i: int| 0 <= i < front.len() implies 0 <= (#[trigger] front[i]).column
            < c.len() && writable(front[i].value, c[front[i].column].data_type) by {
            assert(front[i] == a[i]);
        }
        lemma_assigned_shape(r, c, front);
        assert(0 <= a[a.len() - 1].column < c.len());
        assert(c[a.last().column].index == a.last().column);
    }
}

/// An update counts the rows with the ids, where they all have the column.
proof fn lemma_update_count(rows: Seq<Record>, u: Seq<Record>, ids: Seq<u64>, col: int)
    requires
        u.len() == rows.len(),
        forall|i: int|
            0 <= i < rows.len() ==> (#[trigger] u[i]).id == rows[i].id && 0 <= col
                < u[i].values.len(),
    ensures
        updated_count(u, ids, col) == rows_with_ids(rows, ids),
        rows_with_ids(rows, ids) <= rows.len(),
    decreases rows.len(),
{
    if rows.len() > 0 {
        let (a, b) = (rows.drop_last(), u.drop_last());
        assert forall|i: int| 0 <= i < a.len() implies (#[trigger] b[i]).id == a[i].id && 0 <= col
            < b[i].values.len() by {
            assert(b[i] == u[i]);
        }
        lemma_update_count(a, b, ids, col);
        assert(u[u.len() - 1].id == rows[rows.len() - 1].id);
    }
}

/// A row with a value for each column.
pub open spec fn is_full(r: Record, c: Seq<Column>) -> bool {
    r.values.len() == c.len()
}

proof fn lemma_update_run(
    m: Machine,
    t: Seq<char>,
    ids: Seq<u64>,
    a: Seq<Assignment>,
    n: int,
)
    requires
        m.db.has(t),
        m.db.table(t).rows.len() <= usize::MAX,
        assignable(m.db.table(t).schema.columns, a),
        forall|i: int|
            0 <= i < m.db.table(t).schema.columns.len() ==> (
            #[trigger] m.db.table(t).schema.columns[i]).index == i,
        forall|i: int|
            0 <= i < m.db.table(t).rows.len() ==> is_full(
                #[trigger] m.db.table(t).rows[i],
                m.db.table(t).schema.columns,
            ),
        0 <= n <= a.len(),
    ensures
        ({
            let c = m.db.table(t).schema.columns;
            let rows = m.db.table(t).rows;
            let (next, numbers) = m.ran(changes(t, ids, c, a), n);
            &&& numbers is Ok
            &&& numbers->Ok_0.len() == n
            &&& forall|i: int|
                0 <= i < n ==> #[trigger] numbers->Ok_0[i] == rows_with_ids(rows, ids)
            &&& next.db == m.db.with_rows(t, rows_assigned(rows, ids, c, a.take(n)))
            &&& rows_with_ids(rows, ids) <= rows.len()
        }),
    decreases n,
{
    let db = m.db;
    let c = db.table(t).schema.columns;
    let rows = db.table(t).rows;
    lemma_found(db, t);
    if n == 0 {
        assert(rows_assigned(rows, ids, c, a.take(0)) =~= rows) by {
            assert(a.take(0) =~= Seq::empty());
        }
        assert(db.with_rows(t, rows).tables =~= db.tables);
        assert(db.with_rows(t, rows) =~= db);
        lemma_ids_bound(rows, ids);
    } else {
        lemma_update_run(m, t, ids, a, n - 1);
        let (before, numbers) = m.ran(changes(t, ids, c, a), n - 1);
        let mid = rows_assigned(rows, ids, c, a.take(n - 1));
        let x = a[n - 1];
        assert(0 <= a[n - 1].column < c.len());
        let col = c[x.column].index as int;
        assert(col == x.column);
        lemma_with_rows(db, t, mid);
        assert(changes(t, ids, c, a)[n - 1] == Alteration::Update(
            t,
            ids,
            c[x.column].index,
            x.value,
        ));
        assert forall|i: int| 0 <= i < rows.len() implies (#[trigger] mid[i]).id == rows[i].id && 0
            <= col < mid[i].values.len() by {
            assert(is_full(rows[i], c));
            let b = a.take(n - 1);
            assert forall|j: int| 0 <= j < b.len() implies 0 <= (#[trigger] b[j]).column < c.len()
                && writable(b[j].value, c[b[j].column].data_type) by {
                assert(b[j] == a[j]);
            }
            lemma_assigned_shape(rows[i], c, b);
        }
        lemma_update_count(rows, mid, ids, col);
        let after = updated_rows(mid, ids, col, x.value);
        assert(a.take(n).drop_last() =~= a.take(n - 1));
        assert(a.take(n).last() == x);
        assert forall|i: int| 0 <= i < rows.len() implies after[i] == rows_assigned(
            rows,
            ids,
            c,
            a.take(n),
        )[i] by {
            assert(mid[i].id == rows[i].id);
        }
        assert(after =~= rows_assigned(rows, ids, c, a.take(n)));
        assert(before.db.with_rows(t, after).tables =~= db.with_rows(t, after).tables);
    }
}

proof fn lemma_ids_bound(rows: Seq<Record>, ids: Seq<u64>)
    ensures
        rows_with_ids(rows, ids) <= rows.len(),
    decreases rows.len(),
{
    if rows.len() > 0 {
        lemma_ids_bound(rows.drop_last(), ids);
    }
}

proof fn lemma_meant_count(
    rows: Seq<Record>,
    ids: Seq<u64>,
    condition: Option<Seq<char>>,
    c: Seq<Column>,
)
    requires
        forall|i: int|
            0 <= i < rows.len() ==> ids.contains((#[trigger] rows[i]).id) == is_meant(
                rows[i],
                condition,
                c,
            ),
    ensures
        rows_with_ids(rows, ids) == meant(rows, condition, c).len(),
    decreases rows.len(),
{
    reveal(Seq::filter);
    if rows.len() > 0 {
        let front = rows.drop_last();
        assert forall|i: int| 0 <= i < front.len() implies ids.contains((#[trigger] front[i]).id)
            == is_meant(front[i], condition, c) by {
            assert(front[i] == rows[i]);
        }
        lemma_meant_count(front, ids, condition, c);
        let n = rows.len() - 1;
        assert(ids.contains(rows[n].id) == is_meant(rows[n], condition, c));
    }
}

proof fn lemma_same_sum(n: Seq<u64>, k: nat)
    requires
        forall|i: int| 0 <= i < n.len() ==> #[trigger] n[i] == k,
    ensures
        sum(n) == k * n.len(),
    decreases n.len(),
{
    if n.len() > 0 {
        let front = n.drop_last();
        assert forall|i: int| 0 <= i < front.len() implies #[trigger] front[i] == k by {
            assert(front[i] == n[i]);
        }
        lemma_same_sum(front, k);
        assert(n[n.len() - 1] == k);
        assert(k * front.len() + k == k * n.len()) by (nonlinear_arith)
            requires
                front.len() + 1 == n.len(),
        ;
    } else {
        assert(k * 0 == 0) by (nonlinear_arith);
    }
}

/// `UPDATE` gives the rows that meet its condition, all where it has none, the values that
/// are assigned, in the order of the assignments, and leaves everything else. It replies
/// with the number of rows that it changed, however many assignments there are.
pub proof fn law_update_rows(
    m: Machine,
    t: Seq<char>,
    a: Seq<Assignment>,
    condition: Option<Seq<char>>,
)
    requires
        m.db.wf(),
        m.db.has(t),
        ascending(m.db.table(t).rows),
        m.db.table(t).rows.len() <= usize::MAX,
        distinct_columns(m.db.table(t).schema.columns),
        a.len() > 0,
        assignable(m.db.table(t).schema.columns, a),
        forall|i: int|
            0 <= i < m.db.table(t).schema.columns.len() ==> (
            #[trigger] m.db.table(t).schema.columns[i]).index == i,
        forall|i: int|
            0 <= i < m.db.table(t).rows.len() ==> is_full(
                #[trigger] m.db.table(t).rows[i],
                m.db.table(t).schema.columns,
            ),
    ensures
        ({
            let c = m.db.table(t).schema.columns;
            let rows = m.db.table(t).rows;
            let (next, reply) = m.executed(
                Statement::Update { table: t, assignments: written(c, a), condition },
            );
            &&& reply == Ok::<Reply, Seq<char>>(
                Reply::Updated(meant(rows, condition, c).len() as usize),
            )
            &&& next.db.has(t)
            &&& next.db.table(t).schema == m.db.table(t).schema
            &&& next.db.table(t).rows.len() == rows.len()
            &&& forall|i: int|
                0 <= i < rows.len() ==> #[trigger] next.db.table(t).rows[i] == if is_meant(
                    rows[i],
                    condition,
                    c,
                ) {
                    assigned(rows[i], c, a)
                } else {
                    rows[i]
                }
            &&& next.db.next_id == m.db.next_id
            &&& same_but(m.db, next.db, t)
        }),
{
    let db = m.db;
    let c = db.table(t).schema.columns;
    let rows = db.table(t).rows;
    let ids = matched_ids(db, t, condition);
    assert forall|i: int| 0 <= i < rows.len() implies ids.contains((#[trigger] rows[i]).id)
        == is_meant(rows[i], condition, c) by {
        lemma_meant_ids(rows, condition, c, i);
    }
    lemma_meant_count(rows, ids, condition, c);
    lemma_assignments(c, t, ids, a);
    let n = a.len() as int;
    lemma_update_run(m, t, ids, a, n);
    assert(a.take(n) =~= a);
    let after = rows_assigned(rows, ids, c, a);
    lemma_with_rows(db, t, after);
    lemma_same_but(db, t, after);
    let (next, numbers) = m.ran(changes(t, ids, c, a), n);
    let k = rows_with_ids(rows, ids);
    assert forall|i: int| 0 <= i < numbers->Ok_0.len() implies #[trigger] numbers->Ok_0[i]
        == k by {}
    lemma_same_sum(numbers->Ok_0, k);
    assert((k * n) / n == k) by (nonlinear_arith)
        requires
            n > 0,
    ;
    assert(share(numbers->Ok_0) == k);
}

// ---------------------------------------------------------------------------
// What is refused
// ---------------------------------------------------------------------------

proof fn lemma_misfit(columns: Seq<Column>, v: Seq<Datum>, i: int)
    requires
        0 <= i <= v.len(),
    ensures
        misfit(columns, v, i) is None <==> forall|k: int|
            i <= k < v.len() ==> fits(columns[k].data_type, #[trigger] v[k]),
    decreases v.len() - i,
{
    if i < v.len() {
        lemma_misfit(columns, v, i + 1);
    }
}

/// A row is kept out of a table exactly where it has not one value for each column, or a
/// value that its column may not hold.
pub proof fn law_row_kept_out(columns: Seq<Column>, v: Seq<Datum>)
    ensures
        row_error(columns, v) is None <==> v.len() == columns.len() && forall|k: int|
            0 <= k < v.len() ==> fits(columns[k].data_type, #[trigger] v[k]),
{
    lemma_misfit(columns, v, 0);
}

proof fn lemma_row_unreadable(columns: Seq<Column>, t: Seq<Seq<char>>, j: int, n: int)
    requires
        0 <= j < n,
        value_read(trim_char(t[j], '\''), columns[j].data_type) is Err,
    ensures
        row_read(columns, t, n) is Err,
    decreases n,
{
    if n - 1 > j {
        lemma_row_unreadable(columns, t, j, n - 1);
    }
}

proof fn lemma_row_length(columns: Seq<Column>, t: Seq<Seq<char>>, n: int)
    requires
        0 <= n,
        row_read(columns, t, n) is Ok,
    ensures
        row_read(columns, t, n)->Ok_0.len() == n,
    decreases n,
{
    if n > 0 {
        lemma_row_length(columns, t, n - 1);
    }
}

/// `INSERT` of a row with a value that cannot be read for its column, or with too few
/// values, fails and puts nothing into the table.
pub proof fn law_insert_refused(
    m: Machine,
    t: Seq<char>,
    columns: Seq<Seq<char>>,
    row: Seq<Seq<char>>,
    j: int,
)
    requires
        m.db.has(t),
        row.len() < m.db.table(t).schema.columns.len() || (0 <= j < row.len()
            && j < m.db.table(t).schema.columns.len() && value_read(
            trim_char(row[j], '\''),
            m.db.table(t).schema.columns[j].data_type,
        ) is Err),
    ensures
        m.executed(Statement::Insert { table: t, columns, values: seq![row] }).1 is Err,
        m.executed(Statement::Insert { table: t, columns, values: seq![row] }).0.db == m.db,
{
    let c = m.db.table(t).schema.columns;
    let n = columns_given(c, row);
    let rows = seq![row];
    reveal_with_fuel(rows_read, 2);
    assert(rows.drop_last() =~= Seq::<Seq<Seq<char>>>::empty());
    match row_read(c, row, n) {
        Err(_) => {},
        Ok(d) => {
            if 0 <= j < row.len() && j < c.len() && value_read(
                trim_char(row[j], '\''),
                c[j].data_type,
            ) is Err {
                lemma_row_unreadable(c, row, j, n);
            }
            lemma_row_length(c, row, n);
            let v = rows_read(c, rows)->Ok_0;
            assert(v =~= seq![d]);
            let a = insertions(t, v);
            assert(a =~= seq![Alteration::Insert(t, d)]);
            lemma_one_change(m, Alteration::Insert(t, d), Conclusion::Inserted);
            law_row_kept_out(c, d);
        },
    }
}

/// `UPDATE` of a column that there is not, or to a value that cannot be read for its column,
/// fails and changes nothing.
pub proof fn law_update_refused(
    m: Machine,
    t: Seq<char>,
    name: Seq<char>,
    text: Seq<char>,
    condition: Option<Seq<char>>,
)
    requires
        m.db.has(t),
        forall|i: int|
            0 <= i < m.db.table(t).schema.columns.len() ==> (
            #[trigger] m.db.table(t).schema.columns[i]).name != name || value_read(
                text,
                m.db.table(t).schema.columns[i].data_type,
            ) is Err,
    ensures
        m.executed(
            Statement::Update { table: t, assignments: seq![(name, text)], condition },
        ).1 is Err,
        m.executed(
            Statement::Update { table: t, assignments: seq![(name, text)], condition },
        ).0 == m,
{
    let c = m.db.table(t).schema.columns;
    let a = seq![(name, text)];
    law_exact_column(c, name);
    reveal_with_fuel(assignment_changes, 2);
    assert(a.drop_last() =~= Seq::<(Seq<char>, Seq<char>)>::empty());
    assert(a.last() == (name, text));
    match find_column(c, Naming::Exact, name) {
        Some(x) => {
            let i = choose|i: int| 0 <= i < c.len() && c[i] == x;
            assert(c[i].name == name);
        },
        None => {},
    }
}

proof fn lemma_row_extra(columns: Seq<Column>, t: Seq<Seq<char>>, extra: Seq<Seq<char>>, n: int)
    requires
        n <= t.len(),
    ensures
        row_read(columns, t + extra, n) == row_read(columns, t, n),
    decreases n,
{
    if n > 0 {
        lemma_row_extra(columns, t, extra, n - 1);
        assert((t + extra)[n - 1] == t[n - 1]);
    }
}

/// `INSERT` of a row with more values than there are columns passes over those behind.
pub proof fn law_insert_extra(
    m: Machine,
    t: Seq<char>,
    columns: Seq<Seq<char>>,
    row: Seq<Seq<char>>,
    extra: Seq<Seq<char>>,
)
    requires
        m.db.has(t),
        row.len() == m.db.table(t).schema.columns.len(),
    ensures
        m.executed(Statement::Insert { table: t, columns, values: seq![row + extra] })
            == m.executed(Statement::Insert { table: t, columns, values: seq![row] }),
{
    let c = m.db.table(t).schema.columns;
    let (a, b) = (seq![row + extra], seq![row]);
    reveal_with_fuel(rows_read, 2);
    assert(a.drop_last() =~= b.drop_last());
    lemma_row_extra(c, row, extra, row.len() as int);
}

} // verus!
