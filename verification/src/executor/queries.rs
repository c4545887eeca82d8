//! What whole queries answer.

use vstd::prelude::*;

use crate::executor::aggregate::aggregate_text;
use crate::executor::aggregate::numbers;
use crate::executor::aggregate::AggFunc;
use crate::executor::answers::call_of;
use crate::executor::answers::distinct_columns;
use crate::executor::answers::function_name;
use crate::executor::answers::law_aggregate_query;
use crate::executor::answers::law_count;
use crate::executor::answers::law_exact_column;
use crate::executor::answers::law_last_part;
use crate::executor::answers::law_name_is_column;
use crate::executor::answers::law_projection;
use crate::executor::answers::lemma_call;
use crate::executor::clauses::is_name;
use crate::executor::clauses::is_name_char;
use crate::executor::clauses::lemma_name;
use crate::executor::column::find_column;
use crate::executor::column::Naming;
use crate::executor::effects::law_matched;
use crate::executor::effects::meant;
use crate::executor::filter::ascending;
use crate::executor::group::group_columns;
use crate::executor::group::group_places;
use crate::executor::group::grouped;
use crate::executor::group::grouped_rows;
use crate::executor::group::item_label;
use crate::executor::group::item_of;
use crate::executor::group::items_of;
use crate::executor::group::Item;
use crate::executor::select::cut_rows;
use crate::executor::select::joined_columns;
use crate::executor::select::joined_values;
use crate::executor::select::numbered;
use crate::executor::select::ordered;
use crate::executor::select::projected_rows;
use crate::executor::select::selected;
use crate::executor::select::source;
use crate::executor::select::Answer;
use crate::executor::select::Source;
use crate::number::show_nat;
use crate::sql::statement::Join;
use crate::sql::statement::Query;
use crate::storage::engine::Database;
use crate::storage::schema::Column;
use crate::storage::schema::Record;
use crate::text::lemma_split_single;
use crate::text::lower;
use crate::texts::law_same_case;
use crate::texts::law_trim_none;
use crate::texts::same_but_case;
use crate::types::Datum;

verus! {

// ---------------------------------------------------------------------------
// Rows
// ---------------------------------------------------------------------------

/// A query for columns of a table by their names.
pub open spec fn names_columns(db: Database, q: Query, f: Seq<int>) -> bool {
    let c = db.table(q.table).schema.columns;
    &&& db.has(q.table)
    &&& q.join is None
    &&& q.group_by is None
    &&& q.columns.len() > 0
    &&& distinct_columns(c)
    &&& f.len() == q.columns.len()
    &&& forall|k: int|
        0 <= k < q.columns.len() ==> is_name(#[trigger] q.columns[k]) && 0 <= f[k] < c.len()
            && c[f[k]].name == q.columns[k]
}

/// A query for columns by their names answers with these names, and with the values in these
/// columns of the rows that meet its condition, in its order, cut to its size.
pub proof fn law_select_rows(db: Database, q: Query, f: Seq<int>)
    requires
        names_columns(db, q, f),
        ascending(db.table(q.table).rows),
    ensures
        ({
            let c = db.table(q.table).schema.columns;
            let rows = meant(db.table(q.table).rows, q.condition, c);
            &&& ordered(rows, c, q.order_by) matches Err(e) ==> selected(db, q) == Err::<
                Answer,
                Seq<char>,
            >(e)
            &&& ordered(rows, c, q.order_by) matches Ok(sorted) ==> selected(db, q) == Ok::<
                Answer,
                Seq<char>,
            >(
                Answer {
                    columns: q.columns,
                    rows: cut_rows(
                        projected_rows(sorted, f.map_values(|i: int| c[i].index as int)),
                        q,
                    ),
                },
            )
        }),
{
    let c = db.table(q.table).schema.columns;
    let all = db.table(q.table).rows;
    law_matched(all, q.condition, c);
    let rows = meant(all, q.condition, c);
    law_projection(c, q.columns, f);
    if q.columns.len() == 1 {
        assert(is_name(q.columns[0]));
        assert(q.columns =~= seq![q.columns[0]]);
        law_name_is_column(rows, c, q.columns[0]);
    }
}

/// A query for all that a query finds: without `DISTINCT`, `LIMIT` and `OFFSET`.
pub open spec fn uncut(q: Query) -> Query {
    Query { distinct: false, limit: None, offset: None, ..q }
}

/// `DISTINCT`, `OFFSET` and `LIMIT` cut the rows that the query finds without them, and
/// change nothing else of its answer.
pub proof fn law_cut_query(db: Database, q: Query, f: Seq<int>)
    requires
        names_columns(db, q, f),
        selected(db, uncut(q)) is Ok,
    ensures
        selected(db, q) == Ok::<Answer, Seq<char>>(
            Answer {
                columns: selected(db, uncut(q))->Ok_0.columns,
                rows: cut_rows(selected(db, uncut(q))->Ok_0.rows, q),
            },
        ),
{
    let c = db.table(q.table).schema.columns;
    law_projection(c, q.columns, f);
    if q.columns.len() == 1 {
        let rows = crate::executor::condition::matched(db.table(q.table).rows, q.condition, c);
        assert(is_name(q.columns[0]));
        assert(q.columns =~= seq![q.columns[0]]);
        law_name_is_column(rows, c, q.columns[0]);
    }
}

/// A query for an aggregate of a column answers with the aggregate of the numbers of the rows
/// that meet its condition.
pub proof fn law_select_aggregate(
    db: Database,
    q: Query,
    fun: AggFunc,
    word: Seq<char>,
    i: int,
)
    requires
        db.has(q.table),
        q.join is None,
        q.group_by is None,
        ascending(db.table(q.table).rows),
        same_but_case(word, function_name(fun)),
        distinct_columns(db.table(q.table).schema.columns),
        0 <= i < db.table(q.table).schema.columns.len(),
        is_name(db.table(q.table).schema.columns[i].name),
        lower(db.table(q.table).schema.columns[i].name)
            == db.table(q.table).schema.columns[i].name,
        q.columns == seq![call_of(word, db.table(q.table).schema.columns[i].name)],
    ensures
        ({
            let c = db.table(q.table).schema.columns;
            let rows = meant(db.table(q.table).rows, q.condition, c);
            selected(db, q) == Ok::<Answer, Seq<char>>(
                Answer {
                    columns: seq![lower(function_name(fun))],
                    rows: seq![
                        seq![aggregate_text(fun, c[i].data_type, numbers(rows, c[i].index as int))],
                    ],
                },
            )
        }),
{
    let c = db.table(q.table).schema.columns;
    let all = db.table(q.table).rows;
    law_matched(all, q.condition, c);
    law_aggregate_query(meant(all, q.condition, c), c, fun, word, i);
}

/// A query for `COUNT(*)` answers with the number of rows that meet its condition.
pub proof fn law_select_count(db: Database, q: Query, s: Seq<char>)
    requires
        db.has(q.table),
        q.join is None,
        q.group_by is None,
        ascending(db.table(q.table).rows),
        same_but_case(s, "COUNT(*)"@),
        q.columns == seq![s],
    ensures
        selected(db, q) == Ok::<Answer, Seq<char>>(
            Answer {
                columns: seq!["count"@],
                rows: seq![
                    seq![
                        show_nat(
                            meant(
                                db.table(q.table).rows,
                                q.condition,
                                db.table(q.table).schema.columns,
                            ).len(),
                        ),
                    ],
                ],
            },
        ),
{
    let c = db.table(q.table).schema.columns;
    let all = db.table(q.table).rows;
    law_matched(all, q.condition, c);
    law_count(meant(all, q.condition, c), c, s);
}

// ---------------------------------------------------------------------------
// Joins
// ---------------------------------------------------------------------------

/// A join reads the pairs of rows of its two tables that agree in the columns which it names,
/// with or without the names of the tables before them.
pub proof fn law_join_source(
    db: Database,
    table: Seq<char>,
    other: Seq<char>,
    p: Seq<char>,
    r: Seq<char>,
    i: int,
    j: int,
)
    requires
        db.has(table),
        db.has(other),
        distinct_columns(db.table(table).schema.columns),
        distinct_columns(db.table(other).schema.columns),
        0 <= i < db.table(table).schema.columns.len(),
        0 <= j < db.table(other).schema.columns.len(),
        !db.table(table).schema.columns[i].name.contains('.'),
        !db.table(other).schema.columns[j].name.contains('.'),
    ensures
        ({
            let left = db.table(table);
            let right = db.table(other);
            let x = left.schema.columns[i];
            let y = right.schema.columns[j];
            let s = Source {
                columns: joined_columns(left.schema.columns, other, right.schema.columns),
                rows: numbered(
                    joined_values(left.rows, right.rows, x.index as int, y.index as int),
                ),
            };
            &&& source(db, table, Some(Join { table: other, left: x.name, right: y.name })) == Ok::<
                Source,
                Seq<char>,
            >(s)
            &&& source(
                db,
                table,
                Some(
                    Join {
                        table: other,
                        left: p + seq!['.'] + x.name,
                        right: r + seq!['.'] + y.name,
                    },
                ),
            ) == Ok::<Source, Seq<char>>(s)
        }),
{
    let x = db.table(table).schema.columns[i];
    let y = db.table(other).schema.columns[j];
    law_last_part(p, x.name);
    law_last_part(r, y.name);
    law_exact_column(db.table(table).schema.columns, x.name);
    law_exact_column(db.table(other).schema.columns, y.name);
}

// ---------------------------------------------------------------------------
// Groups
// ---------------------------------------------------------------------------

/// In a grouped query `COUNT(*)` stands for the number of rows, a call for the aggregate of
/// its column, and a name for the column that is grouped by. A column that is not grouped by
/// is refused.
pub proof fn law_group_items(
    names: Seq<Seq<char>>,
    c: Seq<Column>,
    count: Seq<char>,
    fun: AggFunc,
    word: Seq<char>,
    i: int,
)
    requires
        same_but_case(count, "COUNT(*)"@),
        same_but_case(word, function_name(fun)),
        distinct_columns(c),
        0 <= i < c.len(),
        is_name(c[i].name),
        lower(c[i].name) == c[i].name,
    ensures
        item_of(count, names, c) == Ok::<Item, Seq<char>>(Item::Count),
        item_of(call_of(word, c[i].name), names, c) == Ok::<Item, Seq<char>>(
            Item::Aggregate { f: fun, index: c[i].index, data_type: c[i].data_type },
        ),
        names.contains(c[i].name) ==> item_of(c[i].name, names, c) == Ok::<Item, Seq<char>>(
            Item::Key { name: c[i].name, index: c[i].index },
        ),
        !names.contains(c[i].name) ==> item_of(c[i].name, names, c) is Err,
{
    law_count(Seq::empty(), c, count);
    lemma_count_item(count, names, c);
    lemma_call(fun, word, c[i].name);
    law_exact_column(c, c[i].name);
    lemma_name(c[i].name);
    law_name_is_column(Seq::empty(), c, c[i].name);
}

proof fn lemma_count_item(count: Seq<char>, names: Seq<Seq<char>>, c: Seq<Column>)
    requires
        same_but_case(count, "COUNT(*)"@),
    ensures
        item_of(count, names, c) == Ok::<Item, Seq<char>>(Item::Count),
{
    reveal_strlit("COUNT(*)");
    let w = "COUNT(*)"@;
    law_same_case(count, w);
    crate::texts::law_case(w);
    assert(crate::text::upper(w) =~= w) by {
        assert forall|i: int| 0 <= i < w.len() implies crate::text::upper(w)[i] == w[i] by {
            assert(crate::text::upper(w)[i] as u32 == w[i] as u32);
        }
    }
    assert(count[0] == count[0] && count[7] == count[7]);
    assert(count.last() == count[7]);
    law_trim_none(count);
}

/// A query grouped by one column, for the column, the number of rows and an aggregate,
/// answers with the rows of these groups under their names.
pub proof fn law_grouped_query(
    rows: Seq<Record>,
    c: Seq<Column>,
    i: int,
    count: Seq<char>,
    fun: AggFunc,
    word: Seq<char>,
    k: int,
)
    requires
        same_but_case(count, "COUNT(*)"@),
        same_but_case(word, function_name(fun)),
        distinct_columns(c),
        0 <= i < c.len(),
        0 <= k < c.len(),
        is_name(c[i].name),
        is_name(c[k].name),
        lower(c[i].name) == c[i].name,
        lower(c[k].name) == c[k].name,
    ensures
        grouped(
            rows,
            seq![c[i].name, count, call_of(word, c[k].name)],
            c[i].name,
            None,
            c,
        ) == Ok::<(Seq<Seq<char>>, Seq<Seq<Seq<char>>>), Seq<char>>(
            (
                seq![c[i].name, "count"@, fun.label()],
                grouped_rows(
                    rows,
                    seq![c[i].index as int],
                    seq![
                        Item::Key { name: c[i].name, index: c[i].index },
                        Item::Count,
                        Item::Aggregate { f: fun, index: c[k].index, data_type: c[k].data_type },
                    ],
                ),
            ),
        ),
{
    let name = c[i].name;
    lemma_name(name);
    assert(!name.contains(',')) by {
        if name.contains(',') {
            let j = choose|j: int| 0 <= j < name.len() && name[j] == ',';
            assert(is_name_char(name[j]));
        }
    }
    lemma_split_single(name, ',');
    let names = group_columns(name);
    assert(names =~= seq![name]);
    assert(names[0] == name);
    law_exact_column(c, name);
    reveal_with_fuel(group_places, 2);
    assert(names.drop_last() =~= Seq::<Seq<char>>::empty());
    assert(group_places(c, names)->Ok_0 =~= seq![c[i].index as int]);
    law_group_items(names, c, count, fun, word, i);
    law_group_items(names, c, count, fun, word, k);
    let s = seq![name, count, call_of(word, c[k].name)];
    let items = seq![
        Item::Key { name, index: c[i].index },
        Item::Count,
        Item::Aggregate { f: fun, index: c[k].index, data_type: c[k].data_type },
    ];
    let two = seq![name, count];
    let one = seq![name];
    assert(s.drop_last() =~= two);
    assert(two.drop_last() =~= one);
    assert(one.drop_last() =~= Seq::<Seq<char>>::empty());
    reveal_with_fuel(items_of, 4);
    assert(items_of(one, names, c)->Ok_0 =~= seq![items[0]]);
    assert(items_of(two, names, c)->Ok_0 =~= seq![items[0], items[1]]);
    assert(items_of(s, names, c)->Ok_0 =~= items);
    assert(items.map_values(|x: Item| item_label(x)) =~= seq![name, "count"@, fun.label()]);
}

/// The rows of a join are numbered from one on, in their order, and keep their values.
pub proof fn law_joined_rows(v: Seq<Seq<Datum>>)
    requires
        v.len() < u64::MAX,
    ensures
        numbered(v).len() == v.len(),
        forall|i: int|
            0 <= i < v.len() ==> (#[trigger] numbered(v)[i]).id == i + 1 && numbered(v)[i].values
                == v[i],
        ascending(numbered(v)),
{
}

/// A query on a join is answered as the query on a table that holds what is joined.
pub proof fn law_select_join(db: Database, other: Database, q: Query, table: Seq<char>)
    requires
        q.join is Some,
        source(db, q.table, q.join) is Ok,
        other.has(table),
        other.table(table).schema.columns == source(db, q.table, q.join)->Ok_0.columns,
        other.table(table).rows == source(db, q.table, q.join)->Ok_0.rows,
    ensures
        selected(db, q) == selected(other, Query { table, join: None, ..q }),
{
}

/// The columns of a `GROUP BY` are read between commas, in lower case, without the white
/// space around them.
pub proof fn law_group_columns(p: Seq<Seq<char>>)
    requires
        p.len() > 0,
        forall|i: int| 0 <= i < p.len() ==> !(#[trigger] p[i]).contains(','),
    ensures
        group_columns(crate::text::join(p, seq![','])) == p.map_values(
            |x: Seq<char>| lower(crate::text::trim(x)),
        ),
{
    crate::text::lemma_split_join(p, ',');
}

/// Rows are grouped by the columns that are named, in the order of the names; a name that no
/// column has is refused.
pub proof fn law_group_places(c: Seq<Column>, names: Seq<Seq<char>>, f: Seq<int>)
    requires
        distinct_columns(c),
        f.len() == names.len(),
    ensures
        (forall|k: int|
            0 <= k < names.len() ==> 0 <= #[trigger] f[k] < c.len() && c[f[k]].name == names[k])
            ==> group_places(c, names) == Ok::<Seq<int>, Seq<char>>(
            f.map_values(|i: int| c[i].index as int),
        ),
        (exists|k: int|
            0 <= k < names.len() && forall|i: int|
                0 <= i < c.len() ==> (#[trigger] c[i]).name != #[trigger] names[k]) ==> group_places(
            c,
            names,
        ) is Err,
    decreases names.len(),
{
    let places = f.map_values(|i: int| c[i].index as int);
    if names.len() == 0 {
        assert(places =~= Seq::empty());
    } else {
        let (d, g) = (names.drop_last(), f.drop_last());
        law_group_places(c, d, g);
        let n = names.len() - 1;
        law_exact_column(c, names[n]);
        if forall|k: int|
            0 <= k < names.len() ==> 0 <= #[trigger] f[k] < c.len() && c[f[k]].name == names[k] {
            assert forall|k: int| 0 <= k < d.len() implies 0 <= #[trigger] g[k] < c.len()
                && c[g[k]].name == d[k] by {
                assert(f[k] == g[k]);
            }
            assert(0 <= f[n] < c.len());
            assert(find_column(c, Naming::Exact, names[n]) == Some(c[f[n]]));
            assert(g.map_values(|i: int| c[i].index as int).push(c[f[n]].index as int)
                =~= places);
        }
        if exists|k: int|
            0 <= k < names.len() && forall|i: int|
                0 <= i < c.len() ==> (#[trigger] c[i]).name != #[trigger] names[k] {
            let k = choose|k: int|
                0 <= k < names.len() && forall|i: int|
                    0 <= i < c.len() ==> (#[trigger] c[i]).name != #[trigger] names[k];
            if k < n {
                assert(d[k] == names[k]);
                assert forall|i: int| 0 <= i < c.len() implies (#[trigger] c[i]).name != d[k] by {
                    assert(c[i].name != names[k]);
                }
            }
        }
    }
}

/// A grouped query answers with the groups of the rows that meet its condition.
pub proof fn law_select_groups(db: Database, q: Query)
    requires
        db.has(q.table),
        q.join is None,
        q.group_by is Some,
        ascending(db.table(q.table).rows),
    ensures
        ({
            let c = db.table(q.table).schema.columns;
            let rows = meant(db.table(q.table).rows, q.condition, c);
            let g = grouped(rows, q.columns, q.group_by->0, q.having, c);
            &&& g matches Err(e) ==> selected(db, q) == Err::<Answer, Seq<char>>(e)
            &&& g matches Ok(x) ==> selected(db, q) == Ok::<Answer, Seq<char>>(
                Answer { columns: x.0, rows: x.1 },
            )
        }),
{
    law_matched(db.table(q.table).rows, q.condition, db.table(q.table).schema.columns);
}

} // verus!
