//! What holds of queries and changes as a whole.

use vstd::prelude::*;

use super::aggregate::aggregate_of;
use super::aggregate::is_count;
use super::compare::bool_text;
use super::compare::compare_doubles;
use super::compare::compare_texts;
use super::compare::compared;
use super::compare::Comparison;
use super::condition::filtered;
use super::condition::or_parts;
use super::filter::ascending;
use super::filter::distinct_ids;
use super::filter::law_condition_selects;
use super::filter::meets_any;
use super::group::first_occurrences;
use super::group::group_rows;
use super::group::lemma_first_occurrences_distinct;
use super::group::row_key;
use super::group::row_keys;
use super::plan::altered;
use super::plan::ids_of;
use super::plan::Alteration;
use super::select::all_columns;
use super::select::cut_rows;
use super::select::joined_row;
use super::select::joined_values;
use super::select::joins;
use super::select::projected;
use super::select::projected_rows;
use super::select::projection;
use super::select::selected;
use super::select::Answer;
use super::select::Projection;
use crate::double::double_of_int;
use crate::double::Double;
use crate::sql::statement::Query;
use crate::storage::engine::lemma_found;
use crate::storage::engine::lemma_not_found;
use crate::storage::engine::lemma_table_index_is;
use crate::storage::engine::rows_without;
use crate::storage::engine::updated_rows;
use crate::storage::engine::Database;
use crate::storage::schema::Column;
use crate::storage::schema::Record;
use crate::storage::schema::Schema;
use crate::text::ascii_upper;
use crate::text::ends_with;
use crate::text::is_ascii_char;
use crate::text::is_ascii_text;
use crate::text::is_space;
use crate::text::lemma_text_order;
use crate::text::trim;
use crate::text::upper;
use crate::types::shown;
use crate::types::Datum;

verus! {

// ---------------------------------------------------------------------------
// DISTINCT, OFFSET and LIMIT
// ---------------------------------------------------------------------------

/// `DISTINCT` keeps each row once, leaves none out, and keeps the order in which the
/// rows first occur: what it keeps of the first rows comes first.
pub proof fn law_distinct<T>(s: Seq<T>, k: int)
    requires
        0 <= k <= s.len(),
    ensures
        first_occurrences(s).no_duplicates(),
        forall|x: T| #[trigger] first_occurrences(s).contains(x) <==> s.contains(x),
        first_occurrences(s.take(k)).len() <= first_occurrences(s).len(),
        first_occurrences(s).take(first_occurrences(s.take(k)).len() as int) == first_occurrences(
            s.take(k),
        ),
{
    lemma_first_occurrences_distinct(s);
    lemma_occurrences_members(s);
    lemma_occurrences_prefix(s, k);
}

proof fn lemma_occurrences_members<T>(s: Seq<T>)
    ensures
        forall|x: T| #[trigger] first_occurrences(s).contains(x) <==> s.contains(x),
    decreases s.len(),
{
    if s.len() > 0 {
        let front = s.drop_last();
        let last = s.last();
        lemma_occurrences_members(front);
        let rest = first_occurrences(front);
        assert forall|x: T| #[trigger] first_occurrences(s).contains(x) <==> s.contains(x) by {
            assert(rest.contains(x) <==> front.contains(x));
            if s.contains(x) {
                let i = choose|i: int| 0 <= i < s.len() && s[i] == x;
                if i < front.len() {
                    assert(front[i] == x);
                }
            }
            if front.contains(x) {
                let i = choose|i: int| 0 <= i < front.len() && front[i] == x;
                assert(s[i] == x);
            }
            if x == last {
                assert(s[s.len() - 1] == x);
            }
            if !rest.contains(last) {
                let all = rest.push(last);
                assert(all[rest.len() as int] == last);
                if rest.contains(x) {
                    let i = choose|i: int| 0 <= i < rest.len() && rest[i] == x;
                    assert(all[i] == x);
                }
                if all.contains(x) {
                    let i = choose|i: int| 0 <= i < all.len() && all[i] == x;
                    if i < rest.len() {
                        assert(rest[i] == x);
                    }
                }
            }
        }
    }
}

proof fn lemma_occurrences_prefix<T>(s: Seq<T>, k: int)
    requires
        0 <= k <= s.len(),
    ensures
        first_occurrences(s.take(k)).len() <= first_occurrences(s).len(),
        first_occurrences(s).take(first_occurrences(s.take(k)).len() as int) == first_occurrences(
            s.take(k),
        ),
    decreases s.len() - k,
{
    let f = first_occurrences(s.take(k));
    if k == s.len() {
        assert(s.take(k) =~= s);
        assert(f.take(f.len() as int) =~= f);
    } else {
        lemma_occurrences_prefix(s, k + 1);
        assert(s.take(k + 1).drop_last() =~= s.take(k));
        let g = first_occurrences(s.take(k + 1));
        assert(g.take(f.len() as int) =~= f);
        assert(first_occurrences(s).take(f.len() as int) =~= first_occurrences(s).take(
            g.len() as int,
        ).take(f.len() as int));
    }
}

/// `OFFSET` and `LIMIT` give a stretch of the rows: those behind the offset, and no more
/// than the limit. `LIMIT 0` gives none, and an offset behind the end gives none.
pub proof fn law_offset_and_limit(rows: Seq<Seq<Seq<char>>>, q: Query)
    ensures
        ({
            let unique = if q.distinct {
                first_occurrences(rows)
            } else {
                rows
            };
            let n = unique.len() as int;
            let skip = match q.offset {
                Some(k) => k as int,
                None => 0,
            };
            let from = if skip < n {
                skip
            } else {
                n
            };
            let to = match q.limit {
                Some(k) if from + k < n => from + k,
                _ => n,
            };
            cut_rows(rows, q) == unique.subrange(from, to)
        }),
{
    let unique = if q.distinct {
        first_occurrences(rows)
    } else {
        rows
    };
    let n = unique.len() as int;
    let skip = match q.offset {
        Some(k) => k as int,
        None => 0,
    };
    let from = if skip < n {
        skip
    } else {
        n
    };
    let to = match q.limit {
        Some(k) if from + k < n => from + k,
        _ => n,
    };
    assert(cut_rows(rows, q) =~= unique.subrange(from, to));
}

// ---------------------------------------------------------------------------
// GROUP BY
// ---------------------------------------------------------------------------

/// The number of rows in the groups with the given keys.
pub open spec fn grouped_count(rows: Seq<Record>, places: Seq<int>, keys: Seq<Seq<char>>) -> nat
    decreases keys.len(),
{
    if keys.len() == 0 {
        0
    } else {
        grouped_count(rows, places, keys.drop_last()) + group_rows(rows, places, keys.last()).len()
    }
}

/// Every row is in exactly one group: that of its key.
pub proof fn law_groups(rows: Seq<Record>, places: Seq<int>)
    ensures
        ({
            let keys = first_occurrences(row_keys(rows, places));
            &&& keys.no_duplicates()
            &&& forall|i: int|
                0 <= i < rows.len() ==> keys.contains(row_key(#[trigger] rows[i], places))
            &&& forall|k: Seq<char>, r: Record| #[trigger]
                group_rows(rows, places, k).contains(r) <==> rows.contains(r) && row_key(r, places)
                    == k
            &&& forall|k: Seq<char>| #[trigger]
                keys.contains(k) ==> group_rows(rows, places, k).len() > 0
            &&& grouped_count(rows, places, keys) == rows.len()
        }),
{
    let all = row_keys(rows, places);
    let keys = first_occurrences(all);
    lemma_first_occurrences_distinct(all);
    lemma_occurrences_members(all);
    assert forall|i: int| 0 <= i < rows.len() implies keys.contains(
        row_key(#[trigger] rows[i], places),
    ) by {
        assert(all[i] == row_key(rows[i], places));
        assert(all.contains(all[i]));
    }
    assert forall|k: Seq<char>, r: Record| #[trigger]
        group_rows(rows, places, k).contains(r) <==> rows.contains(r) && row_key(r, places)
            == k by {
        lemma_group_members(rows, places, k, r);
    }
    assert forall|k: Seq<char>| #[trigger] keys.contains(k) implies group_rows(
        rows,
        places,
        k,
    ).len() > 0 by {
        assert(all.contains(k));
        let i = choose|i: int| 0 <= i < all.len() && all[i] == k;
        assert(rows.contains(rows[i]));
        assert(group_rows(rows, places, k).contains(rows[i]));
    }
    lemma_grouped_count(rows, places, keys);
}

proof fn lemma_group_members(rows: Seq<Record>, places: Seq<int>, k: Seq<char>, r: Record)
    ensures
        group_rows(rows, places, k).contains(r) <==> rows.contains(r) && row_key(r, places) == k,
    decreases rows.len(),
{
    if rows.len() > 0 {
        let front = rows.drop_last();
        let last = rows.last();
        lemma_group_members(front, places, k, r);
        let rest = group_rows(front, places, k);
        let all = group_rows(rows, places, k);
        if rows.contains(r) {
            let i = choose|i: int| 0 <= i < rows.len() && rows[i] == r;
            if i < front.len() {
                assert(front[i] == r);
            }
        }
        if front.contains(r) {
            let i = choose|i: int| 0 <= i < front.len() && front[i] == r;
            assert(rows[i] == r);
        }
        if r == last {
            assert(rows[rows.len() - 1] == r);
        }
        if row_key(last, places) == k {
            assert(all[rest.len() as int] == last);
            if rest.contains(r) {
                let i = choose|i: int| 0 <= i < rest.len() && rest[i] == r;
                assert(all[i] == r);
            }
            if all.contains(r) {
                let i = choose|i: int| 0 <= i < all.len() && all[i] == r;
                if i < rest.len() {
                    assert(rest[i] == r);
                }
            }
        }
    }
}

/// A row more is counted in the group of its key.
proof fn lemma_count_row(rows: Seq<Record>, places: Seq<int>, keys: Seq<Seq<char>>)
    requires
        rows.len() > 0,
        keys.no_duplicates(),
    ensures
        grouped_count(rows, places, keys) == grouped_count(rows.drop_last(), places, keys) + (
        if keys.contains(row_key(rows.last(), places)) {
            1nat
        } else {
            0nat
        }),
    decreases keys.len(),
{
    if keys.len() > 0 {
        let k = row_key(rows.last(), places);
        let front = keys.drop_last();
        lemma_count_row(rows, places, front);
        if front.contains(k) {
            let i = choose|i: int| 0 <= i < front.len() && front[i] == k;
            assert(keys[i] == k);
            assert(keys[keys.len() - 1] != keys[i]);
        } else if keys.contains(k) {
            let i = choose|i: int| 0 <= i < keys.len() && keys[i] == k;
            if i < front.len() {
                assert(front[i] == k);
            }
        }
        if keys.last() == k {
            assert(keys[keys.len() - 1] == k);
        }
    }
}

/// Keys that have all rows' keys among them count all rows.
proof fn lemma_grouped_count(rows: Seq<Record>, places: Seq<int>, keys: Seq<Seq<char>>)
    requires
        keys.no_duplicates(),
        forall|i: int| 0 <= i < rows.len() ==> keys.contains(row_key(#[trigger] rows[i], places)),
    ensures
        grouped_count(rows, places, keys) == rows.len(),
    decreases rows.len(),
{
    if rows.len() == 0 {
        lemma_count_none(rows, places, keys);
    } else {
        let front = rows.drop_last();
        assert forall|i: int| 0 <= i < front.len() implies keys.contains(
            row_key(#[trigger] front[i], places),
        ) by {
            assert(front[i] == rows[i]);
        }
        lemma_grouped_count(front, places, keys);
        lemma_count_row(rows, places, keys);
        assert(keys.contains(row_key(rows[rows.len() - 1], places)));
    }
}

proof fn lemma_count_none(rows: Seq<Record>, places: Seq<int>, keys: Seq<Seq<char>>)
    requires
        rows.len() == 0,
    ensures
        grouped_count(rows, places, keys) == 0,
    decreases keys.len(),
{
    if keys.len() > 0 {
        lemma_count_none(rows, places, keys.drop_last());
    }
}

// ---------------------------------------------------------------------------
// JOIN
// ---------------------------------------------------------------------------

/// A join gives the values of exactly the pairs of rows that agree in the two columns.
pub proof fn law_join(left: Seq<Record>, right: Seq<Record>, li: int, ri: int, v: Seq<Datum>)
    ensures
        joined_values(left, right, li, ri).contains(v) <==> exists|i: int, j: int|
            0 <= i < left.len() && 0 <= j < right.len() && joins(
                #[trigger] left[i],
                #[trigger] right[j],
                li,
                ri,
            ) && v == left[i].values + right[j].values,
    decreases left.len(),
{
    let all = joined_values(left, right, li, ri);
    if left.len() > 0 {
        let front = left.drop_last();
        let a = joined_values(front, right, li, ri);
        let b = joined_row(left.last(), right, li, ri);
        law_join(front, right, li, ri, v);
        lemma_join_row(left.last(), right, li, ri, v);
        if all.contains(v) {
            let k = choose|k: int| 0 <= k < all.len() && all[k] == v;
            if k < a.len() {
                assert(a[k] == v);
                let (i, j) = choose|i: int, j: int|
                    0 <= i < front.len() && 0 <= j < right.len() && joins(
                        #[trigger] front[i],
                        #[trigger] right[j],
                        li,
                        ri,
                    ) && v == front[i].values + right[j].values;
                assert(left[i] == front[i]);
                assert(joins(left[i], right[j], li, ri));
            } else {
                assert(b[k - a.len()] == v);
                let j = choose|j: int|
                    0 <= j < right.len() && joins(left.last(), #[trigger] right[j], li, ri) && v
                        == left.last().values + right[j].values;
                assert(joins(left[left.len() - 1], right[j], li, ri));
            }
        }
        if exists|i: int, j: int|
            0 <= i < left.len() && 0 <= j < right.len() && joins(
                #[trigger] left[i],
                #[trigger] right[j],
                li,
                ri,
            ) && v == left[i].values + right[j].values {
            let (i, j) = choose|i: int, j: int|
                0 <= i < left.len() && 0 <= j < right.len() && joins(
                    #[trigger] left[i],
                    #[trigger] right[j],
                    li,
                    ri,
                ) && v == left[i].values + right[j].values;
            if i < front.len() {
                assert(front[i] == left[i]);
                assert(joins(front[i], right[j], li, ri));
                assert(a.contains(v));
                let k = choose|k: int| 0 <= k < a.len() && a[k] == v;
                assert(all[k] == v);
            } else {
                assert(joins(left.last(), right[j], li, ri));
                assert(b.contains(v));
                let k = choose|k: int| 0 <= k < b.len() && b[k] == v;
                assert(all[a.len() + k] == v);
            }
        }
    }
}

proof fn lemma_join_row(l: Record, right: Seq<Record>, li: int, ri: int, v: Seq<Datum>)
    ensures
        joined_row(l, right, li, ri).contains(v) <==> exists|j: int|
            0 <= j < right.len() && joins(l, #[trigger] right[j], li, ri) && v == l.values
                + right[j].values,
    decreases right.len(),
{
    let all = joined_row(l, right, li, ri);
    if right.len() > 0 {
        let front = right.drop_last();
        let rest = joined_row(l, front, li, ri);
        lemma_join_row(l, front, li, ri, v);
        if all.contains(v) {
            let k = choose|k: int| 0 <= k < all.len() && all[k] == v;
            if k < rest.len() {
                assert(rest[k] == v);
                let j = choose|j: int|
                    0 <= j < front.len() && joins(l, #[trigger] front[j], li, ri) && v == l.values
                        + front[j].values;
                assert(right[j] == front[j]);
            } else {
                assert(joins(l, right[right.len() - 1], li, ri));
            }
        }
        if exists|j: int|
            0 <= j < right.len() && joins(l, #[trigger] right[j], li, ri) && v == l.values
                + right[j].values {
            let j = choose|j: int|
                0 <= j < right.len() && joins(l, #[trigger] right[j], li, ri) && v == l.values
                    + right[j].values;
            if j < front.len() {
                assert(front[j] == right[j]);
                assert(rest.contains(v));
                let k = choose|k: int| 0 <= k < rest.len() && rest[k] == v;
                assert(all[k] == v);
            } else {
                assert(all[rest.len() as int] == v);
            }
        }
    }
}

// ---------------------------------------------------------------------------
// DELETE and UPDATE
// ---------------------------------------------------------------------------

/// Deleting rows removes those with the given ids and no others, and keeps the order.
pub proof fn law_delete(rows: Seq<Record>, ids: Seq<u64>)
    ensures
        forall|r: Record| #[trigger]
            rows_without(rows, ids).contains(r) <==> rows.contains(r) && !ids.contains(r.id),
        ascending(rows) ==> ascending(rows_without(rows, ids)),
        distinct_ids(rows) ==> distinct_ids(rows_without(rows, ids)),
    decreases rows.len(),
{
    let all = rows_without(rows, ids);
    if rows.len() > 0 {
        let front = rows.drop_last();
        let last = rows.last();
        law_delete(front, ids);
        let rest = rows_without(front, ids);
        assert forall|r: Record| #[trigger]
            all.contains(r) <==> rows.contains(r) && !ids.contains(r.id) by {
            assert(rest.contains(r) <==> front.contains(r) && !ids.contains(r.id));
            if rows.contains(r) {
                let i = choose|i: int| 0 <= i < rows.len() && rows[i] == r;
                if i < front.len() {
                    assert(front[i] == r);
                }
            }
            if front.contains(r) {
                let i = choose|i: int| 0 <= i < front.len() && front[i] == r;
                assert(rows[i] == r);
            }
            if r == last {
                assert(rows[rows.len() - 1] == r);
            }
            if !ids.contains(last.id) {
                assert(all[rest.len() as int] == last);
                if rest.contains(r) {
                    let i = choose|i: int| 0 <= i < rest.len() && rest[i] == r;
                    assert(all[i] == r);
                }
                if all.contains(r) {
                    let i = choose|i: int| 0 <= i < all.len() && all[i] == r;
                    if i < rest.len() {
                        assert(rest[i] == r);
                    }
                }
            }
        }
        if distinct_ids(rows) {
            assert forall|i: int, j: int| 0 <= i < j < front.len() implies (#[trigger] front[i]).id
                != (#[trigger] front[j]).id by {
                assert(rows[i].id != rows[j].id);
            }
            assert forall|i: int, j: int| 0 <= i < j < all.len() implies (#[trigger] all[i]).id != (
            #[trigger] all[j]).id by {
                assert(all[i] == rest[i]);
                if j < rest.len() {
                    assert(all[j] == rest[j]);
                } else {
                    assert(rest.contains(rest[i]));
                    let k = choose|k: int| 0 <= k < front.len() && front[k] == rest[i];
                    assert(rows[k].id != rows[rows.len() - 1].id);
                }
            }
        }
        if ascending(rows) {
            assert forall|i: int, j: int| 0 <= i < j < front.len() implies (#[trigger] front[i]).id
                < (#[trigger] front[j]).id by {
                assert(rows[i].id < rows[j].id);
            }
            assert forall|i: int, j: int| 0 <= i < j < all.len() implies (#[trigger] all[i]).id < (
            #[trigger] all[j]).id by {
                assert(all[i] == rest[i]);
                if j < rest.len() {
                    assert(all[j] == rest[j]);
                } else {
                    assert(rest.contains(rest[i]));
                    let k = choose|k: int| 0 <= k < front.len() && front[k] == rest[i];
                    assert(rows[k].id < rows[rows.len() - 1].id);
                }
            }
        }
    }
}

/// `DELETE` with a condition leaves exactly the rows that do not meet it: afterwards the
/// condition selects nothing.
pub proof fn law_delete_where(rows: Seq<Record>, condition: Seq<char>, c: Seq<Column>)
    requires
        distinct_ids(rows),
    ensures
        ({
            let left = rows_without(rows, ids_of(filtered(rows, condition, c)));
            &&& forall|r: Record| #[trigger]
                left.contains(r) <==> rows.contains(r) && !meets_any(or_parts(condition), r, c)
            &&& filtered(left, condition, c).len() == 0
        }),
{
    let found = filtered(rows, condition, c);
    let ids = ids_of(found);
    let left = rows_without(rows, ids);
    law_condition_selects(rows, condition, c);
    law_delete(rows, ids);
    law_condition_selects(left, condition, c);
    assert forall|r: Record| #[trigger]
        left.contains(r) <==> rows.contains(r) && !meets_any(or_parts(condition), r, c) by {
        if rows.contains(r) {
            if found.contains(r) {
                let i = choose|i: int| 0 <= i < found.len() && found[i] == r;
                assert(ids[i] == r.id);
            }
            if ids.contains(r.id) {
                let i = choose|i: int| 0 <= i < ids.len() && ids[i] == r.id;
                let f = found[i];
                assert(found.contains(f));
                assert(rows.contains(f));
                let j = choose|j: int| 0 <= j < rows.len() && rows[j] == f;
                let k = choose|k: int| 0 <= k < rows.len() && rows[k] == r;
                if j < k {
                    assert(rows[j].id != rows[k].id);
                } else if k < j {
                    assert(rows[k].id != rows[j].id);
                }
            }
        }
    }
    let again = filtered(left, condition, c);
    if again.len() > 0 {
        assert(again.contains(again[0]));
        assert(left.contains(again[0]));
    }
}

/// Updating rows changes one column of those with the given ids and nothing else.
pub proof fn law_update(rows: Seq<Record>, ids: Seq<u64>, col: int, d: Datum, i: int)
    requires
        0 <= i < rows.len(),
    ensures
        ({
            let u = updated_rows(rows, ids, col, d);
            &&& u.len() == rows.len()
            &&& u[i].id == rows[i].id
            &&& u[i].values.len() == rows[i].values.len()
            &&& !ids.contains(rows[i].id) ==> u[i] == rows[i]
            &&& forall|k: int|
                0 <= k < rows[i].values.len() && k != col ==> #[trigger] u[i].values[k]
                    == rows[i].values[k]
            &&& ids.contains(rows[i].id) && 0 <= col < rows[i].values.len() ==> u[i].values[col]
                == d
        }),
{
}

/// A change to the rows of one table leaves all other tables as they are.
pub proof fn law_other_tables(db: Database, t: Seq<char>, rows: Seq<Record>, other: Seq<char>)
    requires
        db.wf(),
        db.has(t),
        t != other,
    ensures
        db.with_rows(t, rows).has(other) == db.has(other),
        db.has(other) ==> db.with_rows(t, rows).table(other) == db.table(other),
{
    let next = db.with_rows(t, rows);
    lemma_found(db, t);
    lemma_found(db, other);
    crate::storage::engine::lemma_before_found(db, other);
    let k = db.index(other);
    assert forall|j: int| 0 <= j < k implies (#[trigger] next.tables[j]).schema.name != other by {
        assert(db.tables[j].schema.name != other);
    }
    lemma_table_index_is(next.tables, other, k);
}

// ---------------------------------------------------------------------------
// CREATE and DROP
// ---------------------------------------------------------------------------

/// Dropping a new table undoes its creation; a table that was dropped is gone, and can
/// be created again.
pub proof fn law_create_then_drop(db: Database, s: Schema)
    requires
        db.wf(),
        !db.has(s.name),
    ensures
        db.created(s).has(s.name),
        db.created(s).table(s.name).schema == s,
        db.created(s).table(s.name).rows.len() == 0,
        db.created(s).dropped(s.name) == db,
        !db.created(s).dropped(s.name).has(s.name),
{
    let next = db.created(s);
    lemma_not_found(db, s.name);
    assert forall|j: int| 0 <= j < db.tables.len() implies (#[trigger] next.tables[j]).schema.name
        != s.name by {
        assert(db.tables[j].schema.name != s.name);
    }
    lemma_table_index_is(next.tables, s.name, db.tables.len() as int);
    assert(next.dropped(s.name) =~= db);
}

// ---------------------------------------------------------------------------
// Reading what was written
// ---------------------------------------------------------------------------

/// `SELECT * FROM table`
pub open spec fn star_query(table: Seq<char>) -> Query {
    Query {
        table,
        columns: seq!["*"@],
        condition: None,
        order_by: None,
        group_by: None,
        having: None,
        limit: None,
        offset: None,
        distinct: false,
        join: None,
    }
}

/// The values of a row as texts.
pub open spec fn shown_row(r: Record) -> Seq<Seq<char>> {
    r.values.map_values(|d: Datum| shown(d))
}

proof fn lemma_star()
    ensures
        trim("*"@) == "*"@,
        upper("*"@) == "*"@,
        !is_count("*"@),
        aggregate_of("*"@) is None,
{
    reveal_strlit("*");
    reveal_strlit(")");
    reveal_strlit("COUNT(*)");
    reveal_strlit("COUNT (*)");
    let s = "*"@;
    assert(!is_space('*'));
    assert(trim(s) == s);
    assert(is_ascii_text(s)) by {
        assert(is_ascii_char(s[0]));
    }
    assert(upper(s) =~= s) by {
        assert(ascii_upper('*') == '*');
    }
    assert(!ends_with(s, ")"@)) by {
        assert(s.subrange(0, 1)[0] == '*');
    }
}

/// `SELECT *` returns the names of all columns, and all values of all rows in their
/// order.
pub proof fn law_select_star(db: Database, t: Seq<char>)
    requires
        db.has(t),
        forall|i: int|
            0 <= i < db.table(t).schema.columns.len() ==> (
            #[trigger] db.table(t).schema.columns[i]).index == i,
        forall|j: int|
            0 <= j < db.table(t).rows.len() ==> (#[trigger] db.table(t).rows[j]).values.len()
                == db.table(t).schema.columns.len(),
    ensures
        selected(db, star_query(t)) == Ok::<Answer, Seq<char>>(
            Answer {
                columns: db.table(t).schema.columns.map_values(|c: Column| c.name),
                rows: db.table(t).rows.map_values(|r: Record| shown_row(r)),
            },
        ),
{
    lemma_star();
    let q = star_query(t);
    let c = db.table(t).schema.columns;
    let rows = db.table(t).rows;
    let all = all_columns(c);
    assert(q.columns.drop_last() =~= Seq::empty());
    assert(q.columns.last() == "*"@);
    assert(projection(c, q.columns.drop_last()) == Ok::<Projection, Seq<char>>(
        Projection { names: Seq::empty(), places: Seq::empty() },
    ));
    assert(Seq::<Seq<char>>::empty() + all.names =~= all.names);
    assert(Seq::<int>::empty() + all.places =~= all.places);
    assert(projection(c, q.columns) == Ok::<Projection, Seq<char>>(all));
    assert forall|j: int| 0 <= j < rows.len() implies projected(#[trigger] rows[j], all.places)
        == shown_row(rows[j]) by {
        let r = rows[j];
        assert(r.values.len() == c.len());
        assert forall|i: int| 0 <= i < c.len() implies projected(r, all.places)[i] == shown_row(
            r,
        )[i] by {
            assert(c[i].index == i);
        }
        assert(projected(r, all.places) =~= shown_row(r));
    }
    assert(projected_rows(rows, all.places) =~= rows.map_values(|r: Record| shown_row(r)));
}

/// A row that is inserted is the last row that `SELECT *` returns; the rows before it are
/// those that it returned before.
pub proof fn law_insert_then_select(db: Database, t: Seq<char>, v: Seq<Datum>)
    requires
        db.insert_error(t, v) is None,
        db.next_id < u64::MAX,
        forall|i: int|
            0 <= i < db.table(t).schema.columns.len() ==> (
            #[trigger] db.table(t).schema.columns[i]).index == i,
        forall|j: int|
            0 <= j < db.table(t).rows.len() ==> (#[trigger] db.table(t).rows[j]).values.len()
                == db.table(t).schema.columns.len(),
    ensures
        ({
            let next = altered(db, Alteration::Insert(t, v));
            &&& next is Ok
            &&& selected(db, star_query(t)) is Ok
            &&& selected(next->Ok_0.0, star_query(t)) == Ok::<Answer, Seq<char>>(
                Answer {
                    columns: selected(db, star_query(t))->Ok_0.columns,
                    rows: selected(db, star_query(t))->Ok_0.rows.push(
                        v.map_values(|d: Datum| shown(d)),
                    ),
                },
            )
        }),
{
    let next = altered(db, Alteration::Insert(t, v))->Ok_0.0;
    let rows = db.table(t).rows;
    let r = Record { id: db.next_id, values: v };
    lemma_found(db, t);
    crate::storage::engine::lemma_before_found(db, t);
    assert forall|j: int| 0 <= j < db.index(t) implies (#[trigger] next.tables[j]).schema.name
        != t by {
        assert(db.tables[j].schema.name != t);
    }
    lemma_table_index_is(next.tables, t, db.index(t));
    assert(next.table(t).rows == rows.push(r));
    assert forall|j: int| 0 <= j < next.table(t).rows.len() implies (
    #[trigger] next.table(t).rows[j]).values.len() == next.table(t).schema.columns.len() by {
        if j < rows.len() {
            assert(rows[j].values.len() == db.table(t).schema.columns.len());
        }
    }
    law_select_star(db, t);
    law_select_star(next, t);
    assert(rows.push(r).map_values(|r: Record| shown_row(r)) =~= rows.map_values(
        |r: Record| shown_row(r),
    ).push(shown_row(r)));
}

// ---------------------------------------------------------------------------
// Comparisons
// ---------------------------------------------------------------------------

/// A comparison seen from the other side.
pub open spec fn turned(c: Option<Comparison>) -> Option<Comparison> {
    match c {
        Some(Comparison::Less) => Some(Comparison::Greater),
        Some(Comparison::Greater) => Some(Comparison::Less),
        _ => c,
    }
}

proof fn lemma_texts_turn(x: Seq<char>, y: Seq<char>)
    ensures
        Some(compare_texts(y, x)) == turned(Some(compare_texts(x, y))),
{
    lemma_text_order(x, y);
}

proof fn lemma_doubles_turn(x: Double, y: Double)
    ensures
        Some(compare_doubles(y, x)) == turned(Some(compare_doubles(x, y))),
{
}

proof fn lemma_numbers_turn(a: Datum, b: Datum)
    requires
        a is Integer || a is Float,
    ensures
        compared(b, a) == turned(compared(a, b)),
{
    match (a, b) {
        (Datum::Float(x), Datum::Float(y)) => {
            lemma_doubles_turn(x, y);
        },
        (Datum::Integer(x), Datum::Float(y)) => {
            lemma_doubles_turn(double_of_int(x as int), y);
        },
        (Datum::Float(x), Datum::Integer(y)) => {
            lemma_doubles_turn(x, double_of_int(y as int));
        },
        _ => {},
    }
}

proof fn lemma_texts_compare(a: Datum, b: Datum)
    requires
        a is Text,
    ensures
        compared(b, a) == turned(compared(a, b)),
{
    match (a, b) {
        (Datum::Text(x), Datum::Text(y)) => {
            lemma_texts_turn(x, y);
        },
        (Datum::Text(x), Datum::Boolean(y)) => {
            lemma_texts_turn(x, bool_text(y));
        },
        (Datum::Text(x), Datum::Date(y)) => {
            lemma_texts_turn(x, y);
        },
        (Datum::Text(x), Datum::Time(y)) => {
            lemma_texts_turn(x, y);
        },
        _ => {},
    }
}

/// Two values compare one way round as they do the other way round, turned.
pub proof fn law_comparison_turns(a: Datum, b: Datum)
    ensures
        compared(b, a) == turned(compared(a, b)),
{
    if a is Integer || a is Float {
        lemma_numbers_turn(a, b);
    } else if b is Integer || b is Float {
        lemma_numbers_turn(b, a);
    } else if a is Text {
        lemma_texts_compare(a, b);
    } else if b is Text {
        lemma_texts_compare(b, a);
    } else {
        match (a, b) {
            (Datum::Date(x), Datum::Date(y)) => {
                lemma_texts_turn(x, y);
            },
            (Datum::Time(x), Datum::Time(y)) => {
                lemma_texts_turn(x, y);
            },
            _ => {},
        }
    }
}

} // verus!
