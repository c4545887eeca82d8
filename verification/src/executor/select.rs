//! Queries: joining, filtering, projecting, sorting and cutting rows.

use vstd::prelude::*;

use super::aggregate::aggregate_column;
use super::aggregate::aggregate_of;
use super::aggregate::aggregate_text;
use super::aggregate::counts;
use super::aggregate::extract_agg_column;
use super::aggregate::is_count;
use super::aggregate::numbers;
use super::aggregate::numbers_in;
use super::aggregate::parse_aggregate;
use super::aggregate::show_aggregate;
use super::column::bare_name;
use super::column::find_column;
use super::column::last_part;
use super::column::no_column;
use super::column::position_of_column;
use super::column::resolve;
use super::column::resolve_column;
use super::column::Naming;
use super::compare::same_datum;
use super::compare::same_value;
use super::condition::compute_vector_similarity;
use super::condition::filter_rows;
use super::condition::matched;
use super::condition::parse_vector_similarity_call;
use super::condition::row_similarity;
use super::condition::similarity_call;
use super::group::cell;
use super::group::cell_text;
use super::group::execute_group_by;
use super::group::first_occurrences;
use super::group::grouped;
use super::group::place_ints;
use super::sort::keys_view;
use super::sort::opt_datum;
use super::sort::places_view;
use super::sort::sort_places;
use super::sort::sorted_places;
use crate::double::Double;
use crate::number::push_u64;
use crate::number::show_nat;
use crate::sql::statement::opt_text;
use crate::sql::statement::text_rows;
use crate::sql::statement::Join;
use crate::sql::statement::JoinClause;
use crate::sql::statement::Query;
use crate::storage::engine::missing;
use crate::storage::engine::Database;
use crate::storage::engine::StorageEngine;
use crate::storage::schema::columns_view;
use crate::storage::schema::copy_columns;
use crate::storage::schema::copy_rows;
use crate::storage::schema::rows_view;
use crate::storage::schema::Column;
use crate::storage::schema::ColumnInfo;
use crate::storage::schema::Record;
use crate::storage::schema::Row;
use crate::text::byte_len;
use crate::text::bytes_before;
use crate::text::chars_of;
use crate::text::ends_with;
use crate::text::first_bytes;
use crate::text::has_suffix;
use crate::text::is_text;
use crate::text::join3;
use crate::text::lower;
use crate::text::rfind;
use crate::text::same_str;
use crate::text::search_last;
use crate::text::string_of;
use crate::text::string_texts;
use crate::text::take_bytes;
use crate::text::to_lower;
use crate::text::to_upper;
use crate::text::trim;
use crate::text::trimmed;
use crate::text::upper;
use crate::types::copy_values;
use crate::types::data;
use crate::types::zero;
use crate::types::Datum;
use crate::types::Value;

verus! {

// ---------------------------------------------------------------------------
// Joining
// ---------------------------------------------------------------------------

/// The columns of a joined table: those of the left one as they are, and those of the
/// right one behind them, under the right table's name.
pub open spec fn joined_columns(left: Seq<Column>, table: Seq<char>, right: Seq<Column>) -> Seq<
    Column,
>
    decreases right.len(),
{
    if right.len() == 0 {
        left
    } else {
        let rest = joined_columns(left, table, right.drop_last());
        rest.push(
            Column {
                name: table + "."@ + right.last().name,
                data_type: right.last().data_type,
                index: rest.len() as usize,
            },
        )
    }
}

/// The values of a row in two columns are the same.
pub open spec fn joins(l: Record, r: Record, li: int, ri: int) -> bool {
    0 <= li < l.values.len() && 0 <= ri < r.values.len() && same_datum(l.values[li], r.values[ri])
}

/// The values of a left row with those of each right row that joins it.
pub open spec fn joined_row(l: Record, right: Seq<Record>, li: int, ri: int) -> Seq<Seq<Datum>>
    decreases right.len(),
{
    if right.len() == 0 {
        Seq::empty()
    } else {
        let rest = joined_row(l, right.drop_last(), li, ri);
        if joins(l, right.last(), li, ri) {
            rest.push(l.values + right.last().values)
        } else {
            rest
        }
    }
}

/// The values of the joined rows, by the left rows and then by the right rows.
pub open spec fn joined_values(left: Seq<Record>, right: Seq<Record>, li: int, ri: int) -> Seq<
    Seq<Datum>,
>
    decreases left.len(),
{
    if left.len() == 0 {
        Seq::empty()
    } else {
        joined_values(left.drop_last(), right, li, ri) + joined_row(left.last(), right, li, ri)
    }
}

/// Rows with the ids 1, 2, 3 and so on.
pub open spec fn numbered(v: Seq<Seq<Datum>>) -> Seq<Record> {
    Seq::new(v.len(), |i: int| Record { id: (i + 1) as u64, values: v[i] })
}

/// What a query reads: columns and rows.
#[verifier::ext_equal]
pub struct Source {
    pub columns: Seq<Column>,
    pub rows: Seq<Record>,
}

/// What a query reads from its table or its two tables, or what is wrong with it.
pub open spec fn source(db: Database, table: Seq<char>, join: Option<Join>) -> Result<
    Source,
    Seq<char>,
> {
    if !db.has(table) {
        Err(missing(table))
    } else {
        let left = db.table(table);
        match join {
            None => Ok(Source { columns: left.schema.columns, rows: left.rows }),
            Some(j) => if !db.has(j.table) {
                Err(missing(j.table))
            } else {
                let right = db.table(j.table);
                let ln = last_part(j.left);
                let rn = last_part(j.right);
                match find_column(left.schema.columns, Naming::Exact, ln) {
                    None => Err("JOIN 左表列 '"@ + ln + "' 不存在"@),
                    Some(lc) => match find_column(right.schema.columns, Naming::Exact, rn) {
                        None => Err("JOIN 右表列 '"@ + rn + "' 不存在"@),
                        Some(rc) => Ok(
                            Source {
                                columns: joined_columns(
                                    left.schema.columns,
                                    j.table,
                                    right.schema.columns,
                                ),
                                rows: numbered(
                                    joined_values(
                                        left.rows,
                                        right.rows,
                                        lc.index as int,
                                        rc.index as int,
                                    ),
                                ),
                            },
                        ),
                    },
                }
            },
        }
    }
}

fn merge_columns(left: &Vec<ColumnInfo>, table: &str, right: &Vec<ColumnInfo>) -> (r: Vec<
    ColumnInfo,
>)
    ensures
        columns_view(r@) == joined_columns(columns_view(left@), table@, columns_view(right@)),
{
    let ghost lv = columns_view(left@);
    let ghost rv = columns_view(right@);
    let mut r = copy_columns(left);
    let mut i: usize = 0;
    assert(rv.take(0) =~= Seq::empty());
    while i < right.len()
        invariant
            i <= right.len(),
            rv == columns_view(right@),
            columns_view(r@) == joined_columns(lv, table@, rv.take(i as int)),
        decreases right.len() - i,
    {
        let c = ColumnInfo {
            name: join3(table, ".", right[i].name.as_str()),
            data_type: right[i].data_type,
            index: r.len(),
        };
        let ghost before = r@;
        r.push(c);
        proof {
            assert(rv.take(i + 1).drop_last() =~= rv.take(i as int));
            assert(rv.take(i + 1).last() == right@[i as int]@);
            assert(columns_view(before).len() == before.len());
            assert(columns_view(r@) =~= columns_view(before).push(c@));
        }
        i += 1;
    }
    assert(rv.take(right@.len() as int) =~= rv);
    r
}

fn merge_values(a: &Vec<Value>, b: &Vec<Value>) -> (r: Vec<Value>)
    ensures
        data(r@) == data(a@) + data(b@),
{
    let mut r = copy_values(a);
    let ghost start = data(r@);
    let ghost bv = data(b@);
    let mut i: usize = 0;
    while i < b.len()
        invariant
            i <= b.len(),
            bv == data(b@),
            data(r@) == start + bv.take(i as int),
        decreases b.len() - i,
    {
        let ghost before = r@;
        r.push(b[i].copy());
        proof {
            assert(data(r@) =~= data(before).push(b@[i as int]@));
            assert(data(r@) =~= start + bv.take(i + 1));
        }
        i += 1;
    }
    assert(bv.take(b@.len() as int) =~= bv);
    r
}

fn join_rows(left: &Vec<Row>, right: &Vec<Row>, li: usize, ri: usize) -> (r: Vec<Row>)
    ensures
        rows_view(r@) == numbered(
            joined_values(rows_view(left@), rows_view(right@), li as int, ri as int),
        ),
{
    let ghost lv = rows_view(left@);
    let ghost rv = rows_view(right@);
    let ghost (a, b) = (li as int, ri as int);
    let mut out: Vec<Row> = Vec::new();
    let ghost mut values: Seq<Seq<Datum>> = Seq::empty();
    let mut i: usize = 0;
    proof {
        assert(lv.take(0) =~= Seq::empty());
        assert(rows_view(out@) =~= numbered(values));
    }
    while i < left.len()
        invariant
            i <= left.len(),
            lv == rows_view(left@),
            rv == rows_view(right@),
            a == li,
            b == ri,
            values == joined_values(lv.take(i as int), rv, a, b),
            rows_view(out@) == numbered(values),
        decreases left.len() - i,
    {
        let ghost base = values;
        let ghost l = left@[i as int]@;
        let mut j: usize = 0;
        proof {
            assert(rv.take(0) =~= Seq::empty());
            assert(values =~= base + joined_row(l, rv.take(0), a, b));
        }
        while j < right.len()
            invariant
                i < left.len(),
                j <= right.len(),
                rv == rows_view(right@),
                l == left@[i as int]@,
                a == li,
                b == ri,
                values == base + joined_row(l, rv.take(j as int), a, b),
                rows_view(out@) == numbered(values),
            decreases right.len() - j,
        {
            let ghost r = right@[j as int]@;
            proof {
                assert(rv.take(j + 1).drop_last() =~= rv.take(j as int));
                assert(rv.take(j + 1).last() == r);
                assert(l.values.len() == left@[i as int].values@.len());
                assert(r.values.len() == right@[j as int].values@.len());
            }
            if li < left[i].values.len() && ri < right[j].values.len() {
                assert(l.values[a] == left@[i as int].values@[a]@);
                assert(r.values[b] == right@[j as int].values@[b]@);
                if same_value(&left[i].values[li], &right[j].values[ri]) {
                    let merged = merge_values(&left[i].values, &right[j].values);
                    let id: u64 = (out.len() as u128 + 1) as u64;
                    let row = Row { id, values: merged };
                    let ghost before = out@;
                    out.push(row);
                    proof {
                        let v = l.values + r.values;
                        assert(rows_view(before).len() == before.len());
                        assert(rows_view(out@) =~= rows_view(before).push(row@));
                        assert(numbered(values.push(v)) =~= numbered(values).push(row@));
                        assert(values.push(v) =~= base + joined_row(l, rv.take(j as int), a, b).push(
                            v,
                        ));
                        values = values.push(v);
                    }
                }
            }
            j += 1;
        }
        proof {
            assert(rv.take(right@.len() as int) =~= rv);
            assert(lv.take(i + 1).drop_last() =~= lv.take(i as int));
            assert(lv.take(i + 1).last() == l);
        }
        i += 1;
    }
    assert(lv.take(left@.len() as int) =~= lv);
    out
}

/// What a query reads.
struct Input {
    columns: Vec<ColumnInfo>,
    rows: Vec<Row>,
}

impl View for Input {
    type V = Source;

    closed spec fn view(&self) -> Source {
        Source { columns: columns_view(self.columns@), rows: rows_view(self.rows@) }
    }
}

fn read_source(engine: &StorageEngine, table: &str, join: &Option<JoinClause>) -> (r: Result<
    Input,
    String,
>)
    ensures
        match r {
            Ok(i) => source(engine@, table@, crate::sql::statement::opt_join(*join)) == Ok::<
                Source,
                Seq<char>,
            >(i@),
            Err(e) => source(engine@, table@, crate::sql::statement::opt_join(*join)) == Err::<
                Source,
                Seq<char>,
            >(e@),
        },
{
    let schema = match engine.get_schema(table) {
        Ok(s) => s,
        Err(e) => {
            return Err(e);
        },
    };
    let rows = match engine.scan_table(table) {
        Ok(r) => r,
        Err(e) => {
            return Err(e);
        },
    };
    let j = match join {
        Some(j) => j,
        None => {
            return Ok(Input { columns: copy_columns(&schema.columns), rows: copy_rows(rows) });
        },
    };
    let right_schema = match engine.get_schema(j.table.as_str()) {
        Ok(s) => s,
        Err(e) => {
            return Err(e);
        },
    };
    let right_rows = match engine.scan_table(j.table.as_str()) {
        Ok(r) => r,
        Err(e) => {
            return Err(e);
        },
    };
    let left_name = bare_name(&chars_of(j.left_col.as_str()));
    let right_name = bare_name(&chars_of(j.right_col.as_str()));
    let lc: usize = position_of_column(&schema.columns, Naming::Exact, &left_name);
    if lc == schema.columns.len() {
        return Err(join3("JOIN 左表列 '", string_of(&left_name).as_str(), "' 不存在"));
    }
    let rc: usize = position_of_column(&right_schema.columns, Naming::Exact, &right_name);
    if rc == right_schema.columns.len() {
        return Err(join3("JOIN 右表列 '", string_of(&right_name).as_str(), "' 不存在"));
    }
    proof {
        assert(columns_view(schema.columns@)[lc as int] == schema.columns@[lc as int]@);
        assert(columns_view(right_schema.columns@)[rc as int] == right_schema.columns@[rc as int]@);
    }
    let li: usize = schema.columns[lc].index;
    let ri: usize = right_schema.columns[rc].index;
    Ok(
        Input {
            columns: merge_columns(&schema.columns, j.table.as_str(), &right_schema.columns),
            rows: join_rows(rows, right_rows, li, ri),
        },
    )
}

// ---------------------------------------------------------------------------
// Projecting
// ---------------------------------------------------------------------------

/// The columns that are selected: their names and places.
#[verifier::ext_equal]
pub struct Projection {
    pub names: Seq<Seq<char>>,
    pub places: Seq<int>,
}

/// All columns.
pub open spec fn all_columns(c: Seq<Column>) -> Projection {
    Projection {
        names: c.map_values(|x: Column| x.name),
        places: c.map_values(|x: Column| x.index as int),
    }
}

/// The selected columns, up to the first that does not exist. A star stands for all
/// columns.
pub open spec fn projection(c: Seq<Column>, selected: Seq<Seq<char>>) -> Result<
    Projection,
    Seq<char>,
>
    decreases selected.len(),
{
    if selected.len() == 0 {
        Ok(Projection { names: Seq::empty(), places: Seq::empty() })
    } else {
        match projection(c, selected.drop_last()) {
            Err(e) => Err(e),
            Ok(p) => {
                let name = trim(selected.last());
                if name == "*"@ {
                    let all = all_columns(c);
                    Ok(
                        Projection { names: p.names + all.names, places: p.places + all.places },
                    )
                } else {
                    match resolve(c, name) {
                        None => Err(no_column(name)),
                        Some(x) => Ok(
                            Projection {
                                names: p.names.push(x.name),
                                places: p.places.push(x.index as int),
                            },
                        ),
                    }
                }
            },
        }
    }
}

/// A row as texts.
pub open spec fn projected(r: Record, places: Seq<int>) -> Seq<Seq<char>> {
    places.map_values(|i: int| cell(r, i))
}

/// Rows as texts.
pub open spec fn projected_rows(rows: Seq<Record>, places: Seq<int>) -> Seq<Seq<Seq<char>>> {
    rows.map_values(|r: Record| projected(r, places))
}

fn push_all(names: &mut Vec<String>, places: &mut Vec<usize>, columns: &Vec<ColumnInfo>)
    ensures
        string_texts(final(names)@) == string_texts(old(names)@) + all_columns(
            columns_view(columns@),
        ).names,
        place_ints(final(places)@) == place_ints(old(places)@) + all_columns(
            columns_view(columns@),
        ).places,
{
    let ghost c = columns_view(columns@);
    let ghost n0 = string_texts(names@);
    let ghost p0 = place_ints(places@);
    let mut i: usize = 0;
    assert(n0 + all_columns(c.take(0)).names =~= n0);
    assert(p0 + all_columns(c.take(0)).places =~= p0);
    while i < columns.len()
        invariant
            i <= columns.len(),
            c == columns_view(columns@),
            string_texts(names@) == n0 + all_columns(c.take(i as int)).names,
            place_ints(places@) == p0 + all_columns(c.take(i as int)).places,
        decreases columns.len() - i,
    {
        let ghost (n1, p1) = (names@, places@);
        let t = columns[i].name.as_str().to_owned();
        names.push(t);
        places.push(columns[i].index);
        proof {
            let x = columns@[i as int]@;
            assert(c[i as int] == x);
            assert(string_texts(names@) =~= string_texts(n1).push(t@));
            assert(place_ints(places@) =~= place_ints(p1).push(x.index as int));
            assert(string_texts(names@) =~= n0 + all_columns(c.take(i + 1)).names);
            assert(place_ints(places@) =~= p0 + all_columns(c.take(i + 1)).places);
        }
        i += 1;
    }
    assert(c.take(columns@.len() as int) =~= c);
}

proof fn lemma_projection_error(c: Seq<Column>, s: Seq<Seq<char>>, k: int)
    requires
        0 <= k <= s.len(),
        projection(c, s.take(k)) is Err,
    ensures
        projection(c, s) == projection(c, s.take(k)),
    decreases s.len() - k,
{
    if k == s.len() {
        assert(s.take(k) =~= s);
    } else {
        assert(s.take(k + 1).drop_last() =~= s.take(k));
        lemma_projection_error(c, s, k + 1);
    }
}

fn parse_projection(columns: &Vec<ColumnInfo>, selected: &Vec<String>) -> (r: Result<
    (Vec<String>, Vec<usize>),
    String,
>)
    ensures
        match r {
            Ok((n, p)) => projection(columns_view(columns@), string_texts(selected@)) == Ok::<
                Projection,
                Seq<char>,
            >((Projection { names: string_texts(n@), places: place_ints(p@) })),
            Err(e) => projection(columns_view(columns@), string_texts(selected@)) == Err::<
                Projection,
                Seq<char>,
            >(e@),
        },
{
    let ghost c = columns_view(columns@);
    let ghost s = string_texts(selected@);
    let mut names: Vec<String> = Vec::new();
    let mut places: Vec<usize> = Vec::new();
    let mut i: usize = 0;
    proof {
        assert(s.take(0) =~= Seq::empty());
        assert(string_texts(names@) =~= Seq::empty());
        assert(place_ints(places@) =~= Seq::empty());
    }
    while i < selected.len()
        invariant
            i <= selected.len(),
            c == columns_view(columns@),
            s == string_texts(selected@),
            projection(c, s.take(i as int)) == Ok::<Projection, Seq<char>>(
                (Projection { names: string_texts(names@), places: place_ints(places@) }),
            ),
        decreases selected.len() - i,
    {
        proof {
            assert(s.take(i + 1).drop_last() =~= s.take(i as int));
            assert(s.take(i + 1).last() == selected@[i as int]@);
        }
        let name = trimmed(&chars_of(selected[i].as_str()));
        if is_text(&name, "*") {
            push_all(&mut names, &mut places, columns);
        } else {
            match resolve_column(columns, &name) {
                None => {
                    proof {
                        lemma_projection_error(c, s, i + 1);
                    }
                    return Err(join3("列 '", string_of(&name).as_str(), "' 不存在"));
                },
                Some(x) => {
                    let ghost (n1, p1) = (names@, places@);
                    let t = x.name.as_str().to_owned();
                    names.push(t);
                    places.push(x.index);
                    proof {
                        assert(string_texts(names@) =~= string_texts(n1).push(t@));
                        assert(place_ints(places@) =~= place_ints(p1).push(x.index as int));
                    }
                },
            }
        }
        i += 1;
    }
    assert(s.take(selected@.len() as int) =~= s);
    Ok((names, places))
}

fn project_row(row: &Row, places: &Vec<usize>) -> (r: Vec<String>)
    ensures
        string_texts(r@) == projected(row@, place_ints(places@)),
{
    let ghost p = place_ints(places@);
    let mut r: Vec<String> = Vec::new();
    let mut i: usize = 0;
    while i < places.len()
        invariant
            i <= places.len(),
            p == place_ints(places@),
            string_texts(r@) == projected(row@, p.take(i as int)),
        decreases places.len() - i,
    {
        let t = string_of(&cell_text(row, places[i]));
        let ghost before = r@;
        r.push(t);
        proof {
            assert(string_texts(r@) =~= string_texts(before).push(t@));
            assert(projected(row@, p.take(i + 1)) =~= projected(row@, p.take(i as int)).push(
                cell(row@, p[i as int]),
            ));
        }
        i += 1;
    }
    assert(p.take(places@.len() as int) =~= p);
    r
}

// ---------------------------------------------------------------------------
// Ordering
// ---------------------------------------------------------------------------

/// The last place in bytes at which the keyword `word` stands in the upper case of `s`.
pub open spec fn last_keyword(s: Seq<char>, word: Seq<char>) -> Option<int> {
    match rfind(upper(s), word) {
        Some(i) => Some(byte_len(upper(s).take(i)) as int),
        None => None,
    }
}

/// The column of an `ORDER BY`, and whether the order is descending.
pub open spec fn order_of(s: Seq<char>) -> (Seq<char>, bool) {
    let t = trim(s);
    match last_keyword(t, " DESC"@) {
        Some(n) => (trim(take_bytes(t, n)), true),
        None => match last_keyword(t, " ASC"@) {
            Some(n) => (trim(take_bytes(t, n)), false),
            None => (t, false),
        },
    }
}

/// The call of `vector_similarity` in an `ORDER BY`.
pub open spec fn order_call(s: Seq<char>) -> Option<(Seq<char>, Seq<Double>)> {
    let t = trim(s);
    let u = upper(t);
    similarity_call(
        if ends_with(u, " DESC"@) {
            take_bytes(t, byte_len(t) - 5)
        } else if ends_with(u, " ASC"@) {
            take_bytes(t, byte_len(t) - 4)
        } else {
            t
        },
    )
}

/// What a row is ordered by: its similarity where the order is by one, else its value in
/// the column at `index`.
pub open spec fn order_key(
    r: Record,
    c: Seq<Column>,
    call: Option<(Seq<char>, Seq<Double>)>,
    index: int,
) -> Option<Datum> {
    match call {
        Some((name, target)) => Some(
            Datum::Float(
                match row_similarity(r, c, name, target) {
                    Some(x) => x,
                    None => zero(),
                },
            ),
        ),
        None => if 0 <= index < r.values.len() {
            Some(r.values[index])
        } else {
            None
        },
    }
}

/// The keys of rows.
pub open spec fn order_keys(
    rows: Seq<Record>,
    c: Seq<Column>,
    call: Option<(Seq<char>, Seq<Double>)>,
    index: int,
) -> Seq<Option<Datum>> {
    rows.map_values(|r: Record| order_key(r, c, call, index))
}

/// The rows at the given places.
pub open spec fn rows_at(rows: Seq<Record>, places: Seq<nat>) -> Seq<Record> {
    places.map_values(|i: nat| rows[i as int])
}

/// Rows in the order of an `ORDER BY`, or what is wrong with it.
pub open spec fn ordered(rows: Seq<Record>, c: Seq<Column>, order: Option<Seq<char>>) -> Result<
    Seq<Record>,
    Seq<char>,
> {
    match order {
        None => Ok(rows),
        Some(o) => {
            let (name, descending) = order_of(o);
            let call = order_call(o);
            let column = find_column(c, Naming::Either, name);
            if call is None && column is None {
                Err("排序列 '"@ + name + "' 不存在"@)
            } else {
                let index = match column {
                    Some(x) => x.index as int,
                    None => 0,
                };
                Ok(
                    rows_at(
                        rows,
                        sorted_places(order_keys(rows, c, call, index), descending),
                    ),
                )
            }
        },
    }
}

/// The call that an optional pair stands for.
pub open spec fn opt_call(c: Option<(Vec<char>, Vec<Double>)>) -> Option<
    (Seq<char>, Seq<Double>),
> {
    match c {
        Some((n, v)) => Some((n@, v@)),
        None => None,
    }
}

fn search_last_keyword(s: &Vec<char>, word: &str) -> (r: Option<u128>)
    ensures
        match r {
            Some(n) => last_keyword(s@, word@) == Some(n as int),
            None => last_keyword(s@, word@) is None,
        },
{
    let u = to_upper(s);
    match search_last(&u, word) {
        Some(i) => Some(bytes_before(&u, i)),
        None => None,
    }
}

/// The column of an `ORDER BY`, and whether the order is descending.
pub fn parse_order_by_str(order_by: &str) -> (r: (Vec<char>, bool))
    ensures
        (r.0@, r.1) == order_of(order_by@),
{
    let t = trimmed(&chars_of(order_by));
    match search_last_keyword(&t, " DESC") {
        Some(n) => {
            return (trimmed(&first_bytes(&t, n)), true);
        },
        None => {},
    }
    match search_last_keyword(&t, " ASC") {
        Some(n) => (trimmed(&first_bytes(&t, n)), false),
        None => (t, false),
    }
}

/// The call of `vector_similarity` in an `ORDER BY`.
pub fn parse_order_by_vector_call(order_by: &str) -> (r: Option<(Vec<char>, Vec<Double>)>)
    ensures
        match r {
            Some((c, v)) => order_call(order_by@) == Some((c@, v@)),
            None => order_call(order_by@) is None,
        },
{
    let t = trimmed(&chars_of(order_by));
    let u = to_upper(&t);
    let n: u128 = bytes_before(&t, t.len());
    assert(t@.take(t@.len() as int) =~= t@);
    let call = if has_suffix(&u, " DESC") {
        without_last(&t, n, 5)
    } else if has_suffix(&u, " ASC") {
        without_last(&t, n, 4)
    } else {
        t
    };
    parse_vector_similarity_call(&call)
}

fn without_last(t: &Vec<char>, n: u128, k: u128) -> (r: Vec<char>)
    ensures
        r@ == take_bytes(t@, n - k),
{
    if n >= k {
        first_bytes(t, n - k)
    } else {
        let none: Vec<char> = Vec::new();
        proof {
            if t@.len() > 0 {
                assert(crate::text::char_width(t@[0]) >= 1);
            }
            assert(t@.take(0) =~= Seq::empty());
            assert(none@ =~= Seq::empty());
        }
        none
    }
}

fn sort_rows(rows: &Vec<Row>, columns: &Vec<ColumnInfo>, order: &Option<String>) -> (r: Result<
    Vec<Row>,
    String,
>)
    ensures
        match r {
            Ok(v) => ordered(rows_view(rows@), columns_view(columns@), opt_text(*order)) == Ok::<
                Seq<Record>,
                Seq<char>,
            >(rows_view(v@)),
            Err(e) => ordered(rows_view(rows@), columns_view(columns@), opt_text(*order)) == Err::<
                Seq<Record>,
                Seq<char>,
            >(e@),
        },
{
    let o = match order {
        Some(o) => o,
        None => {
            return Ok(copy_rows(rows));
        },
    };
    let (name, descending) = parse_order_by_str(o.as_str());
    let call = parse_order_by_vector_call(o.as_str());
    let k: usize = position_of_column(columns, Naming::Either, &name);
    if call.is_none() && k == columns.len() {
        return Err(join3("排序列 '", string_of(&name).as_str(), "' 不存在"));
    }
    let index: usize = if k < columns.len() {
        assert(columns_view(columns@)[k as int] == columns@[k as int]@);
        columns[k].index
    } else {
        0
    };
    let ghost all = rows_view(rows@);
    let ghost c = columns_view(columns@);
    let ghost call_view = opt_call(call);
    let mut keys: Vec<Option<Value>> = Vec::new();
    let mut i: usize = 0;
    assert(keys_view(keys@) =~= order_keys(all.take(0), c, call_view, index as int));
    while i < rows.len()
        invariant
            i <= rows.len(),
            all == rows_view(rows@),
            c == columns_view(columns@),
            call_view == opt_call(call),
            keys@.len() == i,
            keys_view(keys@) == order_keys(all.take(i as int), c, call_view, index as int),
        decreases rows.len() - i,
    {
        let key: Option<Value> = match &call {
            Some((n, v)) => {
                let x = match compute_vector_similarity(&rows[i], columns, n, v) {
                    Some(x) => x,
                    None => Double { bits: 0 },
                };
                Some(Value::Float(x))
            },
            None => {
                assert(rows@[i as int]@.values.len() == rows@[i as int].values@.len());
                if index < rows[i].values.len() {
                    assert(rows@[i as int]@.values[index as int] == rows@[i as int].values@[
                        index as int]@);
                    Some(rows[i].values[index].copy())
                } else {
                    None
                }
            },
        };
        let ghost before = keys@;
        keys.push(key);
        proof {
            assert(keys_view(keys@) =~= keys_view(before).push(opt_datum(key)));
            assert(order_keys(all.take(i + 1), c, call_view, index as int) =~= order_keys(
                all.take(i as int),
                c,
                call_view,
                index as int,
            ).push(order_key(rows@[i as int]@, c, call_view, index as int)));
        }
        i += 1;
    }
    assert(all.take(rows@.len() as int) =~= all);
    let places = sort_places(&keys, descending);
    let mut r: Vec<Row> = Vec::new();
    let mut j: usize = 0;
    while j < places.len()
        invariant
            j <= places.len(),
            all == rows_view(rows@),
            keys@.len() == rows@.len(),
            forall|x: int| 0 <= x < places@.len() ==> (#[trigger] places@[x]) < keys@.len(),
            rows_view(r@) == rows_at(all, places_view(places@).take(j as int)),
        decreases places.len() - j,
    {
        let p: usize = places[j];
        let ghost before = r@;
        r.push(rows[p].copy());
        proof {
            let v = places_view(places@);
            assert(rows_view(r@) =~= rows_view(before).push(rows@[p as int]@));
            assert(rows_at(all, v.take(j + 1)) =~= rows_at(all, v.take(j as int)).push(
                all[p as int],
            ));
        }
        j += 1;
    }
    assert(places_view(places@).take(places@.len() as int) =~= places_view(places@));
    Ok(r)
}

// ---------------------------------------------------------------------------
// Queries
// ---------------------------------------------------------------------------

/// What a query returns: the names of its columns and its rows.
#[verifier::ext_equal]
pub struct Answer {
    pub columns: Seq<Seq<char>>,
    pub rows: Seq<Seq<Seq<char>>>,
}

/// Without the first `n` rows.
pub open spec fn after_offset(rows: Seq<Seq<Seq<char>>>, n: Option<u64>) -> Seq<Seq<Seq<char>>> {
    match n {
        Some(n) if n < rows.len() => rows.skip(n as int),
        Some(_) => Seq::empty(),
        None => rows,
    }
}

/// The first `n` rows.
pub open spec fn within_limit(rows: Seq<Seq<Seq<char>>>, n: Option<u64>) -> Seq<Seq<Seq<char>>> {
    match n {
        Some(n) if n < rows.len() => rows.take(n as int),
        _ => rows,
    }
}

/// The rows of a query cut to size: `DISTINCT`, then `OFFSET`, then `LIMIT`.
pub open spec fn cut_rows(rows: Seq<Seq<Seq<char>>>, q: Query) -> Seq<Seq<Seq<char>>> {
    let unique = if q.distinct {
        first_occurrences(rows)
    } else {
        rows
    };
    within_limit(after_offset(unique, q.offset), q.limit)
}

/// What a query for a single aggregate returns, if it is one.
pub open spec fn aggregate_answer(rows: Seq<Record>, c: Seq<Column>, selected: Seq<Seq<char>>) -> Option<
    Result<Answer, Seq<char>>,
> {
    if selected.len() != 1 {
        None
    } else {
        let u = upper(trim(selected[0]));
        if is_count(u) {
            Some(Ok(Answer { columns: seq!["count"@], rows: seq![seq![show_nat(rows.len())]] }))
        } else {
            match aggregate_of(u) {
                None => None,
                Some(f) => {
                    let name = lower(trim(aggregate_column(u)));
                    match find_column(c, Naming::Exact, name) {
                        None => Some(Err(no_column(name))),
                        Some(x) => Some(
                            Ok(
                                Answer {
                                    columns: seq![f.label()],
                                    rows: seq![
                                        seq![
                                            aggregate_text(
                                                f,
                                                x.data_type,
                                                numbers(rows, x.index as int),
                                            ),
                                        ],
                                    ],
                                },
                            ),
                        ),
                    }
                },
            }
        }
    }
}

/// What a query returns for the rows that meet its condition.
pub open spec fn answer(rows: Seq<Record>, c: Seq<Column>, q: Query) -> Result<Answer, Seq<char>> {
    match q.group_by {
        Some(g) => match grouped(rows, q.columns, g, q.having, c) {
            Err(e) => Err(e),
            Ok((columns, rows)) => Ok(Answer { columns, rows }),
        },
        None => match aggregate_answer(rows, c, q.columns) {
            Some(a) => a,
            None => match projection(c, q.columns) {
                Err(e) => Err(e),
                Ok(p) => match ordered(rows, c, q.order_by) {
                    Err(e) => Err(e),
                    Ok(sorted) => Ok(
                        Answer {
                            columns: p.names,
                            rows: cut_rows(projected_rows(sorted, p.places), q),
                        },
                    ),
                },
            },
        },
    }
}

/// What a query returns from a database.
pub open spec fn selected(db: Database, q: Query) -> Result<Answer, Seq<char>> {
    match source(db, q.table, q.join) {
        Err(e) => Err(e),
        Ok(s) => answer(matched(s.rows, q.condition, s.columns), s.columns, q),
    }
}

fn same_texts(a: &Vec<String>, b: &Vec<String>) -> (r: bool)
    ensures
        r == (string_texts(a@) == string_texts(b@)),
{
    let ghost (x, y) = (string_texts(a@), string_texts(b@));
    assert(x.len() == a@.len() && y.len() == b@.len());
    if a.len() != b.len() {
        return false;
    }
    let mut i: usize = 0;
    while i < a.len()
        invariant
            i <= a.len(),
            a.len() == b.len(),
            x == string_texts(a@),
            y == string_texts(b@),
            forall|j: int| 0 <= j < i ==> x[j] == y[j],
        decreases a.len() - i,
    {
        assert(x[i as int] == a@[i as int]@ && y[i as int] == b@[i as int]@);
        if !same_str(a[i].as_str(), b[i].as_str()) {
            return false;
        }
        i += 1;
    }
    assert(x =~= y);
    true
}

/// The rows without those that occur before.
fn distinct_rows(rows: Vec<Vec<String>>) -> (r: Vec<Vec<String>>)
    ensures
        text_rows(r@) == first_occurrences(text_rows(rows@)),
{
    let ghost all = text_rows(rows@);
    let mut r: Vec<Vec<String>> = Vec::new();
    let mut i: usize = 0;
    assert(all.take(0) =~= Seq::empty());
    assert(text_rows(r@) =~= Seq::empty());
    while i < rows.len()
        invariant
            i <= rows.len(),
            all == text_rows(rows@),
            text_rows(r@) == first_occurrences(all.take(i as int)),
        decreases rows.len() - i,
    {
        let ghost row = string_texts(rows@[i as int]@);
        proof {
            assert(all.take(i + 1).drop_last() =~= all.take(i as int));
            assert(all.take(i + 1).last() == row);
        }
        let mut j: usize = 0;
        while j < r.len() && !same_texts(&r[j], &rows[i])
            invariant
                i < rows.len(),
                j <= r.len(),
                row == string_texts(rows@[i as int]@),
                forall|k: int| 0 <= k < j ==> text_rows(r@)[k] != row,
            decreases r.len() - j,
        {
            assert(text_rows(r@)[j as int] == string_texts(r@[j as int]@));
            j += 1;
        }
        if j == r.len() {
            let ghost before = r@;
            let copy = super::group::copy_texts(&rows[i]);
            r.push(copy);
            proof {
                assert(!text_rows(before).contains(row));
                assert(text_rows(r@) =~= text_rows(before).push(row));
            }
        } else {
            assert(text_rows(r@)[j as int] == string_texts(r@[j as int]@));
            assert(text_rows(r@).contains(row));
        }
        i += 1;
    }
    assert(all.take(rows@.len() as int) =~= all);
    r
}

/// The rows from `from` to `to`.
fn row_range(rows: &Vec<Vec<String>>, from: usize, to: usize) -> (r: Vec<Vec<String>>)
    requires
        from <= to <= rows@.len(),
    ensures
        text_rows(r@) == text_rows(rows@).subrange(from as int, to as int),
{
    let ghost all = text_rows(rows@);
    let mut r: Vec<Vec<String>> = Vec::new();
    let mut i: usize = from;
    assert(text_rows(r@) =~= all.subrange(from as int, from as int));
    while i < to
        invariant
            from <= i <= to <= rows@.len(),
            all == text_rows(rows@),
            text_rows(r@) == all.subrange(from as int, i as int),
        decreases to - i,
    {
        let ghost before = r@;
        let copy = super::group::copy_texts(&rows[i]);
        r.push(copy);
        proof {
            assert(text_rows(r@) =~= text_rows(before).push(all[i as int]));
            assert(text_rows(r@) =~= all.subrange(from as int, i + 1));
        }
        i += 1;
    }
    r
}

fn cut_to_size(rows: Vec<Vec<String>>, distinct: bool, offset: Option<u64>, limit: Option<u64>) -> (r:
    Vec<Vec<String>>)
    ensures
        text_rows(r@) == within_limit(
            after_offset(
                if distinct {
                    first_occurrences(text_rows(rows@))
                } else {
                    text_rows(rows@)
                },
                offset,
            ),
            limit,
        ),
{
    let unique = if distinct {
        distinct_rows(rows)
    } else {
        rows
    };
    let ghost u = text_rows(unique@);
    let n: usize = unique.len();
    assert(u.len() == unique@.len());
    let from: usize = match offset {
        Some(o) => if o < n as u64 {
            o as usize
        } else {
            n
        },
        None => 0,
    };
    let left: usize = n - from;
    let to: usize = match limit {
        Some(l) => if l < left as u64 {
            from + l as usize
        } else {
            n
        },
        None => n,
    };
    proof {
        let a = after_offset(u, offset);
        assert(a =~= u.subrange(from as int, n as int));
        assert(within_limit(a, limit) =~= u.subrange(from as int, to as int));
    }
    row_range(&unique, from, to)
}

/// What a query returns, as texts.
pub struct QueryResult {
    pub columns: Vec<String>,
    pub rows: Vec<Vec<String>>,
}

impl View for QueryResult {
    type V = Answer;

    open spec fn view(&self) -> Answer {
        Answer { columns: string_texts(self.columns@), rows: text_rows(self.rows@) }
    }
}

/// A query's result or an error, by its view.
pub open spec fn answer_result(r: Result<QueryResult, String>) -> Result<Answer, Seq<char>> {
    match r {
        Ok(a) => Ok(a@),
        Err(e) => Err(e@),
    }
}

fn one_cell(column: String, value: String) -> (r: QueryResult)
    ensures
        r@ == (Answer { columns: seq![column@], rows: seq![seq![value@]] }),
{
    let mut columns: Vec<String> = Vec::new();
    columns.push(column);
    let mut row: Vec<String> = Vec::new();
    row.push(value);
    let mut rows: Vec<Vec<String>> = Vec::new();
    rows.push(row);
    proof {
        assert(string_texts(columns@) =~= seq![column@]);
        assert(string_texts(row@) =~= seq![value@]);
        assert(text_rows(rows@) =~= seq![seq![value@]]);
    }
    QueryResult { columns, rows }
}

fn single_aggregate(rows: &Vec<Row>, columns: &Vec<ColumnInfo>, selected: &Vec<String>) -> (r:
    Option<Result<QueryResult, String>>)
    ensures
        match r {
            None => aggregate_answer(
                rows_view(rows@),
                columns_view(columns@),
                string_texts(selected@),
            ) is None,
            Some(a) => aggregate_answer(
                rows_view(rows@),
                columns_view(columns@),
                string_texts(selected@),
            ) == Some(answer_result(a)),
        },
{
    assert(string_texts(selected@).len() == selected@.len());
    if selected.len() != 1 {
        return None;
    }
    assert(string_texts(selected@)[0] == selected@[0]@);
    let u = to_upper(&trimmed(&chars_of(selected[0].as_str())));
    if counts(&u) {
        let mut out: Vec<char> = Vec::new();
        push_u64(&mut out, rows.len() as u64);
        assert(rows_view(rows@).len() == rows@.len());
        assert(out@ =~= show_nat(rows@.len()));
        return Some(Ok(one_cell("count".to_owned(), string_of(&out))));
    }
    match parse_aggregate(&u) {
        None => None,
        Some(f) => {
            let name = to_lower(&trimmed(&extract_agg_column(&u)));
            let i: usize = position_of_column(columns, Naming::Exact, &name);
            if i == columns.len() {
                return Some(Err(join3("列 '", string_of(&name).as_str(), "' 不存在")));
            }
            assert(columns_view(columns@)[i as int] == columns@[i as int]@);
            let text = show_aggregate(
                f,
                columns[i].data_type,
                &numbers_in(rows, columns[i].index),
            );
            Some(Ok(one_cell(f.name().to_owned(), string_of(&text))))
        },
    }
}

/// Answers a query from the tables of an engine.
pub fn run_select(
    engine: &StorageEngine,
    table: &str,
    columns: &Vec<String>,
    condition: &Option<String>,
    order_by: &Option<String>,
    group_by: &Option<String>,
    having: &Option<String>,
    limit: Option<u64>,
    offset: Option<u64>,
    distinct: bool,
    join: &Option<JoinClause>,
) -> (r: Result<QueryResult, String>)
    ensures
        answer_result(r) == selected(
            engine@,
            Query {
                table: table@,
                columns: string_texts(columns@),
                condition: opt_text(*condition),
                order_by: opt_text(*order_by),
                group_by: opt_text(*group_by),
                having: opt_text(*having),
                limit,
                offset,
                distinct,
                join: crate::sql::statement::opt_join(*join),
            },
        ),
{
    let input = match read_source(engine, table, join) {
        Ok(i) => i,
        Err(e) => {
            return Err(e);
        },
    };
    let rows = match condition {
        Some(c) => filter_rows(&input.rows, c.as_str(), &input.columns),
        None => input.rows,
    };
    let schema = input.columns;
    match group_by {
        Some(g) => {
            return match execute_group_by(&rows, columns, g.as_str(), having, &schema) {
                Ok((columns, rows)) => Ok(QueryResult { columns, rows }),
                Err(e) => Err(e),
            };
        },
        None => {},
    }
    match single_aggregate(&rows, &schema, columns) {
        Some(a) => {
            return a;
        },
        None => {},
    }
    let (names, places) = match parse_projection(&schema, columns) {
        Ok(p) => p,
        Err(e) => {
            return Err(e);
        },
    };
    let sorted = match sort_rows(&rows, &schema, order_by) {
        Ok(v) => v,
        Err(e) => {
            return Err(e);
        },
    };
    let shown_rows = project_rows(&sorted, &places);
    Ok(QueryResult { columns: names, rows: cut_to_size(shown_rows, distinct, offset, limit) })
}

fn project_rows(rows: &Vec<Row>, places: &Vec<usize>) -> (r: Vec<Vec<String>>)
    ensures
        text_rows(r@) == projected_rows(rows_view(rows@), place_ints(places@)),
{
    let ghost all = rows_view(rows@);
    let ghost p = place_ints(places@);
    let mut r: Vec<Vec<String>> = Vec::new();
    let mut i: usize = 0;
    assert(text_rows(r@) =~= projected_rows(all.take(0), p));
    while i < rows.len()
        invariant
            i <= rows.len(),
            all == rows_view(rows@),
            p == place_ints(places@),
            text_rows(r@) == projected_rows(all.take(i as int), p),
        decreases rows.len() - i,
    {
        let row = project_row(&rows[i], places);
        let ghost before = r@;
        r.push(row);
        proof {
            assert(text_rows(r@) =~= text_rows(before).push(string_texts(row@)));
            assert(projected_rows(all.take(i + 1), p) =~= projected_rows(
                all.take(i as int),
                p,
            ).push(projected(rows@[i as int]@, p)));
        }
        i += 1;
    }
    assert(all.take(rows@.len() as int) =~= all);
    r
}

} // verus!
