//! What queries answer.

use vstd::prelude::*;

use crate::executor::aggregate::aggregate_column;
use crate::executor::aggregate::aggregate_of;
use crate::executor::aggregate::aggregate_text;
use crate::executor::aggregate::is_count;
use crate::executor::aggregate::numbers;
use crate::executor::aggregate::AggFunc;
use crate::executor::clauses::is_name;
use crate::executor::clauses::is_name_char;
use crate::executor::clauses::law_order_clause;
use crate::executor::clauses::lemma_ascii_concat;
use crate::executor::clauses::lemma_name;
use crate::executor::column::column_index;
use crate::executor::column::find_column;
use crate::executor::column::is_bare;
use crate::executor::column::last_part;
use crate::executor::column::names;
use crate::executor::column::resolve;
use crate::executor::column::Naming;
use crate::executor::group::cell;
use crate::executor::group::first_occurrences;
use crate::executor::group::group_row;
use crate::executor::group::group_rows;
use crate::executor::group::grouped_rows;
use crate::executor::group::having_any;
use crate::executor::group::having_rows;
use crate::executor::group::item_text;
use crate::executor::group::row_key;
use crate::executor::group::row_keys;
use crate::executor::group::Item;
use crate::executor::laws::law_groups;
use crate::executor::order::comparable;
use crate::executor::order::in_order;
use crate::executor::order::law_sort_direction;
use crate::executor::select::aggregate_answer;
use crate::executor::select::joined_columns;
use crate::executor::select::order_call;
use crate::executor::select::order_keys;
use crate::executor::select::ordered;
use crate::executor::select::projected;
use crate::executor::select::projection;
use crate::executor::select::rows_at;
use crate::executor::select::Answer;
use crate::executor::select::Projection;
use crate::executor::sort::goes_ahead;
use crate::executor::sort::law_one_type_consistent;
use crate::executor::sort::law_sorted;
use crate::executor::sort::of_one_type;
use crate::executor::sort::sorted_places;
use crate::number::show_nat;
use crate::storage::schema::Column;
use crate::storage::schema::Record;
use crate::text::byte_len;
use crate::text::ends_with;
use crate::text::index_of;
use crate::text::is_ascii_text;
use crate::text::join;
use crate::text::lemma_index_of;
use crate::text::lemma_index_of_is;
use crate::text::lemma_split_join;
use crate::text::lower;
use crate::text::rfind;
use crate::text::starts_with;
use crate::text::take_bytes;
use crate::text::trim;
use crate::text::upper;
use crate::texts::law_case;
use crate::texts::law_find_last;
use crate::texts::law_same_case;
use crate::texts::law_trim_none;
use crate::texts::same_but_case;
use crate::texts::stands_at;
use crate::types::shown;
use crate::types::DataType;
use crate::types::Datum;

verus! {

// ---------------------------------------------------------------------------
// Names of columns
// ---------------------------------------------------------------------------

/// The last part of a name is what stands behind its last dot.
pub proof fn law_last_part(a: Seq<char>, b: Seq<char>)
    requires
        !b.contains('.'),
    ensures
        last_part(b) == b,
        last_part(a + seq!['.'] + b) == b,
    decreases a.len(),
{
    lemma_index_of(b, '.');
    let i = index_of(b, '.');
    if i < b.len() {
        assert(b.contains(b[i]));
    }
    let s = a + seq!['.'] + b;
    lemma_index_of(s, '.');
    assert(s[a.len() as int] == '.');
    let k = index_of(s, '.');
    if k < a.len() {
        let rest = a.skip(k + 1);
        assert(s.skip(k + 1) =~= rest + seq!['.'] + b);
        law_last_part(rest, b);
    } else {
        assert(k == a.len());
        assert(s.skip(k + 1) =~= b);
    }
}

/// No two columns have one name.
pub open spec fn distinct_columns(c: Seq<Column>) -> bool {
    forall|i: int, j: int|
        0 <= i < j < c.len() ==> (#[trigger] c[i]).name != (#[trigger] c[j]).name
}

proof fn lemma_first_column(c: Seq<Column>, how: Naming, name: Seq<char>)
    ensures
        ({
            let i = column_index(c, how, name);
            &&& 0 <= i <= c.len()
            &&& i < c.len() ==> names(how, c[i].name, name)
            &&& forall|j: int| 0 <= j < i ==> !names(how, (#[trigger] c[j]).name, name)
        }),
    decreases c.len(),
{
    if c.len() > 0 && !names(how, c[0].name, name) {
        let d = c.skip(1);
        lemma_first_column(d, how, name);
        let i = column_index(c, how, name);
        assert forall|j: int| 0 <= j < i implies !names(how, (#[trigger] c[j]).name, name) by {
            if j > 0 {
                assert(c[j] == d[j - 1]);
            }
        }
    }
}

/// A column is found by its name, and none by a name that no column has.
pub proof fn law_exact_column(c: Seq<Column>, name: Seq<char>)
    ensures
        find_column(c, Naming::Exact, name) is Some ==> c.contains(
            find_column(c, Naming::Exact, name)->0,
        ) && find_column(c, Naming::Exact, name)->0.name == name,
        find_column(c, Naming::Exact, name) is None <==> forall|i: int|
            0 <= i < c.len() ==> (#[trigger] c[i]).name != name,
        distinct_columns(c) ==> forall|i: int|
            0 <= i < c.len() && (#[trigger] c[i]).name == name ==> find_column(
                c,
                Naming::Exact,
                name,
            ) == Some(c[i]),
{
    lemma_first_column(c, Naming::Exact, name);
    let k = column_index(c, Naming::Exact, name);
    if distinct_columns(c) {
        assert forall|i: int| 0 <= i < c.len() && (#[trigger] c[i]).name == name implies find_column(
            c,
            Naming::Exact,
            name,
        ) == Some(c[i]) by {
            assert(names(Naming::Exact, c[i].name, name));
            assert(k <= i);
            if k < i {
                assert(c[k].name != c[i].name);
            }
        }
    }
}

/// A column goes under a name: it has the name, or has it behind a dot.
pub open spec fn goes_under(column: Seq<char>, name: Seq<char>) -> bool {
    column == name || exists|q: Seq<char>| column == #[trigger] (q + seq!['.'] + name)
}

proof fn lemma_bare(column: Seq<char>, name: Seq<char>)
    requires
        !name.contains('.'),
    ensures
        is_bare(column, name) <==> goes_under(column, name),
{
    let e = Seq::<char>::empty();
    law_last_part(e, name);
    let d = seq!['.'] + name;
    if is_bare(column, name) && column != name {
        let k = column.len() - d.len();
        assert(column.subrange(k, k + d.len()) == d);
        let q = column.take(k);
        assert(column =~= q + seq!['.'] + name) by {
            assert forall|j: int| k <= j < column.len() implies column[j] == d[j - k] by {
                assert(column.subrange(k, k + d.len())[j - k] == column[j]);
            }
        }
    }
    if exists|q: Seq<char>| column == #[trigger] (q + seq!['.'] + name) {
        let q = choose|q: Seq<char>| column == #[trigger] (q + seq!['.'] + name);
        law_last_part(q, name);
        let k = column.len() - d.len();
        assert(column.subrange(k, k + d.len()) =~= d);
    }
}

/// A name without a dot stands for the column with that name, and where there is none for
/// the first that has it behind a dot. A name with a qualifier, where no column has it in
/// full, stands for what its last part stands for among such columns.
pub proof fn law_resolve(c: Seq<Column>, q: Seq<char>, name: Seq<char>)
    requires
        !name.contains('.'),
    ensures
        resolve(c, name) is None <==> forall|i: int|
            0 <= i < c.len() ==> !goes_under((#[trigger] c[i]).name, name),
        resolve(c, name) is Some ==> c.contains(resolve(c, name)->0) && goes_under(
            resolve(c, name)->0.name,
            name,
        ),
        (exists|i: int| 0 <= i < c.len() && (#[trigger] c[i]).name == name) ==> resolve(c, name)
            is Some && resolve(c, name)->0.name == name,
        (exists|i: int| 0 <= i < c.len() && (#[trigger] c[i]).name == q + seq!['.'] + name)
            ==> resolve(c, q + seq!['.'] + name) is Some && resolve(
            c,
            q + seq!['.'] + name,
        )->0.name == q + seq!['.'] + name,
        (forall|i: int| 0 <= i < c.len() ==> (#[trigger] c[i]).name != q + seq!['.'] + name)
            ==> resolve(c, q + seq!['.'] + name) == find_column(c, Naming::Bare, name),
        distinct_columns(c) ==> forall|i: int|
            0 <= i < c.len() && (#[trigger] c[i]).name == name ==> resolve(c, name) == Some(c[i]),
{
    let full = q + seq!['.'] + name;
    law_exact_column(c, name);
    law_exact_column(c, full);
    lemma_first_column(c, Naming::Bare, name);
    law_last_part(q, name);
    assert forall|i: int| 0 <= i < c.len() implies (names(Naming::Bare, (#[trigger] c[i]).name, name)
        == goes_under(c[i].name, name)) by {
        lemma_bare(c[i].name, name);
    }
    lemma_same_bare(c, full, name);
}

proof fn lemma_same_bare(c: Seq<Column>, a: Seq<char>, b: Seq<char>)
    requires
        last_part(a) == last_part(b),
    ensures
        column_index(c, Naming::Bare, a) == column_index(c, Naming::Bare, b),
    decreases c.len(),
{
    if c.len() > 0 {
        lemma_same_bare(c.skip(1), a, b);
    }
}

/// The columns of a join are those of the left table, and behind them those of the right one
/// under its name; each stands where its place says.
pub proof fn law_joined_columns(left: Seq<Column>, table: Seq<char>, right: Seq<Column>)
    requires
        left.len() + right.len() <= usize::MAX,
    ensures
        joined_columns(left, table, right).len() == left.len() + right.len(),
        forall|i: int|
            0 <= i < left.len() ==> #[trigger] joined_columns(left, table, right)[i] == left[i],
        forall|i: int|
            left.len() <= i < left.len() + right.len() ==> ({
                let x = #[trigger] joined_columns(left, table, right)[i];
                &&& x.name == table + seq!['.'] + right[i - left.len()].name
                &&& x.data_type == right[i - left.len()].data_type
                &&& x.index == i
            }),
    decreases right.len(),
{
    reveal_strlit(".");
    assert("."@ =~= seq!['.']);
    if right.len() > 0 {
        law_joined_columns(left, table, right.drop_last());
    }
}

// ---------------------------------------------------------------------------
// Selecting columns
// ---------------------------------------------------------------------------

/// Names select the columns that have them, in the order of the names.
pub proof fn law_projection(c: Seq<Column>, s: Seq<Seq<char>>, f: Seq<int>)
    requires
        distinct_columns(c),
        f.len() == s.len(),
        forall|k: int|
            0 <= k < s.len() ==> is_name(#[trigger] s[k]) && 0 <= f[k] < c.len() && c[f[k]].name
                == s[k],
    ensures
        projection(c, s) == Ok::<Projection, Seq<char>>(
            Projection { names: s, places: f.map_values(|i: int| c[i].index as int) },
        ),
    decreases s.len(),
{
    let places = f.map_values(|i: int| c[i].index as int);
    if s.len() == 0 {
        assert(s =~= Seq::empty());
        assert(places =~= Seq::empty());
    } else {
        let (t, g) = (s.drop_last(), f.drop_last());
        assert forall|k: int| 0 <= k < t.len() implies is_name(#[trigger] t[k]) && 0 <= g[k]
            < c.len() && c[g[k]].name == t[k] by {
            assert(t[k] == s[k]);
        }
        law_projection(c, t, g);
        let n = s.len() - 1;
        let name = s[n];
        assert(is_name(s[n]));
        lemma_name(name);
        reveal_strlit("*");
        assert(name != "*"@) by {
            assert(is_name_char(name[0]));
        }
        assert(!name.contains('.')) by {
            if name.contains('.') {
                let i = choose|i: int| 0 <= i < name.len() && name[i] == '.';
                assert(is_name_char(name[i]));
            }
        }
        law_resolve(c, name, name);
        assert(resolve(c, name) == Some(c[f[n]]));
        assert(t.push(name) =~= s);
        assert(g.map_values(|i: int| c[i].index as int).push(c[f[n]].index as int) =~= places);
    }
}

/// A selected row shows its values at the places that are selected.
pub proof fn law_projected(r: Record, places: Seq<int>)
    requires
        forall|k: int| 0 <= k < places.len() ==> 0 <= #[trigger] places[k] < r.values.len(),
    ensures
        projected(r, places).len() == places.len(),
        forall|k: int|
            0 <= k < places.len() ==> #[trigger] projected(r, places)[k] == shown(
                r.values[places[k]],
            ),
{
}

/// A name alone is no aggregate.
pub proof fn law_name_is_column(rows: Seq<Record>, c: Seq<Column>, name: Seq<char>)
    requires
        is_name(name),
    ensures
        aggregate_answer(rows, c, seq![name]) is None,
{
    reveal_strlit(")");
    reveal_strlit("COUNT(*)");
    reveal_strlit("COUNT (*)");
    lemma_name(name);
    let u = upper(name);
    lemma_name(u);
    assert(!is_count(u)) by {
        if u == "COUNT(*)"@ {
            assert(u[5] == '(');
            assert(is_name_char(u[5]));
        }
        if u == "COUNT (*)"@ {
            assert(u[6] == '(');
            assert(is_name_char(u[6]));
        }
    }
    assert(!ends_with(u, ")"@)) by {
        if ends_with(u, ")"@) {
            assert(u.subrange(u.len() - 1, u.len() as int)[0] == u[u.len() - 1]);
            assert(is_name_char(u[u.len() - 1]));
        }
    }
}

/// `COUNT(*)`, whatever the case of its letters, counts the rows.
pub proof fn law_count(rows: Seq<Record>, c: Seq<Column>, s: Seq<char>)
    requires
        same_but_case(s, "COUNT(*)"@) || same_but_case(s, "COUNT (*)"@),
    ensures
        aggregate_answer(rows, c, seq![s]) == Some(
            Ok::<Answer, Seq<char>>(
                Answer { columns: seq!["count"@], rows: seq![seq![show_nat(rows.len())]] },
            ),
        ),
{
    reveal_strlit("COUNT(*)");
    reveal_strlit("COUNT (*)");
    let w = if same_but_case(s, "COUNT(*)"@) {
        "COUNT(*)"@
    } else {
        "COUNT (*)"@
    };
    law_same_case(s, w);
    law_case(w);
    assert(upper(w) =~= w) by {
        assert forall|i: int| 0 <= i < w.len() implies upper(w)[i] == w[i] by {
            assert(upper(w)[i] as u32 == w[i] as u32);
        }
    }
    assert(s[0] == s[0]);
    assert(s[s.len() - 1] == s[s.len() - 1]);
    law_trim_none(s);
}

/// The name of an aggregate function.
pub open spec fn function_name(f: AggFunc) -> Seq<char> {
    match f {
        AggFunc::Sum => seq!['S', 'U', 'M'],
        AggFunc::Avg => seq!['A', 'V', 'G'],
        AggFunc::Min => seq!['M', 'I', 'N'],
        AggFunc::Max => seq!['M', 'A', 'X'],
    }
}

/// A call of an aggregate function on a column.
pub open spec fn call_of(word: Seq<char>, name: Seq<char>) -> Seq<char> {
    word + seq!['('] + name + seq![')']
}

pub proof fn lemma_call(f: AggFunc, word: Seq<char>, name: Seq<char>)
    requires
        same_but_case(word, function_name(f)),
        is_name(name),
    ensures
        ({
            let s = call_of(word, name);
            &&& trim(s) == s
            &&& is_ascii_text(s)
            &&& !is_count(upper(s))
            &&& aggregate_of(upper(s)) == Some(f)
            &&& trim(aggregate_column(upper(s))) == upper(name)
            &&& lower(upper(name)) == lower(name)
        }),
{
    reveal_strlit("SUM(");
    reveal_strlit("AVG(");
    reveal_strlit("MIN(");
    reveal_strlit("MAX(");
    reveal_strlit(")");
    reveal_strlit("COUNT(*)");
    reveal_strlit("COUNT (*)");
    let s = call_of(word, name);
    let w = function_name(f);
    let (a, b) = (seq!['('], seq![')']);
    lemma_name(name);
    law_case(name);
    let big = upper(name);
    lemma_name(big);
    law_same_case(word, w);
    law_case(w);
    assert(upper(w) =~= w) by {
        assert forall|i: int| 0 <= i < w.len() implies upper(w)[i] == w[i] by {
            assert(upper(w)[i] as u32 == w[i] as u32);
        }
    }
    assert(is_ascii_text(a) && is_ascii_text(b));
    assert(upper(a) =~= a && upper(b) =~= b);
    lemma_ascii_concat(word, a);
    lemma_ascii_concat(word + a, name);
    lemma_ascii_concat(word + a + name, b);
    let u = upper(s);
    assert(u == w + a + big + b);
    assert(word[0] == word[0]);
    assert(s[0] == word[0]);
    assert(s.last() == ')');
    assert(!crate::text::is_space(s[0]));
    law_trim_none(s);
    assert(u[0] == w[0]);
    assert(u.last() == ')');
    law_trim_none(u);
    law_case(u);
    assert(is_ascii_text(u));
    assert(upper(u) == u) by {
        law_case(s);
        assert forall|i: int| 0 <= i < s.len() implies #[trigger] upper(u)[i] == u[i] by {
            assert(upper(u)[i] as u32 == upper(s)[i] as u32) by {
                assert(upper(s)[i] as u32 == u[i] as u32);
            }
        }
        assert(upper(u) =~= u);
    }
    assert(u.subrange(u.len() - 1, u.len() as int) =~= ")"@);
    assert(ends_with(u, ")"@));
    lemma_function(f, big + b);
    assert(u =~= w + a + (big + b));
    assert(!is_count(u)) by {
        assert(u[3] == '(');
    }
    lemma_inner(w, big);
    assert(u =~= call_of(w, big));
}

/// The beginning of a call tells the function.
proof fn lemma_function(f: AggFunc, rest: Seq<char>)
    ensures
        ({
            let u = function_name(f) + seq!['('] + rest;
            &&& starts_with(u, "SUM("@) == (f == AggFunc::Sum)
            &&& starts_with(u, "AVG("@) == (f == AggFunc::Avg)
            &&& starts_with(u, "MIN("@) == (f == AggFunc::Min)
            &&& starts_with(u, "MAX("@) == (f == AggFunc::Max)
        }),
{
    reveal_strlit("SUM(");
    reveal_strlit("AVG(");
    reveal_strlit("MIN(");
    reveal_strlit("MAX(");
    let w = function_name(f);
    let u = w + seq!['('] + rest;
    let p = u.subrange(0, 4);
    assert(p[0] == w[0] && p[1] == w[1] && p[2] == w[2] && p[3] == '(');
    match f {
        AggFunc::Sum => {
            assert(p =~= "SUM("@);
        },
        AggFunc::Avg => {
            assert(p =~= "AVG("@);
        },
        AggFunc::Min => {
            assert(p =~= "MIN("@);
        },
        AggFunc::Max => {
            assert(p =~= "MAX("@);
        },
    }
    assert("SUM("@[0] == 'S');
    assert("AVG("@[0] == 'A');
    assert("MIN("@[1] == 'I');
    assert("MAX("@[1] == 'A');
    assert("MIN("@[0] == 'M');
    assert("MAX("@[0] == 'M');
}

proof fn lemma_inner(w: Seq<char>, name: Seq<char>)
    requires
        is_name(name),
        w.len() == 3,
        forall|i: int| 0 <= i < 3 ==> w[i] != '(',
        trim(call_of(w, name)) == call_of(w, name),
    ensures
        trim(aggregate_column(call_of(w, name))) == name,
{
    reveal_strlit(")");
    let s = call_of(w, name);
    let e = s.len() - 1;
    lemma_index_of_is(s, '(', 3);
    law_find_last(s, ")"@);
    assert(s.subrange(e, e + 1) =~= ")"@);
    assert(stands_at(s, ")"@, e));
    let k = rfind(s, ")"@)->0;
    assert(stands_at(s, ")"@, k));
    assert(k == e);
    assert(s.subrange(4, e) =~= name);
    lemma_name(name);
}

/// An aggregate function of a column, whatever the case of its letters, gives the aggregate
/// of the column's numbers, in one row under the function's name.
pub proof fn law_aggregate_query(
    rows: Seq<Record>,
    c: Seq<Column>,
    f: AggFunc,
    word: Seq<char>,
    i: int,
)
    requires
        same_but_case(word, function_name(f)),
        distinct_columns(c),
        0 <= i < c.len(),
        is_name(c[i].name),
        lower(c[i].name) == c[i].name,
    ensures
        aggregate_answer(rows, c, seq![call_of(word, c[i].name)]) == Some(
            Ok::<Answer, Seq<char>>(
                Answer {
                    columns: seq![lower(function_name(f))],
                    rows: seq![
                        seq![aggregate_text(f, c[i].data_type, numbers(rows, c[i].index as int))],
                    ],
                },
            ),
        ),
{
    reveal_strlit("sum");
    reveal_strlit("avg");
    reveal_strlit("min");
    reveal_strlit("max");
    lemma_call(f, word, c[i].name);
    law_exact_column(c, c[i].name);
    let w = function_name(f);
    assert(is_ascii_text(w));
    law_case(w);
    assert(lower(w) =~= f.label()) by {
        assert(f.label().len() == 3);
        assert forall|k: int| 0 <= k < 3 implies lower(w)[k] == f.label()[k] by {
            assert(lower(w)[k] as u32 == f.label()[k] as u32);
        }
    }
}

// ---------------------------------------------------------------------------
// ORDER BY
// ---------------------------------------------------------------------------

/// The values of rows in a column.
pub open spec fn values_of(rows: Seq<Record>, index: int) -> Seq<Option<Datum>> {
    rows.map_values(
        |r: Record|
            if 0 <= index < r.values.len() {
                Some(r.values[index])
            } else {
                None
            },
    )
}

proof fn lemma_no_order_call(name: Seq<char>, rest: Seq<char>)
    requires
        is_name(name),
        rest.len() == 0 || (rest.len() >= 4 && rest[0] == ' ' && forall|i: int|
            1 <= i < rest.len() ==> is_name_char(#[trigger] rest[i])),
    ensures
        order_call(name + rest) is None,
{
    reveal_strlit(" DESC");
    reveal_strlit(" ASC");
    reveal_strlit("VECTOR_SIMILARITY(");
    let s = name + rest;
    assert forall|i: int| 0 <= i < s.len() implies s[i] == ' ' || is_name_char(#[trigger] s[i]) by {
        if i < name.len() {
            assert(is_name_char(name[i]));
            assert(s[i] == name[i]);
        } else if i > name.len() {
            assert(is_name_char(rest[i - name.len()]));
            assert(s[i] == rest[i - name.len()]);
        }
    }
    assert(is_name_char(name[0]));
    assert(s[0] == name[0]);
    assert(s[s.len() - 1] == ' ' || is_name_char(s[s.len() - 1]));
    if rest.len() == 0 {
        assert(s.last() == name[name.len() - 1]);
        assert(is_name_char(name[name.len() - 1]));
    } else {
        assert(s.last() == rest[rest.len() - 1]);
    }
    law_trim_none(s);
    lemma_no_call_in(s);
    lemma_no_call_in(take_bytes(s, byte_len(s) - 5));
    lemma_no_call_in(take_bytes(s, byte_len(s) - 4));
    crate::text::lemma_chars_within(s, byte_len(s) - 5);
    crate::text::lemma_chars_within(s, byte_len(s) - 4);
}

/// Without a parenthesis there is no call.
proof fn lemma_no_call_in(s: Seq<char>)
    ensures
        (forall|i: int| 0 <= i < s.len() ==> s[i] == ' ' || is_name_char(#[trigger] s[i]))
            ==> crate::executor::condition::similarity_call(s) is None,
{
    if forall|i: int| 0 <= i < s.len() ==> s[i] == ' ' || is_name_char(#[trigger] s[i]) {
        let t = trim(s);
        lemma_trim_within(s);
        lemma_index_of(t, '(');
        let k = index_of(t, '(');
        if k < t.len() {
            assert(s.contains(t[k]));
            let j = choose|j: int| 0 <= j < s.len() && s[j] == t[k];
            assert(s[j] == ' ' || is_name_char(s[j]));
        }
    }
}

/// Trimming leaves characters of the text.
proof fn lemma_trim_within(s: Seq<char>)
    ensures
        forall|i: int| 0 <= i < trim(s).len() ==> s.contains(#[trigger] trim(s)[i]),
{
    let t = crate::text::trim_start_kind(s, crate::text::CharKind::Space);
    lemma_trim_start_within(s, crate::text::CharKind::Space);
    lemma_trim_end_within(t, crate::text::CharKind::Space);
    assert forall|i: int| 0 <= i < trim(s).len() implies s.contains(#[trigger] trim(s)[i]) by {
        assert(t.contains(trim(s)[i]));
        let j = choose|j: int| 0 <= j < t.len() && t[j] == trim(s)[i];
        assert(s.contains(t[j]));
    }
}

proof fn lemma_trim_start_within(s: Seq<char>, k: crate::text::CharKind)
    ensures
        forall|i: int|
            0 <= i < crate::text::trim_start_kind(s, k).len() ==> s.contains(
                #[trigger] crate::text::trim_start_kind(s, k)[i],
            ),
    decreases s.len(),
{
    let t = crate::text::trim_start_kind(s, k);
    if s.len() > 0 && k.holds(s[0]) {
        let u = s.skip(1);
        lemma_trim_start_within(u, k);
        let w = crate::text::trim_start_kind(u, k);
        assert(t == w);
        assert forall|i: int| 0 <= i < t.len() implies s.contains(#[trigger] t[i]) by {
            assert(u.contains(w[i]));
            let j = choose|j: int| 0 <= j < u.len() && u[j] == t[i];
            assert(s[j + 1] == t[i]);
        }
    }
}

proof fn lemma_trim_end_within(s: Seq<char>, k: crate::text::CharKind)
    ensures
        forall|i: int|
            0 <= i < crate::text::trim_end_kind(s, k).len() ==> s.contains(
                #[trigger] crate::text::trim_end_kind(s, k)[i],
            ),
    decreases s.len(),
{
    let t = crate::text::trim_end_kind(s, k);
    if s.len() > 0 && k.holds(s.last()) {
        let u = s.drop_last();
        lemma_trim_end_within(u, k);
        let w = crate::text::trim_end_kind(u, k);
        assert(t == w);
        assert forall|i: int| 0 <= i < t.len() implies s.contains(#[trigger] t[i]) by {
            assert(u.contains(w[i]));
            let j = choose|j: int| 0 <= j < u.len() && u[j] == t[i];
            assert(s[j] == t[i]);
        }
    }
}

/// The rows `sorted` are the rows `rows` at the places `p`, each of them once.
pub open spec fn rearranged(rows: Seq<Record>, sorted: Seq<Record>, p: Seq<nat>) -> bool {
    &&& p.len() == rows.len()
    &&& sorted.len() == rows.len()
    &&& p.no_duplicates()
    &&& forall|k: int|
        0 <= k < p.len() ==> #[trigger] p[k] < rows.len() && sorted[k] == rows[p[k] as int]
}

/// Rows with the values of a column upwards or downwards; rows with equal values stay in
/// the order of their places.
pub open spec fn in_sequence(
    sorted: Seq<Record>,
    p: Seq<nat>,
    index: int,
    descending: bool,
) -> bool {
    forall|i: int, j: int|
        0 <= i < j < sorted.len() ==> ({
            let a = (#[trigger] sorted[i]).values[index];
            let b = (#[trigger] sorted[j]).values[index];
            &&& !descending ==> !in_order(b, a)
            &&& descending ==> !in_order(a, b)
            &&& in_order(a, b) || in_order(b, a) || p[i] < p[j]
        })
}

/// The rows `sorted` are the rows `rows`, each once, by the values of a column.
pub open spec fn is_sorted_by(
    rows: Seq<Record>,
    sorted: Seq<Record>,
    index: int,
    descending: bool,
) -> bool {
    exists|p: Seq<nat>|
        #[trigger] rearranged(rows, sorted, p) && in_sequence(sorted, p, index, descending)
}

/// A column with a direction behind it, if there is one.
pub open spec fn order_text(name: Seq<char>, word: Seq<char>) -> Seq<char> {
    if word.len() == 0 {
        name
    } else {
        name + seq![' '] + word
    }
}

/// `ORDER BY` a column, with or without a direction behind it, gives all rows, each once,
/// by the values of the column: the least first, or with `DESC` the greatest.
pub proof fn law_order_by(
    rows: Seq<Record>,
    c: Seq<Column>,
    i: int,
    word: Seq<char>,
    descending: bool,
)
    requires
        distinct_columns(c),
        0 <= i < c.len(),
        is_name(c[i].name),
        forall|k: int| 0 <= k < c.len() ==> !(#[trigger] c[k]).name.contains('.'),
        if descending {
            same_but_case(word, "DESC"@)
        } else {
            word.len() == 0 || same_but_case(word, "ASC"@)
        },
        forall|k: int|
            0 <= k < rows.len() ==> c[i].index < (#[trigger] rows[k]).values.len(),
        of_one_type(values_of(rows, c[i].index as int)),
        forall|k: int, l: int|
            0 <= k < rows.len() && 0 <= l < rows.len() ==> comparable(
                (#[trigger] rows[k]).values[c[i].index as int],
                (#[trigger] rows[l]).values[c[i].index as int],
            ),
    ensures
        ordered(rows, c, Some(order_text(c[i].name, word))) is Ok,
        is_sorted_by(
            rows,
            ordered(rows, c, Some(order_text(c[i].name, word)))->Ok_0,
            c[i].index as int,
            descending,
        ),
{
    reveal_strlit("ASC");
    reveal_strlit("DESC");
    let name = c[i].name;
    let o = order_text(name, word);
    let index = c[i].index as int;
    lemma_direction_word(name, word, descending);
    let keys = values_of(rows, index);
    assert(order_keys(rows, c, None, index) =~= keys);
    lemma_either(c, i);
    let p = sorted_places(keys, descending);
    let sorted = rows_at(rows, p);
    law_one_type_consistent(keys, descending);
    law_sorted(keys, descending);
    assert forall|k: int| 0 <= k < p.len() implies #[trigger] p[k] < rows.len() && sorted[k]
        == rows[p[k] as int] by {
        assert(p[k] < keys.len());
    }
    assert(rearranged(rows, sorted, p));
    assert forall|x: int, y: int| 0 <= x < y < sorted.len() implies ({
        let a = (#[trigger] sorted[x]).values[index];
        let b = (#[trigger] sorted[y]).values[index];
        &&& !descending ==> !in_order(b, a)
        &&& descending ==> !in_order(a, b)
        &&& in_order(a, b) || in_order(b, a) || p[x] < p[y]
    }) by {
        let (k, l) = (p[x] as int, p[y] as int);
        assert(p[x] < rows.len() && p[y] < rows.len());
        assert(goes_ahead(keys, descending, p[x], p[y]));
        let (a, b) = (rows[k].values[index], rows[l].values[index]);
        assert(comparable(rows[k].values[index], rows[l].values[index]));
        assert(comparable(rows[l].values[index], rows[k].values[index]));
        assert(keys[k] == Some(a) && keys[l] == Some(b));
        law_sort_direction(a, b);
        law_sort_direction(b, a);
    }
    assert(in_sequence(sorted, p, index, descending));
    assert(ordered(rows, c, Some(o)) == Ok::<Seq<Record>, Seq<char>>(sorted));
    assert(is_sorted_by(rows, sorted, index, descending));
}

proof fn lemma_direction_word(name: Seq<char>, word: Seq<char>, descending: bool)
    requires
        is_name(name),
        if descending {
            same_but_case(word, "DESC"@)
        } else {
            word.len() == 0 || same_but_case(word, "ASC"@)
        },
    ensures
        crate::executor::select::order_of(order_text(name, word)) == (name, descending),
        order_call(order_text(name, word)) is None,
{
    reveal_strlit("ASC");
    reveal_strlit("DESC");
    let (a, d) = ("ASC"@, "DESC"@);
    assert(same_but_case(a, a));
    assert(same_but_case(d, d));
    if word.len() == 0 {
        law_order_clause(name, a, d);
        lemma_no_order_call(name, word);
        assert(name + word =~= name);
    } else {
        if descending {
            law_order_clause(name, a, word);
        } else {
            law_order_clause(name, word, d);
        }
        let rest = seq![' '] + word;
        let w = if descending {
            d
        } else {
            a
        };
        assert forall|k: int| 1 <= k < rest.len() implies is_name_char(#[trigger] rest[k]) by {
            assert(rest[k] == word[k - 1]);
            assert(word[k - 1] == w[k - 1] || word[k - 1] != w[k - 1]);
        }
        lemma_no_order_call(name, rest);
        assert(name + rest =~= name + seq![' '] + word);
    }
}

proof fn lemma_either(c: Seq<Column>, i: int)
    requires
        distinct_columns(c),
        0 <= i < c.len(),
        forall|k: int| 0 <= k < c.len() ==> !(#[trigger] c[k]).name.contains('.'),
    ensures
        find_column(c, Naming::Either, c[i].name) == Some(c[i]),
{
    let name = c[i].name;
    assert(!c[i].name.contains('.'));
    lemma_first_column(c, Naming::Either, name);
    let k = column_index(c, Naming::Either, name);
    assert(names(Naming::Either, c[i].name, name));
    assert(k <= i);
    lemma_bare(c[k].name, name);
    assert(c[k].name == name) by {
        if c[k].name != name {
            let q = choose|q: Seq<char>| c[k].name == #[trigger] (q + seq!['.'] + name);
            assert(c[k].name[q.len() as int] == '.');
            assert(c[k].name.contains('.'));
        }
    }
    if k < i {
        assert(c[k].name != c[i].name);
    }
}

// ---------------------------------------------------------------------------
// GROUP BY
// ---------------------------------------------------------------------------

/// Rows are in one group exactly where they show the same in every column that is grouped
/// by, as long as what they show holds no unit separator.
pub proof fn law_group_key(a: Record, b: Record, places: Seq<int>)
    requires
        places.len() > 0,
        forall|k: int|
            0 <= k < places.len() ==> !cell(a, #[trigger] places[k]).contains('\x1f') && !cell(
                b,
                places[k],
            ).contains('\x1f'),
    ensures
        row_key(a, places) == row_key(b, places) <==> forall|k: int|
            0 <= k < places.len() ==> cell(a, #[trigger] places[k]) == cell(b, places[k]),
{
    reveal_strlit("\x1f");
    assert("\x1f"@ =~= seq!['\x1f']);
    let x = places.map_values(|i: int| cell(a, i));
    let y = places.map_values(|i: int| cell(b, i));
    assert forall|k: int| 0 <= k < x.len() implies !(#[trigger] x[k]).contains('\x1f') by {
        assert(!cell(a, places[k]).contains('\x1f'));
    }
    assert forall|k: int| 0 <= k < y.len() implies !(#[trigger] y[k]).contains('\x1f') by {
        assert(!cell(b, places[k]).contains('\x1f'));
    }
    lemma_split_join(x, '\x1f');
    lemma_split_join(y, '\x1f');
    if row_key(a, places) == row_key(b, places) {
        assert forall|k: int| 0 <= k < places.len() implies cell(a, #[trigger] places[k]) == cell(
            b,
            places[k],
        ) by {
            assert(x[k] == y[k]);
        }
    }
    if forall|k: int|
        0 <= k < places.len() ==> cell(a, #[trigger] places[k]) == cell(b, places[k]) {
        assert(x =~= y);
    }
}

/// The rows that show a text in a column.
pub open spec fn rows_showing(rows: Seq<Record>, index: int, text: Seq<char>) -> Seq<Record> {
    rows.filter(|r: Record| cell(r, index) == text)
}

proof fn lemma_one_place(r: Record, index: int)
    ensures
        row_key(r, seq![index]) == cell(r, index),
{
    let x = seq![index].map_values(|i: int| cell(r, i));
    assert(x =~= seq![cell(r, index)]);
    reveal_with_fuel(join, 2);
}

proof fn lemma_group_showing(rows: Seq<Record>, index: int, text: Seq<char>)
    ensures
        group_rows(rows, seq![index], text) == rows_showing(rows, index, text),
    decreases rows.len(),
{
    reveal(Seq::filter);
    if rows.len() > 0 {
        lemma_group_showing(rows.drop_last(), index, text);
        lemma_one_place(rows.last(), index);
    } else {
        assert(rows_showing(rows, index, text) =~= Seq::empty());
    }
}

/// `GROUP BY` one column answers with a row for each text that the column shows, and for no
/// other: the text, how many rows show it, and the aggregate of these rows' numbers. No text
/// comes twice.
pub proof fn law_group_by(
    rows: Seq<Record>,
    index: usize,
    name: Seq<char>,
    f: AggFunc,
    of: usize,
    t: DataType,
)
    ensures
        ({
            let items = seq![
                Item::Key { name, index },
                Item::Count,
                Item::Aggregate { f, index: of, data_type: t },
            ];
            let result = grouped_rows(rows, seq![index as int], items);
            &&& forall|k: int|
                0 <= k < result.len() ==> ({
                    let row = #[trigger] result[k];
                    let group = rows_showing(rows, index as int, row[0]);
                    &&& row.len() == 3
                    &&& group.len() > 0
                    &&& row[1] == show_nat(group.len())
                    &&& row[2] == aggregate_text(f, t, numbers(group, of as int))
                })
            &&& forall|j: int|
                0 <= j < rows.len() ==> exists|k: int|
                    0 <= k < result.len() && #[trigger] result[k][0] == cell(
                        #[trigger] rows[j],
                        index as int,
                    )
            &&& forall|k: int, l: int|
                0 <= k < l < result.len() ==> #[trigger] result[k][0] != #[trigger] result[l][0]
        }),
{
    let items = seq![
        Item::Key { name, index },
        Item::Count,
        Item::Aggregate { f, index: of, data_type: t },
    ];
    let places = seq![index as int];
    let result = grouped_rows(rows, places, items);
    let keys = first_occurrences(row_keys(rows, places));
    law_groups(rows, places);
    assert forall|k: int| 0 <= k < result.len() implies ({
        let row = #[trigger] result[k];
        let group = rows_showing(rows, index as int, row[0]);
        &&& row.len() == 3
        &&& row[0] == keys[k]
        &&& group.len() > 0
        &&& row[1] == show_nat(group.len())
        &&& row[2] == aggregate_text(f, t, numbers(group, of as int))
    }) by {
        let key = keys[k];
        assert(keys.contains(key));
        let group = group_rows(rows, places, key);
        let row = result[k];
        assert(row == group_row(items, group));
        assert(group.contains(group[0]));
        assert(row_key(group[0], places) == key);
        lemma_one_place(group[0], index as int);
        assert(row[0] == item_text(items[0], group));
        assert(row[1] == item_text(items[1], group));
        assert(row[2] == item_text(items[2], group));
        lemma_group_showing(rows, index as int, key);
    }
    assert forall|j: int| 0 <= j < rows.len() implies exists|k: int|
        0 <= k < result.len() && #[trigger] result[k][0] == cell(
            #[trigger] rows[j],
            index as int,
        ) by {
        let key = row_key(rows[j], places);
        assert(keys.contains(key));
        lemma_one_place(rows[j], index as int);
        let k = choose|k: int| 0 <= k < keys.len() && keys[k] == key;
        assert(result[k][0] == cell(rows[j], index as int)) by {
            let row = result[k];
        }
    }
    assert forall|k: int, l: int| 0 <= k < l < result.len() implies #[trigger] result[k][0]
        != #[trigger] result[l][0] by {
        let (x, y) = (result[k], result[l]);
        assert(keys[k] != keys[l]);
    }
}

/// `HAVING` keeps the rows that meet its condition, in their order, and no others.
pub proof fn law_having(
    rows: Seq<Seq<Seq<char>>>,
    labels: Seq<Seq<char>>,
    having: Seq<char>,
)
    ensures
        having_rows(rows, labels, having) == rows.filter(
            |row: Seq<Seq<char>>|
                having_any(
                    crate::executor::condition::top_level(having, " OR "@),
                    row,
                    labels,
                ),
        ),
    decreases rows.len(),
{
    reveal(Seq::filter);
    if rows.len() > 0 {
        law_having(rows.drop_last(), labels, having);
    } else {
        assert(having_rows(rows, labels, having) =~= rows);
    }
}

} // verus!
