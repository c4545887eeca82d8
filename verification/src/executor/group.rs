//! `GROUP BY` and `HAVING`.

use vstd::prelude::*;

use super::aggregate::aggregate_column;
use super::aggregate::aggregate_of;
use super::aggregate::aggregate_text;
use super::aggregate::counts;
use super::aggregate::extract_agg_column;
use super::aggregate::is_count;
use super::aggregate::numbers;
use super::aggregate::numbers_in;
use super::aggregate::parse_aggregate;
use super::aggregate::show_aggregate;
use super::aggregate::AggFunc;
use super::column::find_column;
use super::column::no_column;
use super::column::position_of_column;
use super::column::Naming;
use super::compare::compare_values;
use super::compare::compared;
use super::compare::literal;
use super::compare::parse_literal;
use super::condition::all_operators;
use super::condition::before_operator;
use super::condition::char_before;
use super::condition::operators;
use super::condition::split_top_level;
use super::condition::top_level;
use super::condition::Operator;
use crate::decimal::parse_double;
use crate::decimal::read_double;
use crate::double::Double;
use crate::number::push_u64;
use crate::number::show_nat;
use crate::sql::statement::text_rows;
use crate::storage::schema::columns_view;
use crate::storage::schema::rows_view;
use crate::storage::schema::Column;
use crate::storage::schema::ColumnInfo;
use crate::storage::schema::Record;
use crate::storage::schema::Row;
use crate::text::alphanumeric;
use crate::text::chars_of;
use crate::text::is_alphanumeric;
use crate::text::join;
use crate::text::join3;
use crate::text::joined;
use crate::text::lower;
use crate::text::occurs_at;
use crate::text::pieces;
use crate::text::same_chars;
use crate::text::slice;
use crate::text::split;
use crate::text::stands_at;
use crate::text::string_of;
use crate::text::string_texts;
use crate::text::texts;
use crate::text::to_lower;
use crate::text::to_upper;
use crate::text::trim;
use crate::text::trimmed;
use crate::text::upper;
use crate::types::shown;
use crate::types::zero;
use crate::types::DataType;

verus! {

// ---------------------------------------------------------------------------
// Groups
// ---------------------------------------------------------------------------

/// The items of a sequence without those that occur before.
pub open spec fn first_occurrences<T>(s: Seq<T>) -> Seq<T>
    decreases s.len(),
{
    if s.len() == 0 {
        Seq::empty()
    } else {
        let rest = first_occurrences(s.drop_last());
        if rest.contains(s.last()) {
            rest
        } else {
            rest.push(s.last())
        }
    }
}

/// The value of a row at a place, as text; nothing where the row has none.
pub open spec fn cell(r: Record, index: int) -> Seq<char> {
    if 0 <= index < r.values.len() {
        shown(r.values[index])
    } else {
        Seq::empty()
    }
}

/// The columns of a `GROUP BY`.
pub open spec fn group_columns(s: Seq<char>) -> Seq<Seq<char>> {
    split(s, ',').map_values(|x: Seq<char>| lower(trim(x)))
}

/// The places of the columns of a `GROUP BY`, up to the first that does not exist.
pub open spec fn group_places(c: Seq<Column>, names: Seq<Seq<char>>) -> Result<
    Seq<int>,
    Seq<char>,
>
    decreases names.len(),
{
    if names.len() == 0 {
        Ok(Seq::empty())
    } else {
        match group_places(c, names.drop_last()) {
            Err(e) => Err(e),
            Ok(v) => match find_column(c, Naming::Exact, names.last()) {
                None => Err("GROUP BY 列 '"@ + names.last() + "' 不存在"@),
                Some(x) => Ok(v.push(x.index as int)),
            },
        }
    }
}

/// What a row is grouped by: its values in the columns of the `GROUP BY`.
pub open spec fn row_key(r: Record, places: Seq<int>) -> Seq<char> {
    join(places.map_values(|i: int| cell(r, i)), "\x1f"@)
}

/// The keys of rows.
pub open spec fn row_keys(rows: Seq<Record>, places: Seq<int>) -> Seq<Seq<char>> {
    rows.map_values(|r: Record| row_key(r, places))
}

/// The rows with the given key.
pub open spec fn group_rows(rows: Seq<Record>, places: Seq<int>, key: Seq<char>) -> Seq<Record>
    decreases rows.len(),
{
    if rows.len() == 0 {
        Seq::empty()
    } else {
        let rest = group_rows(rows.drop_last(), places, key);
        if row_key(rows.last(), places) == key {
            rest.push(rows.last())
        } else {
            rest
        }
    }
}

/// A column of the result of a grouped query.
#[verifier::ext_equal]
pub enum Item {
    Count,
    Aggregate { f: AggFunc, index: usize, data_type: DataType },
    Key { name: Seq<char>, index: usize },
}

/// The name of a column of the result.
pub open spec fn item_label(i: Item) -> Seq<char> {
    match i {
        Item::Count => "count"@,
        Item::Aggregate { f, .. } => f.label(),
        Item::Key { name, .. } => name,
    }
}

/// What a column of a grouped query stands for.
pub open spec fn item_of(s: Seq<char>, names: Seq<Seq<char>>, c: Seq<Column>) -> Result<
    Item,
    Seq<char>,
> {
    let t = trim(s);
    let u = upper(t);
    if is_count(u) {
        Ok(Item::Count)
    } else {
        match aggregate_of(u) {
            Some(f) => {
                let name = lower(trim(aggregate_column(u)));
                match find_column(c, Naming::Exact, name) {
                    None => Err(no_column(name)),
                    Some(x) => Ok(Item::Aggregate { f, index: x.index, data_type: x.data_type }),
                }
            },
            None => {
                let name = lower(t);
                match find_column(c, Naming::Exact, name) {
                    None => Err(no_column(name)),
                    Some(x) => if names.contains(name) {
                        Ok(Item::Key { name, index: x.index })
                    } else {
                        Err("列 '"@ + name + "' 不在 GROUP BY 中（非聚合列必须出现在 GROUP BY 子句中）"@)
                    },
                }
            },
        }
    }
}

/// What the columns of a grouped query stand for, up to the first that is wrong.
pub open spec fn items_of(s: Seq<Seq<char>>, names: Seq<Seq<char>>, c: Seq<Column>) -> Result<
    Seq<Item>,
    Seq<char>,
>
    decreases s.len(),
{
    if s.len() == 0 {
        Ok(Seq::empty())
    } else {
        match items_of(s.drop_last(), names, c) {
            Err(e) => Err(e),
            Ok(v) => match item_of(s.last(), names, c) {
                Err(e) => Err(e),
                Ok(x) => Ok(v.push(x)),
            },
        }
    }
}

/// A value of the result for a group.
pub open spec fn item_text(i: Item, group: Seq<Record>) -> Seq<char> {
    match i {
        Item::Count => show_nat(group.len()),
        Item::Aggregate { f, index, data_type } => aggregate_text(
            f,
            data_type,
            numbers(group, index as int),
        ),
        Item::Key { index, .. } => cell(group[0], index as int),
    }
}

/// The row of the result for a group.
pub open spec fn group_row(items: Seq<Item>, group: Seq<Record>) -> Seq<Seq<char>> {
    items.map_values(|i: Item| item_text(i, group))
}

/// The rows of the result, one for each key, in the order in which the keys first occur.
pub open spec fn grouped_rows(rows: Seq<Record>, places: Seq<int>, items: Seq<Item>) -> Seq<
    Seq<Seq<char>>,
> {
    first_occurrences(row_keys(rows, places)).map_values(
        |k: Seq<char>| group_row(items, group_rows(rows, places, k)),
    )
}

/// The result of a grouped query: the names of its columns and its rows, or what is
/// wrong with the query.
pub open spec fn grouped(
    rows: Seq<Record>,
    columns: Seq<Seq<char>>,
    group_by: Seq<char>,
    having: Option<Seq<char>>,
    c: Seq<Column>,
) -> Result<(Seq<Seq<char>>, Seq<Seq<Seq<char>>>), Seq<char>> {
    let names = group_columns(group_by);
    match group_places(c, names) {
        Err(e) => Err(e),
        Ok(places) => match items_of(columns, names, c) {
            Err(e) => Err(e),
            Ok(items) => {
                let labels = items.map_values(|i: Item| item_label(i));
                let result = grouped_rows(rows, places, items);
                Ok(
                    (
                        labels,
                        match having {
                            Some(h) => having_rows(result, labels, h),
                            None => result,
                        },
                    ),
                )
            },
        },
    }
}

// ---------------------------------------------------------------------------
// HAVING
// ---------------------------------------------------------------------------

/// The first of the operators, from the one at `k` on, that stands in `s` at the place
/// `i` and not behind a word.
pub open spec fn operator_at(s: Seq<char>, i: int, k: int) -> Option<Operator>
    decreases operators().len() - k,
{
    if k < 0 || k >= operators().len() {
        None
    } else {
        let c = char_before(s, i);
        if occurs_at(s, operators()[k].text(), i) && !(i > 0 && (is_alphanumeric(c) || c == '_')) {
            Some(operators()[k])
        } else {
            operator_at(s, i, k + 1)
        }
    }
}

/// The first operator of `s` from the place `i` on that stands outside of parentheses,
/// where `depth` are open.
pub open spec fn having_operator(s: Seq<char>, i: int, depth: nat) -> Option<(Operator, int)>
    decreases s.len() - i,
{
    if i < 0 || i >= s.len() {
        None
    } else if s[i] == '(' {
        having_operator(s, i + 1, depth + 1)
    } else if s[i] == ')' && depth > 0 {
        having_operator(s, i + 1, (depth - 1) as nat)
    } else if depth > 0 {
        having_operator(s, i + 1, depth)
    } else {
        match operator_at(s, i, 0) {
            Some(op) => Some((op, i)),
            None => having_operator(s, i + 1, depth),
        }
    }
}

/// The index of the first text that is `s`, or the number of texts.
pub open spec fn text_index(v: Seq<Seq<char>>, s: Seq<char>) -> int
    decreases v.len(),
{
    if v.len() == 0 || v[0] == s {
        0
    } else {
        1 + text_index(v.skip(1), s)
    }
}

/// The name of the result's column that the left side of a condition speaks of: that
/// of an aggregate, which is compared as a number, or of a key.
pub open spec fn having_label(left: Seq<char>) -> (Seq<char>, bool) {
    let u = upper(left);
    if is_count(u) {
        ("count"@, true)
    } else {
        match aggregate_of(u) {
            Some(f) => (f.label(), true),
            None => (lower(left), false),
        }
    }
}

/// The number that a text of the result stands for; zero where it is none.
pub open spec fn number_or_zero(s: Seq<char>) -> Double {
    match read_double(s) {
        Some(x) => x,
        None => zero(),
    }
}

/// A row of the result meets one condition of a `HAVING`. A condition that cannot be
/// read is met by none.
pub open spec fn having_meets(cond: Seq<char>, row: Seq<Seq<char>>, labels: Seq<Seq<char>>) -> bool {
    let c = trim(cond);
    match having_operator(c, 0, 0) {
        None => false,
        Some((op, p)) => {
            let left = trim(c.take(p));
            let right = trim(c.skip(p + op.text().len()));
            let (label, number) = having_label(left);
            let i = text_index(labels, label);
            if i >= labels.len() {
                false
            } else if number {
                match read_double(right) {
                    None => false,
                    Some(y) => op.holds_of(number_or_zero(row[i]), y),
                }
            } else {
                op.holds(compared(literal(row[i]), literal(right)))
            }
        },
    }
}

/// A row of the result meets all conditions of a branch of a `HAVING`.
pub open spec fn having_all(
    conditions: Seq<Seq<char>>,
    row: Seq<Seq<char>>,
    labels: Seq<Seq<char>>,
) -> bool {
    forall|i: int|
        0 <= i < conditions.len() ==> having_meets(#[trigger] conditions[i], row, labels)
}

/// A row of the result meets a branch of a `HAVING`.
pub open spec fn having_any(
    branches: Seq<Seq<char>>,
    row: Seq<Seq<char>>,
    labels: Seq<Seq<char>>,
) -> bool {
    exists|i: int|
        0 <= i < branches.len() && having_all(
            top_level(#[trigger] branches[i], " AND "@),
            row,
            labels,
        )
}

/// The rows of the result that meet a `HAVING`.
pub open spec fn having_rows(
    rows: Seq<Seq<Seq<char>>>,
    labels: Seq<Seq<char>>,
    having: Seq<char>,
) -> Seq<Seq<Seq<char>>>
    decreases rows.len(),
{
    if rows.len() == 0 {
        Seq::empty()
    } else {
        let rest = having_rows(rows.drop_last(), labels, having);
        if having_any(top_level(having, " OR "@), rows.last(), labels) {
            rest.push(rows.last())
        } else {
            rest
        }
    }
}

fn find_operator_at(s: &Vec<char>, i: usize) -> (r: Option<Operator>)
    requires
        i < s@.len(),
    ensures
        r == operator_at(s@, i as int, 0),
{
    let ops = all_operators();
    let c: char = before_operator(s, i);
    let word: bool = i > 0 && (alphanumeric(c) || c == '_');
    let mut k: usize = 0;
    while k < ops.len()
        invariant
            k <= ops.len(),
            ops@ == operators(),
            word == (i > 0 && (is_alphanumeric(char_before(s@, i as int)) || char_before(
                s@,
                i as int,
            ) == '_')),
            operator_at(s@, i as int, 0) == operator_at(s@, i as int, k as int),
        decreases ops.len() - k,
    {
        if stands_at(s, &ops[k].chars(), i) && !word {
            return Some(ops[k]);
        }
        k += 1;
    }
    None
}

fn find_having_operator(s: &Vec<char>) -> (r: Option<(Operator, usize)>)
    ensures
        match r {
            Some((op, p)) => having_operator(s@, 0, 0) == Some((op, p as int)) && occurs_at(
                s@,
                op.text(),
                p as int,
            ),
            None => having_operator(s@, 0, 0) is None,
        },
{
    let mut i: usize = 0;
    let mut depth: usize = 0;
    while i < s.len()
        invariant
            i <= s.len(),
            depth <= i,
            having_operator(s@, 0, 0) == having_operator(s@, i as int, depth as nat),
        decreases s.len() - i,
    {
        if s[i] == '(' {
            depth += 1;
        } else if s[i] == ')' && depth > 0 {
            depth -= 1;
        } else if depth == 0 {
            match find_operator_at(s, i) {
                Some(op) => {
                    proof {
                        lemma_operator_at(s@, i as int, 0);
                    }
                    return Some((op, i));
                },
                None => {},
            }
        }
        i += 1;
    }
    None
}

proof fn lemma_operator_at(s: Seq<char>, i: int, k: int)
    requires
        0 <= k,
        operator_at(s, i, k) is Some,
    ensures
        occurs_at(s, operator_at(s, i, k)->0.text(), i),
    decreases operators().len() - k,
{
    if k < operators().len() {
        let c = char_before(s, i);
        if !(occurs_at(s, operators()[k].text(), i) && !(i > 0 && (is_alphanumeric(c) || c
            == '_'))) {
            lemma_operator_at(s, i, k + 1);
        }
    }
}

proof fn lemma_text_index(v: Seq<Seq<char>>, s: Seq<char>, i: int)
    requires
        0 <= i <= v.len(),
        forall|j: int| 0 <= j < i ==> #[trigger] v[j] != s,
        i < v.len() ==> v[i] == s,
    ensures
        text_index(v, s) == i,
    decreases v.len(),
{
    if i > 0 {
        assert(v[0] != s);
        let w = v.skip(1);
        assert forall|j: int| 0 <= j < i - 1 implies #[trigger] w[j] != s by {
            assert(w[j] == v[j + 1]);
        }
        lemma_text_index(w, s, i - 1);
    }
}

fn position_of_text(v: &Vec<String>, s: &Vec<char>) -> (r: usize)
    ensures
        r == text_index(string_texts(v@), s@),
        r <= v@.len(),
{
    let ghost t = string_texts(v@);
    let mut i: usize = 0;
    while i < v.len()
        invariant
            i <= v.len(),
            t == string_texts(v@),
            forall|j: int| 0 <= j < i ==> #[trigger] t[j] != s@,
        decreases v.len() - i,
    {
        assert(t[i as int] == v@[i as int]@);
        if same_chars(&chars_of(v[i].as_str()), s) {
            proof {
                lemma_text_index(t, s@, i as int);
            }
            return i;
        }
        i += 1;
    }
    proof {
        lemma_text_index(t, s@, i as int);
    }
    i
}

/// Whether a row of the result meets one condition of a `HAVING`.
pub fn eval_having_condition(cond: &Vec<char>, row: &Vec<String>, labels: &Vec<String>) -> (r: bool)
    requires
        labels@.len() <= row@.len(),
    ensures
        r == having_meets(cond@, string_texts(row@), string_texts(labels@)),
{
    let c = trimmed(cond);
    let n: usize = c.len();
    let (op, p): (Operator, usize) = match find_having_operator(&c) {
        Some(x) => x,
        None => {
            return false;
        },
    };
    let from: usize = p + op.chars().len();
    proof {
        assert(c@.take(p as int) =~= c@.subrange(0, p as int));
        assert(c@.skip(from as int) =~= c@.subrange(from as int, c@.len() as int));
    }
    let left = trimmed(&slice(&c, 0, p));
    let right = trimmed(&slice(&c, from, n));
    let u = to_upper(&left);
    let (label, number): (Vec<char>, bool) = if counts(&u) {
        (chars_of("count"), true)
    } else {
        match parse_aggregate(&u) {
            Some(f) => (chars_of(f.name()), true),
            None => (to_lower(&left), false),
        }
    };
    let i: usize = position_of_text(labels, &label);
    assert(string_texts(labels@).len() == labels@.len());
    if i == labels.len() {
        return false;
    }
    assert(string_texts(row@)[i as int] == row@[i as int]@);
    let text = chars_of(row[i].as_str());
    if number {
        match parse_double(&right) {
            None => false,
            Some(y) => {
                let x = match parse_double(&text) {
                    Some(x) => x,
                    None => Double { bits: 0 },
                };
                op.test_of(x, y)
            },
        }
    } else {
        op.test(compare_values(&parse_literal(&text), &parse_literal(&right)))
    }
}

fn meets_having(having: &Vec<Vec<Vec<char>>>, row: &Vec<String>, labels: &Vec<String>, text: Ghost<
    Seq<char>,
>) -> (r: bool)
    requires
        labels@.len() <= row@.len(),
        having@.len() == top_level(text@, " OR "@).len(),
        forall|i: int|
            0 <= i < having@.len() ==> texts((#[trigger] having@[i])@) == top_level(
                top_level(text@, " OR "@)[i],
                " AND "@,
            ),
    ensures
        r == having_any(top_level(text@, " OR "@), string_texts(row@), string_texts(labels@)),
{
    let ghost branches = top_level(text@, " OR "@);
    let ghost cells = string_texts(row@);
    let ghost names = string_texts(labels@);
    let mut i: usize = 0;
    while i < having.len()
        invariant
            i <= having.len(),
            labels@.len() <= row@.len(),
            branches == top_level(text@, " OR "@),
            cells == string_texts(row@),
            names == string_texts(labels@),
            having@.len() == branches.len(),
            forall|j: int|
                0 <= j < having@.len() ==> texts((#[trigger] having@[j])@) == top_level(
                    branches[j],
                    " AND "@,
                ),
            forall|j: int|
                0 <= j < i ==> !having_all(top_level(#[trigger] branches[j], " AND "@), cells, names),
        decreases having.len() - i,
    {
        let ghost conditions = top_level(branches[i as int], " AND "@);
        assert(texts(having@[i as int]@) == conditions);
        let mut all: bool = true;
        let mut j: usize = 0;
        while j < having[i].len()
            invariant
                i < having@.len(),
                j <= having@[i as int]@.len(),
                labels@.len() <= row@.len(),
                cells == string_texts(row@),
                names == string_texts(labels@),
                conditions == texts(having@[i as int]@),
                all == (forall|k: int|
                    0 <= k < j ==> having_meets(#[trigger] conditions[k], cells, names)),
            decreases having@[i as int]@.len() - j,
        {
            assert(conditions[j as int] == having@[i as int]@[j as int]@);
            let b: bool = eval_having_condition(&having[i][j], row, labels);
            all = all && b;
            j += 1;
        }
        if all {
            assert(having_all(top_level(branches[i as int], " AND "@), cells, names));
            return true;
        }
        i += 1;
    }
    false
}

/// The rows of the result that meet a `HAVING`.
pub fn filter_having_rows(rows: Vec<Vec<String>>, labels: &Vec<String>, having: &str) -> (r: Vec<
    Vec<String>,
>)
    requires
        forall|i: int| 0 <= i < rows@.len() ==> labels@.len() <= (#[trigger] rows@[i])@.len(),
    ensures
        text_rows(r@) == having_rows(text_rows(rows@), string_texts(labels@), having@),
{
    proof {
        reveal_strlit(" OR ");
        reveal_strlit(" AND ");
    }
    let or = chars_of(" OR ");
    let and = chars_of(" AND ");
    let parts = split_top_level(&chars_of(having), &or);
    let ghost branches = top_level(having@, " OR "@);
    let mut read: Vec<Vec<Vec<char>>> = Vec::new();
    let mut i: usize = 0;
    while i < parts.len()
        invariant
            i <= parts.len(),
            and@ == " AND "@,
            and@.len() > 0,
            texts(parts@) == branches,
            read@.len() == i,
            forall|j: int|
                0 <= j < i ==> texts((#[trigger] read@[j])@) == top_level(branches[j], " AND "@),
        decreases parts.len() - i,
    {
        assert(branches[i as int] == parts@[i as int]@);
        read.push(split_top_level(&parts[i], &and));
        i += 1;
    }
    assert(texts(parts@).len() == parts@.len());
    let ghost all = text_rows(rows@);
    let ghost names = string_texts(labels@);
    let mut r: Vec<Vec<String>> = Vec::new();
    let mut k: usize = 0;
    assert(all.take(0) =~= Seq::empty());
    assert(text_rows(r@) =~= Seq::empty());
    while k < rows.len()
        invariant
            k <= rows.len(),
            all == text_rows(rows@),
            names == string_texts(labels@),
            branches == top_level(having@, " OR "@),
            read@.len() == branches.len(),
            forall|j: int|
                0 <= j < read@.len() ==> texts((#[trigger] read@[j])@) == top_level(
                    branches[j],
                    " AND "@,
                ),
            forall|j: int| 0 <= j < rows@.len() ==> labels@.len() <= (#[trigger] rows@[j])@.len(),
            text_rows(r@) == having_rows(all.take(k as int), names, having@),
        decreases rows.len() - k,
    {
        proof {
            assert(all.take(k + 1).drop_last() =~= all.take(k as int));
            assert(all.take(k + 1).last() == string_texts(rows@[k as int]@));
        }
        if meets_having(&read, &rows[k], labels, Ghost(having@)) {
            let ghost before = r@;
            let row = copy_texts(&rows[k]);
            r.push(row);
            assert(text_rows(r@) =~= text_rows(before).push(string_texts(row@)));
        }
        k += 1;
    }
    assert(all.take(rows@.len() as int) =~= all);
    r
}

/// A copy of strings.
pub fn copy_texts(v: &Vec<String>) -> (r: Vec<String>)
    ensures
        string_texts(r@) == string_texts(v@),
{
    let mut r: Vec<String> = Vec::new();
    let mut i: usize = 0;
    while i < v.len()
        invariant
            i <= v.len(),
            string_texts(r@) == string_texts(v@).take(i as int),
        decreases v.len() - i,
    {
        let ghost before = r@;
        r.push(crate::text::copy_string(&v[i]));
        proof {
            assert(string_texts(r@) =~= string_texts(before).push(v@[i as int]@));
            assert(string_texts(v@).take(i + 1) =~= string_texts(v@).take(i as int).push(
                v@[i as int]@,
            ));
        }
        i += 1;
    }
    assert(string_texts(v@).take(v@.len() as int) =~= string_texts(v@));
    r
}

// ---------------------------------------------------------------------------
// Grouping
// ---------------------------------------------------------------------------

/// A column of the result of a grouped query that has been read.
enum SelectItem {
    Count,
    Aggregate { f: AggFunc, index: usize, data_type: DataType },
    Key { name: Vec<char>, index: usize },
}

impl View for SelectItem {
    type V = Item;

    closed spec fn view(&self) -> Item {
        match self {
            SelectItem::Count => Item::Count,
            SelectItem::Aggregate { f, index, data_type } => Item::Aggregate {
                f: *f,
                index: *index,
                data_type: *data_type,
            },
            SelectItem::Key { name, index } => Item::Key { name: name@, index: *index },
        }
    }
}

spec fn items_view(v: Seq<SelectItem>) -> Seq<Item> {
    v.map_values(|i: SelectItem| i@)
}

fn missing_column(name: &Vec<char>) -> (r: String)
    ensures
        r@ == no_column(name@),
{
    join3("列 '", string_of(name).as_str(), "' 不存在")
}

/// Whether one of the texts is `s`.
fn has_text(v: &Vec<Vec<char>>, s: &Vec<char>) -> (r: bool)
    ensures
        r == texts(v@).contains(s@),
{
    let mut i: usize = 0;
    while i < v.len()
        invariant
            i <= v.len(),
            forall|j: int| 0 <= j < i ==> texts(v@)[j] != s@,
        decreases v.len() - i,
    {
        assert(texts(v@)[i as int] == v@[i as int]@);
        if same_chars(&v[i], s) {
            return true;
        }
        i += 1;
    }
    false
}

fn parse_item(s: &Vec<char>, names: &Vec<Vec<char>>, columns: &Vec<ColumnInfo>) -> (r: Result<
    SelectItem,
    String,
>)
    ensures
        match r {
            Ok(i) => item_of(s@, texts(names@), columns_view(columns@)) == Ok::<Item, Seq<char>>(
                i@,
            ),
            Err(e) => item_of(s@, texts(names@), columns_view(columns@)) == Err::<Item, Seq<char>>(
                e@,
            ),
        },
{
    let t = trimmed(s);
    let u = to_upper(&t);
    if counts(&u) {
        return Ok(SelectItem::Count);
    }
    let f = parse_aggregate(&u);
    let name = match f {
        Some(_) => to_lower(&trimmed(&extract_agg_column(&u))),
        None => to_lower(&t),
    };
    let i: usize = position_of_column(columns, Naming::Exact, &name);
    if i == columns.len() {
        return Err(missing_column(&name));
    }
    assert(columns_view(columns@)[i as int] == columns@[i as int]@);
    let index: usize = columns[i].index;
    match f {
        Some(f) => Ok(
            SelectItem::Aggregate { f, index, data_type: columns[i].data_type },
        ),
        None => {
            if has_text(names, &name) {
                Ok(SelectItem::Key { name, index })
            } else {
                Err(
                    join3(
                        "列 '",
                        string_of(&name).as_str(),
                        "' 不在 GROUP BY 中（非聚合列必须出现在 GROUP BY 子句中）",
                    ),
                )
            }
        },
    }
}

proof fn lemma_items_error(s: Seq<Seq<char>>, names: Seq<Seq<char>>, c: Seq<Column>, k: int)
    requires
        0 <= k <= s.len(),
        items_of(s.take(k), names, c) is Err,
    ensures
        items_of(s, names, c) == items_of(s.take(k), names, c),
    decreases s.len() - k,
{
    if k == s.len() {
        assert(s.take(k) =~= s);
    } else {
        assert(s.take(k + 1).drop_last() =~= s.take(k));
        lemma_items_error(s, names, c, k + 1);
    }
}

fn parse_items(s: &Vec<String>, names: &Vec<Vec<char>>, columns: &Vec<ColumnInfo>) -> (r: Result<
    Vec<SelectItem>,
    String,
>)
    ensures
        match r {
            Ok(v) => items_of(string_texts(s@), texts(names@), columns_view(columns@)) == Ok::<
                Seq<Item>,
                Seq<char>,
            >(items_view(v@)),
            Err(e) => items_of(string_texts(s@), texts(names@), columns_view(columns@)) == Err::<
                Seq<Item>,
                Seq<char>,
            >(e@),
        },
{
    let ghost t = string_texts(s@);
    let ghost n = texts(names@);
    let ghost c = columns_view(columns@);
    let mut v: Vec<SelectItem> = Vec::new();
    let mut i: usize = 0;
    assert(t.take(0) =~= Seq::empty());
    assert(items_view(v@) =~= Seq::empty());
    while i < s.len()
        invariant
            i <= s.len(),
            t == string_texts(s@),
            n == texts(names@),
            c == columns_view(columns@),
            items_of(t.take(i as int), n, c) == Ok::<Seq<Item>, Seq<char>>(items_view(v@)),
        decreases s.len() - i,
    {
        proof {
            assert(t.take(i + 1).drop_last() =~= t.take(i as int));
            assert(t.take(i + 1).last() == s@[i as int]@);
        }
        match parse_item(&chars_of(s[i].as_str()), names, columns) {
            Ok(x) => {
                let ghost before = v@;
                v.push(x);
                assert(items_view(v@) =~= items_view(before).push(x@));
            },
            Err(e) => {
                proof {
                    lemma_items_error(t, n, c, i + 1);
                }
                return Err(e);
            },
        }
        i += 1;
    }
    assert(t.take(s@.len() as int) =~= t);
    Ok(v)
}

proof fn lemma_places_error(c: Seq<Column>, s: Seq<Seq<char>>, k: int)
    requires
        0 <= k <= s.len(),
        group_places(c, s.take(k)) is Err,
    ensures
        group_places(c, s) == group_places(c, s.take(k)),
    decreases s.len() - k,
{
    if k == s.len() {
        assert(s.take(k) =~= s);
    } else {
        assert(s.take(k + 1).drop_last() =~= s.take(k));
        lemma_places_error(c, s, k + 1);
    }
}

/// Places as whole numbers.
pub open spec fn place_ints(v: Seq<usize>) -> Seq<int> {
    v.map_values(|i: usize| i as int)
}

fn parse_places(names: &Vec<Vec<char>>, columns: &Vec<ColumnInfo>) -> (r: Result<Vec<usize>, String>)
    ensures
        match r {
            Ok(v) => group_places(columns_view(columns@), texts(names@)) == Ok::<
                Seq<int>,
                Seq<char>,
            >(place_ints(v@)),
            Err(e) => group_places(columns_view(columns@), texts(names@)) == Err::<
                Seq<int>,
                Seq<char>,
            >(e@),
        },
{
    let ghost n = texts(names@);
    let ghost c = columns_view(columns@);
    let mut v: Vec<usize> = Vec::new();
    let mut i: usize = 0;
    assert(n.take(0) =~= Seq::empty());
    assert(place_ints(v@) =~= Seq::empty());
    while i < names.len()
        invariant
            i <= names.len(),
            n == texts(names@),
            c == columns_view(columns@),
            group_places(c, n.take(i as int)) == Ok::<Seq<int>, Seq<char>>(place_ints(v@)),
        decreases names.len() - i,
    {
        proof {
            assert(n.take(i + 1).drop_last() =~= n.take(i as int));
            assert(n.take(i + 1).last() == names@[i as int]@);
        }
        let k: usize = position_of_column(columns, Naming::Exact, &names[i]);
        if k == columns.len() {
            proof {
                lemma_places_error(c, n, i + 1);
            }
            return Err(join3("GROUP BY 列 '", string_of(&names[i]).as_str(), "' 不存在"));
        }
        assert(c[k as int] == columns@[k as int]@);
        let ghost before = v@;
        v.push(columns[k].index);
        assert(place_ints(v@) =~= place_ints(before).push(columns@[k as int].index as int));
        i += 1;
    }
    assert(n.take(names@.len() as int) =~= n);
    Ok(v)
}

/// The value of a row at a place, as text.
pub fn cell_text(row: &Row, index: usize) -> (r: Vec<char>)
    ensures
        r@ == cell(row@, index as int),
{
    assert(row@.values.len() == row.values@.len());
    if index < row.values.len() {
        assert(row@.values[index as int] == row.values@[index as int]@);
        row.values[index].to_chars()
    } else {
        let none: Vec<char> = Vec::new();
        assert(none@ =~= Seq::empty());
        none
    }
}

fn key_of(row: &Row, places: &Vec<usize>) -> (r: Vec<char>)
    ensures
        r@ == row_key(row@, place_ints(places@)),
{
    let ghost p = place_ints(places@);
    let mut cells: Vec<Vec<char>> = Vec::new();
    let mut i: usize = 0;
    while i < places.len()
        invariant
            i <= places.len(),
            p == place_ints(places@),
            texts(cells@) == p.take(i as int).map_values(|i: int| cell(row@, i)),
        decreases places.len() - i,
    {
        let t = cell_text(row, places[i]);
        let ghost before = cells@;
        cells.push(t);
        proof {
            assert(texts(cells@) =~= texts(before).push(t@));
            assert(p.take(i + 1).map_values(|i: int| cell(row@, i)) =~= p.take(
                i as int,
            ).map_values(|i: int| cell(row@, i)).push(cell(row@, p[i as int])));
        }
        i += 1;
    }
    assert(p.take(places@.len() as int) =~= p);
    joined(&cells, "\x1f")
}

/// The rows of one key.
struct Group {
    key: Vec<char>,
    rows: Vec<Row>,
}

spec fn group_keys(g: Seq<Group>) -> Seq<Seq<char>> {
    g.map_values(|x: Group| x.key@)
}

proof fn lemma_group_rows_push(rows: Seq<Record>, r: Record, places: Seq<int>, key: Seq<char>)
    ensures
        group_rows(rows.push(r), places, key) == (if row_key(r, places) == key {
            group_rows(rows, places, key).push(r)
        } else {
            group_rows(rows, places, key)
        }),
{
    assert(rows.push(r).drop_last() =~= rows);
}

/// A key that no row has makes no group.
proof fn lemma_no_group(rows: Seq<Record>, places: Seq<int>, key: Seq<char>)
    requires
        !first_occurrences(row_keys(rows, places)).contains(key),
    ensures
        group_rows(rows, places, key) =~= Seq::empty(),
    decreases rows.len(),
{
    if rows.len() > 0 {
        let k = row_keys(rows, places);
        assert(k.drop_last() =~= row_keys(rows.drop_last(), places));
        let rest = first_occurrences(k.drop_last());
        if !rest.contains(k.last()) {
            let all = rest.push(k.last());
            assert(all[rest.len() as int] == k.last());
            assert forall|i: int| 0 <= i < rest.len() implies rest[i] != key by {
                assert(all[i] == rest[i]);
            }
        }
        lemma_no_group(rows.drop_last(), places, key);
        if row_key(rows.last(), places) == key {
            assert(k.last() == key);
            if !rest.contains(key) {
                let all = rest.push(key);
                assert(all[rest.len() as int] == key);
            }
        }
    }
}

/// Parts rows into groups by their keys, in the order in which the keys first occur.
fn make_groups(rows: &Vec<Row>, places: &Vec<usize>) -> (r: Vec<Group>)
    ensures
        group_keys(r@) == first_occurrences(
            row_keys(rows_view(rows@), place_ints(places@)),
        ),
        forall|i: int|
            0 <= i < r@.len() ==> rows_view((#[trigger] r@[i]).rows@) == group_rows(
                rows_view(rows@),
                place_ints(places@),
                r@[i].key@,
            ),
        forall|i: int| 0 <= i < r@.len() ==> (#[trigger] r@[i]).rows@.len() > 0,
{
    let ghost all = rows_view(rows@);
    let ghost p = place_ints(places@);
    let mut groups: Vec<Group> = Vec::new();
    let mut i: usize = 0;
    proof {
        assert(row_keys(all.take(0), p) =~= Seq::empty());
        assert(group_keys(groups@) =~= Seq::empty());
    }
    while i < rows.len()
        invariant
            i <= rows.len(),
            all == rows_view(rows@),
            p == place_ints(places@),
            group_keys(groups@) == first_occurrences(row_keys(all.take(i as int), p)),
            forall|j: int|
                0 <= j < groups@.len() ==> rows_view((#[trigger] groups@[j]).rows@) == group_rows(
                    all.take(i as int),
                    p,
                    groups@[j].key@,
                ),
            forall|j: int| 0 <= j < groups@.len() ==> (#[trigger] groups@[j]).rows@.len() > 0,
        decreases rows.len() - i,
    {
        let key = key_of(&rows[i], places);
        let ghost r = rows@[i as int]@;
        let ghost before = groups@;
        let ghost now = all.take(i as int);
        let ghost next = all.take(i + 1);
        let ghost k = row_keys(next, p);
        proof {
            assert(next =~= now.push(r));
            assert(k.drop_last() =~= row_keys(now, p));
            assert(k.last() == key@);
        }
        let mut j: usize = 0;
        while j < groups.len() && !same_chars(&groups[j].key, &key)
            invariant
                j <= groups@.len(),
                groups@ == before,
                forall|x: int| 0 <= x < j ==> (#[trigger] before[x]).key@ != key@,
            decreases groups@.len() - j,
        {
            j += 1;
        }
        let row = rows[i].copy();
        if j < groups.len() {
            groups[j].rows.push(row);
            proof {
                assert(group_keys(before)[j as int] == key@);
                assert(group_keys(groups@) =~= group_keys(before));
                assert(group_keys(before).contains(key@));
                assert(rows_view(groups@[j as int].rows@) =~= rows_view(
                    before[j as int].rows@,
                ).push(r));
            }
        } else {
            let mut first: Vec<Row> = Vec::new();
            first.push(row);
            groups.push(Group { key, rows: first });
            proof {
                assert forall|x: int| 0 <= x < group_keys(before).len() implies group_keys(
                    before,
                )[x] != key@ by {
                    assert(before[x].key@ != key@);
                }
                assert(group_keys(groups@) =~= group_keys(before).push(key@));
                lemma_no_group(now, p, key@);
                assert(rows_view(first@) =~= Seq::<Record>::empty().push(r));
            }
        }
        assert forall|x: int| 0 <= x < groups@.len() implies rows_view(
            (#[trigger] groups@[x]).rows@,
        ) == group_rows(next, p, groups@[x].key@) by {
            lemma_group_rows_push(now, r, p, groups@[x].key@);
            if x < before.len() {
                assert(rows_view(before[x].rows@) == group_rows(now, p, before[x].key@));
                if x != j {
                    assert(groups@[x] == before[x]);
                    if x > j && before[x].key@ == key@ {
                        lemma_first_occurrences_distinct(row_keys(now, p));
                        assert(group_keys(before)[x] == group_keys(before)[j as int]);
                    }
                }
            }
        }
        i += 1;
    }
    assert(all.take(rows@.len() as int) =~= all);
    groups
}

/// No item occurs twice among first occurrences.
pub proof fn lemma_first_occurrences_distinct<T>(s: Seq<T>)
    ensures
        first_occurrences(s).no_duplicates(),
    decreases s.len(),
{
    if s.len() > 0 {
        lemma_first_occurrences_distinct(s.drop_last());
        let rest = first_occurrences(s.drop_last());
        if !rest.contains(s.last()) {
            let all = rest.push(s.last());
            assert forall|i: int, j: int| 0 <= i < all.len() && 0 <= j < all.len() && i
                != j implies all[i] != all[j] by {
                if i < rest.len() {
                    assert(rest.contains(rest[i]));
                }
                if j < rest.len() {
                    assert(rest.contains(rest[j]));
                }
            }
        }
    }
}

fn show_item(item: &SelectItem, group: &Vec<Row>) -> (r: Vec<char>)
    requires
        group@.len() > 0,
    ensures
        r@ == item_text(item@, rows_view(group@)),
{
    match item {
        SelectItem::Count => {
            let mut out: Vec<char> = Vec::new();
            push_u64(&mut out, group.len() as u64);
            assert(rows_view(group@).len() == group@.len());
            assert(out@ =~= show_nat(group@.len()));
            out
        },
        SelectItem::Aggregate { f, index, data_type } => show_aggregate(
            *f,
            *data_type,
            &numbers_in(group, *index),
        ),
        SelectItem::Key { name, index } => {
            assert(rows_view(group@)[0] == group@[0]@);
            cell_text(&group[0], *index)
        },
    }
}

fn show_group(items: &Vec<SelectItem>, group: &Vec<Row>) -> (r: Vec<String>)
    requires
        group@.len() > 0,
    ensures
        string_texts(r@) == group_row(items_view(items@), rows_view(group@)),
        r@.len() == items@.len(),
{
    let ghost it = items_view(items@);
    let ghost g = rows_view(group@);
    let mut r: Vec<String> = Vec::new();
    let mut i: usize = 0;
    while i < items.len()
        invariant
            i <= items.len(),
            group@.len() > 0,
            it == items_view(items@),
            g == rows_view(group@),
            r@.len() == i,
            string_texts(r@) == group_row(it.take(i as int), g),
        decreases items.len() - i,
    {
        let t = string_of(&show_item(&items[i], group));
        let ghost before = r@;
        r.push(t);
        proof {
            assert(string_texts(r@) =~= string_texts(before).push(t@));
            assert(group_row(it.take(i + 1), g) =~= group_row(it.take(i as int), g).push(
                item_text(items@[i as int]@, g),
            ));
        }
        i += 1;
    }
    assert(it.take(items@.len() as int) =~= it);
    r
}

fn label_texts(items: &Vec<SelectItem>) -> (r: Vec<String>)
    ensures
        string_texts(r@) == items_view(items@).map_values(|i: Item| item_label(i)),
        r@.len() == items@.len(),
{
    let ghost it = items_view(items@);
    let mut r: Vec<String> = Vec::new();
    let mut i: usize = 0;
    while i < items.len()
        invariant
            i <= items.len(),
            it == items_view(items@),
            r@.len() == i,
            string_texts(r@) == it.take(i as int).map_values(|i: Item| item_label(i)),
        decreases items.len() - i,
    {
        let t = match &items[i] {
            SelectItem::Count => "count".to_owned(),
            SelectItem::Aggregate { f, .. } => f.name().to_owned(),
            SelectItem::Key { name, .. } => string_of(name),
        };
        let ghost before = r@;
        r.push(t);
        proof {
            assert(string_texts(r@) =~= string_texts(before).push(t@));
            assert(it.take(i + 1).map_values(|i: Item| item_label(i)) =~= it.take(
                i as int,
            ).map_values(|i: Item| item_label(i)).push(item_label(items@[i as int]@)));
        }
        i += 1;
    }
    assert(it.take(items@.len() as int) =~= it);
    r
}

/// The result of a grouped query.
pub fn execute_group_by(
    rows: &Vec<Row>,
    columns: &Vec<String>,
    group_by: &str,
    having: &Option<String>,
    schema: &Vec<ColumnInfo>,
) -> (r: Result<(Vec<String>, Vec<Vec<String>>), String>)
    ensures
        match r {
            Ok((labels, result)) => grouped(
                rows_view(rows@),
                string_texts(columns@),
                group_by@,
                crate::sql::statement::opt_text(*having),
                columns_view(schema@),
            ) == Ok::<(Seq<Seq<char>>, Seq<Seq<Seq<char>>>), Seq<char>>(
                (string_texts(labels@), text_rows(result@)),
            ),
            Err(e) => grouped(
                rows_view(rows@),
                string_texts(columns@),
                group_by@,
                crate::sql::statement::opt_text(*having),
                columns_view(schema@),
            ) == Err::<(Seq<Seq<char>>, Seq<Seq<Seq<char>>>), Seq<char>>(e@),
        },
{
    let parts = pieces(&chars_of(group_by), ',');
    let mut names: Vec<Vec<char>> = Vec::new();
    let mut i: usize = 0;
    while i < parts.len()
        invariant
            i <= parts.len(),
            texts(names@) == texts(parts@).take(i as int).map_values(
                |x: Seq<char>| lower(trim(x)),
            ),
        decreases parts.len() - i,
    {
        let t = to_lower(&trimmed(&parts[i]));
        let ghost before = names@;
        names.push(t);
        proof {
            assert(texts(names@) =~= texts(before).push(t@));
            assert(texts(parts@).take(i + 1).map_values(|x: Seq<char>| lower(trim(x))) =~= texts(
                parts@,
            ).take(i as int).map_values(|x: Seq<char>| lower(trim(x))).push(
                lower(trim(parts@[i as int]@)),
            ));
        }
        i += 1;
    }
    assert(texts(parts@).take(parts@.len() as int) =~= texts(parts@));
    let places = match parse_places(&names, schema) {
        Ok(v) => v,
        Err(e) => {
            return Err(e);
        },
    };
    let items = match parse_items(columns, &names, schema) {
        Ok(v) => v,
        Err(e) => {
            return Err(e);
        },
    };
    let labels = label_texts(&items);
    let result = show_groups(rows, &places, &items);
    match having {
        Some(h) => {
            let kept = filter_having_rows(result, &labels, h.as_str());
            Ok((labels, kept))
        },
        None => Ok((labels, result)),
    }
}

fn show_groups(rows: &Vec<Row>, places: &Vec<usize>, items: &Vec<SelectItem>) -> (r: Vec<
    Vec<String>,
>)
    ensures
        text_rows(r@) == grouped_rows(
            rows_view(rows@),
            place_ints(places@),
            items_view(items@),
        ),
        forall|i: int| 0 <= i < r@.len() ==> (#[trigger] r@[i])@.len() == items@.len(),
{
    let ghost all = rows_view(rows@);
    let ghost p = place_ints(places@);
    let ghost it = items_view(items@);
    let groups = make_groups(rows, places);
    let ghost keys = group_keys(groups@);
    let mut r: Vec<Vec<String>> = Vec::new();
    let mut i: usize = 0;
    assert(text_rows(r@) =~= keys.take(0).map_values(
        |k: Seq<char>| group_row(it, group_rows(all, p, k)),
    ));
    while i < groups.len()
        invariant
            i <= groups.len(),
            all == rows_view(rows@),
            p == place_ints(places@),
            it == items_view(items@),
            keys == group_keys(groups@),
            forall|j: int|
                0 <= j < groups@.len() ==> rows_view((#[trigger] groups@[j]).rows@) == group_rows(
                    all,
                    p,
                    groups@[j].key@,
                ),
            forall|j: int| 0 <= j < groups@.len() ==> (#[trigger] groups@[j]).rows@.len() > 0,
            forall|j: int| 0 <= j < r@.len() ==> (#[trigger] r@[j])@.len() == items@.len(),
            text_rows(r@) == keys.take(i as int).map_values(
                |k: Seq<char>| group_row(it, group_rows(all, p, k)),
            ),
        decreases groups.len() - i,
    {
        assert(groups@[i as int].rows@.len() > 0);
        let row = show_group(items, &groups[i].rows);
        let ghost before = r@;
        r.push(row);
        proof {
            assert(keys[i as int] == groups@[i as int].key@);
            assert(text_rows(r@) =~= text_rows(before).push(string_texts(row@)));
            assert(keys.take(i + 1).map_values(
                |k: Seq<char>| group_row(it, group_rows(all, p, k)),
            ) =~= keys.take(i as int).map_values(
                |k: Seq<char>| group_row(it, group_rows(all, p, k)),
            ).push(string_texts(row@)));
        }
        i += 1;
    }
    assert(keys.take(groups@.len() as int) =~= keys);
    r
}

} // verus!
