//! What conditions on calls mean: `HAVING` on aggregates, and similarity to a vector.

use vstd::prelude::*;

use crate::decimal::read_double;
use crate::decimal::show_double;
use crate::double::Double;
use crate::executor::aggregate::aggregate_of;
use crate::executor::aggregate::is_count;
use crate::executor::aggregate::AggFunc;
use crate::executor::answers::call_of;
use crate::executor::answers::distinct_columns;
use crate::executor::answers::function_name;
use crate::executor::answers::law_exact_column;
use crate::executor::answers::lemma_call;
use crate::executor::clauses::is_name;
use crate::executor::clauses::is_name_char;
use crate::executor::clauses::is_sign;
use crate::executor::clauses::lemma_ascii_concat;
use crate::executor::clauses::lemma_name;
use crate::executor::clauses::lemma_name_char;
use crate::executor::clauses::lemma_sign_texts;
use crate::executor::compare::compared;
use crate::executor::compare::literal;
use crate::executor::condition::call_end;
use crate::executor::condition::char_before;
use crate::executor::condition::first_operator;
use crate::executor::condition::meets;
use crate::executor::condition::operators;
use crate::executor::condition::question;
use crate::executor::condition::similarity_call;
use crate::executor::condition::Operator;
use crate::executor::condition::Question;
use crate::executor::group::having_label;
use crate::executor::group::having_meets;
use crate::executor::group::having_operator;
use crate::executor::group::operator_at;
use crate::executor::group::text_index;
use crate::sql::list::close_index;
use crate::sql::list::list_items;
use crate::sql::list::nest_after;
use crate::sql::list::outermost;
use crate::sql::list::pieces_from;
use crate::sql::list::ListKind;
use crate::sql::list::Nest;
use crate::storage::round_trip::is_plain;
use crate::storage::round_trip::lemma_double_back;
use crate::storage::round_trip::lemma_double_text;
use crate::storage::round_trip::lemma_plain_text;
use crate::storage::round_trip::storable;
use crate::storage::schema::Column;
use crate::storage::schema::Record;
use crate::text::find;
use crate::text::index_of;
use crate::text::is_ascii_char;
use crate::text::is_ascii_text;
use crate::text::is_space;
use crate::text::join;
use crate::text::lemma_ascii_bytes;
use crate::text::lemma_index_of_is;
use crate::text::lower;
use crate::text::occurs_at;
use crate::text::starts_with_keyword;
use crate::text::trim;
use crate::text::upper;
use crate::texts::law_case;
use crate::texts::law_find;
use crate::texts::law_same_case;
use crate::texts::law_trim;
use crate::texts::law_trim_char;
use crate::texts::law_trim_none;
use crate::texts::same_but_case;
use crate::texts::stands_at;
use crate::types::cosine;
use crate::types::shown;
use crate::types::shown_numbers;
use crate::types::Datum;
use crate::values::lemma_vector_read;

verus! {

// ---------------------------------------------------------------------------
// HAVING
// ---------------------------------------------------------------------------

/// A condition on a column of the result.
pub open spec fn having_text(left: Seq<char>, op: Operator, right: Seq<char>) -> Seq<char> {
    left + seq![' '] + op.text() + seq![' '] + right
}

proof fn lemma_operator_none(s: Seq<char>, i: int, k: int)
    requires
        0 <= i < s.len(),
        !is_sign(s[i]),
        0 <= k,
    ensures
        operator_at(s, i, k) is None,
    decreases operators().len() - k,
{
    if k < operators().len() {
        lemma_sign_texts();
        let p = operators()[k].text();
        if occurs_at(s, p, i) {
            assert(s.subrange(i, i + p.len())[0] == s[i]);
        }
        lemma_operator_none(s, i, k + 1);
    }
}

/// Where nothing is an operator or a parenthesis the search goes on.
proof fn lemma_having_skip(s: Seq<char>, i: int, to: int, depth: nat)
    requires
        0 <= i <= to <= s.len(),
        forall|j: int|
            i <= j < to ==> !is_sign(#[trigger] s[j]) && s[j] != '(' && s[j] != ')',
    ensures
        having_operator(s, i, depth) == having_operator(s, to, depth),
    decreases to - i,
{
    if i < to {
        assert(!is_sign(s[i]) && s[i] != '(' && s[i] != ')');
        lemma_operator_none(s, i, 0);
        lemma_having_skip(s, i + 1, to, depth);
    }
}

/// The operator is the one that stands there.
proof fn lemma_operator_here(left: Seq<char>, op: Operator, right: Seq<char>)
    requires
        is_ascii_text(left),
    ensures
        operator_at(having_text(left, op, right), left.len() as int + 1, 0) == Some(op),
{
    let s = having_text(left, op, right);
    let h = left.len() as int + 1;
    lemma_sign_texts();
    let p = op.text();
    assert(s.subrange(h, h + p.len()) =~= p);
    assert(occurs_at(s, p, h));
    assert(s[h] == p[0]);
    assert(s[h + p.len()] == ' ');
    if p.len() == 2 {
        assert(s[h + 1] == p[1]);
    }
    let t = s.take(h);
    assert(t =~= left + seq![' ']);
    assert(is_ascii_text(seq![' ']));
    lemma_ascii_concat(left, seq![' ']);
    lemma_ascii_bytes(t, h);
    assert(t.take(h) =~= t);
    assert(char_before(s, h) == ' ');
    assert forall|k: int| 0 <= k < 6 && operators()[k] != op implies !(occurs_at(
        s,
        #[trigger] operators()[k].text(),
        h,
    )) || (p.len() == 2 && operators()[k].text().len() == 1) by {
        let q = operators()[k].text();
        if occurs_at(s, q, h) {
            assert(s.subrange(h, h + q.len())[0] == s[h]);
            if q.len() == 2 {
                assert(s.subrange(h, h + q.len())[1] == s[h + 1]);
            }
        }
    }
    reveal_with_fuel(operator_at, 7);
    assert(!(operators()[0] != op) || !occurs_at(s, operators()[0].text(), h));
    assert(!(operators()[1] != op) || !occurs_at(s, operators()[1].text(), h));
    assert(!(operators()[2] != op) || !occurs_at(s, operators()[2].text(), h));
    assert(operators()[3].text() == "="@);
    assert(operators()[4].text() == ">"@);
    assert(operators()[5].text() == "<"@);
    if p.len() == 1 && operators()[3] != op {
        assert(!occurs_at(s, operators()[3].text(), h));
    }
    if p.len() == 1 && operators()[4] != op {
        assert(!occurs_at(s, operators()[4].text(), h));
    }
}

/// The condition falls into its two sides at its operator.
proof fn lemma_having_sides(left: Seq<char>, op: Operator, right: Seq<char>)
    requires
        is_ascii_text(left),
        left.len() > 0,
        right.len() > 0,
        trim(left) == left,
        !is_space(left[0]),
        !is_space(left.last()),
        !is_space(right[0]),
        !is_space(right.last()),
        having_operator(having_text(left, op, right), 0, 0) == Some((op, left.len() as int + 1)),
    ensures
        ({
            let s = having_text(left, op, right);
            let p = left.len() as int + 1;
            &&& trim(s) == s
            &&& trim(s.take(p)) == left
            &&& trim(s.skip(p + op.text().len())) == right
        }),
{
    let s = having_text(left, op, right);
    let p = left.len() as int + 1;
    let e = Seq::<char>::empty();
    let b = seq![' '];
    assert(s[0] == left[0]);
    assert(s.last() == right.last());
    law_trim_none(s);
    assert(s.take(p) =~= e + left + b);
    law_trim(e, left, b);
    assert(s.skip(p + op.text().len()) =~= b + right + e);
    law_trim(b, right, e);
}

/// In `HAVING` a key of the group is compared with a literal as a value is.
pub proof fn law_having_key(
    name: Seq<char>,
    op: Operator,
    right: Seq<char>,
    row: Seq<Seq<char>>,
    labels: Seq<Seq<char>>,
)
    requires
        is_name(name),
        right.len() > 0,
        !is_space(right[0]),
        !is_space(right.last()),
    ensures
        having_meets(having_text(name, op, right), row, labels) <==> labels.contains(lower(name))
            && op.holds(
            compared(literal(row[text_index(labels, lower(name))]), literal(right)),
        ),
{
    reveal_strlit(")");
    reveal_strlit("COUNT(*)");
    reveal_strlit("COUNT (*)");
    let s = having_text(name, op, right);
    lemma_name(name);
    lemma_name_char(name[0]);
    lemma_name_char(name[name.len() - 1]);
    let p = name.len() as int + 1;
    assert forall|j: int| 0 <= j < p implies !is_sign(#[trigger] s[j]) && s[j] != '(' && s[j]
        != ')' by {
        if j < name.len() {
            assert(s[j] == name[j]);
            assert(is_name_char(name[j]));
        }
    }
    lemma_having_skip(s, 0, p, 0);
    lemma_operator_here(name, op, right);
    lemma_sign_texts();
    assert(s[p] == op.text()[0]);
    assert(having_operator(s, p, 0) == Some((op, p)));
    lemma_having_sides(name, op, right);
    lemma_plain_label(name);
    lemma_text_index(labels, lower(name));
}

proof fn lemma_plain_label(name: Seq<char>)
    requires
        is_name(name),
    ensures
        having_label(name) == (lower(name), false),
{
    reveal_strlit(")");
    reveal_strlit("COUNT(*)");
    reveal_strlit("COUNT (*)");
    lemma_name(name);
    let u = upper(name);
    lemma_name(u);
    assert(!is_count(u)) by {
        if u == "COUNT(*)"@ {
            assert(u[5] == '(');
            assert(is_name_char(u[5]));
        }
        if u == "COUNT (*)"@ {
            assert(u[6] == '(');
            assert(is_name_char(u[6]));
        }
    }
    if crate::text::ends_with(u, ")"@) {
        assert(u.subrange(u.len() - 1, u.len() as int)[0] == u[u.len() - 1]);
        assert(is_name_char(u[u.len() - 1]));
    }
    assert(aggregate_of(u) is None);
}

/// The index of a text among texts is that of the first of its kind.
proof fn lemma_text_index(v: Seq<Seq<char>>, s: Seq<char>)
    ensures
        0 <= text_index(v, s) <= v.len(),
        text_index(v, s) < v.len() <==> v.contains(s),
        text_index(v, s) < v.len() ==> v[text_index(v, s)] == s,
        forall|j: int| 0 <= j < text_index(v, s) ==> v[j] != s,
    decreases v.len(),
{
    if v.len() > 0 {
        if v[0] != s {
            let w = v.skip(1);
            lemma_text_index(w, s);
            if v.contains(s) {
                let i = choose|i: int| 0 <= i < v.len() && v[i] == s;
                assert(w[i - 1] == s);
            }
            assert forall|j: int| 0 <= j < text_index(v, s) implies v[j] != s by {
                if j > 0 {
                    assert(w[j - 1] == v[j]);
                }
            }
        } else {
            assert(v.contains(v[0]));
        }
    }
}

/// In `HAVING` an aggregate, written as a call whatever the case of its letters, is compared
/// with a number as numbers are: the aggregate's place is that of its name in the result.
pub proof fn law_having_aggregate(
    f: AggFunc,
    word: Seq<char>,
    name: Seq<char>,
    op: Operator,
    right: Seq<char>,
    x: Double,
    y: Double,
    row: Seq<Seq<char>>,
    labels: Seq<Seq<char>>,
    i: int,
)
    requires
        same_but_case(word, function_name(f)),
        is_name(name),
        right.len() > 0,
        !is_space(right[0]),
        !is_space(right.last()),
        read_double(right) == Some(y),
        0 <= i < labels.len(),
        labels[i] == lower(function_name(f)),
        forall|j: int| 0 <= j < i ==> labels[j] != labels[i],
        read_double(row[i]) == Some(x),
    ensures
        having_meets(having_text(call_of(word, name), op, right), row, labels) <==> op.holds_of(
            x,
            y,
        ),
{
    reveal_strlit("sum");
    reveal_strlit("avg");
    reveal_strlit("min");
    reveal_strlit("max");
    let left = call_of(word, name);
    let s = having_text(left, op, right);
    lemma_call(f, word, name);
    let p = left.len() as int + 1;
    let w = function_name(f);
    assert forall|j: int| 0 <= j < 3 implies is_name_char(#[trigger] word[j]) by {
        assert(word[j] == w[j] || word[j] != w[j]);
    }
    lemma_call_skip(word, name, seq![' '] + op.text() + seq![' '] + right);
    assert(s =~= left + (seq![' '] + op.text() + seq![' '] + right));
    assert(s[p - 1] == ' ');
    lemma_having_skip(s, p - 1, p, 0);
    lemma_operator_here(left, op, right);
    lemma_sign_texts();
    assert(s[p] == op.text()[0]);
    assert(having_operator(s, p, 0) == Some((op, p)));
    assert(left[0] == word[0]);
    assert(is_name_char(word[0]));
    lemma_name_char(word[0]);
    assert(left.last() == ')');
    lemma_having_sides(left, op, right);
    assert(is_ascii_text(w));
    law_case(w);
    assert(lower(w) =~= f.label()) by {
        assert(f.label().len() == 3);
        assert forall|k: int| 0 <= k < 3 implies lower(w)[k] == f.label()[k] by {
            assert(lower(w)[k] as u32 == f.label()[k] as u32);
        }
    }
    lemma_text_index(labels, f.label());
    assert(labels.contains(labels[i]));
    let k = text_index(labels, f.label());
    assert(k == i) by {
        if i < k {
            assert(labels[i] != f.label());
        }
        if k < i {
            assert(labels[k] != labels[i]);
        }
    }
}

/// In `HAVING` the number of rows, `COUNT(*)` whatever the case of its letters, is compared
/// with a number as numbers are.
pub proof fn law_having_count(
    left: Seq<char>,
    op: Operator,
    right: Seq<char>,
    x: Double,
    y: Double,
    row: Seq<Seq<char>>,
    labels: Seq<Seq<char>>,
    i: int,
)
    requires
        same_but_case(left, "COUNT(*)"@),
        right.len() > 0,
        !is_space(right[0]),
        !is_space(right.last()),
        read_double(right) == Some(y),
        0 <= i < labels.len(),
        labels[i] == "count"@,
        forall|j: int| 0 <= j < i ==> labels[j] != labels[i],
        read_double(row[i]) == Some(x),
    ensures
        having_meets(having_text(left, op, right), row, labels) <==> op.holds_of(x, y),
{
    reveal_strlit("COUNT(*)");
    let w = "COUNT(*)"@;
    law_same_case(left, w);
    law_case(w);
    assert(upper(w) =~= w) by {
        assert forall|k: int| 0 <= k < w.len() implies upper(w)[k] == w[k] by {
            assert(upper(w)[k] as u32 == w[k] as u32);
        }
    }
    let s = having_text(left, op, right);
    let p = left.len() as int + 1;
    assert(left.len() == 8);
    assert forall|k: int| 0 <= k < 8 implies !is_sign(#[trigger] left[k]) && !is_space(left[k]) && (
    left[k] == '(' <==> k == 5) && (left[k] == ')' <==> k == 7) by {
        assert(left[k] == w[k] || left[k] != w[k]);
    }
    assert forall|k: int| 0 <= k < 8 implies #[trigger] s[k] == left[k] by {}
    lemma_having_skip(s, 0, 5, 0);
    assert(s[5] == left[5]);
    lemma_having_skip(s, 6, 7, 1);
    assert(s[7] == left[7]);
    assert(s[8] == ' ');
    lemma_having_skip(s, 8, 9, 0);
    lemma_operator_here(left, op, right);
    lemma_sign_texts();
    assert(s[p] == op.text()[0]);
    assert(having_operator(s, p, 0) == Some((op, p)));
    assert(!is_space(left[0]) && !is_space(left[7]));
    law_trim_none(left);
    lemma_having_sides(left, op, right);
    lemma_text_index(labels, "count"@);
    assert(labels.contains(labels[i]));
    let k = text_index(labels, "count"@);
    assert(k == i) by {
        if i < k {
            assert(labels[i] != "count"@);
        }
        if k < i {
            assert(labels[k] != labels[i]);
        }
    }
}

/// A call is passed over.
proof fn lemma_call_skip(word: Seq<char>, name: Seq<char>, rest: Seq<char>)
    requires
        forall|j: int| 0 <= j < word.len() ==> is_name_char(#[trigger] word[j]),
        is_name(name),
    ensures
        having_operator(call_of(word, name) + rest, 0, 0) == having_operator(
            call_of(word, name) + rest,
            call_of(word, name).len() as int,
            0,
        ),
{
    let s = call_of(word, name) + rest;
    let a = word.len() as int;
    let b = a + 1 + name.len();
    assert forall|j: int| 0 <= j < a implies !is_sign(#[trigger] s[j]) && s[j] != '(' && s[j]
        != ')' by {
        assert(s[j] == word[j]);
        assert(is_name_char(word[j]));
    }
    lemma_having_skip(s, 0, a, 0);
    assert(s[a] == '(');
    assert forall|j: int| a + 1 <= j < b implies !is_sign(#[trigger] s[j]) && s[j] != '(' && s[j]
        != ')' by {
        assert(s[j] == name[j - a - 1]);
        assert(is_name_char(name[j - a - 1]));
    }
    lemma_having_skip(s, a + 1, b, 1);
    assert(s[b] == ')');
}

// ---------------------------------------------------------------------------
// Similarity
// ---------------------------------------------------------------------------

/// The arguments of a similarity: a column, and a vector in quotes.
pub open spec fn arguments(column: Seq<char>, v: Seq<Double>) -> Seq<char> {
    column + seq![',', ' ', '\''] + shown(Datum::Vector(v)) + seq!['\'']
}

/// A call of a similarity.
pub open spec fn call_text(word: Seq<char>, column: Seq<char>, v: Seq<Double>) -> Seq<char> {
    word + seq!['('] + arguments(column, v) + seq![')']
}

/// A character of a vector's text.
spec fn is_vector_char(c: char) -> bool {
    is_plain(c) || c == ',' || c == '[' || c == ']'
}

proof fn lemma_list_chars(p: Seq<Seq<char>>)
    requires
        forall|i: int, j: int|
            0 <= i < p.len() && 0 <= j < p[i].len() ==> is_vector_char(#[trigger] p[i][j]),
    ensures
        forall|k: int| 0 <= k < join(p, ","@).len() ==> is_vector_char(#[trigger] join(p, ","@)[k]),
    decreases p.len(),
{
    reveal_strlit(",");
    let s = join(p, ","@);
    if p.len() == 1 {
        assert(s == p[0]);
        assert forall|k: int| 0 <= k < s.len() implies is_vector_char(#[trigger] s[k]) by {
            assert(is_vector_char(p[0][k]));
        }
    } else if p.len() > 1 {
        let front = p.drop_last();
        assert forall|i: int, j: int|
            0 <= i < front.len() && 0 <= j < front[i].len() implies is_vector_char(
            #[trigger] front[i][j],
        ) by {
            assert(is_vector_char(p[i][j]));
        }
        lemma_list_chars(front);
        let a = join(front, ","@);
        let z = p[p.len() - 1];
        assert(s == a + ","@ + z);
        assert forall|k: int| 0 <= k < s.len() implies is_vector_char(#[trigger] s[k]) by {
            if k < a.len() {
                assert(is_vector_char(a[k]));
            } else if k == a.len() {
                assert(s[k] == ',');
            } else {
                assert(s[k] == z[k - a.len() - 1]);
                assert(is_vector_char(p[p.len() - 1][k - a.len() - 1]));
            }
        }
    }
}

proof fn lemma_vector_chars(v: Seq<Double>)
    ensures
        ({
            let s = shown(Datum::Vector(v));
            &&& s.len() >= 2
            &&& s[0] == '['
            &&& s.last() == ']'
            &&& forall|k: int| 0 <= k < s.len() ==> is_vector_char(#[trigger] s[k])
            &&& is_ascii_text(s)
        }),
{
    reveal_strlit("[");
    reveal_strlit("]");
    let p = shown_numbers(v);
    let s = shown(Datum::Vector(v));
    assert forall|i: int, j: int| 0 <= i < p.len() && 0 <= j < p[i].len() implies is_vector_char(
        #[trigger] p[i][j],
    ) by {
        lemma_double_text(v[i]);
        assert(p[i] == show_double(v[i]));
        assert(is_plain(show_double(v[i])[j]));
    }
    lemma_list_chars(p);
    let body = join(p, ","@);
    assert forall|k: int| 0 <= k < s.len() implies is_vector_char(#[trigger] s[k]) by {
        if 0 < k < s.len() - 1 {
            assert(s[k] == body[k - 1]);
            assert(is_vector_char(body[k - 1]));
        }
    }
    assert forall|k: int| 0 <= k < s.len() implies is_ascii_char(#[trigger] s[k]) by {
        assert(is_vector_char(s[k]));
    }
}

/// Inside quotes no comma parts the list.
proof fn lemma_quoted(s: Seq<char>, start: int, i: int, to: int, n: Nest)
    requires
        0 <= start <= i <= to < s.len(),
        n.quote,
        forall|k: int| i <= k < to ==> #[trigger] s[k] != '\'',
    ensures
        exists|m: Nest|
            m.quote && pieces_from(s, ListKind::Arguments, start, i, n) == #[trigger] pieces_from(
                s,
                ListKind::Arguments,
                start,
                to,
                m,
            ),
    decreases to - i,
{
    if i < to {
        let next = nest_after(ListKind::Arguments, n, s[i]);
        assert(s[i] != '\'');
        lemma_quoted(s, start, i + 1, to, next);
        assert(pieces_from(s, ListKind::Arguments, start, i, n) == pieces_from(
            s,
            ListKind::Arguments,
            start,
            i + 1,
            next,
        ));
        let m = choose|m: Nest|
            m.quote && pieces_from(s, ListKind::Arguments, start, i + 1, next)
                == #[trigger] pieces_from(s, ListKind::Arguments, start, to, m);
        assert(m.quote && pieces_from(s, ListKind::Arguments, start, i, n) == pieces_from(
            s,
            ListKind::Arguments,
            start,
            to,
            m,
        ));
    } else {
        assert(n.quote && pieces_from(s, ListKind::Arguments, start, i, n) == pieces_from(
            s,
            ListKind::Arguments,
            start,
            to,
            n,
        ));
    }
}

/// A name is passed over.
proof fn lemma_name_piece(s: Seq<char>, i: int, to: int)
    requires
        0 <= i <= to <= s.len(),
        forall|k: int| i <= k < to ==> is_name_char(#[trigger] s[k]),
    ensures
        pieces_from(s, ListKind::Arguments, 0, i, outermost()) == pieces_from(
            s,
            ListKind::Arguments,
            0,
            to,
            outermost(),
        ),
    decreases to - i,
{
    if i < to {
        assert(is_name_char(s[i]));
        lemma_name_piece(s, i + 1, to);
    }
}

proof fn lemma_arguments(column: Seq<char>, v: Seq<Double>)
    requires
        is_name(column),
    ensures
        list_items(arguments(column, v), ListKind::Arguments) == seq![
            column,
            seq!['\''] + shown(Datum::Vector(v)) + seq!['\''],
        ],
{
    let s = arguments(column, v);
    let body = shown(Datum::Vector(v));
    let n = column.len() as int;
    lemma_vector_chars(v);
    let kind = ListKind::Arguments;
    assert forall|k: int| 0 <= k < n implies is_name_char(#[trigger] s[k]) by {
        assert(s[k] == column[k]);
        assert(is_name_char(column[k]));
    }
    lemma_name_piece(s, 0, n);
    assert(s[n] == ',');
    assert(s.subrange(0, n) =~= column);
    let start = n + 1;
    assert(s[start] == ' ');
    assert(s[start + 1] == '\'');
    let inside = Nest { quote: true, ..outermost() };
    assert(nest_after(kind, outermost(), ' ') == outermost());
    assert(nest_after(kind, outermost(), '\'') == inside);
    let to = s.len() - 1;
    assert(s[to] == '\'');
    assert forall|k: int| start + 2 <= k < to implies #[trigger] s[k] != '\'' by {
        assert(s[k] == body[k - start - 2]);
        assert(is_vector_char(body[k - start - 2]));
    }
    lemma_quoted(s, start, start + 2, to, inside);
    let m = choose|m: Nest|
        m.quote && pieces_from(s, kind, start, start + 2, inside) == #[trigger] pieces_from(
            s,
            kind,
            start,
            to,
            m,
        );
    let after = nest_after(kind, m, '\'');
    let tail = s.subrange(start, s.len() as int);
    assert(pieces_from(s, kind, start, to + 1, after) =~= seq![tail]);
    assert(pieces_from(s, kind, start, to, m) == seq![tail]);
    assert(pieces_from(s, kind, start, start + 1, outermost()) == seq![tail]);
    assert(pieces_from(s, kind, start, start, outermost()) == seq![tail]);
    let p = pieces_from(s, kind, 0, 0, outermost());
    assert(p =~= seq![column, tail]);
    let q = seq!['\''] + body + seq!['\''];
    let e = Seq::<char>::empty();
    assert(tail =~= seq![' '] + q + e);
    law_trim(seq![' '], q, e);
    lemma_name(column);
    let t = p.map_values(|x: Seq<char>| trim(x));
    assert(t =~= seq![column, q]);
}

/// No parenthesis: the search for the closing one goes on.
proof fn lemma_close_skip(s: Seq<char>, i: int, to: int)
    requires
        0 <= i <= to <= s.len(),
        forall|j: int| i <= j < to ==> #[trigger] s[j] != '(' && s[j] != ')',
    ensures
        close_index(s, i, 0) == close_index(s, to, 0),
        call_end(s, i, 0) == call_end(s, to, 0),
        call_end(s, i, 1) == call_end(s, to, 1),
    decreases to - i,
{
    if i < to {
        assert(s[i] != '(' && s[i] != ')');
        lemma_close_skip(s, i + 1, to);
    }
}

proof fn lemma_no_parens(column: Seq<char>, v: Seq<Double>)
    requires
        is_name(column),
    ensures
        forall|j: int|
            0 <= j < arguments(column, v).len() ==> #[trigger] arguments(column, v)[j] != '('
                && arguments(column, v)[j] != ')' && is_ascii_char(arguments(column, v)[j]),
{
    let s = arguments(column, v);
    let body = shown(Datum::Vector(v));
    lemma_vector_chars(v);
    assert forall|j: int| 0 <= j < s.len() implies #[trigger] s[j] != '(' && s[j] != ')'
        && is_ascii_char(s[j]) by {
        let n = column.len();
        if j < n {
            assert(s[j] == column[j]);
            assert(is_name_char(column[j]));
        } else if n + 3 <= j < s.len() - 1 {
            assert(s[j] == body[j - n - 3]);
            assert(is_vector_char(body[j - n - 3]));
        }
    }
}

pub proof fn lemma_call_shape(word: Seq<char>, column: Seq<char>, v: Seq<Double>, rest: Seq<char>)
    requires
        same_but_case(word, "VECTOR_SIMILARITY"@),
        is_name(column),
        is_ascii_text(rest),
    ensures
        ({
            let c = call_text(word, column, v);
            let s = c + rest;
            &&& index_of(c, '(') == 17
            &&& close_index(c, 18, 0) == Some(c.len() - 1)
            &&& call_end(s, 0, 0) == Some(c.len() as int)
            &&& starts_with_keyword(c, "VECTOR_SIMILARITY("@)
            &&& starts_with_keyword(s, "VECTOR_SIMILARITY("@)
            &&& is_ascii_text(c)
            &&& is_ascii_text(s)
            &&& trim(c) == c
            &&& !is_space(s[0])
        }),
{
    reveal_strlit("VECTOR_SIMILARITY");
    reveal_strlit("VECTOR_SIMILARITY(");
    let w = "VECTOR_SIMILARITY"@;
    let a = arguments(column, v);
    let c = call_text(word, column, v);
    let s = c + rest;
    lemma_no_parens(column, v);
    assert(is_ascii_text(a));
    assert(w.len() == 17);
    assert forall|j: int| 0 <= j < 17 implies is_name_char(#[trigger] word[j]) by {
        assert(word[j] == w[j] || word[j] != w[j]);
        assert(is_name_char(w[j]));
    }
    assert forall|j: int| 0 <= j < 17 implies #[trigger] s[j] != '(' && s[j] != ')' && c[j]
        == s[j] by {
        assert(s[j] == word[j]);
        assert(is_name_char(word[j]));
    }
    assert(c[17] == '(' && s[17] == '(');
    lemma_index_of_is(c, '(', 17);
    let e = c.len() - 1;
    assert forall|j: int| 18 <= j < e implies #[trigger] s[j] != '(' && s[j] != ')' by {
        assert(s[j] == a[j - 18]);
    }
    assert forall|j: int| 18 <= j < e implies #[trigger] c[j] != '(' && c[j] != ')' by {
        assert(c[j] == a[j - 18]);
    }
    assert(c[e] == ')' && s[e] == ')');
    lemma_close_skip(c, 18, e);
    lemma_close_skip(s, 0, 17);
    lemma_close_skip(s, 18, e);
    let (x, y) = (seq!['('], seq![')']);
    assert(is_ascii_text(x) && is_ascii_text(y));
    assert(upper(x) =~= x);
    law_same_case(word, w);
    law_case(w);
    assert(upper(w) =~= w) by {
        assert forall|i: int| 0 <= i < w.len() implies upper(w)[i] == w[i] by {
            assert(upper(w)[i] as u32 == w[i] as u32);
        }
    }
    lemma_ascii_concat(word, x);
    lemma_ascii_concat(word + x, a);
    lemma_ascii_concat(word + x + a, y);
    lemma_ascii_concat(c, rest);
    let k = "VECTOR_SIMILARITY("@;
    assert(k =~= w + x);
    assert(upper(c).subrange(0, 18) =~= k);
    assert(upper(s).subrange(0, 18) =~= k);
    assert(is_name_char(word[0]));
    lemma_name_char(word[0]);
    assert(c[0] == word[0] && s[0] == word[0]);
    law_trim_none(c);
}

/// A call of a similarity, whatever the case of its letters, is read as its column and its
/// vector.
pub proof fn law_similarity_call(word: Seq<char>, column: Seq<char>, v: Seq<Double>)
    requires
        same_but_case(word, "VECTOR_SIMILARITY"@),
        is_name(column),
        v.len() > 0,
        storable(Datum::Vector(v)),
    ensures
        similarity_call(call_text(word, column, v)) == Some((lower(column), v)),
{
    let c = call_text(word, column, v);
    let a = arguments(column, v);
    let e = Seq::<char>::empty();
    lemma_call_shape(word, column, v, e);
    assert(is_ascii_text(e));
    assert(c.subrange(18, c.len() - 1) =~= a) by {
        reveal_strlit("VECTOR_SIMILARITY");
        assert(word.len() == 17);
    }
    lemma_name_char(column[0]);
    assert(is_name_char(column[0]));
    assert(a[0] == column[0]);
    assert(a.last() == '\'');
    law_trim_none(a);
    lemma_arguments(column, v);
    let body = shown(Datum::Vector(v));
    let q = seq!['\''];
    law_trim_none(q + body + q);
    lemma_vector_chars(v);
    law_trim_char(q, body, q, '\'');
    lemma_vector_read(v);
    lemma_name(column);
    let args = list_items(a, ListKind::Arguments);
    assert(args[0] == column && args[1] == q + body + q);
}

/// An operator is not found where another stands alone, but for one that is part of it.
proof fn lemma_other_not_found(op: Operator, other: Operator, right: Seq<char>)
    requires
        forall|i: int| 0 <= i < right.len() ==> !is_sign(#[trigger] right[i]),
        op != other,
        op.text().len() == 1 || other.text().len() == 2,
    ensures
        find(op.text() + seq![' '] + right, other.text()) is None,
{
    let p = op.text();
    let q = other.text();
    let s = p + seq![' '] + right;
    lemma_sign_texts();
    assert forall|i: int| !#[trigger] stands_at(s, q, i) by {
        if stands_at(s, q, i) {
            let x = s.subrange(i, i + q.len());
            assert(x[0] == s[i]);
            if i > p.len() {
                assert(s[i] == right[i - p.len() - 1]);
            }
            assert(i < p.len());
            assert(s[0] == p[0]);
            assert(s[p.len() as int] == ' ');
            if q.len() == 2 {
                assert(x[1] == s[i + 1]);
            }
            if p.len() == 2 {
                assert(s[1] == p[1]);
            }
        }
    }
    law_find(s, q);
}

/// The operator is found at the start, where it stands.
proof fn lemma_first_operator(op: Operator, right: Seq<char>)
    requires
        forall|i: int| 0 <= i < right.len() ==> !is_sign(#[trigger] right[i]),
    ensures
        first_operator(op.text() + seq![' '] + right, 0) == Some((op, 0int)),
{
    let p = op.text();
    let s = p + seq![' '] + right;
    lemma_sign_texts();
    assert(s.subrange(0, p.len() as int) =~= p);
    assert(stands_at(s, p, 0));
    assert forall|f: int| f < 0 implies !#[trigger] stands_at(s, p, f) by {}
    crate::executor::clauses::lemma_found(s, p, 0);
    let o = operators();
    reveal_with_fuel(first_operator, 7);
    if o[0] != op {
        lemma_other_not_found(op, o[0], right);
        if o[1] != op {
            lemma_other_not_found(op, o[1], right);
            if o[2] != op {
                lemma_other_not_found(op, o[2], right);
                if o[3] != op {
                    lemma_other_not_found(op, o[3], right);
                    if o[4] != op {
                        lemma_other_not_found(op, o[4], right);
                        assert(o[5] == op);
                    }
                }
            }
        }
    }
}

/// A condition on a similarity asks how the similarity of a row's vector to the vector of
/// the call compares with the number.
pub proof fn law_similarity_condition(
    word: Seq<char>,
    column: Seq<char>,
    v: Seq<Double>,
    op: Operator,
    x: Double,
)
    requires
        same_but_case(word, "VECTOR_SIMILARITY"@),
        is_name(column),
        v.len() > 0,
        storable(Datum::Vector(v)),
        !x.is_nan(),
    ensures
        question(
            call_text(word, column, v) + seq![' '] + (op.text() + seq![' '] + show_double(x)),
        ) == (Question::Similarity { column: lower(column), target: v, op, threshold: x }),
{
    let c = call_text(word, column, v);
    let number = show_double(x);
    let tail = op.text() + seq![' '] + number;
    let rest = seq![' '] + tail;
    let s = c + seq![' '] + tail;
    lemma_double_text(x);
    lemma_plain_text(number);
    lemma_double_back(x);
    lemma_sign_texts();
    assert forall|i: int| 0 <= i < number.len() implies !is_sign(#[trigger] number[i])
        && is_ascii_char(number[i]) by {
        assert(is_plain(number[i]));
    }
    assert(is_ascii_text(number));
    assert(is_ascii_text(op.text()));
    assert(is_ascii_text(seq![' ']));
    lemma_ascii_concat(op.text(), seq![' ']);
    lemma_ascii_concat(op.text() + seq![' '], number);
    lemma_ascii_concat(seq![' '], tail);
    lemma_call_shape(word, column, v, rest);
    assert(s =~= c + rest);
    assert(is_plain(number[number.len() - 1]));
    assert(s.last() == number[number.len() - 1]);
    law_trim_none(s);
    assert(s.take(c.len() as int) =~= c);
    assert(s.skip(c.len() as int) =~= rest);
    law_similarity_call(word, column, v);
    let e = Seq::<char>::empty();
    assert(rest =~= seq![' '] + tail + e);
    assert(tail[0] == op.text()[0]);
    assert(tail.last() == number.last());
    law_trim(seq![' '], tail, e);
    lemma_first_operator(op, number);
    assert(is_plain(number[0]));
    assert(tail.skip(op.text().len() as int) =~= seq![' '] + number + e);
    law_trim(seq![' '], number, e);
}

/// A row meets a condition on a similarity exactly where it has a vector in the column and
/// the operator holds between the cosine of the two vectors and the number.
pub proof fn law_similarity_meets(
    word: Seq<char>,
    c: Seq<Column>,
    i: int,
    v: Seq<Double>,
    op: Operator,
    x: Double,
    r: Record,
)
    requires
        same_but_case(word, "VECTOR_SIMILARITY"@),
        distinct_columns(c),
        0 <= i < c.len(),
        is_name(c[i].name),
        lower(c[i].name) == c[i].name,
        c[i].index < r.values.len(),
        v.len() > 0,
        storable(Datum::Vector(v)),
        !x.is_nan(),
    ensures
        meets(
            question(
                call_text(word, c[i].name, v) + seq![' '] + (op.text() + seq![' '] + show_double(
                    x,
                )),
            ),
            r,
            c,
        ) <==> r.values[c[i].index as int] is Vector && op.holds_of(
            cosine(r.values[c[i].index as int]->Vector_0, v),
            x,
        ),
{
    law_similarity_condition(word, c[i].name, v, op, x);
    law_exact_column(c, c[i].name);
}

} // verus!
