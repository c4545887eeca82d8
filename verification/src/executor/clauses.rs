//! What the clauses of a statement mean.

use vstd::prelude::*;

use crate::executor::compare::compared;
use crate::executor::compare::literal;
use crate::executor::condition::and_parts;
use crate::executor::condition::char_before;
use crate::executor::condition::column_value;
use crate::executor::condition::condition_operator;
use crate::executor::condition::meets;
use crate::executor::condition::meets_all;
use crate::executor::condition::nonblank_parts;
use crate::executor::condition::operators;
use crate::executor::condition::or_parts;
use crate::executor::condition::parts_from;
use crate::executor::condition::question;
use crate::executor::condition::top_level;
use crate::executor::condition::Operator;
use crate::executor::condition::Question;
use crate::executor::like::is_like;
use crate::executor::select::last_keyword;
use crate::executor::select::order_of;
use crate::storage::schema::Column;
use crate::storage::schema::Record;
use crate::text::find;
use crate::text::find_keyword;
use crate::text::is_ascii_char;
use crate::text::is_ascii_text;
use crate::text::is_space;
use crate::text::lemma_ascii_bytes;
use crate::text::occurs_at;
use crate::text::rfind;
use crate::text::starts_with;
use crate::text::take_bytes;
use crate::text::trim;
use crate::text::upper;
use crate::texts::law_case;
use crate::texts::law_find;
use crate::texts::law_find_keyword;
use crate::texts::law_find_last;
use crate::texts::law_same_case;
use crate::texts::law_trim;
use crate::texts::law_trim_char;
use crate::texts::law_trim_none;
use crate::texts::same_but_case;
use crate::texts::stands_at;
use crate::types::shown;

verus! {

// ---------------------------------------------------------------------------
// Names
// ---------------------------------------------------------------------------

/// A letter, a digit or an underscore.
pub open spec fn is_name_char(c: char) -> bool {
    ('a' <= c && c <= 'z') || ('A' <= c && c <= 'Z') || ('0' <= c && c <= '9') || c == '_'
}

/// A name of letters, digits and underscores.
pub open spec fn is_name(s: Seq<char>) -> bool {
    s.len() > 0 && forall|i: int| 0 <= i < s.len() ==> is_name_char(#[trigger] s[i])
}

/// The upper case of a name's character is one too.
pub proof fn lemma_name_char(c: char)
    requires
        is_name_char(c),
    ensures
        is_ascii_char(c),
        !is_space(c),
        is_name_char(crate::text::ascii_upper(c)),
{
}

pub proof fn lemma_name(s: Seq<char>)
    requires
        is_name(s),
    ensures
        is_ascii_text(s),
        is_name(upper(s)),
        upper(s).len() == s.len(),
        trim(s) == s,
{
    assert forall|i: int| 0 <= i < s.len() implies is_ascii_char(#[trigger] s[i]) by {
        lemma_name_char(s[i]);
    }
    law_case(s);
    assert forall|i: int| 0 <= i < s.len() implies is_name_char(#[trigger] upper(s)[i]) by {
        lemma_name_char(s[i]);
    }
    lemma_name_char(s[0]);
    lemma_name_char(s[s.len() - 1]);
    law_trim_none(s);
}

pub proof fn lemma_ascii_concat(a: Seq<char>, b: Seq<char>)
    requires
        is_ascii_text(a),
        is_ascii_text(b),
    ensures
        is_ascii_text(a + b),
        upper(a + b) == upper(a) + upper(b),
{
    let s = a + b;
    assert forall|i: int| 0 <= i < s.len() implies is_ascii_char(#[trigger] s[i]) by {
        if i < a.len() {
            assert(s[i] == a[i]);
        } else {
            assert(s[i] == b[i - a.len()]);
        }
    }
    assert(upper(s) =~= upper(a) + upper(b));
}

// ---------------------------------------------------------------------------
// One condition
// ---------------------------------------------------------------------------

/// A character of an operator.
pub open spec fn is_sign(c: char) -> bool {
    c == '<' || c == '>' || c == '=' || c == '!'
}

/// A text without the characters of operators.
pub open spec fn no_signs(s: Seq<char>) -> bool {
    forall|i: int| 0 <= i < s.len() ==> !is_sign(#[trigger] s[i])
}

/// The condition that compares a column with a literal.
pub open spec fn comparison(column: Seq<char>, op: Operator, value: Seq<char>) -> Seq<char> {
    column + seq![' '] + op.text() + seq![' '] + value
}

pub proof fn lemma_sign_texts()
    ensures
        ">="@ == seq!['>', '='],
        "<="@ == seq!['<', '='],
        "!="@ == seq!['!', '='],
        "="@ == seq!['='],
        ">"@ == seq!['>'],
        "<"@ == seq!['<'],
{
    reveal_strlit(">=");
    reveal_strlit("<=");
    reveal_strlit("!=");
    reveal_strlit("=");
    reveal_strlit(">");
    reveal_strlit("<");
    assert(">="@ =~= seq!['>', '=']);
    assert("<="@ =~= seq!['<', '=']);
    assert("!="@ =~= seq!['!', '=']);
    assert("="@ =~= seq!['=']);
    assert(">"@ =~= seq!['>']);
    assert("<"@ =~= seq!['<']);
}

/// Before an operator in the order of search no other is found where it stands.
proof fn lemma_other_operator(column: Seq<char>, op: Operator, value: Seq<char>, k: int)
    requires
        is_name(column),
        no_signs(value),
        0 <= k < operators().len(),
        forall|j: int| 0 <= j <= k ==> #[trigger] operators()[j] != op,
    ensures
        find(comparison(column, op, value), operators()[k].text()) is None,
{
    let t = comparison(column, op, value);
    let p = operators()[k].text();
    let h = column.len() as int + 1;
    lemma_sign_texts();
    law_find(t, p);
    assert(operators()[k] != op);
    if k >= 1 {
        assert(operators()[0] != op);
    }
    if k >= 2 {
        assert(operators()[1] != op);
    }
    if k >= 3 {
        assert(operators()[2] != op);
    }
    if k >= 4 {
        assert(operators()[3] != op);
    }
    assert forall|i: int| !#[trigger] stands_at(t, p, i) by {
        if stands_at(t, p, i) {
            let w = t.subrange(i, i + p.len());
            assert(w[0] == t[i] && w[0] == p[0]);
            assert(is_sign(t[i]));
            if i < column.len() {
                assert(t[i] == column[i]);
                assert(is_name_char(column[i]));
            } else if i >= h + op.text().len() + 1 {
                assert(t[i] == value[i - (h + op.text().len() + 1)]);
            }
            assert(h <= i < h + op.text().len());
            assert(t[h] == op.text()[0]);
            assert(t[h + op.text().len()] == ' ');
            if op.text().len() == 2 {
                assert(t[h + 1] == op.text()[1]);
            }
            if p.len() == 2 {
                assert(w[1] == t[i + 1] && w[1] == p[1]);
            }
        }
    }
}

proof fn lemma_sign(op: Operator)
    ensures
        op.text().len() > 0,
        is_sign(op.text()[0]),
{
    lemma_sign_texts();
}

/// No sign stands before the space behind the column.
proof fn lemma_sign_before(column: Seq<char>, p: Seq<char>, rest: Seq<char>, f: int)
    requires
        is_name(column),
        p.len() > 0,
        is_sign(p[0]),
        f <= column.len(),
    ensures
        !stands_at(column + seq![' '] + p + rest, p, f),
{
    let t = column + seq![' '] + p + rest;
    if stands_at(t, p, f) {
        let w = t.subrange(f, f + p.len());
        assert(w[0] == t[f]);
        if f < column.len() {
            assert(t[f] == column[f]);
            assert(is_name_char(column[f]));
        } else {
            assert(t[f] == ' ');
        }
    }
}

/// The first place of a sign is behind the column.
proof fn lemma_sign_place(column: Seq<char>, p: Seq<char>, rest: Seq<char>)
    requires
        is_name(column),
        p.len() > 0,
        is_sign(p[0]),
    ensures
        find(column + seq![' '] + p + rest, p) == Some((column.len() + 1) as int),
{
    let t = column + seq![' '] + p + rest;
    let h = column.len() as int + 1;
    assert(t.subrange(h, h + p.len()) =~= p);
    assert(stands_at(t, p, h));
    assert forall|f: int| f < h implies !#[trigger] stands_at(t, p, f) by {
        lemma_sign_before(column, p, rest, f);
    }
    lemma_found(t, p, h);
}

/// The first place at which a pattern stands is where it is found.
pub proof fn lemma_found(t: Seq<char>, p: Seq<char>, h: int)
    requires
        stands_at(t, p, h),
        forall|f: int| f < h ==> !#[trigger] stands_at(t, p, f),
    ensures
        find(t, p) == Some(h),
{
    law_find(t, p);
    let f = find(t, p);
    assert(f is Some);
    assert(stands_at(t, p, f->0));
}

proof fn lemma_own_operator(column: Seq<char>, op: Operator, value: Seq<char>)
    requires
        is_name(column),
        is_ascii_text(value),
        no_signs(value),
    ensures
        find(comparison(column, op, value), op.text()) == Some((column.len() + 1) as int),
        char_before(comparison(column, op, value), column.len() as int + 1) == ' ',
{
    let t = comparison(column, op, value);
    let p = op.text();
    let h = column.len() as int + 1;
    lemma_sign(op);
    let rest = seq![' '] + value;
    lemma_sign_place(column, p, rest);
    assert(t =~= column + seq![' '] + p + rest);
    lemma_comparison_ascii(column, op, value);
    lemma_ascii_bytes(t, h);
    assert(t[h - 1] == ' ');
}

proof fn lemma_comparison_ascii(column: Seq<char>, op: Operator, value: Seq<char>)
    requires
        is_name(column),
        is_ascii_text(value),
    ensures
        is_ascii_text(comparison(column, op, value)),
        upper(comparison(column, op, value)) == upper(column) + seq![' '] + op.text() + seq![' ']
            + upper(value),
{
    lemma_name(column);
    lemma_sign_texts();
    let p = op.text();
    let b = seq![' '];
    assert(is_ascii_text(b));
    assert(upper(b) =~= b);
    assert(is_ascii_text(p));
    assert(upper(p) =~= p);
    lemma_ascii_concat(column, b);
    lemma_ascii_concat(column + b, p);
    lemma_ascii_concat(column + b + p, b);
    lemma_ascii_concat(column + b + p + b, value);
}

/// A name followed by a space does not begin a call.
proof fn lemma_no_call(column: Seq<char>, rest: Seq<char>)
    requires
        is_name(column),
    ensures
        !starts_with(column + seq![' '] + rest, "VECTOR_SIMILARITY("@),
{
    reveal_strlit("VECTOR_SIMILARITY(");
    let w = "VECTOR_SIMILARITY("@;
    let t = column + seq![' '] + rest;
    if starts_with(t, w) {
        let x = t.subrange(0, w.len() as int);
        let n = column.len() as int;
        if n < w.len() {
            assert(x[n] == t[n] && t[n] == ' ');
            assert(w[n] != ' ') by {
                assert(n < 18);
            }
        } else {
            assert(x[17] == t[17] && t[17] == column[17]);
            assert(is_name_char(column[17]));
        }
    }
}

proof fn lemma_no_like(column: Seq<char>, op: Operator, value: Seq<char>)
    requires
        is_name(column),
        is_ascii_text(value),
        forall|i: int| !#[trigger] stands_at(upper(value), "LIKE"@, i),
    ensures
        find_keyword(comparison(column, op, value), " LIKE "@) is None,
{
    reveal_strlit("LIKE");
    reveal_strlit(" LIKE ");
    let t = comparison(column, op, value);
    let w = " LIKE "@;
    lemma_comparison_ascii(column, op, value);
    lemma_name(column);
    lemma_sign_texts();
    law_case(value);
    let u = upper(t);
    law_find_keyword(t, w);
    let n = column.len();
    let m = op.text().len();
    assert forall|i: int| !#[trigger] stands_at(u, w, i) by {
        if stands_at(u, w, i) {
            let x = u.subrange(i, i + 6);
            assert(x[0] == u[i] && x[1] == u[i + 1]);
            if i < n {
                assert(u[i] == upper(column)[i]);
                assert(is_name_char(upper(column)[i]));
            } else if i == n {
                assert(u[i + 1] == op.text()[0]);
            } else if i < n + 1 + m {
                assert(u[i] == op.text()[i - n - 1]);
            } else {
                let k = i - (n + m + 1);
                assert(upper(value).subrange(k, k + 4) =~= "LIKE"@) by {
                    assert forall|j: int| 0 <= j < 4 implies upper(value)[k + j] == "LIKE"@[j] by {
                        assert(x[j + 1] == u[i + 1 + j]);
                        assert(u[i + 1 + j] == upper(value)[k + j]);
                    }
                }
                assert(stands_at(upper(value), "LIKE"@, k));
            }
        }
    }
}

/// A column, an operator and a literal, with spaces between them, are the comparison of the
/// column with what the literal stands for.
pub proof fn law_comparison(column: Seq<char>, op: Operator, value: Seq<char>)
    requires
        is_name(column),
        is_ascii_text(value),
        no_signs(value),
        value.len() > 0,
        !is_space(value[0]),
        !is_space(value.last()),
        forall|i: int| !#[trigger] stands_at(upper(value), "LIKE"@, i),
    ensures
        question(comparison(column, op, value)) == (Question::Compare {
            column,
            op,
            value: literal(value),
        }),
{
    let t = comparison(column, op, value);
    lemma_name(column);
    lemma_name_char(column[0]);
    lemma_comparison_ascii(column, op, value);
    assert(t[0] == column[0]);
    assert(t.last() == value.last());
    law_trim_none(t);
    let u = upper(t);
    assert(u =~= upper(column) + seq![' '] + (op.text() + seq![' '] + upper(value)));
    lemma_no_call(upper(column), op.text() + seq![' '] + upper(value));
    lemma_no_like(column, op, value);
    lemma_own_operator(column, op, value);
    lemma_search(column, op, value);
    let h = column.len() as int + 1;
    let e = Seq::<char>::empty();
    let b = seq![' '];
    assert(t.take(h) =~= e + column + b);
    law_trim(e, column, b);
    law_trim_char(e, column, e, '`');
    assert(e + column + e =~= column);
    assert(is_name_char(column[0]) && is_name_char(column[column.len() - 1]));
    assert(t.skip(h + op.text().len()) =~= b + value + e);
    law_trim(b, value, e);
}

/// The search finds the operator that stands there.
proof fn lemma_search(column: Seq<char>, op: Operator, value: Seq<char>)
    requires
        is_name(column),
        is_ascii_text(value),
        no_signs(value),
    ensures
        condition_operator(comparison(column, op, value), 0) == Some(
            (op, (column.len() + 1) as int),
        ),
{
    lemma_own_operator(column, op, value);
    reveal_with_fuel(condition_operator, 7);
    let s = operators();
    if op != s[0] {
        lemma_other_operator(column, op, value, 0);
        if op != s[1] {
            lemma_other_operator(column, op, value, 1);
            if op != s[2] {
                lemma_other_operator(column, op, value, 2);
                if op != s[3] {
                    lemma_other_operator(column, op, value, 3);
                    if op != s[4] {
                        lemma_other_operator(column, op, value, 4);
                        assert(op == s[5]);
                    }
                }
            }
        }
    }
}

/// A row meets a comparison exactly where it has a value in the column for which the
/// operator holds.
pub proof fn law_comparison_meets(
    column: Seq<char>,
    op: Operator,
    value: Seq<char>,
    r: Record,
    c: Seq<Column>,
)
    requires
        is_name(column),
        is_ascii_text(value),
        no_signs(value),
        value.len() > 0,
        !is_space(value[0]),
        !is_space(value.last()),
        forall|i: int| !#[trigger] stands_at(upper(value), "LIKE"@, i),
    ensures
        meets(question(comparison(column, op, value)), r, c) <==> column_value(r, c, column)
            is Some && op.holds(compared(column_value(r, c, column)->0, literal(value))),
{
    law_comparison(column, op, value);
}

/// A column, `LIKE` in either case, and a pattern in quotes ask for the texts that match the
/// pattern.
pub proof fn law_like_condition(column: Seq<char>, like: Seq<char>, pattern: Seq<char>)
    requires
        is_name(column),
        same_but_case(like, "LIKE"@),
        is_ascii_text(pattern),
        pattern.len() > 0 ==> pattern[0] != '\'' && pattern.last() != '\'',
    ensures
        question(
            column + seq![' '] + like + seq![' '] + (seq!['\''] + pattern + seq!['\'']),
        ) == (Question::Like { column, pattern }),
{
    reveal_strlit("LIKE");
    reveal_strlit(" LIKE ");
    let b = seq![' '];
    let q = seq!['\''];
    let p = q + pattern + q;
    let t = column + b + like + b + p;
    let w = " LIKE "@;
    lemma_name(column);
    lemma_name_char(column[0]);
    assert(t[0] == column[0]);
    assert(t.last() == '\'');
    law_trim_none(t);
    law_same_case(like, "LIKE"@);
    law_case("LIKE"@);
    assert(upper("LIKE"@) =~= "LIKE"@) by {
        assert forall|i: int| 0 <= i < 4 implies upper("LIKE"@)[i] == "LIKE"@[i] by {
            assert(upper("LIKE"@)[i] as u32 == "LIKE"@[i] as u32);
        }
    }
    assert(is_ascii_text(b) && is_ascii_text(q));
    assert(upper(b) =~= b);
    lemma_ascii_concat(q, pattern);
    lemma_ascii_concat(q + pattern, q);
    lemma_ascii_concat(column, b);
    lemma_ascii_concat(column + b, like);
    lemma_ascii_concat(column + b + like, b);
    lemma_ascii_concat(column + b + like + b, p);
    let u = upper(t);
    let n = column.len() as int;
    assert(u =~= upper(column) + b + ("LIKE"@ + b + upper(p)));
    lemma_no_call(upper(column), "LIKE"@ + b + upper(p));
    law_find_keyword(t, w);
    assert(u.subrange(n, n + 6) =~= w);
    assert(stands_at(u, w, n));
    let f = find_keyword(t, w)->0;
    if f < n {
        let x = u.subrange(f, f + 6);
        assert(x[0] == u[f] && x[0] == ' ');
        assert(u[f] == upper(column)[f]);
        assert(is_name_char(upper(column)[f]));
    }
    assert(f == n);
    assert(t.take(n) =~= column);
    let e = Seq::<char>::empty();
    assert(t.skip(n + 6) =~= p);
    law_trim_none(p);
    law_trim_char(q, pattern, q, '\'');
}

// ---------------------------------------------------------------------------
// AND and OR
// ---------------------------------------------------------------------------

/// A text without parentheses.
pub open spec fn no_parentheses(s: Seq<char>) -> bool {
    forall|i: int| 0 <= i < s.len() ==> #[trigger] s[i] != '(' && s[i] != ')'
}

/// Taking parts from a place on is taking the parts of what is left there.
proof fn lemma_parts_shift(s: Seq<char>, w: Seq<char>, k: int, start: int, i: int, depth: nat)
    requires
        0 <= k <= s.len(),
        0 <= start <= i,
    ensures
        parts_from(s, w, start + k, i + k, depth) == parts_from(s.skip(k), w, start, i, depth),
    decreases s.len() - k - i,
{
    let t = s.skip(k);
    if i >= t.len() || w.len() == 0 {
        if start < t.len() {
            assert(s.subrange(start + k, s.len() as int) =~= t.subrange(start, t.len() as int));
        }
    } else {
        assert(s[i + k] == t[i]);
        assert(occurs_at(s, w, i + k) == occurs_at(t, w, i)) by {
            if i + w.len() <= t.len() {
                assert(s.subrange(i + k, i + k + w.len()) =~= t.subrange(i, i + w.len()));
            }
        }
        if t[i] == '(' {
            lemma_parts_shift(s, w, k, start, i + 1, depth + 1);
        } else if t[i] == ')' && depth > 0 {
            lemma_parts_shift(s, w, k, start, i + 1, (depth - 1) as nat);
        } else if depth == 0 && occurs_at(t, w, i) {
            lemma_parts_shift(s, w, k, i + w.len(), i + w.len(), 0);
            assert(s.subrange(start + k, i + k) =~= t.subrange(start, i));
        } else {
            lemma_parts_shift(s, w, k, start, i + 1, depth);
        }
    }
}

/// Without parentheses and without the word, a text is passed over.
proof fn lemma_parts_plain(s: Seq<char>, w: Seq<char>, start: int, i: int, to: int, depth: nat)
    requires
        0 <= start <= i <= to <= s.len(),
        w.len() > 0,
        forall|j: int| i <= j < to ==> #[trigger] s[j] != '(' && s[j] != ')',
        depth == 0 ==> forall|j: int| i <= j < to ==> !#[trigger] occurs_at(s, w, j),
    ensures
        parts_from(s, w, start, i, depth) == parts_from(s, w, start, to, depth),
    decreases to - i,
{
    if i < to {
        assert(s[i] != '(' && s[i] != ')');
        if depth == 0 {
            assert(!occurs_at(s, w, i));
        }
        lemma_parts_plain(s, w, start, i + 1, to, depth);
    }
}

/// At the first place of the word the text before it is a part, and the rest is parted.
proof fn lemma_parts_at(a: Seq<char>, w: Seq<char>, b: Seq<char>)
    requires
        w.len() > 0,
        w[0] != '(' && w[0] != ')',
        parts_from(a + w + b, w, 0, 0, 0) == parts_from(a + w + b, w, 0, a.len() as int, 0),
    ensures
        top_level(a + w + b, w) == nonblank_parts(seq![a]) + top_level(b, w),
{
    let s = a + w + b;
    let n = a.len() as int;
    assert(s.subrange(n, n + w.len()) =~= w);
    assert(s[n] == w[0]);
    assert(occurs_at(s, w, n));
    assert(s.subrange(0, n) =~= a);
    let m = n + w.len();
    lemma_parts_shift(s, w, m, 0, 0, 0);
    assert(s.skip(m) =~= b);
    lemma_nonblank_concat(seq![a], parts_from(b, w, 0, 0, 0));
}

proof fn lemma_nonblank_concat(p: Seq<Seq<char>>, q: Seq<Seq<char>>)
    ensures
        nonblank_parts(p + q) == nonblank_parts(p) + nonblank_parts(q),
    decreases q.len(),
{
    if q.len() == 0 {
        assert(p + q =~= p);
        assert(nonblank_parts(p) + nonblank_parts(q) =~= nonblank_parts(p));
    } else {
        assert((p + q).drop_last() =~= p + q.drop_last());
        lemma_nonblank_concat(p, q.drop_last());
        assert(nonblank_parts(p + q) =~= nonblank_parts(p) + nonblank_parts(q));
    }
}

proof fn lemma_nonblank_one(a: Seq<char>)
    ensures
        nonblank_parts(seq![a]) == if trim(a).len() > 0 {
            seq![trim(a)]
        } else {
            Seq::empty()
        },
{
    reveal_with_fuel(nonblank_parts, 2);
    assert(seq![a].drop_last() =~= Seq::<Seq<char>>::empty());
    if trim(a).len() > 0 {
        assert(nonblank_parts(seq![a]) =~= seq![trim(a)]);
    }
}

/// A condition without parentheses falls into what stands before the first joining word and
/// the parts of what stands behind it.
pub proof fn law_parts(a: Seq<char>, w: Seq<char>, b: Seq<char>)
    requires
        w.len() > 0,
        w[0] != '(' && w[0] != ')',
        no_parentheses(a),
        trim(a).len() > 0,
        forall|i: int| i < a.len() ==> !#[trigger] stands_at(a + w, w, i),
    ensures
        top_level(a + w + b, w) == seq![trim(a)] + top_level(b, w),
{
    let s = a + w + b;
    let n = a.len() as int;
    assert forall|j: int| 0 <= j < n implies !#[trigger] occurs_at(s, w, j) by {
        if occurs_at(s, w, j) {
            assert((a + w).subrange(j, j + w.len()) =~= s.subrange(j, j + w.len()));
            assert(stands_at(a + w, w, j));
        }
    }
    assert forall|j: int| 0 <= j < n implies #[trigger] s[j] != '(' && s[j] != ')' by {
        assert(s[j] == a[j]);
    }
    lemma_parts_plain(s, w, 0, 0, n, 0);
    lemma_parts_at(a, w, b);
    lemma_nonblank_one(a);
}

/// A condition in which the joining word does not stand is one part.
pub proof fn law_one_part(a: Seq<char>, w: Seq<char>)
    requires
        w.len() > 0,
        no_parentheses(a),
        trim(a).len() > 0,
        forall|i: int| !#[trigger] stands_at(a, w, i),
    ensures
        top_level(a, w) == seq![trim(a)],
{
    assert forall|j: int| 0 <= j < a.len() implies !#[trigger] occurs_at(a, w, j) by {
        assert(!stands_at(a, w, j));
    }
    lemma_parts_plain(a, w, 0, 0, a.len() as int, 0);
    crate::text::lemma_trim_len(a);
    assert(a.subrange(0, a.len() as int) =~= a);
    lemma_nonblank_one(a);
}

/// What stands in parentheses is not parted, whatever it holds.
pub proof fn law_parenthesized(x: Seq<char>, w: Seq<char>, b: Seq<char>)
    requires
        w.len() > 0,
        w[0] != '(' && w[0] != ')',
        no_parentheses(x),
    ensures
        top_level(seq!['('] + x + seq![')'], w) == seq![seq!['('] + x + seq![')']],
        top_level(seq!['('] + x + seq![')'] + w + b, w) == seq![seq!['('] + x + seq![')']]
            + top_level(b, w),
{
    let a = seq!['('] + x + seq![')'];
    law_trim_none(a);
    lemma_nonblank_one(a);
    lemma_inside(x, w, Seq::empty());
    assert(a + Seq::<char>::empty() =~= a);
    assert(a.subrange(0, a.len() as int) =~= a);
    lemma_inside(x, w, w + b);
    assert(a + (w + b) =~= a + w + b);
    lemma_parts_at(a, w, b);
}

proof fn lemma_inside(x: Seq<char>, w: Seq<char>, rest: Seq<char>)
    requires
        w.len() > 0,
        no_parentheses(x),
    ensures
        ({
            let s = seq!['('] + x + seq![')'] + rest;
            parts_from(s, w, 0, 0, 0) == parts_from(s, w, 0, (x.len() + 2) as int, 0)
        }),
{
    let s = seq!['('] + x + seq![')'] + rest;
    assert(s[0] == '(');
    let n = (x.len() + 1) as int;
    assert forall|j: int| 1 <= j < n implies #[trigger] s[j] != '(' && s[j] != ')' by {
        assert(s[j] == x[j - 1]);
    }
    lemma_parts_plain(s, w, 0, 1, n, 1);
    assert(s[n] == ')');
}

/// `a AND b` asks for both, and `a OR b` has both as branches.
pub proof fn law_and_or(a: Seq<char>, b: Seq<char>, r: Record, c: Seq<Column>)
    requires
        no_parentheses(a),
        no_parentheses(b),
        trim(a) == a,
        trim(b) == b,
        a.len() > 0,
        b.len() > 0,
        !a.contains(' ') || forall|i: int|
            i < a.len() ==> !#[trigger] stands_at(a + " AND "@, " AND "@, i) && !stands_at(
                a + " OR "@,
                " OR "@,
                i,
            ),
        forall|i: int| !#[trigger] stands_at(b, " AND "@, i),
        forall|i: int| !#[trigger] stands_at(b, " OR "@, i),
    ensures
        meets_all(and_parts(a + " AND "@ + b), r, c) <==> meets(question(a), r, c) && meets(
            question(b),
            r,
            c,
        ),
        or_parts(a + " OR "@ + b) == seq![a, b],
{
    reveal_strlit(" AND ");
    reveal_strlit(" OR ");
    let (v, w) = (" AND "@, " OR "@);
    assert forall|i: int| i < a.len() implies !#[trigger] stands_at(a + v, v, i) by {
        if stands_at(a + v, v, i) && !a.contains(' ') {
            let x = (a + v).subrange(i, i + v.len());
            assert(x[0] == (a + v)[i] && (a + v)[i] == a[i]);
            assert(a.contains(a[i]));
        }
    }
    assert forall|i: int| i < a.len() implies !#[trigger] stands_at(a + w, w, i) by {
        if stands_at(a + w, w, i) {
            if !a.contains(' ') {
                let x = (a + w).subrange(i, i + w.len());
                assert(x[0] == (a + w)[i] && (a + w)[i] == a[i]);
                assert(a.contains(a[i]));
            } else {
                assert(!stands_at(a + v, v, i));
            }
        }
    }
    law_parts(a, v, b);
    law_one_part(b, v);
    law_parts(a, w, b);
    law_one_part(b, w);
    assert(seq![a] + seq![b] =~= seq![a, b]);
    let p = and_parts(a + v + b);
    assert(p == seq![a, b]);
    assert(p[0] == a && p[1] == b);
    if meets(question(a), r, c) && meets(question(b), r, c) {
        assert forall|i: int| 0 <= i < p.len() implies meets(
            question(#[trigger] p[i]),
            r,
            c,
        ) by {
            assert(i == 0 || i == 1);
        }
    }
}

// ---------------------------------------------------------------------------
// ORDER BY
// ---------------------------------------------------------------------------

/// `ORDER BY name` and `ORDER BY name ASC` order upwards, `ORDER BY name DESC` downwards,
/// whatever the case of the words.
pub proof fn law_order_clause(name: Seq<char>, asc: Seq<char>, desc: Seq<char>)
    requires
        is_name(name),
        same_but_case(asc, "ASC"@),
        same_but_case(desc, "DESC"@),
    ensures
        order_of(name) == (name, false),
        order_of(name + seq![' '] + asc) == (name, false),
        order_of(name + seq![' '] + desc) == (name, true),
{
    reveal_strlit("ASC");
    reveal_strlit("DESC");
    reveal_strlit(" ASC");
    reveal_strlit(" DESC");
    lemma_name(name);
    lemma_no_word(name, " DESC"@);
    lemma_no_word(name, " ASC"@);
    assert(" ASC"@ =~= seq![' '] + "ASC"@);
    assert(" DESC"@ =~= seq![' '] + "DESC"@);
    lemma_direction(name, asc, "ASC"@, " ASC"@, " DESC"@);
    lemma_direction(name, desc, "DESC"@, " DESC"@, " ASC"@);
}

proof fn lemma_no_word(name: Seq<char>, w: Seq<char>)
    requires
        is_name(name),
        w.len() > 0,
        w[0] == ' ',
    ensures
        last_keyword(name, w) is None,
{
    lemma_name(name);
    let u = upper(name);
    law_find_last(u, w);
    assert forall|i: int| !#[trigger] stands_at(u, w, i) by {
        if stands_at(u, w, i) {
            let x = u.subrange(i, i + w.len());
            assert(x[0] == u[i]);
            assert(is_name_char(u[i]));
        }
    }
}

proof fn lemma_direction(
    name: Seq<char>,
    word: Seq<char>,
    plain: Seq<char>,
    own: Seq<char>,
    other: Seq<char>,
)
    requires
        is_name(name),
        same_but_case(word, plain),
        own == seq![' '] + plain,
        plain.len() > 0,
        forall|i: int| 0 <= i < plain.len() ==> 'A' <= #[trigger] plain[i] && plain[i] <= 'Z',
        other.len() >= 2,
        other[0] == ' ',
        other[1] != plain[0],
    ensures
        ({
            let t = name + seq![' '] + word;
            &&& trim(t) == t
            &&& last_keyword(t, own) == Some(name.len() as int)
            &&& last_keyword(t, other) is None
            &&& trim(take_bytes(t, name.len() as int)) == name
        }),
{
    let b = seq![' '];
    let t = name + b + word;
    let n = name.len() as int;
    lemma_name(name);
    lemma_name_char(name[0]);
    law_same_case(word, plain);
    law_case(plain);
    assert(upper(plain) =~= plain) by {
        assert forall|i: int| 0 <= i < plain.len() implies upper(plain)[i] == plain[i] by {
            assert('A' <= plain[i] && plain[i] <= 'Z');
            assert(upper(plain)[i] as u32 == plain[i] as u32);
        }
    }
    assert(is_ascii_text(b));
    assert(upper(b) =~= b);
    lemma_ascii_concat(name, b);
    lemma_ascii_concat(name + b, word);
    let u = upper(t);
    assert(u == upper(name) + b + plain);
    assert(t[0] == name[0]);
    assert(word[word.len() - 1] == word[word.len() - 1]);
    assert(t.last() == word[word.len() - 1]);
    assert('A' <= plain[plain.len() - 1] && plain[plain.len() - 1] <= 'Z');
    assert(!is_space(t.last()));
    law_trim_none(t);
    law_find_last(u, own);
    assert(u.subrange(n, n + own.len()) =~= own);
    assert(stands_at(u, own, n));
    assert forall|i: int| i != n && 0 <= i < u.len() implies u[i] != ' ' by {
        if i < n {
            assert(u[i] == upper(name)[i]);
            assert(is_name_char(upper(name)[i]));
        } else {
            assert(u[i] == plain[i - n - 1]);
            assert('A' <= plain[i - n - 1]);
        }
    }
    let f = rfind(u, own)->0;
    assert(stands_at(u, own, f));
    assert(u.subrange(f, f + own.len())[0] == u[f]);
    assert(f == n);
    lemma_ascii_bytes(u, n);
    lemma_ascii_bytes(t, n);
    law_find_last(u, other);
    assert forall|i: int| !#[trigger] stands_at(u, other, i) by {
        if stands_at(u, other, i) {
            let x = u.subrange(i, i + other.len());
            assert(x[0] == u[i] && x[1] == u[i + 1]);
            assert(i == n);
            assert(u[n + 1] == plain[0]);
        }
    }
    assert(t.take(n) =~= name);
}

// ---------------------------------------------------------------------------
// The value of a column
// ---------------------------------------------------------------------------

/// The value of a row in a column is the one at the column's place.
pub proof fn law_column_value(r: Record, c: Seq<Column>, i: int)
    requires
        0 <= i < c.len(),
        !c[i].name.contains('.'),
        forall|j: int, k: int|
            0 <= j < k < c.len() ==> (#[trigger] c[j]).name != (#[trigger] c[k]).name,
    ensures
        c[i].index < r.values.len() ==> column_value(r, c, c[i].name) == Some(
            r.values[c[i].index as int],
        ),
        c[i].index >= r.values.len() ==> column_value(r, c, c[i].name) is None,
{
    crate::executor::answers::law_resolve(c, c[i].name, c[i].name);
}

/// A row meets a `LIKE` exactly where its value in the column, as it is shown, matches the
/// pattern; a vector matches none.
pub proof fn law_like_meets(
    like: Seq<char>,
    pattern: Seq<char>,
    r: Record,
    c: Seq<Column>,
    i: int,
)
    requires
        same_but_case(like, "LIKE"@),
        is_ascii_text(pattern),
        pattern.len() > 0 ==> pattern[0] != '\'' && pattern.last() != '\'',
        0 <= i < c.len(),
        is_name(c[i].name),
        forall|j: int, k: int|
            0 <= j < k < c.len() ==> (#[trigger] c[j]).name != (#[trigger] c[k]).name,
        c[i].index < r.values.len(),
    ensures
        meets(
            question(
                c[i].name + seq![' '] + like + seq![' '] + (seq!['\''] + pattern + seq!['\'']),
            ),
            r,
            c,
        ) <==> !(r.values[c[i].index as int] is Vector) && is_like(
            shown(r.values[c[i].index as int]),
            pattern,
        ),
{
    law_like_condition(c[i].name, like, pattern);
    assert(!c[i].name.contains('.')) by {
        if c[i].name.contains('.') {
            let j = choose|j: int| 0 <= j < c[i].name.len() && c[i].name[j] == '.';
            assert(is_name_char(c[i].name[j]));
        }
    }
    law_column_value(r, c, i);
}

// ---------------------------------------------------------------------------
// Operators behind words
// ---------------------------------------------------------------------------

/// The only sign of a text is found, and no other operator is.
proof fn lemma_one_sign(name: Seq<char>, op: Operator, value: Seq<char>, other: Operator)
    requires
        is_name(name),
        no_signs(value),
        op == Operator::Equal || op == Operator::Greater || op == Operator::Less,
    ensures
        find(name + op.text() + value, other.text()) == (if other == op {
            Some(name.len() as int)
        } else {
            None
        }),
{
    lemma_sign_texts();
    let p = op.text();
    let q = other.text();
    let t = name + p + value;
    let n = name.len() as int;
    assert(t[n] == p[0]);
    assert forall|i: int| #[trigger] stands_at(t, q, i) implies i == n && q == p by {
        let x = t.subrange(i, i + q.len());
        assert(x[0] == t[i] && x[0] == q[0]);
        if i < n {
            assert(t[i] == name[i]);
            assert(is_name_char(name[i]));
        } else if i > n {
            assert(t[i] == value[i - n - 1]);
        }
        if q.len() == 2 {
            assert(x[1] == t[i + 1] && x[1] == q[1]);
            assert(t[n + 1] == value[0]);
        }
        assert(q =~= p);
    }
    if other == op {
        assert(t.subrange(n, n + 1) =~= p);
        assert(stands_at(t, p, n));
        assert forall|f: int| f < n implies !#[trigger] stands_at(t, p, f) by {}
        lemma_found(t, p, n);
    } else {
        assert(q != p) by {
            assert(q.len() == 1 && p.len() == 1 ==> q[0] != p[0]);
        }
        law_find(t, q);
        assert forall|i: int| !#[trigger] stands_at(t, q, i) by {
            if stands_at(t, q, i) {
                assert(q == p);
            }
        }
    }
}

/// A text that begins with a name and a sign does not begin a call.
proof fn lemma_no_call_sign(name: Seq<char>, sign: char, rest: Seq<char>)
    requires
        is_name(name),
        is_sign(sign),
    ensures
        !starts_with(name + seq![sign] + rest, "VECTOR_SIMILARITY("@),
{
    reveal_strlit("VECTOR_SIMILARITY(");
    let w = "VECTOR_SIMILARITY("@;
    let t = name + seq![sign] + rest;
    if starts_with(t, w) {
        let x = t.subrange(0, w.len() as int);
        let n = name.len() as int;
        if n < w.len() {
            assert(x[n] == t[n] && t[n] == sign);
            assert(!is_sign(w[n])) by {
                assert(n < 18);
            }
        } else {
            assert(x[17] == t[17] && t[17] == name[17]);
            assert(is_name_char(name[17]));
        }
    }
}

proof fn lemma_no_like_sign(name: Seq<char>, sign: char, value: Seq<char>)
    requires
        is_name(name),
        is_sign(sign),
        is_ascii_text(value),
        forall|i: int| !#[trigger] stands_at(upper(value), "LIKE"@, i),
    ensures
        is_ascii_text(name + seq![sign] + value),
        upper(name + seq![sign] + value) == upper(name) + seq![sign] + upper(value),
        find_keyword(name + seq![sign] + value, " LIKE "@) is None,
{
    reveal_strlit("LIKE");
    reveal_strlit(" LIKE ");
    let b = seq![sign];
    let t = name + b + value;
    let w = " LIKE "@;
    lemma_name(name);
    assert(is_ascii_text(b));
    assert(upper(b) =~= b);
    lemma_ascii_concat(name, b);
    lemma_ascii_concat(name + b, value);
    law_case(value);
    let u = upper(t);
    let n = name.len() as int;
    law_find_keyword(t, w);
    assert forall|i: int| !#[trigger] stands_at(u, w, i) by {
        if stands_at(u, w, i) {
            let x = u.subrange(i, i + 6);
            assert(x[0] == u[i]);
            if i < n {
                assert(u[i] == upper(name)[i]);
                assert(is_name_char(upper(name)[i]));
            } else if i > n {
                let k = i - n;
                assert(upper(value).subrange(k, k + 4) =~= "LIKE"@) by {
                    assert forall|j: int| 0 <= j < 4 implies upper(value)[k + j] == "LIKE"@[j] by {
                        assert(x[j + 1] == u[i + 1 + j]);
                        assert(u[i + 1 + j] == upper(value)[k + j]);
                    }
                }
                assert(stands_at(upper(value), "LIKE"@, k));
            }
        }
    }
}

/// An operator that stands right behind a word is not taken for one: a condition without a
/// space before its `=`, `<` or `>` cannot be read, and no row meets it.
pub proof fn law_operator_behind_word(
    name: Seq<char>,
    op: Operator,
    value: Seq<char>,
    r: Record,
    c: Seq<Column>,
)
    requires
        is_name(name),
        op == Operator::Equal || op == Operator::Greater || op == Operator::Less,
        is_ascii_text(value),
        no_signs(value),
        value.len() > 0,
        !is_space(value.last()),
        forall|i: int| !#[trigger] stands_at(upper(value), "LIKE"@, i),
    ensures
        question(name + op.text() + value) == Question::Unreadable,
        !meets(question(name + op.text() + value), r, c),
{
    lemma_sign_texts();
    let p = op.text();
    let sign = p[0];
    let t = name + p + value;
    assert(p =~= seq![sign]);
    lemma_name(name);
    lemma_name_char(name[0]);
    assert(t[0] == name[0]);
    assert(t.last() == value.last());
    law_trim_none(t);
    lemma_no_like_sign(name, sign, value);
    lemma_no_call_sign(upper(name), sign, upper(value));
    let n = name.len() as int;
    lemma_ascii_bytes(t, n);
    assert(t[n - 1] == name[n - 1]);
    assert(is_name_char(name[n - 1]));
    assert(char_before(t, n) == name[n - 1]);
    let o = operators();
    lemma_one_sign(name, op, value, o[0]);
    lemma_one_sign(name, op, value, o[1]);
    lemma_one_sign(name, op, value, o[2]);
    lemma_one_sign(name, op, value, o[3]);
    lemma_one_sign(name, op, value, o[4]);
    lemma_one_sign(name, op, value, o[5]);
    reveal_with_fuel(condition_operator, 7);
    assert(condition_operator(t, 0) is None);
}

} // verus!
