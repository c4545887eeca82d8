//! Conditions: what `WHERE` keeps of the rows of a table.

use vstd::prelude::*;

use super::column::find_column;
use super::column::position_of_column;
use super::column::resolve;
use super::column::resolve_column;
use super::column::Naming;
use super::compare::compare_values;
use super::compare::compared;
use super::compare::literal;
use super::compare::parse_literal;
use super::compare::Comparison;
use super::like::is_like;
use super::like::like_match;
use crate::decimal::parse_double;
use crate::decimal::read_double;
use crate::double::signed;
use crate::double::Double;
use crate::sql::list::close_index;
use crate::sql::list::closing;
use crate::sql::list::items_of;
use crate::sql::list::list_items;
use crate::sql::list::ListKind;
use crate::storage::codec::numbers_of;
use crate::storage::codec::parse_numbers;
use crate::storage::schema::columns_view;
use crate::storage::schema::rows_view;
use crate::storage::schema::Column;
use crate::storage::schema::ColumnInfo;
use crate::storage::schema::Record;
use crate::storage::schema::Row;
use crate::text::after_bytes;
use crate::text::alphanumeric;
use crate::text::byte_len;
use crate::text::bytes_before;
use crate::text::chars_of;
use crate::text::find;
use crate::text::find_keyword;
use crate::text::first_bytes;
use crate::text::has_keyword;
use crate::text::index_of;
use crate::text::is_alphanumeric;
use crate::text::lower;
use crate::text::occurs_at;
use crate::text::position_of;
use crate::text::search_keyword;
use crate::text::skip_bytes;
use crate::text::slice;
use crate::text::split;
use crate::text::stands_at;
use crate::text::starts_with_keyword;
use crate::text::take_bytes;
use crate::text::texts;
use crate::text::to_lower;
use crate::text::trim;
use crate::text::trim_char;
use crate::text::trimmed;
use crate::text::trimmed_of;
use crate::types::cosine;
use crate::types::cosine_similarity;
use crate::types::difference;
use crate::types::shown;
use crate::types::Datum;
use crate::types::Value;

verus! {

// ---------------------------------------------------------------------------
// Operators
// ---------------------------------------------------------------------------

/// A comparison operator.
#[derive(Clone, Copy, Debug, PartialEq, Eq, Structural)]
pub enum Operator {
    GreaterEqual,
    LessEqual,
    NotEqual,
    Equal,
    Greater,
    Less,
}

impl Operator {
    /// How the operator is written.
    pub open spec fn text(self) -> Seq<char> {
        match self {
            Operator::GreaterEqual => ">="@,
            Operator::LessEqual => "<="@,
            Operator::NotEqual => "!="@,
            Operator::Equal => "="@,
            Operator::Greater => ">"@,
            Operator::Less => "<"@,
        }
    }

    /// The operator holds between two values that compare like this. Values that do not
    /// compare are neither less nor greater, and neither equal nor unequal.
    pub open spec fn holds(self, c: Option<Comparison>) -> bool {
        match (self, c) {
            (Operator::GreaterEqual, None) => true,
            (Operator::LessEqual, None) => true,
            (_, None) => false,
            (Operator::GreaterEqual, Some(c)) => c != Comparison::Less,
            (Operator::LessEqual, Some(c)) => c != Comparison::Greater,
            (Operator::NotEqual, Some(c)) => c != Comparison::Equal,
            (Operator::Equal, Some(c)) => c == Comparison::Equal,
            (Operator::Greater, Some(c)) => c == Comparison::Greater,
            (Operator::Less, Some(c)) => c == Comparison::Less,
        }
    }

    /// The operator holds between two doubles. Doubles that differ by less than 10^-10
    /// count as equal; nothing holds of a NaN.
    pub open spec fn holds_of(self, a: Double, b: Double) -> bool {
        let d = difference(a, b);
        let gap = signed(false, d.magnitude());
        match self {
            Operator::GreaterEqual => b.is_less(a) || a.is_equal(b),
            Operator::LessEqual => a.is_less(b) || a.is_equal(b),
            Operator::NotEqual => tolerance().is_less(gap) || tolerance().is_equal(gap),
            Operator::Equal => gap.is_less(tolerance()),
            Operator::Greater => b.is_less(a),
            Operator::Less => a.is_less(b),
        }
    }

    pub(crate) fn chars(self) -> (r: Vec<char>)
        ensures
            r@ == self.text(),
    {
        match self {
            Operator::GreaterEqual => chars_of(">="),
            Operator::LessEqual => chars_of("<="),
            Operator::NotEqual => chars_of("!="),
            Operator::Equal => chars_of("="),
            Operator::Greater => chars_of(">"),
            Operator::Less => chars_of("<"),
        }
    }

    /// Whether the operator holds between two values that compare like this.
    pub fn test(self, c: Option<Comparison>) -> (r: bool)
        ensures
            r == self.holds(c),
    {
        let less: bool = matches!(c, Some(Comparison::Less));
        let equal: bool = matches!(c, Some(Comparison::Equal));
        let greater: bool = matches!(c, Some(Comparison::Greater));
        match self {
            Operator::GreaterEqual => !less,
            Operator::LessEqual => !greater,
            Operator::NotEqual => less || greater,
            Operator::Equal => equal,
            Operator::Greater => greater,
            Operator::Less => less,
        }
    }

    /// Whether the operator holds between two doubles.
    pub fn test_of(self, a: Double, b: Double) -> (r: bool)
        ensures
            r == self.holds_of(a, b),
    {
        let gap = a.plus(b.negate()).absolute();
        let limit = Double { bits: TOLERANCE };
        match self {
            Operator::GreaterEqual => b.less(a) || a.equal(b),
            Operator::LessEqual => a.less(b) || a.equal(b),
            Operator::NotEqual => limit.less(gap) || limit.equal(gap),
            Operator::Equal => gap.less(limit),
            Operator::Greater => b.less(a),
            Operator::Less => a.less(b),
        }
    }
}

/// The bits of 10^-10.
pub const TOLERANCE: u64 = 0x3DDB_7CDF_D9D7_BDBB;

/// How far apart doubles that count as equal may be.
pub open spec fn tolerance() -> Double {
    Double { bits: TOLERANCE }
}

/// The operators, in the order in which they are looked for.
pub open spec fn operators() -> Seq<Operator> {
    seq![
        Operator::GreaterEqual,
        Operator::LessEqual,
        Operator::NotEqual,
        Operator::Equal,
        Operator::Greater,
        Operator::Less,
    ]
}

/// The operators, in the order in which they are looked for.
pub fn all_operators() -> (r: Vec<Operator>)
    ensures
        r@ == operators(),
{
    let r: Vec<Operator> = vec![
        Operator::GreaterEqual,
        Operator::LessEqual,
        Operator::NotEqual,
        Operator::Equal,
        Operator::Greater,
        Operator::Less,
    ];
    assert(r@ =~= operators());
    r
}

/// The character that is taken to stand before an operator at the place `i`: the one
/// whose place is the number of bytes before the operator, less one; a space where
/// there is none.
pub open spec fn char_before(s: Seq<char>, i: int) -> char {
    let n = byte_len(s.take(i)) - 1;
    if 0 <= n < s.len() {
        s[n]
    } else {
        ' '
    }
}

/// The character that is taken to stand before an operator at the place `i`.
pub fn before_operator(s: &Vec<char>, i: usize) -> (r: char)
    requires
        i <= s@.len(),
    ensures
        r == char_before(s@, i as int),
{
    let n: u128 = bytes_before(s, i);
    if n >= 1 && n - 1 < s.len() as u128 {
        s[(n - 1) as usize]
    } else {
        ' '
    }
}

// ---------------------------------------------------------------------------
// Similarity calls
// ---------------------------------------------------------------------------

/// The column and the vector of a call `vector_similarity(column, '[...]')`.
pub open spec fn similarity_call(s: Seq<char>) -> Option<(Seq<char>, Seq<Double>)> {
    let t = trim(s);
    let i = index_of(t, '(');
    if !starts_with_keyword(t, "VECTOR_SIMILARITY("@) || i >= t.len() {
        None
    } else {
        match close_index(t, i + 1, 0) {
            None => None,
            Some(e) => {
                let args = list_items(trim(t.subrange(i + 1, e)), ListKind::Arguments);
                if e == i + 1 || args.len() != 2 {
                    None
                } else {
                    let v = trim_char(trim(args[1]), '\'');
                    match numbers_of(split(trim_char(trim_char(v, '['), ']'), ',')) {
                        None => None,
                        Some(target) => Some((lower(trim(args[0])), target)),
                    }
                }
            },
        }
    }
}

/// Reads a call of `vector_similarity`.
pub fn parse_vector_similarity_call(s: &Vec<char>) -> (r: Option<(Vec<char>, Vec<Double>)>)
    ensures
        match r {
            Some((c, v)) => similarity_call(s@) == Some((c@, v@)),
            None => similarity_call(s@) is None,
        },
{
    let t = trimmed(s);
    let i: usize = position_of(&t, '(');
    if !has_keyword(&t, "VECTOR_SIMILARITY(") || i == t.len() {
        return None;
    }
    let e: usize = match closing(&t, i + 1) {
        Some(e) => e,
        None => {
            return None;
        },
    };
    let args = items_of(&trimmed(&slice(&t, i + 1, e)), ListKind::Arguments);
    assert(texts(args@).len() == args@.len());
    if e == i + 1 || args.len() != 2 {
        return None;
    }
    assert(texts(args@)[0] == args@[0]@ && texts(args@)[1] == args@[1]@);
    let v = trimmed_of(&trimmed(&args[1]), '\'');
    match parse_numbers(&trimmed_of(&trimmed_of(&v, '['), ']')) {
        Some(target) => Some((to_lower(&trimmed(&args[0])), target)),
        None => None,
    }
}

/// The similarity of a row's vector to the target; `None` where the row has no vector
/// in that column.
pub open spec fn row_similarity(
    r: Record,
    columns: Seq<Column>,
    name: Seq<char>,
    target: Seq<Double>,
) -> Option<Double> {
    match find_column(columns, Naming::Exact, name) {
        None => None,
        Some(c) => if c.index < r.values.len() {
            match r.values[c.index as int] {
                Datum::Vector(v) => Some(cosine(v, target)),
                _ => None,
            }
        } else {
            None
        },
    }
}

/// The similarity of a row's vector to the target.
pub fn compute_vector_similarity(
    row: &Row,
    columns: &Vec<ColumnInfo>,
    name: &Vec<char>,
    target: &Vec<Double>,
) -> (r: Option<Double>)
    ensures
        r == row_similarity(row@, columns_view(columns@), name@, target@),
{
    let i: usize = position_of_column(columns, Naming::Exact, name);
    if i == columns.len() {
        return None;
    }
    assert(columns_view(columns@)[i as int] == columns@[i as int]@);
    let k: usize = columns[i].index;
    assert(row@.values.len() == row.values@.len());
    if k >= row.values.len() {
        return None;
    }
    assert(row@.values[k as int] == row.values@[k as int]@);
    match &row.values[k] {
        Value::Vector(v) => Some(cosine_similarity(v, target)),
        _ => None,
    }
}

// ---------------------------------------------------------------------------
// Conditions
// ---------------------------------------------------------------------------

/// What a condition asks of a row.
#[verifier::ext_equal]
pub enum Question {
    Similarity { column: Seq<char>, target: Seq<Double>, op: Operator, threshold: Double },
    Like { column: Seq<char>, pattern: Seq<char> },
    Compare { column: Seq<char>, op: Operator, value: Datum },
    /// Something that cannot be read: no row meets it.
    Unreadable,
}

/// The place behind the parenthesis that closes the first one, from `i` on where
/// `depth` are open.
pub open spec fn call_end(s: Seq<char>, i: int, depth: int) -> Option<int>
    decreases s.len() - i,
{
    if i < 0 || i >= s.len() {
        None
    } else if s[i] == '(' {
        call_end(s, i + 1, depth + 1)
    } else if s[i] == ')' {
        if depth == 1 {
            Some(i + 1)
        } else {
            call_end(s, i + 1, depth - 1)
        }
    } else {
        call_end(s, i + 1, depth)
    }
}

/// The first of the operators, from the one at `k` on, that stands in `s`, and its
/// place.
pub open spec fn first_operator(s: Seq<char>, k: int) -> Option<(Operator, int)>
    decreases operators().len() - k,
{
    if k < 0 || k >= operators().len() {
        None
    } else {
        match find(s, operators()[k].text()) {
            Some(p) => Some((operators()[k], p)),
            None => first_operator(s, k + 1),
        }
    }
}

/// `vector_similarity(column, vector) operator number`
pub open spec fn similarity_question(t: Seq<char>) -> Question {
    match call_end(t, 0, 0) {
        None => Question::Unreadable,
        Some(e) => {
            let rest = trim(t.skip(e));
            match (similarity_call(t.take(e)), first_operator(rest, 0)) {
                (Some((column, target)), Some((op, p))) => match read_double(
                    trim(rest.skip(p + op.text().len())),
                ) {
                    Some(threshold) => Question::Similarity { column, target, op, threshold },
                    None => Question::Unreadable,
                },
                _ => Question::Unreadable,
            }
        },
    }
}

/// The first of the operators, from the one at `k` on, whose first place in `s` is not
/// behind a word.
pub open spec fn condition_operator(s: Seq<char>, k: int) -> Option<(Operator, int)>
    decreases operators().len() - k,
{
    if k < 0 || k >= operators().len() {
        None
    } else {
        match find(s, operators()[k].text()) {
            Some(p) => {
                let c = char_before(s, p);
                if p > 0 && (is_alphanumeric(c) || c == '_' || c == '`') {
                    condition_operator(s, k + 1)
                } else {
                    Some((operators()[k], p))
                }
            },
            None => condition_operator(s, k + 1),
        }
    }
}

/// What a condition asks.
pub open spec fn question(s: Seq<char>) -> Question {
    let t = trim(s);
    if starts_with_keyword(t, "VECTOR_SIMILARITY("@) {
        similarity_question(t)
    } else {
        match find_keyword(t, " LIKE "@) {
            Some(n) => Question::Like {
                column: trim(take_bytes(t, n)),
                pattern: trim_char(trim(skip_bytes(t, n + 6)), '\''),
            },
            None => match condition_operator(t, 0) {
                None => Question::Unreadable,
                Some((op, p)) => Question::Compare {
                    column: trim_char(trim(t.take(p)), '`'),
                    op,
                    value: literal(trim(t.skip(p + op.text().len()))),
                },
            },
        }
    }
}

/// The value of a row in the column that a name stands for.
pub open spec fn column_value(r: Record, columns: Seq<Column>, name: Seq<char>) -> Option<Datum> {
    match resolve(columns, name) {
        None => None,
        Some(c) => if c.index < r.values.len() {
            Some(r.values[c.index as int])
        } else {
            None
        },
    }
}

/// A row meets a condition.
pub open spec fn meets(q: Question, r: Record, columns: Seq<Column>) -> bool {
    match q {
        Question::Similarity { column, target, op, threshold } => match row_similarity(
            r,
            columns,
            column,
            target,
        ) {
            None => false,
            Some(x) => op.holds_of(x, threshold),
        },
        Question::Like { column, pattern } => match column_value(r, columns, column) {
            None => false,
            Some(Datum::Vector(_)) => false,
            Some(d) => is_like(shown(d), pattern),
        },
        Question::Compare { column, op, value } => match column_value(r, columns, column) {
            None => false,
            Some(d) => op.holds(compared(d, value)),
        },
        Question::Unreadable => false,
    }
}

/// A condition that has been read.
pub enum Condition {
    Similarity { column: Vec<char>, target: Vec<Double>, op: Operator, threshold: Double },
    Like { column: Vec<char>, pattern: Vec<char> },
    Compare { column: Vec<char>, op: Operator, value: Value },
    Unreadable,
}

impl View for Condition {
    type V = Question;

    open spec fn view(&self) -> Question {
        match self {
            Condition::Similarity { column, target, op, threshold } => Question::Similarity {
                column: column@,
                target: target@,
                op: *op,
                threshold: *threshold,
            },
            Condition::Like { column, pattern } => Question::Like {
                column: column@,
                pattern: pattern@,
            },
            Condition::Compare { column, op, value } => Question::Compare {
                column: column@,
                op: *op,
                value: value@,
            },
            Condition::Unreadable => Question::Unreadable,
        }
    }
}

fn find_call_end(s: &Vec<char>) -> (r: Option<usize>)
    ensures
        match r {
            Some(e) => call_end(s@, 0, 0) == Some(e as int) && e <= s@.len(),
            None => call_end(s@, 0, 0) is None,
        },
{
    let mut i: usize = 0;
    let mut depth: i128 = 0;
    while i < s.len()
        invariant
            i <= s.len(),
            -i <= depth <= i,
            call_end(s@, 0, 0) == call_end(s@, i as int, depth as int),
        decreases s.len() - i,
    {
        if s[i] == '(' {
            depth += 1;
        } else if s[i] == ')' {
            if depth == 1 {
                return Some(i + 1);
            }
            depth -= 1;
        }
        i += 1;
    }
    None
}

fn find_operator(s: &Vec<char>) -> (r: Option<(Operator, usize)>)
    ensures
        match r {
            Some((op, p)) => first_operator(s@, 0) == Some((op, p as int)) && p + op.text().len()
                <= s@.len(),
            None => first_operator(s@, 0) is None,
        },
{
    let ops = all_operators();
    let mut k: usize = 0;
    while k < ops.len()
        invariant
            k <= ops.len(),
            ops@ == operators(),
            first_operator(s@, 0) == first_operator(s@, k as int),
        decreases ops.len() - k,
    {
        let w = ops[k].chars();
        match crate::text::search_from(s, &w, 0) {
            Some(p) => {
                return Some((ops[k], p));
            },
            None => {},
        }
        k += 1;
    }
    None
}

fn find_condition_operator(s: &Vec<char>) -> (r: Option<(Operator, usize)>)
    ensures
        match r {
            Some((op, p)) => condition_operator(s@, 0) == Some((op, p as int)) && p
                + op.text().len() <= s@.len(),
            None => condition_operator(s@, 0) is None,
        },
{
    let ops = all_operators();
    let mut k: usize = 0;
    while k < ops.len()
        invariant
            k <= ops.len(),
            ops@ == operators(),
            condition_operator(s@, 0) == condition_operator(s@, k as int),
        decreases ops.len() - k,
    {
        let w = ops[k].chars();
        match crate::text::search_from(s, &w, 0) {
            Some(p) => {
                let c: char = before_operator(s, p);
                if !(p > 0 && (alphanumeric(c) || c == '_' || c == '`')) {
                    return Some((ops[k], p));
                }
            },
            None => {},
        }
        k += 1;
    }
    None
}

/// `vector_similarity(column, vector) operator number`
fn parse_similarity(t: &Vec<char>) -> (r: Condition)
    ensures
        r@ == similarity_question(t@),
{
    let e: usize = match find_call_end(t) {
        Some(e) => e,
        None => {
            return Condition::Unreadable;
        },
    };
    proof {
        assert(t@.take(e as int) =~= t@.subrange(0, e as int));
        assert(t@.skip(e as int) =~= t@.subrange(e as int, t@.len() as int));
    }
    let rest = trimmed(&slice(t, e, t.len()));
    let n: usize = rest.len();
    match (parse_vector_similarity_call(&slice(t, 0, e)), find_operator(&rest)) {
        (Some((column, target)), Some((op, p))) => {
            let w = op.chars();
            let from: usize = p + w.len();
            assert(rest@.skip(from as int) =~= rest@.subrange(from as int, rest@.len() as int));
            match parse_double(&trimmed(&slice(&rest, from, n))) {
                Some(threshold) => Condition::Similarity { column, target, op, threshold },
                None => Condition::Unreadable,
            }
        },
        _ => Condition::Unreadable,
    }
}

/// Reads a condition.
pub fn parse_condition(s: &Vec<char>) -> (r: Condition)
    ensures
        r@ == question(s@),
{
    let t = trimmed(s);
    if has_keyword(&t, "VECTOR_SIMILARITY(") {
        return parse_similarity(&t);
    }
    match search_keyword(&t, " LIKE ") {
        Some(n) => {
            return Condition::Like {
                column: trimmed(&first_bytes(&t, n)),
                pattern: trimmed_of(&trimmed(&after_bytes(&t, n + 6)), '\''),
            };
        },
        None => {},
    }
    match find_condition_operator(&t) {
        None => Condition::Unreadable,
        Some((op, p)) => {
            let w = op.chars();
            let from: usize = p + w.len();
            proof {
                assert(t@.take(p as int) =~= t@.subrange(0, p as int));
                assert(t@.skip(from as int) =~= t@.subrange(from as int, t@.len() as int));
            }
            Condition::Compare {
                column: trimmed_of(&trimmed(&slice(&t, 0, p)), '`'),
                op,
                value: parse_literal(&trimmed(&slice(&t, from, t.len()))),
            }
        },
    }
}

/// The value of a row in the column that a name stands for.
pub fn get_column_value<'a>(row: &'a Row, columns: &Vec<ColumnInfo>, name: &Vec<char>) -> (r:
    Option<&'a Value>)
    ensures
        match r {
            Some(v) => column_value(row@, columns_view(columns@), name@) == Some(v@),
            None => column_value(row@, columns_view(columns@), name@) is None,
        },
{
    match resolve_column(columns, name) {
        None => None,
        Some(c) => {
            assert(row@.values.len() == row.values@.len());
            if c.index < row.values.len() {
                assert(row@.values[c.index as int] == row.values@[c.index as int]@);
                Some(&row.values[c.index])
            } else {
                None
            }
        },
    }
}

/// Whether a row meets a condition.
pub fn eval_condition(condition: &Condition, row: &Row, columns: &Vec<ColumnInfo>) -> (r: bool)
    ensures
        r == meets(condition@, row@, columns_view(columns@)),
{
    match condition {
        Condition::Similarity { column, target, op, threshold } => {
            match compute_vector_similarity(row, columns, column, target) {
                None => false,
                Some(x) => op.test_of(x, *threshold),
            }
        },
        Condition::Like { column, pattern } => match get_column_value(row, columns, column) {
            None => false,
            Some(v) => match v {
                Value::Vector(_) => false,
                _ => like_match(&v.to_chars(), pattern),
            },
        },
        Condition::Compare { column, op, value } => match get_column_value(row, columns, column) {
            None => false,
            Some(v) => op.test(compare_values(v, value)),
        },
        Condition::Unreadable => false,
    }
}

// ---------------------------------------------------------------------------
// AND and OR
// ---------------------------------------------------------------------------

/// The parts of `s` from `start` on between the words `w` that stand outside of
/// parentheses, where the characters before `i` have been looked at and `depth`
/// parentheses are open.
pub open spec fn parts_from(
    s: Seq<char>,
    w: Seq<char>,
    start: int,
    i: int,
    depth: nat,
) -> Seq<Seq<char>>
    decreases s.len() - i,
{
    if i < 0 || i >= s.len() || w.len() == 0 {
        if start < s.len() {
            seq![s.subrange(start, s.len() as int)]
        } else {
            Seq::empty()
        }
    } else if s[i] == '(' {
        parts_from(s, w, start, i + 1, depth + 1)
    } else if s[i] == ')' && depth > 0 {
        parts_from(s, w, start, i + 1, (depth - 1) as nat)
    } else if depth == 0 && occurs_at(s, w, i) {
        seq![s.subrange(start, i)] + parts_from(s, w, i + w.len(), i + w.len(), 0)
    } else {
        parts_from(s, w, start, i + 1, depth)
    }
}

/// The texts trimmed, without those of which nothing is left.
pub open spec fn nonblank_parts(p: Seq<Seq<char>>) -> Seq<Seq<char>>
    decreases p.len(),
{
    if p.len() == 0 {
        Seq::empty()
    } else {
        let rest = nonblank_parts(p.drop_last());
        if trim(p.last()).len() > 0 {
            rest.push(trim(p.last()))
        } else {
            rest
        }
    }
}

/// The parts of `s` between the words `w` that stand outside of parentheses.
pub open spec fn top_level(s: Seq<char>, w: Seq<char>) -> Seq<Seq<char>> {
    nonblank_parts(parts_from(s, w, 0, 0, 0))
}

proof fn lemma_nonblank_push(p: Seq<Seq<char>>, x: Seq<char>)
    ensures
        nonblank_parts(p.push(x)) == (if trim(x).len() > 0 {
            nonblank_parts(p).push(trim(x))
        } else {
            nonblank_parts(p)
        }),
{
    assert(p.push(x).drop_last() =~= p);
}

/// The parts of `s` between the words `w` that stand outside of parentheses.
pub fn split_top_level(s: &Vec<char>, w: &Vec<char>) -> (r: Vec<Vec<char>>)
    requires
        w@.len() > 0,
    ensures
        texts(r@) == top_level(s@, w@),
{
    let mut r: Vec<Vec<char>> = Vec::new();
    let ghost mut raw: Seq<Seq<char>> = Seq::empty();
    let ghost all = parts_from(s@, w@, 0, 0, 0);
    let mut depth: usize = 0;
    let mut start: usize = 0;
    let mut i: usize = 0;
    assert(raw + all =~= all);
    assert(texts(r@) =~= Seq::empty());
    while i < s.len()
        invariant
            start <= i <= s.len(),
            depth <= i,
            w@.len() > 0,
            all == raw + parts_from(s@, w@, start as int, i as int, depth as nat),
            texts(r@) == nonblank_parts(raw),
        decreases s.len() - i,
    {
        if s[i] == '(' {
            depth += 1;
            i += 1;
        } else if s[i] == ')' && depth > 0 {
            depth -= 1;
            i += 1;
        } else if depth == 0 && stands_at(s, w, i) {
            let piece = slice(s, start, i);
            let item = trimmed(&piece);
            proof {
                let rest = parts_from(s@, w@, i + w@.len(), i + w@.len(), 0);
                assert(raw + (seq![piece@] + rest) =~= raw.push(piece@) + rest);
                lemma_nonblank_push(raw, piece@);
                raw = raw.push(piece@);
            }
            if item.len() > 0 {
                let ghost before = r@;
                r.push(item);
                assert(texts(r@) =~= texts(before).push(item@));
            }
            i += w.len();
            start = i;
        } else {
            i += 1;
        }
    }
    if start < s.len() {
        let piece = slice(s, start, s.len());
        let item = trimmed(&piece);
        proof {
            assert(all =~= raw.push(piece@));
            lemma_nonblank_push(raw, piece@);
        }
        if item.len() > 0 {
            let ghost before = r@;
            r.push(item);
            assert(texts(r@) =~= texts(before).push(item@));
        }
    } else {
        assert(all =~= raw);
    }
    r
}

/// A row meets all of the conditions.
pub open spec fn meets_all(conditions: Seq<Seq<char>>, r: Record, columns: Seq<Column>) -> bool {
    forall|i: int|
        0 <= i < conditions.len() ==> meets(question(#[trigger] conditions[i]), r, columns)
}

/// The conditions of one branch of a condition: what `AND` joins.
pub open spec fn and_parts(s: Seq<char>) -> Seq<Seq<char>> {
    top_level(s, " AND "@)
}

/// The branches of a condition: what `OR` joins.
pub open spec fn or_parts(s: Seq<char>) -> Seq<Seq<char>> {
    top_level(s, " OR "@)
}

/// The rows that meet all conditions of a branch.
pub open spec fn branch_rows(rows: Seq<Record>, branch: Seq<char>, columns: Seq<Column>) -> Seq<
    Record,
>
    decreases rows.len(),
{
    if rows.len() == 0 {
        Seq::empty()
    } else {
        let rest = branch_rows(rows.drop_last(), branch, columns);
        if meets_all(and_parts(branch), rows.last(), columns) {
            rest.push(rows.last())
        } else {
            rest
        }
    }
}

/// Rows in the order of their ids, one for each id.
pub open spec fn with_record(rows: Seq<Record>, r: Record) -> Seq<Record>
    decreases rows.len(),
{
    if rows.len() == 0 {
        seq![r]
    } else if rows.last().id == r.id {
        rows
    } else if rows.last().id < r.id {
        rows.push(r)
    } else {
        with_record(rows.drop_last(), r).push(rows.last())
    }
}

/// The rows `found` and `more` in the order of their ids: where two have one id, the
/// first stays.
pub open spec fn with_records(found: Seq<Record>, more: Seq<Record>) -> Seq<Record>
    decreases more.len(),
{
    if more.len() == 0 {
        found
    } else {
        with_record(with_records(found, more.drop_last()), more.last())
    }
}

/// The rows that meet one of the branches, in the order of their ids.
pub open spec fn branches_rows(
    rows: Seq<Record>,
    branches: Seq<Seq<char>>,
    columns: Seq<Column>,
) -> Seq<Record>
    decreases branches.len(),
{
    if branches.len() == 0 {
        Seq::empty()
    } else {
        with_records(
            branches_rows(rows, branches.drop_last(), columns),
            branch_rows(rows, branches.last(), columns),
        )
    }
}

/// The rows that meet a condition, in the order of their ids.
pub open spec fn filtered(rows: Seq<Record>, condition: Seq<char>, columns: Seq<Column>) -> Seq<
    Record,
> {
    branches_rows(rows, or_parts(condition), columns)
}

/// The rows that a statement with an optional condition is about.
pub open spec fn matched(
    rows: Seq<Record>,
    condition: Option<Seq<char>>,
    columns: Seq<Column>,
) -> Seq<Record> {
    match condition {
        Some(c) => filtered(rows, c, columns),
        None => rows,
    }
}

/// Puts a row among rows in the order of their ids, unless one has its id.
fn add_row(rows: &mut Vec<Row>, row: Row)
    ensures
        rows_view(final(rows)@) == with_record(rows_view(old(rows)@), row@),
{
    let ghost all = rows@;
    let mut k: usize = rows.len();
    let ghost mut tail: Seq<Record> = Seq::empty();
    proof {
        assert(all.take(k as int) =~= all);
        assert(with_record(rows_view(all), row@) + tail =~= with_record(rows_view(all), row@));
    }
    while k > 0 && rows[k - 1].id > row.id
        invariant
            k <= rows@.len(),
            rows@ == all,
            with_record(rows_view(all), row@) == with_record(
                rows_view(all.take(k as int)),
                row@,
            ) + tail,
            tail == rows_view(all.skip(k as int)),
        decreases k,
    {
        proof {
            let v = rows_view(all.take(k as int));
            assert(v.last() == all[k - 1]@);
            assert(v.drop_last() =~= rows_view(all.take(k - 1)));
            let w = with_record(v.drop_last(), row@);
            assert(w.push(v.last()) + tail =~= w + (seq![v.last()] + tail));
            assert(rows_view(all.skip(k - 1)) =~= seq![v.last()] + tail);
            tail = seq![v.last()] + tail;
        }
        k -= 1;
    }
    let ghost v = rows_view(all.take(k as int));
    if k > 0 && rows[k - 1].id == row.id {
        proof {
            assert(v.last() == all[k - 1]@);
            assert(v + tail =~= rows_view(all));
        }
        return;
    }
    rows.insert(k, row);
    proof {
        if k > 0 {
            assert(v.last() == all[k - 1]@);
        } else {
            assert(v =~= Seq::empty());
            assert(seq![row@] =~= v.push(row@));
        }
        assert(rows_view(rows@) =~= v.push(row@) + tail);
    }
}

/// A branch of a condition that has been read.
fn parse_branch(branch: &Vec<char>) -> (r: Vec<Condition>)
    ensures
        r@.len() == and_parts(branch@).len(),
        forall|i: int| 0 <= i < r@.len() ==> (#[trigger] r@[i])@ == question(and_parts(branch@)[i]),
{
    let w = chars_of(" AND ");
    proof {
        reveal_strlit(" AND ");
    }
    let parts = split_top_level(branch, &w);
    let ghost t = texts(parts@);
    let mut r: Vec<Condition> = Vec::new();
    let mut i: usize = 0;
    while i < parts.len()
        invariant
            i <= parts.len(),
            t == texts(parts@),
            r@.len() == i,
            forall|j: int| 0 <= j < i ==> (#[trigger] r@[j])@ == question(t[j]),
        decreases parts.len() - i,
    {
        assert(t[i as int] == parts@[i as int]@);
        r.push(parse_condition(&parts[i]));
        i += 1;
    }
    r
}

fn meets_branch(conditions: &Vec<Condition>, row: &Row, columns: &Vec<ColumnInfo>, branch: Ghost<
    Seq<char>,
>) -> (r: bool)
    requires
        conditions@.len() == and_parts(branch@).len(),
        forall|i: int|
            0 <= i < conditions@.len() ==> (#[trigger] conditions@[i])@ == question(
                and_parts(branch@)[i],
            ),
    ensures
        r == meets_all(and_parts(branch@), row@, columns_view(columns@)),
{
    let mut i: usize = 0;
    while i < conditions.len()
        invariant
            i <= conditions.len(),
            conditions@.len() == and_parts(branch@).len(),
            forall|j: int|
                0 <= j < conditions@.len() ==> (#[trigger] conditions@[j])@ == question(
                    and_parts(branch@)[j],
                ),
            forall|j: int|
                0 <= j < i ==> meets(
                    question(#[trigger] and_parts(branch@)[j]),
                    row@,
                    columns_view(columns@),
                ),
        decreases conditions.len() - i,
    {
        if !eval_condition(&conditions[i], row, columns) {
            assert(conditions@[i as int]@ == question(and_parts(branch@)[i as int]));
            return false;
        }
        i += 1;
    }
    true
}

/// The rows that meet a condition, in the order of their ids.
pub fn filter_rows(rows: &Vec<Row>, condition: &str, columns: &Vec<ColumnInfo>) -> (r: Vec<Row>)
    ensures
        rows_view(r@) == filtered(rows_view(rows@), condition@, columns_view(columns@)),
{
    let ghost all = rows_view(rows@);
    let ghost c = columns_view(columns@);
    let w = chars_of(" OR ");
    proof {
        reveal_strlit(" OR ");
    }
    let branches = split_top_level(&chars_of(condition), &w);
    let ghost b = texts(branches@);
    let mut found: Vec<Row> = Vec::new();
    let mut i: usize = 0;
    assert(b.take(0) =~= Seq::empty());
    assert(rows_view(found@) =~= Seq::empty());
    while i < branches.len()
        invariant
            i <= branches.len(),
            b == texts(branches@),
            all == rows_view(rows@),
            c == columns_view(columns@),
            rows_view(found@) == branches_rows(all, b.take(i as int), c),
        decreases branches.len() - i,
    {
        let ghost branch = branches@[i as int]@;
        let ghost base = rows_view(found@);
        let conditions = parse_branch(&branches[i]);
        let mut j: usize = 0;
        assert(all.take(0) =~= Seq::empty());
        while j < rows.len()
            invariant
                j <= rows.len(),
                all == rows_view(rows@),
                c == columns_view(columns@),
                conditions@.len() == and_parts(branch).len(),
                forall|k: int|
                    0 <= k < conditions@.len() ==> (#[trigger] conditions@[k])@ == question(
                        and_parts(branch)[k],
                    ),
                rows_view(found@) == with_records(
                    base,
                    branch_rows(all.take(j as int), branch, c),
                ),
            decreases rows.len() - j,
        {
            proof {
                assert(all.take(j + 1).drop_last() =~= all.take(j as int));
                assert(all.take(j + 1).last() == rows@[j as int]@);
            }
            if meets_branch(&conditions, &rows[j], columns, Ghost(branch)) {
                proof {
                    let m = branch_rows(all.take(j as int), branch, c);
                    assert(m.push(rows@[j as int]@).drop_last() =~= m);
                }
                add_row(&mut found, rows[j].copy());
            }
            j += 1;
        }
        proof {
            assert(all.take(rows@.len() as int) =~= all);
            assert(b.take(i + 1).drop_last() =~= b.take(i as int));
            assert(b.take(i + 1).last() == branch);
        }
        i += 1;
    }
    assert(b.take(branches@.len() as int) =~= b);
    found
}

} // verus!
