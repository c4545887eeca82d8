//! Comparing values, and the literals that they are compared with.

use vstd::prelude::*;

use crate::decimal::parse_double;
use crate::decimal::read_double;
use crate::double::double_of_int;
use crate::double::Double;
use crate::number::parse_i64;
use crate::number::read_i64;
use crate::text::chars_of;
use crate::text::comes_before;
use crate::text::has_char;
use crate::text::is_text;
use crate::text::lower;
use crate::text::same_str;
use crate::text::slice;
use crate::text::string_of;
use crate::text::text_less;
use crate::text::to_lower;
use crate::text::trim;
use crate::text::trimmed;
use crate::types::Datum;
use crate::types::Value;

verus! {

/// How one value compares with another.
#[derive(Clone, Copy, Debug, PartialEq, Eq, Structural)]
pub enum Comparison {
    Less,
    Equal,
    Greater,
}

/// How two whole numbers compare.
pub open spec fn compare_ints(a: int, b: int) -> Comparison {
    if a < b {
        Comparison::Less
    } else if a > b {
        Comparison::Greater
    } else {
        Comparison::Equal
    }
}

/// How two doubles compare; a NaN counts as equal to any.
pub open spec fn compare_doubles(a: Double, b: Double) -> Comparison {
    if a.is_less(b) {
        Comparison::Less
    } else if b.is_less(a) {
        Comparison::Greater
    } else {
        Comparison::Equal
    }
}

/// How two texts compare.
pub open spec fn compare_texts(a: Seq<char>, b: Seq<char>) -> Comparison {
    if text_less(a, b) {
        Comparison::Less
    } else if text_less(b, a) {
        Comparison::Greater
    } else {
        Comparison::Equal
    }
}

/// A boolean as a number.
pub open spec fn bool_int(b: bool) -> int {
    if b {
        1
    } else {
        0
    }
}

/// A boolean as text.
pub open spec fn bool_text(b: bool) -> Seq<char> {
    if b {
        "true"@
    } else {
        "false"@
    }
}

/// How two values compare; `None` where their types have no order between them.
/// Numbers compare as numbers, whole or not; booleans as 0 and 1, or by their names
/// with a text; dates and times as texts.
pub open spec fn compared(a: Datum, b: Datum) -> Option<Comparison> {
    match (a, b) {
        (Datum::Integer(x), Datum::Integer(y)) => Some(compare_ints(x as int, y as int)),
        (Datum::Float(x), Datum::Float(y)) => Some(compare_doubles(x, y)),
        (Datum::Integer(x), Datum::Float(y)) => Some(compare_doubles(double_of_int(x as int), y)),
        (Datum::Float(x), Datum::Integer(y)) => Some(compare_doubles(x, double_of_int(y as int))),
        (Datum::Text(x), Datum::Text(y)) => Some(compare_texts(x, y)),
        (Datum::Boolean(x), Datum::Boolean(y)) => Some(compare_ints(bool_int(x), bool_int(y))),
        (Datum::Boolean(x), Datum::Integer(y)) => Some(compare_ints(bool_int(x), y as int)),
        (Datum::Integer(x), Datum::Boolean(y)) => Some(compare_ints(x as int, bool_int(y))),
        (Datum::Boolean(x), Datum::Text(y)) => Some(compare_texts(bool_text(x), y)),
        (Datum::Text(x), Datum::Boolean(y)) => Some(compare_texts(x, bool_text(y))),
        (Datum::Date(x), Datum::Date(y)) => Some(compare_texts(x, y)),
        (Datum::Time(x), Datum::Time(y)) => Some(compare_texts(x, y)),
        (Datum::Date(x), Datum::Text(y)) => Some(compare_texts(x, y)),
        (Datum::Text(x), Datum::Date(y)) => Some(compare_texts(x, y)),
        (Datum::Time(x), Datum::Text(y)) => Some(compare_texts(x, y)),
        (Datum::Text(x), Datum::Time(y)) => Some(compare_texts(x, y)),
        _ => None,
    }
}

fn integers(a: i64, b: i64) -> (r: Comparison)
    ensures
        r == compare_ints(a as int, b as int),
{
    if a < b {
        Comparison::Less
    } else if a > b {
        Comparison::Greater
    } else {
        Comparison::Equal
    }
}

fn doubles(a: Double, b: Double) -> (r: Comparison)
    ensures
        r == compare_doubles(a, b),
{
    if a.less(b) {
        Comparison::Less
    } else if b.less(a) {
        Comparison::Greater
    } else {
        Comparison::Equal
    }
}

fn strings(a: &str, b: &str) -> (r: Comparison)
    ensures
        r == compare_texts(a@, b@),
{
    let x = chars_of(a);
    let y = chars_of(b);
    if comes_before(&x, &y) {
        Comparison::Less
    } else if comes_before(&y, &x) {
        Comparison::Greater
    } else {
        Comparison::Equal
    }
}

fn number_of_bool(b: bool) -> (r: i64)
    ensures
        r == bool_int(b),
{
    if b {
        1
    } else {
        0
    }
}

fn name_of_bool(b: bool) -> (r: &'static str)
    ensures
        r@ == bool_text(b),
{
    if b {
        "true"
    } else {
        "false"
    }
}

/// How two values compare.
pub fn compare_values(a: &Value, b: &Value) -> (r: Option<Comparison>)
    ensures
        r == compared(a@, b@),
{
    match (a, b) {
        (Value::Integer(x), Value::Integer(y)) => Some(integers(*x, *y)),
        (Value::Float(x), Value::Float(y)) => Some(doubles(*x, *y)),
        (Value::Integer(x), Value::Float(y)) => Some(doubles(Double::from_i64(*x), *y)),
        (Value::Float(x), Value::Integer(y)) => Some(doubles(*x, Double::from_i64(*y))),
        (Value::Text(x), Value::Text(y)) => Some(strings(x.as_str(), y.as_str())),
        (Value::Boolean(x), Value::Boolean(y)) => Some(
            integers(number_of_bool(*x), number_of_bool(*y)),
        ),
        (Value::Boolean(x), Value::Integer(y)) => Some(integers(number_of_bool(*x), *y)),
        (Value::Integer(x), Value::Boolean(y)) => Some(integers(*x, number_of_bool(*y))),
        (Value::Boolean(x), Value::Text(y)) => Some(strings(name_of_bool(*x), y.as_str())),
        (Value::Text(x), Value::Boolean(y)) => Some(strings(x.as_str(), name_of_bool(*y))),
        (Value::Date(x), Value::Date(y)) => Some(strings(x.as_str(), y.as_str())),
        (Value::Time(x), Value::Time(y)) => Some(strings(x.as_str(), y.as_str())),
        (Value::Date(x), Value::Text(y)) => Some(strings(x.as_str(), y.as_str())),
        (Value::Text(x), Value::Date(y)) => Some(strings(x.as_str(), y.as_str())),
        (Value::Time(x), Value::Text(y)) => Some(strings(x.as_str(), y.as_str())),
        (Value::Text(x), Value::Time(y)) => Some(strings(x.as_str(), y.as_str())),
        _ => None,
    }
}

/// The same value of the same type. Numbers that are not whole are the same where
/// they are equal as numbers, so that a NaN is not even the same as itself.
pub open spec fn same_datum(a: Datum, b: Datum) -> bool {
    match (a, b) {
        (Datum::Integer(x), Datum::Integer(y)) => x == y,
        (Datum::Float(x), Datum::Float(y)) => x.is_equal(y),
        (Datum::Text(x), Datum::Text(y)) => x == y,
        (Datum::Boolean(x), Datum::Boolean(y)) => x == y,
        (Datum::Date(x), Datum::Date(y)) => x == y,
        (Datum::Time(x), Datum::Time(y)) => x == y,
        (Datum::Vector(x), Datum::Vector(y)) => x.len() == y.len() && forall|i: int|
            0 <= i < x.len() ==> (#[trigger] x[i]).is_equal(y[i]),
        _ => false,
    }
}

/// Whether two values are the same.
pub fn same_value(a: &Value, b: &Value) -> (r: bool)
    ensures
        r == same_datum(a@, b@),
{
    match (a, b) {
        (Value::Integer(x), Value::Integer(y)) => *x == *y,
        (Value::Float(x), Value::Float(y)) => x.equal(*y),
        (Value::Text(x), Value::Text(y)) => same_str(x.as_str(), y.as_str()),
        (Value::Boolean(x), Value::Boolean(y)) => *x == *y,
        (Value::Date(x), Value::Date(y)) => same_str(x.as_str(), y.as_str()),
        (Value::Time(x), Value::Time(y)) => same_str(x.as_str(), y.as_str()),
        (Value::Vector(x), Value::Vector(y)) => {
            if x.len() != y.len() {
                return false;
            }
            let mut i: usize = 0;
            while i < x.len()
                invariant
                    i <= x.len(),
                    x.len() == y.len(),
                    a@ == Datum::Vector(x@),
                    b@ == Datum::Vector(y@),
                    forall|j: int| 0 <= j < i ==> (#[trigger] x@[j]).is_equal(y@[j]),
                decreases x.len() - i,
            {
                if !x[i].equal(y[i]) {
                    assert(!x@[i as int].is_equal(y@[i as int]));
                    return false;
                }
                i += 1;
            }
            true
        },
        _ => false,
    }
}

/// The value that a literal stands for: a text in quotes, a boolean, a number, or else
/// the text as it is.
pub open spec fn literal(s: Seq<char>) -> Datum {
    let t = trim(s);
    let n = t.len();
    if n >= 2 && ((t[0] == '\'' && t.last() == '\'') || (t[0] == '"' && t.last() == '"')) {
        Datum::Text(t.subrange(1, n - 1))
    } else if lower(t) == "true"@ {
        Datum::Boolean(true)
    } else if lower(t) == "false"@ {
        Datum::Boolean(false)
    } else if t.contains('.') && read_double(t) is Some {
        Datum::Float(read_double(t)->0)
    } else if read_i64(t) is Some {
        Datum::Integer(read_i64(t)->0)
    } else if read_double(t) is Some {
        Datum::Float(read_double(t)->0)
    } else {
        Datum::Text(t)
    }
}

/// Reads a literal.
pub fn parse_literal(s: &Vec<char>) -> (r: Value)
    ensures
        r@ == literal(s@),
{
    let t = trimmed(s);
    let n: usize = t.len();
    if n >= 2 && ((t[0] == '\'' && t[n - 1] == '\'') || (t[0] == '"' && t[n - 1] == '"')) {
        return Value::Text(string_of(&slice(&t, 1, n - 1)));
    }
    let w = to_lower(&t);
    if is_text(&w, "true") {
        return Value::Boolean(true);
    }
    if is_text(&w, "false") {
        return Value::Boolean(false);
    }
    let number = parse_double(&t);
    if has_char(&t, '.') {
        match number {
            Some(x) => {
                return Value::Float(x);
            },
            None => {},
        }
    }
    match parse_i64(&t) {
        Some(k) => {
            return Value::Integer(k);
        },
        None => {},
    }
    match number {
        Some(x) => Value::Float(x),
        None => Value::Text(string_of(&t)),
    }
}

} // verus!
