//! The types of columns and the values that rows hold.

use vstd::prelude::*;

use crate::decimal::debug_double;
use crate::decimal::lemma_decimal_value_bound;
use crate::decimal::push_debug_double;
use crate::decimal::push_double;
use crate::decimal::show_double;
use crate::double::double_of_int;
use crate::double::product_of;
use crate::double::quotient_of;
use crate::double::root_of;
use crate::double::signed;
use crate::double::sum_of;
use crate::double::Double;
use crate::double::SIGN;
use crate::natural::pow10;
use crate::number::all_digits;
use crate::number::decimal_value;
use crate::number::digit_value;
use crate::number::is_digit;
use crate::number::only_digits;
use crate::number::parse_i64;
use crate::number::push_i64;
use crate::number::push_u64;
use crate::number::read_i64;
use crate::number::show_int;
use crate::number::show_nat;
use crate::text::chars_of;
use crate::text::index_of;
use crate::text::is_space;
use crate::text::join;
use crate::text::join2;
use crate::text::joined;
use crate::text::lemma_split_cons;
use crate::text::lemma_split_last;
use crate::text::lemma_text_less_concat;
use crate::text::lemma_text_order;
use crate::text::pieces;
use crate::text::push_chars;
use crate::text::push_str;
use crate::text::split;
use crate::text::string_of;
use crate::text::text_less;
use crate::text::texts;
use crate::text::trim;
use crate::text::trim_char;
use crate::text::trimmed;
use crate::text::trimmed_of;

verus! {

// ---------------------------------------------------------------------------
// Column types and values
// ---------------------------------------------------------------------------

/// The type of a column.
#[derive(Debug, Clone, Copy, PartialEq, Eq, Structural)]
pub enum DataType {
    Integer,
    Float,
    Text,
    Boolean,
    /// A calendar date, `YYYY-MM-DD`.
    Date,
    /// A time of day, `HH:MM:SS`.
    Time,
    /// A vector of the given dimension; any dimension for 0.
    Vector(usize),
}

impl DataType {
    /// The name of the type.
    pub open spec fn shown(self) -> Seq<char> {
        match self {
            DataType::Integer => "INTEGER"@,
            DataType::Float => "FLOAT"@,
            DataType::Text => "TEXT"@,
            DataType::Boolean => "BOOLEAN"@,
            DataType::Date => "DATE"@,
            DataType::Time => "TIME"@,
            DataType::Vector(n) => "VECTOR("@ + show_nat(n as nat) + ")"@,
        }
    }

    /// The name of the type.
    pub fn to_string(&self) -> (r: String)
        ensures
            r@ == self.shown(),
    {
        match self {
            DataType::Integer => "INTEGER".to_owned(),
            DataType::Float => "FLOAT".to_owned(),
            DataType::Text => "TEXT".to_owned(),
            DataType::Boolean => "BOOLEAN".to_owned(),
            DataType::Date => "DATE".to_owned(),
            DataType::Time => "TIME".to_owned(),
            DataType::Vector(n) => {
                let mut out = chars_of("VECTOR(");
                push_u64(&mut out, *n as u64);
                push_str(&mut out, ")");
                string_of(&out)
            },
        }
    }
}

/// A value of a row.
#[derive(Debug, Clone, PartialEq)]
pub enum Value {
    Integer(i64),
    Float(Double),
    Text(String),
    Boolean(bool),
    /// A date that `normalize_date` accepts.
    Date(String),
    /// A time that `normalize_time` accepts.
    Time(String),
    Vector(Vec<Double>),
}

/// What a value holds.
#[verifier::ext_equal]
pub enum Datum {
    Integer(i64),
    Float(Double),
    Text(Seq<char>),
    Boolean(bool),
    Date(Seq<char>),
    Time(Seq<char>),
    Vector(Seq<Double>),
}

impl View for Value {
    type V = Datum;

    open spec fn view(&self) -> Datum {
        match self {
            Value::Integer(n) => Datum::Integer(*n),
            Value::Float(x) => Datum::Float(*x),
            Value::Text(s) => Datum::Text(s@),
            Value::Boolean(b) => Datum::Boolean(*b),
            Value::Date(s) => Datum::Date(s@),
            Value::Time(s) => Datum::Time(s@),
            Value::Vector(v) => Datum::Vector(v@),
        }
    }
}

/// The data that a row of values holds.
pub open spec fn data(v: Seq<Value>) -> Seq<Datum> {
    v.map_values(|x: Value| x@)
}

/// The numbers of a vector as texts.
pub open spec fn shown_numbers(v: Seq<Double>) -> Seq<Seq<char>> {
    v.map_values(|x: Double| show_double(x))
}

/// A value as text.
pub open spec fn shown(d: Datum) -> Seq<char> {
    match d {
        Datum::Integer(n) => show_int(n as int),
        Datum::Float(x) => show_double(x),
        Datum::Text(s) => s,
        Datum::Boolean(b) => if b {
            "true"@
        } else {
            "false"@
        },
        Datum::Date(s) => s,
        Datum::Time(s) => s,
        Datum::Vector(v) => "["@ + join(shown_numbers(v), ","@) + "]"@,
    }
}

/// The numbers of a vector as texts.
pub fn number_texts(v: &Vec<Double>) -> (r: Vec<Vec<char>>)
    ensures
        texts(r@) == shown_numbers(v@),
{
    let mut r: Vec<Vec<char>> = Vec::new();
    let mut i: usize = 0;
    while i < v.len()
        invariant
            i <= v.len(),
            texts(r@) == shown_numbers(v@.take(i as int)),
        decreases v.len() - i,
    {
        let mut t: Vec<char> = Vec::new();
        push_double(&mut t, v[i]);
        let ghost before = r@;
        r.push(t);
        proof {
            assert(t@ =~= show_double(v@[i as int]));
            assert(texts(r@) =~= texts(before).push(t@));
            assert(v@.take(i + 1) =~= v@.take(i as int).push(v@[i as int]));
            assert(shown_numbers(v@.take(i + 1)) =~= shown_numbers(v@.take(i as int)).push(
                show_double(v@[i as int]),
            ));
        }
        i += 1;
    }
    assert(v@.take(v@.len() as int) =~= v@);
    r
}

impl Value {
    /// The value as characters.
    pub fn to_chars(&self) -> (r: Vec<char>)
        ensures
            r@ == shown(self@),
    {
        let mut out: Vec<char> = Vec::new();
        match self {
            Value::Integer(n) => push_i64(&mut out, *n),
            Value::Float(x) => push_double(&mut out, *x),
            Value::Text(s) => push_str(&mut out, s.as_str()),
            Value::Boolean(b) => if *b {
                push_str(&mut out, "true")
            } else {
                push_str(&mut out, "false")
            },
            Value::Date(s) => push_str(&mut out, s.as_str()),
            Value::Time(s) => push_str(&mut out, s.as_str()),
            Value::Vector(v) => {
                push_str(&mut out, "[");
                let numbers = number_texts(v);
                push_chars(&mut out, &joined(&numbers, ","));
                push_str(&mut out, "]");
            },
        }
        assert(out@ =~= shown(self@));
        out
    }

    /// The value as text.
    pub fn to_string(&self) -> (r: String)
        ensures
            r@ == shown(self@),
    {
        string_of(&self.to_chars())
    }

    /// A copy of the value.
    pub fn copy(&self) -> (r: Value)
        ensures
            r@ == self@,
    {
        match self {
            Value::Integer(n) => Value::Integer(*n),
            Value::Float(x) => Value::Float(*x),
            Value::Text(s) => Value::Text(s.as_str().to_owned()),
            Value::Boolean(b) => Value::Boolean(*b),
            Value::Date(s) => Value::Date(s.as_str().to_owned()),
            Value::Time(s) => Value::Time(s.as_str().to_owned()),
            Value::Vector(v) => {
                let mut c: Vec<Double> = Vec::new();
                let mut i: usize = 0;
                while i < v.len()
                    invariant
                        i <= v.len(),
                        c@ == v@.take(i as int),
                    decreases v.len() - i,
                {
                    c.push(v[i]);
                    i += 1;
                }
                assert(c@ =~= v@);
                Value::Vector(c)
            },
        }
    }
}

// ---------------------------------------------------------------------------
// Types and values in error messages
// ---------------------------------------------------------------------------

/// Trusted: what `format!("{:?}", s)` returns for a text.
pub uninterp spec fn quoted(s: Seq<char>) -> Seq<char>;

/// Calls `format!` with the `Debug` of `str`: the text in double quotes, with its
/// special characters escaped. It depends on the text alone; which characters are
/// escaped is not said here.
#[verifier::external_body]
fn std_debug(s: &str) -> (r: String)
    ensures
        r@ == quoted(s@),
{
    format!("{:?}", s)
}

/// A character that stands for itself between double quotes: a printable ASCII one
/// other than the quote and the backslash.
pub open spec fn is_unescaped(c: char) -> bool {
    32 <= (c as u32) && (c as u32) <= 126 && c != '"' && c != '\\'
}

/// A text in an error message: in double quotes as it is, where none of its characters
/// needs escaping.
pub open spec fn text_debug(s: Seq<char>) -> Seq<char> {
    if forall|i: int| 0 <= i < s.len() ==> is_unescaped(#[trigger] s[i]) {
        seq!['"'] + s + seq!['"']
    } else {
        quoted(s)
    }
}

/// A text in an error message.
fn debug_text(s: &str) -> (r: Vec<char>)
    ensures
        r@ == text_debug(s@),
{
    let c = chars_of(s);
    let mut out: Vec<char> = Vec::new();
    out.push('"');
    let mut i: usize = 0;
    while i < c.len()
        invariant
            i <= c@.len(),
            c@ == s@,
            out@ == seq!['"'] + c@.take(i as int),
            forall|j: int| 0 <= j < i ==> is_unescaped(#[trigger] c@[j]),
        decreases c@.len() - i,
    {
        let n: u32 = c[i] as u32;
        if n < 32 || n > 126 || c[i] == '"' || c[i] == '\\' {
            assert(!is_unescaped(s@[i as int]));
            return chars_of(std_debug(s).as_str());
        }
        out.push(c[i]);
        assert(c@.take(i + 1) =~= c@.take(i as int).push(c@[i as int]));
        i += 1;
    }
    out.push('"');
    assert(c@.take(c@.len() as int) =~= s@);
    out
}

/// A column type in an error message.
pub open spec fn type_debug(t: DataType) -> Seq<char> {
    match t {
        DataType::Integer => "Integer"@,
        DataType::Float => "Float"@,
        DataType::Text => "Text"@,
        DataType::Boolean => "Boolean"@,
        DataType::Date => "Date"@,
        DataType::Time => "Time"@,
        DataType::Vector(n) => "Vector("@ + show_nat(n as nat) + ")"@,
    }
}

/// A value in an error message.
pub open spec fn value_debug(d: Datum) -> Seq<char> {
    match d {
        Datum::Integer(n) => "Integer("@ + show_int(n as int) + ")"@,
        Datum::Float(x) => "Float("@ + debug_double(x) + ")"@,
        Datum::Text(s) => "Text("@ + text_debug(s) + ")"@,
        Datum::Boolean(b) => "Boolean("@ + (if b {
            "true"@
        } else {
            "false"@
        }) + ")"@,
        Datum::Date(s) => "Date("@ + text_debug(s) + ")"@,
        Datum::Time(s) => "Time("@ + text_debug(s) + ")"@,
        Datum::Vector(v) => "Vector(["@ + join(
            v.map_values(|x: Double| debug_double(x)),
            ", "@,
        ) + "])"@,
    }
}

/// A column type in an error message.
pub fn debug_type(t: &DataType) -> (r: Vec<char>)
    ensures
        r@ == type_debug(*t),
{
    match t {
        DataType::Integer => chars_of("Integer"),
        DataType::Float => chars_of("Float"),
        DataType::Text => chars_of("Text"),
        DataType::Boolean => chars_of("Boolean"),
        DataType::Date => chars_of("Date"),
        DataType::Time => chars_of("Time"),
        DataType::Vector(n) => {
            let mut out = chars_of("Vector(");
            push_u64(&mut out, *n as u64);
            push_str(&mut out, ")");
            out
        },
    }
}

/// A value in an error message.
pub fn debug_value(v: &Value) -> (r: Vec<char>)
    ensures
        r@ == value_debug(v@),
{
    match v {
        Value::Integer(n) => {
            let mut out = chars_of("Integer(");
            push_i64(&mut out, *n);
            push_str(&mut out, ")");
            out
        },
        Value::Float(x) => {
            let mut out = chars_of("Float(");
            push_debug_double(&mut out, *x);
            push_str(&mut out, ")");
            out
        },
        Value::Text(s) => {
            let mut out = chars_of("Text(");
            push_chars(&mut out, &debug_text(s.as_str()));
            push_str(&mut out, ")");
            out
        },
        Value::Boolean(b) => {
            let mut out = chars_of("Boolean(");
            push_str(
                &mut out,
                if *b {
                    "true"
                } else {
                    "false"
                },
            );
            push_str(&mut out, ")");
            out
        },
        Value::Date(s) => {
            let mut out = chars_of("Date(");
            push_chars(&mut out, &debug_text(s.as_str()));
            push_str(&mut out, ")");
            out
        },
        Value::Time(s) => {
            let mut out = chars_of("Time(");
            push_chars(&mut out, &debug_text(s.as_str()));
            push_str(&mut out, ")");
            out
        },
        Value::Vector(v) => {
            let mut out = chars_of("Vector([");
            let mut numbers: Vec<Vec<char>> = Vec::new();
            let mut i: usize = 0;
            while i < v.len()
                invariant
                    i <= v.len(),
                    texts(numbers@) == v@.take(i as int).map_values(|x: Double| debug_double(x)),
                decreases v.len() - i,
            {
                let mut t: Vec<char> = Vec::new();
                push_debug_double(&mut t, v[i]);
                let ghost before = numbers@;
                numbers.push(t);
                proof {
                    assert(t@ =~= debug_double(v@[i as int]));
                    assert(texts(numbers@) =~= texts(before).push(t@));
                    assert(v@.take(i + 1).map_values(|x: Double| debug_double(x)) =~= v@.take(
                        i as int,
                    ).map_values(|x: Double| debug_double(x)).push(debug_double(v@[i as int])));
                }
                i += 1;
            }
            assert(v@.take(v@.len() as int) =~= v@);
            push_chars(&mut out, &joined(&numbers, ", "));
            push_str(&mut out, "])");
            out
        },
    }
}

/// A copy of a row of values.
pub fn copy_values(v: &Vec<Value>) -> (r: Vec<Value>)
    ensures
        data(r@) == data(v@),
{
    let mut r: Vec<Value> = Vec::new();
    let mut i: usize = 0;
    while i < v.len()
        invariant
            i <= v.len(),
            data(r@) == data(v@.take(i as int)),
        decreases v.len() - i,
    {
        let ghost before = r@;
        r.push(v[i].copy());
        proof {
            assert(data(r@) =~= data(before).push(v@[i as int]@));
            assert(v@.take(i + 1) =~= v@.take(i as int).push(v@[i as int]));
            assert(data(v@.take(i + 1)) =~= data(v@.take(i as int)).push(v@[i as int]@));
        }
        i += 1;
    }
    assert(v@.take(v@.len() as int) =~= v@);
    r
}

// ---------------------------------------------------------------------------
// Dates and times
// ---------------------------------------------------------------------------

/// A leap year of the Gregorian calendar.
pub open spec fn leap(year: int) -> bool {
    (year % 4 == 0 && year % 100 != 0) || year % 400 == 0
}

/// The number of days of a month; 0 where there is no such month.
pub open spec fn month_days(year: int, month: int) -> int {
    if month == 1 || month == 3 || month == 5 || month == 7 || month == 8 || month == 10 || month
        == 12 {
        31
    } else if month == 4 || month == 6 || month == 9 || month == 11 {
        30
    } else if month == 2 {
        if leap(year) {
            29
        } else {
            28
        }
    } else {
        0
    }
}

fn fourth_year(year: i64) -> (r: bool)
    ensures
        r == (year as int % 4 == 0),
{
    year % 4 == 0
}

fn hundredth_year(year: i64) -> (r: bool)
    ensures
        r == (year as int % 100 == 0),
{
    year % 100 == 0
}

fn four_hundredth_year(year: i64) -> (r: bool)
    ensures
        r == (year as int % 400 == 0),
{
    year % 400 == 0
}

/// Whether `year` is a leap year.
pub fn is_leap_year(year: i64) -> (r: bool)
    ensures
        r == leap(year as int),
{
    (fourth_year(year) && !hundredth_year(year)) || four_hundredth_year(year)
}

/// The number of days of a month; 0 where there is no such month.
pub fn days_in_month(year: i64, month: i64) -> (r: i64)
    ensures
        r == month_days(year as int, month as int),
{
    match month {
        1 | 3 | 5 | 7 | 8 | 10 | 12 => 31,
        4 | 6 | 9 | 11 => 30,
        2 => if is_leap_year(year) {
            29
        } else {
            28
        },
        _ => 0,
    }
}

/// The text of a literal: without the white space and then the quotes around it.
pub open spec fn literal_body(input: Seq<char>) -> Seq<char> {
    trim_char(trim(input), '\'')
}

/// A row of exactly `n` digits.
pub open spec fn is_field(s: Seq<char>, n: nat) -> bool {
    s.len() == n && all_digits(s)
}

/// The year, the month and the day of a text of the form `YYYY-MM-DD`.
pub open spec fn date_fields(s: Seq<char>) -> Option<(int, int, int)> {
    let p = split(s, '-');
    if p.len() == 3 && is_field(p[0], 4) && is_field(p[1], 2) && is_field(p[2], 2) {
        Some(
            (
                decimal_value(p[0]) as int,
                decimal_value(p[1]) as int,
                decimal_value(p[2]) as int,
            ),
        )
    } else {
        None
    }
}

/// The date that a literal stands for, or what is wrong with it.
pub open spec fn date_of(input: Seq<char>) -> Result<Seq<char>, Seq<char>> {
    let s = literal_body(input);
    match date_fields(s) {
        None => Err("日期格式应为 YYYY-MM-DD: "@ + input),
        Some((year, month, day)) => if year < 1 {
            Err("日期年份超出范围(1-9999): "@ + input)
        } else if month < 1 || month > 12 {
            Err("日期月份超出范围(1-12): "@ + input)
        } else if day < 1 || day > month_days(year, month) {
            Err(
                "日期 "@ + s + " 的日超出范围(1-"@ + show_int(month_days(year, month)) + "): "@
                    + input,
            )
        } else {
            Ok(s)
        },
    }
}

/// The hour, the minute and the second of a text of the form `HH:MM:SS` or `HH:MM`.
pub open spec fn time_fields(s: Seq<char>) -> Option<(int, int, int)> {
    let p = split(s, ':');
    if (p.len() == 2 || p.len() == 3) && (forall|i: int|
        0 <= i < p.len() ==> is_field(#[trigger] p[i], 2)) {
        Some(
            (
                decimal_value(p[0]) as int,
                decimal_value(p[1]) as int,
                if p.len() == 3 {
                    decimal_value(p[2]) as int
                } else {
                    0
                },
            ),
        )
    } else {
        None
    }
}

/// The time that a literal stands for, or what is wrong with it.
pub open spec fn time_of(input: Seq<char>) -> Result<Seq<char>, Seq<char>> {
    let s = literal_body(input);
    match time_fields(s) {
        None => Err("时间格式应为 HH:MM:SS 或 HH:MM: "@ + input),
        Some((hour, minute, second)) => if hour > 23 {
            Err("时间小时超出范围(0-23): "@ + input)
        } else if minute > 59 {
            Err("时间分钟超出范围(0-59): "@ + input)
        } else if second > 59 {
            Err("时间秒超出范围(0-59): "@ + input)
        } else if split(s, ':').len() == 3 {
            Ok(s)
        } else {
            Ok(s + seq![':', '0', '0'])
        },
    }
}

/// A result with a text on either side.
pub open spec fn text_result(r: Result<String, String>) -> Result<Seq<char>, Seq<char>> {
    match r {
        Ok(s) => Ok(s@),
        Err(e) => Err(e@),
    }
}

proof fn lemma_field_value(s: Seq<char>)
    requires
        all_digits(s),
        s.len() == 2 || s.len() == 4,
    ensures
        s.len() == 2 ==> decimal_value(s) <= 99,
        decimal_value(s) <= 9999,
        read_i64(s) == Some(decimal_value(s) as i64),
{
    assert(is_digit(s[0]));
    lemma_decimal_value_bound(s);
    reveal_with_fuel(pow10, 5);
}

/// Reads a field of two or four digits.
fn field_value(s: &Vec<char>) -> (r: i64)
    requires
        all_digits(s@),
        s@.len() == 2 || s@.len() == 4,
    ensures
        r == decimal_value(s@),
        0 <= r <= 9999,
{
    proof {
        lemma_field_value(s@);
    }
    match parse_i64(s) {
        Some(n) => n,
        None => 0,
    }
}

fn field(s: &Vec<char>, n: usize) -> (r: bool)
    ensures
        r == is_field(s@, n as nat),
{
    s.len() == n && only_digits(s)
}

/// Checks a date literal and returns the date as `YYYY-MM-DD`. Month and day take two
/// digits; a day that the month does not have is an error.
pub fn normalize_date(input: &str) -> (r: Result<String, String>)
    ensures
        text_result(r) == date_of(input@),
{
    let s = trimmed_of(&trimmed(&chars_of(input)), '\'');
    let p = pieces(&s, '-');
    proof {
        assert(texts(p@).len() == p@.len());
        if p@.len() == 3 {
            assert(texts(p@)[0] == p@[0]@ && texts(p@)[1] == p@[1]@ && texts(p@)[2] == p@[2]@);
        }
    }
    if !(p.len() == 3 && field(&p[0], 4) && field(&p[1], 2) && field(&p[2], 2)) {
        return Err(join2("日期格式应为 YYYY-MM-DD: ", input));
    }
    let year: i64 = field_value(&p[0]);
    let month: i64 = field_value(&p[1]);
    let day: i64 = field_value(&p[2]);
    if year < 1 {
        return Err(join2("日期年份超出范围(1-9999): ", input));
    }
    if month < 1 || month > 12 {
        return Err(join2("日期月份超出范围(1-12): ", input));
    }
    let max_day: i64 = days_in_month(year, month);
    if day < 1 || day > max_day {
        let mut out = chars_of("日期 ");
        push_chars(&mut out, &s);
        push_str(&mut out, " 的日超出范围(1-");
        push_i64(&mut out, max_day);
        push_str(&mut out, "): ");
        push_str(&mut out, input);
        return Err(string_of(&out));
    }
    Ok(string_of(&s))
}

/// Checks a time literal and returns the time as `HH:MM:SS`; where the literal has no
/// seconds they are `00`.
pub fn normalize_time(input: &str) -> (r: Result<String, String>)
    ensures
        text_result(r) == time_of(input@),
{
    let s = trimmed_of(&trimmed(&chars_of(input)), '\'');
    let p = pieces(&s, ':');
    let mut ok: bool = p.len() == 2 || p.len() == 3;
    let mut i: usize = 0;
    while i < p.len()
        invariant
            i <= p.len(),
            ok == ((p.len() == 2 || p.len() == 3) && forall|j: int|
                0 <= j < i ==> is_field(#[trigger] p@[j]@, 2)),
        decreases p.len() - i,
    {
        let f: bool = field(&p[i], 2);
        ok = ok && f;
        assert(f == is_field(p@[i as int]@, 2));
        i += 1;
    }
    proof {
        let t = texts(p@);
        assert(t.len() == p@.len());
        assert(ok ==> forall|j: int| 0 <= j < t.len() ==> is_field(#[trigger] t[j], 2));
        if !ok && (p@.len() == 2 || p@.len() == 3) {
            let j = choose|j: int| 0 <= j < p@.len() && !is_field(#[trigger] p@[j]@, 2);
            assert(t[j] == p@[j]@);
        }
        assert forall|j: int| 0 <= j < t.len() implies #[trigger] t[j] == p@[j]@ by {
        }
    }
    if !ok {
        return Err(join2("时间格式应为 HH:MM:SS 或 HH:MM: ", input));
    }
    proof {
        assert(is_field(p@[0]@, 2) && is_field(p@[1]@, 2));
        if p@.len() == 3 {
            assert(is_field(p@[2]@, 2));
        }
    }
    let hour: i64 = field_value(&p[0]);
    let minute: i64 = field_value(&p[1]);
    let second: i64 = if p.len() == 3 {
        field_value(&p[2])
    } else {
        0
    };
    if hour > 23 {
        return Err(join2("时间小时超出范围(0-23): ", input));
    }
    if minute > 59 {
        return Err(join2("时间分钟超出范围(0-59): ", input));
    }
    if second > 59 {
        return Err(join2("时间秒超出范围(0-59): ", input));
    }
    let mut out = s;
    if p.len() == 2 {
        out.push(':');
        out.push('0');
        out.push('0');
        assert(out@ =~= s@ + seq![':', '0', '0']);
    }
    Ok(string_of(&out))
}

/// The value of a row of digits, by its first digit.
proof fn lemma_decimal_front(s: Seq<char>)
    requires
        s.len() > 0,
    ensures
        decimal_value(s) == digit_value(s[0]) * pow10((s.len() - 1) as nat) + decimal_value(
            s.skip(1),
        ),
    decreases s.len(),
{
    let d = digit_value(s[0]);
    if s.len() == 1 {
        assert(s.skip(1) =~= Seq::empty());
        assert(s.drop_last() =~= Seq::empty());
        assert(decimal_value(Seq::empty()) == 0);
        assert(d * pow10(0) == d) by (nonlinear_arith)
            requires
                pow10(0) == 1,
        ;
    } else {
        let t = s.drop_last();
        lemma_decimal_front(t);
        assert(t.skip(1) =~= s.skip(1).drop_last());
        assert(s.skip(1).last() == s.last());
        let p = pow10((s.len() - 2) as nat);
        assert(10 * (d * p) == d * (10 * p)) by (nonlinear_arith);
    }
}

/// Rows of equally many digits are ordered as the numbers that they stand for.
proof fn lemma_digits_order(a: Seq<char>, b: Seq<char>)
    requires
        all_digits(a),
        all_digits(b),
        a.len() == b.len(),
    ensures
        text_less(a, b) <==> decimal_value(a) < decimal_value(b),
        a == b <==> decimal_value(a) == decimal_value(b),
    decreases a.len(),
{
    if a.len() == 0 {
        assert(a =~= b);
    } else {
        lemma_decimal_front(a);
        lemma_decimal_front(b);
        assert(is_digit(a[0]) && is_digit(b[0]));
        let (x, y) = (a.skip(1), b.skip(1));
        assert(all_digits(x)) by {
            assert forall|i: int| 0 <= i < x.len() implies is_digit(#[trigger] x[i]) by {
                assert(x[i] == a[i + 1]);
            }
        }
        assert(all_digits(y)) by {
            assert forall|i: int| 0 <= i < y.len() implies is_digit(#[trigger] y[i]) by {
                assert(y[i] == b[i + 1]);
            }
        }
        lemma_digits_order(x, y);
        lemma_decimal_value_bound(x);
        lemma_decimal_value_bound(y);
        let (d, e) = (digit_value(a[0]), digit_value(b[0]));
        let p = pow10((a.len() - 1) as nat);
        lemma_digit_chars(a[0], b[0]);
        if a[0] == b[0] {
            if x == y {
                assert(a =~= seq![a[0]] + x);
                assert(b =~= seq![b[0]] + y);
            }
        } else if d < e {
            assert(d * p + p <= e * p) by (nonlinear_arith)
                requires
                    d + 1 <= e,
            ;
        } else {
            assert(e * p + p <= d * p) by (nonlinear_arith)
                requires
                    e + 1 <= d,
            ;
        }
    }
}

proof fn lemma_digit_chars(a: char, b: char)
    requires
        is_digit(a),
        is_digit(b),
    ensures
        a == b <==> digit_value(a) == digit_value(b),
        (a as u32) < (b as u32) <==> digit_value(a) < digit_value(b),
{
}

/// A text of three pieces is these pieces with the separator between them.
pub proof fn lemma_three_pieces(s: Seq<char>, c: char)
    requires
        split(s, c).len() == 3,
    ensures
        s == split(s, c)[0] + (seq![c] + (split(s, c)[1] + (seq![c] + split(s, c)[2]))),
{
    let p = split(s, c);
    lemma_split_cons(s, c);
    let t = s.skip(index_of(s, c) + 1);
    lemma_split_cons(t, c);
    let u = t.skip(index_of(t, c) + 1);
    lemma_split_cons(u, c);
    assert(p[1] == p.skip(1)[0]);
    assert(p[2] == p.skip(1).skip(1)[0]);
    assert(s =~= p[0] + (seq![c] + (p[1] + (seq![c] + p[2]))));
}

/// `(a, b, c)` comes before `(x, y, z)`, the first numbers weighing most.
pub open spec fn earlier(a: (int, int, int), b: (int, int, int)) -> bool {
    a.0 < b.0 || (a.0 == b.0 && (a.1 < b.1 || (a.1 == b.1 && a.2 < b.2)))
}

/// Texts of three fields are ordered as their fields.
proof fn lemma_field_order(a: Seq<char>, b: Seq<char>, c: char)
    requires
        split(a, c).len() == 3,
        split(b, c).len() == 3,
        forall|i: int|
            0 <= i < 3 ==> all_digits(#[trigger] split(a, c)[i]) && all_digits(split(b, c)[i])
                && split(a, c)[i].len() == split(b, c)[i].len(),
    ensures
        text_less(a, b) <==> earlier(
            (
                decimal_value(split(a, c)[0]) as int,
                decimal_value(split(a, c)[1]) as int,
                decimal_value(split(a, c)[2]) as int,
            ),
            (
                decimal_value(split(b, c)[0]) as int,
                decimal_value(split(b, c)[1]) as int,
                decimal_value(split(b, c)[2]) as int,
            ),
        ),
{
    let p = split(a, c);
    let q = split(b, c);
    lemma_three_pieces(a, c);
    lemma_three_pieces(b, c);
    let s = seq![c];
    lemma_text_less_concat(p[0], q[0], s + (p[1] + (s + p[2])), s + (q[1] + (s + q[2])));
    lemma_text_less_concat(s, s, p[1] + (s + p[2]), q[1] + (s + q[2]));
    lemma_text_less_concat(p[1], q[1], s + p[2], s + q[2]);
    lemma_text_less_concat(s, s, p[2], q[2]);
    lemma_text_order(s, s);
    lemma_digits_order(p[0], q[0]);
    lemma_digits_order(p[1], q[1]);
    lemma_digits_order(p[2], q[2]);
}

/// Dates as texts are ordered as the days that they stand for.
pub proof fn law_date_order(a: Seq<char>, b: Seq<char>)
    requires
        date_of(a) is Ok,
        date_of(b) is Ok,
    ensures
        date_fields(date_of(a)->Ok_0) is Some,
        date_fields(date_of(b)->Ok_0) is Some,
        text_less(date_of(a)->Ok_0, date_of(b)->Ok_0) <==> earlier(
            date_fields(date_of(a)->Ok_0)->0,
            date_fields(date_of(b)->Ok_0)->0,
        ),
{
    lemma_field_order(date_of(a)->Ok_0, date_of(b)->Ok_0, '-');
}

/// A text that is neither white space nor a quote at either end is its own literal.
proof fn lemma_literal_body(s: Seq<char>)
    requires
        s.len() > 0,
        is_digit(s[0]),
        is_digit(s.last()),
    ensures
        literal_body(s) == s,
{
    assert(!is_space(s[0]) && !is_space(s.last()));
    assert(s[0] != '\'' && s.last() != '\'');
}

/// A date is its own normal form.
pub proof fn law_date_normal(input: Seq<char>)
    requires
        date_of(input) is Ok,
    ensures
        date_of(date_of(input)->Ok_0) == date_of(input),
{
    let s = date_of(input)->Ok_0;
    let p = split(s, '-');
    lemma_three_pieces(s, '-');
    assert(is_digit(p[0][0]));
    assert(is_digit(p[2][1]));
    assert(s[0] == p[0][0]);
    assert(s.last() == p[2][1]);
    lemma_literal_body(s);
}

/// A time of hours and minutes gets seconds that are read as zero.
pub proof fn lemma_time_parts(input: Seq<char>)
    requires
        time_of(input) is Ok,
    ensures
        ({
            let t = time_of(input)->Ok_0;
            let p = split(t, ':');
            &&& p.len() == 3
            &&& is_field(p[0], 2) && is_field(p[1], 2) && is_field(p[2], 2)
            &&& time_fields(t) is Some
            &&& time_fields(t) == time_fields(literal_body(input))
        }),
{
    let s = literal_body(input);
    let t = time_of(input)->Ok_0;
    let q = split(s, ':');
    let p = split(t, ':');
    assert(is_field(q[0], 2) && is_field(q[1], 2));
    if q.len() == 3 {
        assert(is_field(q[2], 2));
    } else {
        let z = seq!['0', '0'];
        assert(t =~= s + seq![':'] + z);
        lemma_split_last(s, z, ':');
        assert(p == q.push(z));
        assert(decimal_value(z) == 0) by {
            assert(z.drop_last() =~= seq!['0']);
            assert(seq!['0'].drop_last() =~= Seq::empty());
            assert(decimal_value(Seq::empty()) == 0);
            assert(decimal_value(seq!['0']) == 0);
        }
        assert(is_field(z, 2));
        assert(p[0] == q[0] && p[1] == q[1] && p[2] == z);
    }
    assert forall|i: int| 0 <= i < p.len() implies is_field(#[trigger] p[i], 2) by {
        assert(i == 0 || i == 1 || i == 2);
    }
}

/// Times as texts are ordered as the moments that they stand for.
pub proof fn law_time_order(a: Seq<char>, b: Seq<char>)
    requires
        time_of(a) is Ok,
        time_of(b) is Ok,
    ensures
        time_fields(time_of(a)->Ok_0) is Some,
        time_fields(time_of(b)->Ok_0) is Some,
        text_less(time_of(a)->Ok_0, time_of(b)->Ok_0) <==> earlier(
            time_fields(time_of(a)->Ok_0)->0,
            time_fields(time_of(b)->Ok_0)->0,
        ),
{
    lemma_time_parts(a);
    lemma_time_parts(b);
    lemma_field_order(time_of(a)->Ok_0, time_of(b)->Ok_0, ':');
}

/// A time is its own normal form.
pub proof fn law_time_normal(input: Seq<char>)
    requires
        time_of(input) is Ok,
    ensures
        time_of(time_of(input)->Ok_0) == time_of(input),
{
    lemma_time_parts(input);
    let t = time_of(input)->Ok_0;
    let p = split(t, ':');
    lemma_three_pieces(t, ':');
    assert(is_digit(p[0][0]));
    assert(is_digit(p[2][1]));
    assert(t[0] == p[0][0]);
    assert(t.last() == p[2][1]);
    lemma_literal_body(t);
}

// ---------------------------------------------------------------------------
// Similarity of vectors
// ---------------------------------------------------------------------------

/// A way to compare two vectors.
#[derive(Debug, Clone, Copy, PartialEq, Eq, Structural)]
pub enum SimilarityMetric {
    Cosine,
    Euclidean,
    DotProduct,
}

/// The similarity of a row to a vector.
#[derive(Debug, Clone, Copy)]
pub struct SimilarityResult {
    pub value: Double,
    pub row_id: u64,
}

/// Zero.
pub open spec fn zero() -> Double {
    Double { bits: 0 }
}

/// Negative zero, which a sum starts from: adding to it changes no number.
pub open spec fn negative_zero() -> Double {
    Double { bits: SIGN }
}

/// The sum of the products of the first `n` pairs of numbers, added from the first
/// on.
pub open spec fn dot(a: Seq<Double>, b: Seq<Double>, n: nat) -> Double
    decreases n,
{
    if n == 0 {
        negative_zero()
    } else {
        sum_of(dot(a, b, (n - 1) as nat), product_of(a[n - 1], b[n - 1]))
    }
}

/// The sum of the squared differences of the first `n` pairs of numbers, added from
/// the first on.
pub open spec fn squared_distance(a: Seq<Double>, b: Seq<Double>, n: nat) -> Double
    decreases n,
{
    if n == 0 {
        negative_zero()
    } else {
        let d = difference(a[n - 1], b[n - 1]);
        sum_of(squared_distance(a, b, (n - 1) as nat), product_of(d, d))
    }
}

/// `a - b`.
pub open spec fn difference(a: Double, b: Double) -> Double {
    sum_of(a, signed(!b.negative(), b.magnitude()))
}

/// The length of a vector.
pub open spec fn norm(a: Seq<Double>) -> Double {
    root_of(dot(a, a, a.len()))
}

/// The cosine of the angle between two vectors; zero where their dimensions differ
/// or one of them is zero or empty.
pub open spec fn cosine(a: Seq<Double>, b: Seq<Double>) -> Double {
    if a.len() != b.len() || a.len() == 0 {
        zero()
    } else if norm(a).is_equal(zero()) || norm(b).is_equal(zero()) {
        zero()
    } else {
        quotient_of(dot(a, b, a.len()), product_of(norm(a), norm(b)))
    }
}

/// One over one plus the distance of two vectors; zero where their dimensions differ
/// or they are empty.
pub open spec fn closeness(a: Seq<Double>, b: Seq<Double>) -> Double {
    if a.len() != b.len() || a.len() == 0 {
        zero()
    } else {
        let distance = root_of(squared_distance(a, b, a.len()));
        quotient_of(double_of_int(1), sum_of(double_of_int(1), distance))
    }
}

fn dot_product(a: &Vec<Double>, b: &Vec<Double>) -> (r: Double)
    requires
        a@.len() == b@.len(),
    ensures
        r == dot(a@, b@, a@.len()),
{
    let mut acc = Double { bits: SIGN };
    let mut i: usize = 0;
    while i < a.len()
        invariant
            i <= a.len(),
            a@.len() == b@.len(),
            acc == dot(a@, b@, i as nat),
        decreases a.len() - i,
    {
        acc = acc.plus(a[i].times(b[i]));
        i += 1;
    }
    acc
}

/// The cosine similarity of two vectors.
pub fn cosine_similarity(a: &Vec<Double>, b: &Vec<Double>) -> (r: Double)
    ensures
        r == cosine(a@, b@),
{
    let zero = Double { bits: 0 };
    if a.len() != b.len() || a.len() == 0 {
        return zero;
    }
    let d = dot_product(a, b);
    let norm_a = dot_product(a, a).root();
    let norm_b = dot_product(b, b).root();
    if norm_a.equal(zero) || norm_b.equal(zero) {
        return zero;
    }
    d.over(norm_a.times(norm_b))
}

/// The similarity of two vectors by their distance.
pub fn euclidean_similarity(a: &Vec<Double>, b: &Vec<Double>) -> (r: Double)
    ensures
        r == closeness(a@, b@),
{
    if a.len() != b.len() || a.len() == 0 {
        return Double { bits: 0 };
    }
    let mut acc = Double { bits: SIGN };
    let mut i: usize = 0;
    while i < a.len()
        invariant
            i <= a.len(),
            a@.len() == b@.len(),
            acc == squared_distance(a@, b@, i as nat),
        decreases a.len() - i,
    {
        let d = a[i].plus(b[i].negate());
        acc = acc.plus(d.times(d));
        i += 1;
    }
    let one = Double::from_i64(1);
    one.over(one.plus(acc.root()))
}

proof fn lemma_product_commutes(a: Double, b: Double)
    ensures
        product_of(a, b) == product_of(b, a),
{
    let x = crate::double::units(a.magnitude());
    let y = crate::double::units(b.magnitude());
    assert(x * y == y * x) by (nonlinear_arith);
}

proof fn lemma_dot_commutes(a: Seq<Double>, b: Seq<Double>, n: nat)
    ensures
        dot(a, b, n) == dot(b, a, n),
    decreases n,
{
    if n > 0 {
        lemma_dot_commutes(a, b, (n - 1) as nat);
        lemma_product_commutes(a[n - 1], b[n - 1]);
    }
}

/// Two vectors are as similar one way round as the other, to the last bit.
pub proof fn law_cosine_symmetric(a: Seq<Double>, b: Seq<Double>)
    ensures
        cosine(a, b) == cosine(b, a),
{
    lemma_dot_commutes(a, b, a.len());
    lemma_product_commutes(norm(a), norm(b));
}

} // verus!
