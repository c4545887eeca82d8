//! What holds of values as they are written in statements, and of their types.

use vstd::prelude::*;

use crate::decimal::read_double;
use crate::decimal::show_double;
use crate::display::law_number_shape;
use crate::double::Double;
use crate::executor::compare::literal;
use crate::number::is_digit;
use crate::number::law_read_shown_i64;
use crate::number::law_read_shown_nat;
use crate::number::lemma_show_nat;
use crate::number::read_i64;
use crate::number::show_int;
use crate::number::show_nat;
use crate::sql::parser::dimension_of;
use crate::sql::parser::type_named;
use crate::storage::codec::fits;
use crate::storage::codec::numbers_of;
use crate::storage::codec::value_read;
use crate::storage::round_trip::all_plain;
use crate::storage::round_trip::is_plain;
use crate::storage::round_trip::lemma_double_back;
use crate::storage::round_trip::lemma_double_text;
use crate::storage::round_trip::lemma_int_text;
use crate::storage::round_trip::lemma_numbers_back;
use crate::storage::round_trip::lemma_plain_text;
use crate::storage::round_trip::storable;
use crate::text::is_space;
use crate::text::join;
use crate::text::lemma_index_of_is;
use crate::text::lemma_join_front;
use crate::text::lemma_split_join;
use crate::text::lower;
use crate::text::split;
use crate::text::starts_with;
use crate::text::trim;
use crate::text::trim_char;
use crate::texts::law_case;
use crate::texts::law_same_case;
use crate::texts::law_trim;
use crate::texts::law_trim_char;
use crate::texts::law_trim_none;
use crate::texts::same_but_case;
use crate::types::shown;
use crate::types::shown_numbers;
use crate::types::DataType;
use crate::types::Datum;

verus! {

// ---------------------------------------------------------------------------
// Types
// ---------------------------------------------------------------------------

/// The type that a value is of.
pub open spec fn is_of(d: Datum, t: DataType) -> bool {
    match t {
        DataType::Integer => d is Integer,
        DataType::Float => d is Float,
        DataType::Text => d is Text,
        DataType::Boolean => d is Boolean,
        DataType::Date => d is Date,
        DataType::Time => d is Time,
        DataType::Vector(n) => d is Vector && d->Vector_0.len() == n,
    }
}

/// A column holds the values of its type and no others, but that a `FLOAT` column holds whole
/// numbers too, and a vector column without a dimension all vectors.
pub proof fn law_fits(t: DataType, d: Datum)
    ensures
        is_of(d, t) ==> fits(t, d),
        fits(t, d) && t == DataType::Float && !is_of(d, t) ==> d is Integer,
        d is Integer ==> fits(DataType::Float, d),
        d is Vector ==> fits(DataType::Vector(0), d),
        fits(t, d) && t != DataType::Float && t != DataType::Vector(0) ==> is_of(d, t),
        fits(DataType::Vector(0), d) ==> d is Vector,
{
}

pub proof fn lemma_prefix(p: Seq<char>, rest: Seq<char>)
    ensures
        starts_with(p + rest, p),
{
    assert((p + rest).subrange(0, p.len() as int) =~= p);
}

pub proof fn lemma_no_prefix(p: Seq<char>, rest: Seq<char>, w: Seq<char>, i: int)
    requires
        0 <= i < p.len(),
        i < w.len(),
        p[i] != w[i],
    ensures
        !starts_with(p + rest, w),
{
    let s = p + rest;
    if starts_with(s, w) {
        assert(s.subrange(0, w.len() as int)[i] == s[i]);
        assert(s[i] == p[i]);
    }
}

/// The words that begin the names of the types.
proof fn lemma_type_words()
    ensures
        "INT"@ == seq!['I', 'N', 'T'],
        "FLOAT"@ == seq!['F', 'L', 'O', 'A', 'T'],
        "DOUBLE"@ == seq!['D', 'O', 'U', 'B', 'L', 'E'],
        "REAL"@ == seq!['R', 'E', 'A', 'L'],
        "TEXT"@ == seq!['T', 'E', 'X', 'T'],
        "VARCHAR"@ == seq!['V', 'A', 'R', 'C', 'H', 'A', 'R'],
        "CHAR"@ == seq!['C', 'H', 'A', 'R'],
        "STRING"@ == seq!['S', 'T', 'R', 'I', 'N', 'G'],
        "BOOL"@ == seq!['B', 'O', 'O', 'L'],
        "DATE"@ == seq!['D', 'A', 'T', 'E'],
        "TIME"@ == seq!['T', 'I', 'M', 'E'],
        "VECTOR"@ == seq!['V', 'E', 'C', 'T', 'O', 'R'],
{
    reveal_strlit("INT");
    reveal_strlit("FLOAT");
    reveal_strlit("DOUBLE");
    reveal_strlit("REAL");
    reveal_strlit("TEXT");
    reveal_strlit("VARCHAR");
    reveal_strlit("CHAR");
    reveal_strlit("STRING");
    reveal_strlit("BOOL");
    reveal_strlit("DATE");
    reveal_strlit("TIME");
    reveal_strlit("VECTOR");
    assert("INT"@ =~= seq!['I', 'N', 'T']);
    assert("FLOAT"@ =~= seq!['F', 'L', 'O', 'A', 'T']);
    assert("DOUBLE"@ =~= seq!['D', 'O', 'U', 'B', 'L', 'E']);
    assert("REAL"@ =~= seq!['R', 'E', 'A', 'L']);
    assert("TEXT"@ =~= seq!['T', 'E', 'X', 'T']);
    assert("VARCHAR"@ =~= seq!['V', 'A', 'R', 'C', 'H', 'A', 'R']);
    assert("CHAR"@ =~= seq!['C', 'H', 'A', 'R']);
    assert("STRING"@ =~= seq!['S', 'T', 'R', 'I', 'N', 'G']);
    assert("BOOL"@ =~= seq!['B', 'O', 'O', 'L']);
    assert("DATE"@ =~= seq!['D', 'A', 'T', 'E']);
    assert("TIME"@ =~= seq!['T', 'I', 'M', 'E']);
    assert("VECTOR"@ =~= seq!['V', 'E', 'C', 'T', 'O', 'R']);
}

/// A type is told by the beginning of its name: whole numbers by `INT`, other numbers by
/// `FLOAT`, `DOUBLE` or `REAL`, texts by `TEXT`, `VARCHAR`, `CHAR` or `STRING`, and the
/// others by `BOOL`, `DATE`, `TIME` and `VECTOR`, whatever follows.
pub proof fn law_type_names(rest: Seq<char>)
    ensures
        type_named("INT"@ + rest) == Ok::<DataType, Seq<char>>(DataType::Integer),
        type_named("FLOAT"@ + rest) == Ok::<DataType, Seq<char>>(DataType::Float),
        type_named("DOUBLE"@ + rest) == Ok::<DataType, Seq<char>>(DataType::Float),
        type_named("REAL"@ + rest) == Ok::<DataType, Seq<char>>(DataType::Float),
        type_named("TEXT"@ + rest) == Ok::<DataType, Seq<char>>(DataType::Text),
        type_named("VARCHAR"@ + rest) == Ok::<DataType, Seq<char>>(DataType::Text),
        type_named("CHAR"@ + rest) == Ok::<DataType, Seq<char>>(DataType::Text),
        type_named("STRING"@ + rest) == Ok::<DataType, Seq<char>>(DataType::Text),
        type_named("BOOL"@ + rest) == Ok::<DataType, Seq<char>>(DataType::Boolean),
        type_named("DATE"@ + rest) == Ok::<DataType, Seq<char>>(DataType::Date),
        type_named("TIME"@ + rest) == Ok::<DataType, Seq<char>>(DataType::Time),
        type_named("VECTOR"@ + rest) is Ok,
        type_named("VECTOR"@ + rest)->Ok_0 is Vector,
{
    lemma_type_words();
    lemma_prefix("INT"@, rest);
    lemma_prefix("FLOAT"@, rest);
    lemma_no_prefix("FLOAT"@, rest, "INT"@, 0);
    lemma_prefix("DOUBLE"@, rest);
    lemma_no_prefix("DOUBLE"@, rest, "INT"@, 0);
    lemma_prefix("REAL"@, rest);
    lemma_no_prefix("REAL"@, rest, "INT"@, 0);
    lemma_prefix("TEXT"@, rest);
    lemma_not_number("TEXT"@, rest, 0);
    lemma_prefix("VARCHAR"@, rest);
    lemma_not_number("VARCHAR"@, rest, 0);
    lemma_prefix("CHAR"@, rest);
    lemma_not_number("CHAR"@, rest, 0);
    lemma_prefix("STRING"@, rest);
    lemma_not_number("STRING"@, rest, 0);
    lemma_prefix("BOOL"@, rest);
    lemma_not_number("BOOL"@, rest, 0);
    lemma_not_text("BOOL"@, rest, 0);
    lemma_prefix("DATE"@, rest);
    lemma_not_number("DATE"@, rest, 1);
    lemma_not_text("DATE"@, rest, 0);
    lemma_no_prefix("DATE"@, rest, "BOOL"@, 0);
    lemma_prefix("TIME"@, rest);
    lemma_not_number("TIME"@, rest, 0);
    lemma_not_text("TIME"@, rest, 1);
    lemma_no_prefix("TIME"@, rest, "BOOL"@, 0);
    lemma_no_prefix("TIME"@, rest, "DATE"@, 0);
    lemma_prefix("VECTOR"@, rest);
    lemma_not_number("VECTOR"@, rest, 0);
    lemma_not_text("VECTOR"@, rest, 1);
    lemma_no_prefix("VECTOR"@, rest, "BOOL"@, 0);
    lemma_no_prefix("VECTOR"@, rest, "DATE"@, 0);
    lemma_no_prefix("VECTOR"@, rest, "TIME"@, 0);
}

proof fn lemma_not_number(p: Seq<char>, rest: Seq<char>, i: int)
    requires
        i == 0 || i == 1,
        i < p.len(),
        i == 0 ==> p[0] != 'I' && p[0] != 'F' && p[0] != 'D' && p[0] != 'R',
        i == 1 ==> p[1] != 'N' && p[1] != 'L' && p[1] != 'O' && p[1] != 'E',
    ensures
        !starts_with(p + rest, "INT"@),
        !starts_with(p + rest, "FLOAT"@),
        !starts_with(p + rest, "DOUBLE"@),
        !starts_with(p + rest, "REAL"@),
{
    lemma_type_words();
    lemma_no_prefix(p, rest, "INT"@, i);
    lemma_no_prefix(p, rest, "FLOAT"@, i);
    lemma_no_prefix(p, rest, "DOUBLE"@, i);
    lemma_no_prefix(p, rest, "REAL"@, i);
}

proof fn lemma_not_text(p: Seq<char>, rest: Seq<char>, i: int)
    requires
        i == 0 || i == 1,
        i < p.len(),
        i == 0 ==> p[0] != 'T' && p[0] != 'V' && p[0] != 'C' && p[0] != 'S',
        i == 1 ==> p[1] != 'E' && p[1] != 'A' && p[1] != 'H' && p[1] != 'T' || (p[0] == 'V'
            && p[1] == 'E'),
    ensures
        !starts_with(p + rest, "TEXT"@),
        !starts_with(p + rest, "VARCHAR"@),
        !starts_with(p + rest, "CHAR"@),
        !starts_with(p + rest, "STRING"@),
{
    lemma_type_words();
    if i == 1 && p[0] == 'V' && p[1] == 'E' {
        lemma_no_prefix(p, rest, "TEXT"@, 0);
        lemma_no_prefix(p, rest, "VARCHAR"@, 1);
        lemma_no_prefix(p, rest, "CHAR"@, 0);
        lemma_no_prefix(p, rest, "STRING"@, 0);
    } else {
        lemma_no_prefix(p, rest, "TEXT"@, i);
        lemma_no_prefix(p, rest, "VARCHAR"@, i);
        lemma_no_prefix(p, rest, "CHAR"@, i);
        lemma_no_prefix(p, rest, "STRING"@, i);
    }
}

/// The name under which a type is shown is a name of the type, dimension and all.
pub proof fn law_type_shown(t: DataType)
    ensures
        type_named(t.shown()) == Ok::<DataType, Seq<char>>(t),
{
    lemma_type_words();
    match t {
        DataType::Integer => {
            reveal_strlit("INTEGER");
            let rest = seq!['E', 'G', 'E', 'R'];
            assert("INTEGER"@ =~= "INT"@ + rest);
            law_type_names(rest);
        },
        DataType::Boolean => {
            reveal_strlit("BOOLEAN");
            let rest = seq!['E', 'A', 'N'];
            assert("BOOLEAN"@ =~= "BOOL"@ + rest);
            law_type_names(rest);
        },
        DataType::Vector(n) => {
            reveal_strlit("VECTOR(");
            reveal_strlit(")");
            let d = show_nat(n as nat);
            let rest = seq!['('] + d + seq![')'];
            assert(t.shown() =~= "VECTOR"@ + rest);
            law_type_names(rest);
            lemma_dimension(n);
            lemma_prefix("VECTOR"@, rest);
        },
        _ => {
            let e = Seq::<char>::empty();
            assert("FLOAT"@ + e =~= "FLOAT"@);
            assert("TEXT"@ + e =~= "TEXT"@);
            assert("DATE"@ + e =~= "DATE"@);
            assert("TIME"@ + e =~= "TIME"@);
            law_type_names(e);
        },
    }
}

/// The dimension stands in the parentheses.
proof fn lemma_dimension(n: usize)
    ensures
        dimension_of("VECTOR"@ + (seq!['('] + show_nat(n as nat) + seq![')'])) == n,
{
    lemma_type_words();
    let d = show_nat(n as nat);
    let t = "VECTOR"@ + (seq!['('] + d + seq![')']);
    lemma_show_nat(n as nat);
    assert forall|j: int| 0 <= j < 6 implies t[j] != '(' by {
        assert(t[j] == "VECTOR"@[j]);
    }
    assert(t[6] == '(');
    lemma_index_of_is(t, '(', 6);
    let inner = t.skip(7);
    assert(inner =~= d + seq![')']);
    assert forall|j: int| 0 <= j < d.len() implies inner[j] != ')' by {
        assert(is_digit(d[j]));
    }
    lemma_index_of_is(inner, ')', d.len() as int);
    assert(inner.take(d.len() as int) =~= d);
    assert(is_digit(d[0]) && is_digit(d[d.len() - 1]));
    law_trim_none(d);
    law_read_shown_nat(n as nat, usize::MAX as nat);
}

// ---------------------------------------------------------------------------
// Reading a value
// ---------------------------------------------------------------------------

/// A value is read back from the way it is shown, for a column of its type. A text must not
/// begin or end with a quote, and a vector must not be empty.
pub proof fn law_read_shown_value(d: Datum, t: DataType)
    requires
        is_of(d, t),
        storable(d),
        d is Text && d->Text_0.len() > 0 ==> d->Text_0[0] != '\'' && d->Text_0.last() != '\'',
        d is Vector ==> d->Vector_0.len() > 0,
    ensures
        value_read(shown(d), t) == Ok::<Datum, Seq<char>>(d),
{
    match d {
        Datum::Integer(n) => {
            law_read_shown_i64(n);
        },
        Datum::Float(x) => {
            lemma_double_back(x);
        },
        Datum::Text(s) => {
            let e = Seq::<char>::empty();
            law_trim_char(e, s, e, '\'');
            assert(e + s + e =~= s);
        },
        Datum::Boolean(b) => {
            reveal_strlit("true");
            reveal_strlit("false");
            law_read_boolean(shown(d), b);
        },
        Datum::Vector(v) => {
            lemma_vector_read(v);
        },
        _ => {},
    }
}

pub proof fn lemma_vector_read(v: Seq<Double>)
    requires
        storable(Datum::Vector(v)),
        v.len() > 0,
    ensures
        numbers_of(split(trim_char(trim_char(shown(Datum::Vector(v)), '['), ']'), ',')) == Some(v),
{
    reveal_strlit("[");
    reveal_strlit("]");
    reveal_strlit(",");
    assert(","@ =~= seq![',']);
    let p = shown_numbers(v);
    let body = join(p, ","@);
    let s = shown(Datum::Vector(v));
    assert(s =~= seq!['['] + body + seq![']']);
    assert forall|i: int| 0 <= i < p.len() implies !(#[trigger] p[i]).contains(',') by {
        lemma_double_text(v[i]);
        lemma_plain_text(show_double(v[i]));
    }
    lemma_join_ends(v);
    let e = Seq::<char>::empty();
    assert(seq!['['] + (body + seq![']']) + e =~= s);
    law_trim_char(seq!['['], body + seq![']'], e, '[');
    assert(e + body + seq![']'] =~= body + seq![']']);
    law_trim_char(e, body, seq![']'], ']');
    lemma_split_join(p, ',');
    lemma_numbers_back(v);
}

/// The first and the last character of a list of numbers belong to numbers.
pub proof fn lemma_join_ends(v: Seq<Double>)
    requires
        v.len() > 0,
    ensures
        ({
            let s = join(shown_numbers(v), ","@);
            s.len() > 0 && is_plain(s[0]) && is_plain(s.last())
        }),
{
    reveal_strlit(",");
    let p = shown_numbers(v);
    let s = join(p, ","@);
    lemma_double_text(v[0]);
    lemma_double_text(v[v.len() - 1]);
    let (a, b) = (show_double(v[0]), show_double(v[v.len() - 1]));
    assert(p[0] == a);
    assert(p[p.len() - 1] == b);
    assert(is_plain(a[0]));
    assert(is_plain(b[b.len() - 1]));
    if v.len() == 1 {
        assert(s == p[0]);
    } else {
        lemma_join_front(p, ","@);
        assert(s[0] == a[0]);
        assert(p.last() == b);
        assert(s.last() == b.last());
    }
}

/// `true` and `1` are read as true, `false` and `0` as false, in quotes or not, whatever the
/// case of the letters.
pub proof fn law_read_boolean(s: Seq<char>, b: bool)
    requires
        same_but_case(
            s,
            if b {
                "true"@
            } else {
                "false"@
            },
        ),
    ensures
        value_read(s, DataType::Boolean) == Ok::<Datum, Seq<char>>(Datum::Boolean(b)),
        value_read(seq!['\''] + s + seq!['\''], DataType::Boolean) == Ok::<Datum, Seq<char>>(
            Datum::Boolean(b),
        ),
        value_read(seq!['0'], DataType::Boolean) == Ok::<Datum, Seq<char>>(Datum::Boolean(false)),
        value_read(seq!['1'], DataType::Boolean) == Ok::<Datum, Seq<char>>(Datum::Boolean(true)),
        literal(s) == Datum::Boolean(b),
{
    reveal_strlit("true");
    reveal_strlit("false");
    reveal_strlit("1");
    reveal_strlit("0");
    let w = if b {
        "true"@
    } else {
        "false"@
    };
    law_same_case(s, w);
    law_case(w);
    assert(lower(w) =~= w) by {
        assert forall|i: int| 0 <= i < w.len() implies lower(w)[i] == w[i] by {
            assert(lower(w)[i] as u32 == w[i] as u32);
        }
    }
    assert(s[0] == s[0] && s[s.len() - 1] == s[s.len() - 1]);
    let e = Seq::<char>::empty();
    let q = seq!['\''];
    law_trim_none(s);
    law_trim_char(e, s, e, '\'');
    assert(e + s + e =~= s);
    law_trim_none(q + s + q);
    law_trim_char(q, s, q, '\'');
    let (x, y) = (seq!['0'], seq!['1']);
    law_trim_none(x);
    law_trim_none(y);
    law_trim_char(e, x, e, '\'');
    law_trim_char(e, y, e, '\'');
    assert(e + x + e =~= x);
    assert(e + y + e =~= y);
    assert(lower(x) =~= "0"@);
    assert(lower(y) =~= "1"@);
    assert("true"@.len() == 4 && "false"@.len() == 5);
    assert("true"@[0] == 't');
    assert("1"@.len() == 1 && "0"@.len() == 1);
    assert("0"@[0] != "1"@[0]);
}

/// A text in quotes is read as the text.
pub proof fn law_read_text(s: Seq<char>)
    requires
        s.len() > 0 ==> s[0] != '\'' && s.last() != '\'',
    ensures
        value_read(seq!['\''] + s + seq!['\''], DataType::Text) == Ok::<Datum, Seq<char>>(
            Datum::Text(s),
        ),
{
    law_trim_char(seq!['\''], s, seq!['\''], '\'');
}

// ---------------------------------------------------------------------------
// Literals
// ---------------------------------------------------------------------------

/// In a condition a text in quotes of either kind, with white space around it or not, stands
/// for the text between the quotes, whatever it looks like.
pub proof fn law_literal_text(a: Seq<char>, s: Seq<char>, b: Seq<char>, quote: char)
    requires
        forall|i: int| 0 <= i < a.len() ==> is_space(#[trigger] a[i]),
        forall|i: int| 0 <= i < b.len() ==> is_space(#[trigger] b[i]),
        quote == '\'' || quote == '"',
    ensures
        literal(a + (seq![quote] + s + seq![quote]) + b) == Datum::Text(s),
{
    let t = seq![quote] + s + seq![quote];
    assert(t[0] == quote);
    assert(t.last() == quote);
    law_trim(a, t, b);
    assert(t.subrange(1, t.len() - 1) =~= s);
}

/// A character of a number is no quote and no letter of `true` or `false` but `f` and `a`.
proof fn lemma_number_literal(s: Seq<char>)
    requires
        s.len() > 0,
        all_plain(s),
        s[0] != 'f',
    ensures
        trim(s) == s,
        s[0] != '\'' && s[0] != '"',
        lower(s) != "true"@,
        lower(s) != "false"@,
{
    lemma_plain_text(s);
    reveal_strlit("true");
    reveal_strlit("false");
    assert(is_plain(s[0]));
    assert forall|i: int| 0 <= i < s.len() implies crate::text::is_ascii_char(#[trigger] s[i]) by {
        assert(is_plain(s[i]));
    }
    law_case(s);
    assert(lower(s)[0] as u32 != 't' as u32);
    assert(lower(s)[0] as u32 != 'f' as u32);
    if lower(s) == "true"@ {
        assert(lower(s)[0] == 't');
    }
    if lower(s) == "false"@ {
        assert(lower(s)[0] == 'f');
    }
}

/// A whole number stands for itself.
pub proof fn law_literal_whole(n: i64)
    ensures
        literal(show_int(n as int)) == Datum::Integer(n),
{
    let s = show_int(n as int);
    lemma_int_text(n as int);
    if n < 0 {
        lemma_show_nat((-(n as int)) as nat);
        assert(s[0] == '-');
        assert forall|i: int| 0 <= i < s.len() implies s[i] != '.' by {
            if i > 0 {
                assert(s[i] == show_nat((-(n as int)) as nat)[i - 1]);
                assert(is_digit(show_nat((-(n as int)) as nat)[i - 1]));
            }
        }
    } else {
        lemma_show_nat(n as nat);
        assert(is_digit(s[0]));
        assert forall|i: int| 0 <= i < s.len() implies s[i] != '.' by {
            assert(is_digit(show_nat(n as nat)[i]));
        }
    }
    lemma_number_literal(s);
    law_read_shown_i64(n);
}

/// A number that is shown with a fraction stands for itself.
pub proof fn law_literal_number(x: Double)
    requires
        x.is_finite(),
        show_double(x).contains('.'),
    ensures
        literal(show_double(x)) == Datum::Float(x),
{
    let s = show_double(x);
    if x.magnitude() == 0 {
        let i = choose|i: int| 0 <= i < s.len() && s[i] == '.';
        assert(s[i] == '0' || s[i] == '-');
    }
    law_number_shape(x);
    lemma_double_text(x);
    lemma_number_literal(show_double(x));
    lemma_double_back(x);
}

// ---------------------------------------------------------------------------
// Showing a value
// ---------------------------------------------------------------------------

/// Texts, dates and times are shown as they are, booleans as `true` and `false`, and a vector
/// as its numbers between brackets.
pub proof fn law_shown(s: Seq<char>, v: Seq<Double>)
    ensures
        shown(Datum::Text(s)) == s,
        shown(Datum::Date(s)) == s,
        shown(Datum::Time(s)) == s,
        shown(Datum::Boolean(true)) == "true"@,
        shown(Datum::Boolean(false)) == "false"@,
        shown(Datum::Vector(v)).len() >= 2,
        shown(Datum::Vector(v))[0] == '[',
        shown(Datum::Vector(v)).last() == ']',
        v.len() > 0 ==> split(
            shown(Datum::Vector(v)).subrange(1, shown(Datum::Vector(v)).len() - 1),
            ',',
        ) == v.map_values(|x: Double| show_double(x)),
{
    reveal_strlit("[");
    reveal_strlit("]");
    reveal_strlit(",");
    assert(","@ =~= seq![',']);
    let p = shown_numbers(v);
    let t = shown(Datum::Vector(v));
    assert(t.subrange(1, t.len() - 1) =~= join(p, ","@));
    if v.len() > 0 {
        assert forall|i: int| 0 <= i < p.len() implies !(#[trigger] p[i]).contains(',') by {
            lemma_double_text(v[i]);
            lemma_plain_text(show_double(v[i]));
        }
        lemma_split_join(p, ',');
        assert(p =~= v.map_values(|x: Double| show_double(x)));
    }
}

/// What is neither in quotes, nor a boolean, nor a number stands for its text; a number that
/// is not whole, with an exponent and no point too, stands for itself.
pub proof fn law_literal_other(s: Seq<char>)
    requires
        s.len() > 0,
        !is_space(s[0]),
        !is_space(s.last()),
        s[0] != '\'',
        s[0] != '"',
        lower(s) != "true"@,
        lower(s) != "false"@,
        read_i64(s) is None,
    ensures
        read_double(s) is None ==> literal(s) == Datum::Text(s),
        read_double(s) matches Some(x) ==> literal(s) == Datum::Float(x),
{
    law_trim_none(s);
}

} // verus!
