//! What is written to a snapshot is read back from it.

use vstd::prelude::*;

use super::codec::escaped;
use super::codec::fields;
use super::codec::fits;
use super::codec::is_closed_field;
use super::codec::law_escape_round_trip;
use super::codec::law_type_round_trip;
use super::codec::lemma_closed_concat;
use super::codec::lemma_escaped_closed;
use super::codec::lemma_fields_cons;
use super::codec::lemma_fields_single;
use super::codec::lemma_plain_closed;
use super::codec::numbers_of;
use super::codec::type_code;
use super::codec::type_coded;
use super::codec::value_code;
use super::codec::value_coded;
use super::engine::lemma_table_index_is;
use super::engine::row_error;
use super::engine::Database;
use super::schema::Column;
use super::schema::Record;
use super::schema::Table;
use super::snapshot::body_lines;
use super::snapshot::checksum_line;
use super::snapshot::column_code;
use super::snapshot::columns_code;
use super::snapshot::columns_coded;
use super::snapshot::exported;
use super::snapshot::header;
use super::snapshot::import_line;
use super::snapshot::import_lines;
use super::snapshot::imported;
use super::snapshot::lines_text;
use super::snapshot::next_id_line;
use super::snapshot::row_line;
use super::snapshot::row_lines;
use super::snapshot::schema_line;
use super::snapshot::schema_lines;
use super::snapshot::table_lines;
use super::snapshot::text_checksum;
use super::snapshot::values_code;
use super::snapshot::values_coded;
use crate::decimal::law_read_shown_double;
use crate::decimal::law_read_shown_nan;
use crate::decimal::place_point;
use crate::decimal::read_double;
use crate::decimal::shortest;
use crate::decimal::show_double;
use crate::double::nan;
use crate::double::Double;
use crate::number::all_digits;
use crate::number::hex_value;
use crate::number::is_digit;
use crate::number::law_read_shown_hex;
use crate::number::law_read_shown_i64;
use crate::number::law_read_shown_nat;
use crate::number::lemma_show_nat;
use crate::number::show_hex;
use crate::number::show_int;
use crate::number::show_nat;
use crate::text::index_of;
use crate::text::is_space;
use crate::text::join;
use crate::text::lemma_index_of_is;
use crate::text::lemma_join_front;
use crate::text::lemma_lines_cons;
use crate::text::lemma_split_join;
use crate::text::lines;
use crate::text::split;
use crate::text::starts_with;
use crate::text::strip_return;
use crate::text::trim;
use crate::types::date_of;
use crate::types::shown_numbers;
use crate::types::time_of;
use crate::types::DataType;
use crate::types::Datum;

verus! {

// ---------------------------------------------------------------------------
// Values
// ---------------------------------------------------------------------------

/// A double that can be read back from its text: any number, and the quiet NaN.
pub open spec fn storable_double(x: Double) -> bool {
    !x.is_nan() || x == nan()
}

/// A value that can be read back from a snapshot: its numbers can be, a vector has at
/// least one number, and a date or a time is one.
pub open spec fn storable(d: Datum) -> bool {
    match d {
        Datum::Float(x) => storable_double(x),
        Datum::Vector(v) => 0 < v.len() <= usize::MAX && forall|i: int|
            0 <= i < v.len() ==> storable_double(#[trigger] v[i]),
        Datum::Date(s) => date_of(s) == Ok::<Seq<char>, Seq<char>>(s),
        Datum::Time(s) => time_of(s) == Ok::<Seq<char>, Seq<char>>(s),
        _ => true,
    }
}

/// A character that occurs in the text of a number.
pub open spec fn is_plain(c: char) -> bool {
    is_digit(c) || c == '-' || c == '.' || c == 'i' || c == 'n' || c == 'f' || c == 'N' || c == 'a'
}

pub open spec fn all_plain(s: Seq<char>) -> bool {
    forall|i: int| 0 <= i < s.len() ==> is_plain(#[trigger] s[i])
}

proof fn lemma_plain_concat(a: Seq<char>, b: Seq<char>)
    requires
        all_plain(a),
        all_plain(b),
    ensures
        all_plain(a + b),
{
    let s = a + b;
    assert forall|i: int| 0 <= i < s.len() implies is_plain(#[trigger] s[i]) by {
        if i < a.len() {
            assert(s[i] == a[i]);
        } else {
            assert(s[i] == b[i - a.len()]);
        }
    }
}

pub proof fn lemma_plain_digits(s: Seq<char>)
    requires
        all_digits(s),
    ensures
        all_plain(s),
{
    assert forall|i: int| 0 <= i < s.len() implies is_plain(#[trigger] s[i]) by {
        assert(is_digit(s[i]));
    }
}

/// The text of a number holds nothing that parts fields, lists or lines.
pub proof fn lemma_double_text(x: Double)
    ensures
        show_double(x).len() > 0,
        all_plain(show_double(x)),
{
    let s = show_double(x);
    reveal_strlit("NaN");
    reveal_strlit("inf");
    if !x.is_nan() {
        let sign = if x.negative() {
            seq!['-']
        } else {
            Seq::<char>::empty()
        };
        assert(all_plain(sign));
        if x.is_infinite() {
            assert(all_plain("inf"@));
            lemma_plain_concat(sign, "inf"@);
        } else if x.magnitude() == 0 {
            lemma_plain_concat(sign, seq!['0']);
        } else {
            let (c, p) = shortest(x.magnitude());
            let d = show_nat(c);
            lemma_show_nat(c);
            let t = place_point(d, p);
            assert forall|i: int| 0 <= i < t.len() implies is_plain(#[trigger] t[i]) by {
                if p >= 0 {
                    if i < d.len() {
                        assert(t[i] == d[i]);
                        assert(is_digit(d[i]));
                    }
                } else if d.len() > -p {
                    let k = d.len() + p;
                    if i < k {
                        assert(t[i] == d[i]);
                        assert(is_digit(d[i]));
                    } else if i > k {
                        assert(t[i] == d[i - 1]);
                        assert(is_digit(d[i - 1]));
                    }
                } else {
                    let k = 2 + (-p - d.len());
                    if i >= k {
                        assert(t[i] == d[i - k]);
                        assert(is_digit(d[i - k]));
                    }
                }
            }
            lemma_plain_concat(sign, t);
        }
    }
}

pub proof fn lemma_plain_text(s: Seq<char>)
    requires
        all_plain(s),
    ensures
        !s.contains(','),
        !s.contains(':'),
        !s.contains('|'),
        !s.contains('\\'),
        !s.contains('\n'),
        !s.contains('\r'),
        trim(s) == s,
{
    assert forall|i: int| 0 <= i < s.len() implies s[i] != ',' && s[i] != ':' && s[i] != '|'
        && s[i] != '\\' && s[i] != '\n' && s[i] != '\r' by {
        assert(is_plain(s[i]));
    }
    if s.len() > 0 {
        assert(is_plain(s[0]) && is_plain(s.last()));
        lemma_plain_not_space(s[0]);
        lemma_plain_not_space(s.last());
    }
}

proof fn lemma_plain_not_space(c: char)
    requires
        is_plain(c),
    ensures
        !is_space(c),
{
}

/// The numbers of a vector are read back from their texts.
pub proof fn lemma_numbers_back(v: Seq<Double>)
    requires
        forall|i: int| 0 <= i < v.len() ==> storable_double(#[trigger] v[i]),
    ensures
        numbers_of(shown_numbers(v)) == Some(v),
    decreases v.len(),
{
    let p = shown_numbers(v);
    if v.len() > 0 {
        let w = v.drop_last();
        assert(shown_numbers(w) =~= p.drop_last());
        assert forall|i: int| 0 <= i < w.len() implies storable_double(#[trigger] w[i]) by {
            assert(storable_double(v[i]));
        }
        lemma_numbers_back(w);
        let x = v.last();
        assert(storable_double(v[v.len() - 1]));
        lemma_double_text(x);
        lemma_plain_text(show_double(x));
        lemma_double_back(x);
        assert(w.push(x) =~= v);
    } else {
        assert(v =~= Seq::empty());
    }
}

pub proof fn lemma_double_back(x: Double)
    requires
        storable_double(x),
    ensures
        read_double(show_double(x)) == Some(x),
{
    if x.is_nan() {
        law_read_shown_nan(x);
    } else {
        law_read_shown_double(x);
    }
}

/// A text behind a tag starts with the tag, and the text is what is left without it.
proof fn lemma_tagged(tag: Seq<char>, s: Seq<char>)
    ensures
        starts_with(tag + s, tag),
        (tag + s).skip(tag.len() as int) == s,
{
    assert((tag + s).subrange(0, tag.len() as int) =~= tag);
    assert((tag + s).skip(tag.len() as int) =~= s);
}

/// A text can start with one tag only, where neither tag starts the other.
proof fn lemma_other_tag(s: Seq<char>, a: Seq<char>, b: Seq<char>, k: int)
    requires
        starts_with(s, a),
        0 <= k < a.len(),
        k < b.len(),
        a[k] != b[k],
    ensures
        !starts_with(s, b),
{
    if starts_with(s, b) {
        assert(s.subrange(0, a.len() as int)[k] == s[k]);
        assert(s.subrange(0, b.len() as int)[k] == s[k]);
    }
}

/// Every storable value comes back from its code.
pub proof fn law_value_round_trip(d: Datum)
    requires
        storable(d),
    ensures
        value_coded(value_code(d)) == Ok::<Datum, Seq<char>>(d),
{
    reveal_strlit("INT:");
    reveal_strlit("FLOAT:");
    reveal_strlit("TEXT:");
    reveal_strlit("BOOL:");
    reveal_strlit("DATE:");
    reveal_strlit("TIME:");
    reveal_strlit("VEC:");
    let s = value_code(d);
    match d {
        Datum::Integer(n) => {
            lemma_tagged("INT:"@, show_int(n as int));
            law_read_shown_i64(n);
        },
        Datum::Float(x) => {
            lemma_tagged("FLOAT:"@, show_double(x));
            lemma_other_tag(s, "FLOAT:"@, "INT:"@, 0);
            lemma_double_back(x);
        },
        Datum::Text(t) => {
            lemma_tagged("TEXT:"@, escaped(t));
            lemma_other_tag(s, "TEXT:"@, "INT:"@, 0);
            lemma_other_tag(s, "TEXT:"@, "FLOAT:"@, 0);
            law_escape_round_trip(t);
        },
        Datum::Boolean(b) => {
            let w = if b {
                "true"@
            } else {
                "false"@
            };
            reveal_strlit("true");
            reveal_strlit("false");
            lemma_tagged("BOOL:"@, w);
            lemma_other_tag(s, "BOOL:"@, "INT:"@, 0);
            lemma_other_tag(s, "BOOL:"@, "FLOAT:"@, 0);
            lemma_other_tag(s, "BOOL:"@, "TEXT:"@, 0);
            assert("true"@.len() != "false"@.len());
        },
        Datum::Date(t) => {
            lemma_tagged("DATE:"@, t);
            lemma_other_tag(s, "DATE:"@, "INT:"@, 0);
            lemma_other_tag(s, "DATE:"@, "FLOAT:"@, 0);
            lemma_other_tag(s, "DATE:"@, "TEXT:"@, 0);
            lemma_other_tag(s, "DATE:"@, "BOOL:"@, 0);
        },
        Datum::Time(t) => {
            lemma_tagged("TIME:"@, t);
            lemma_other_tag(s, "TIME:"@, "INT:"@, 0);
            lemma_other_tag(s, "TIME:"@, "FLOAT:"@, 0);
            lemma_other_tag(s, "TIME:"@, "TEXT:"@, 1);
            lemma_other_tag(s, "TIME:"@, "BOOL:"@, 0);
            lemma_other_tag(s, "TIME:"@, "DATE:"@, 0);
        },
        Datum::Vector(v) => {
            let rest = show_nat(v.len()) + ":"@ + join(shown_numbers(v), ","@);
            assert(s =~= "VEC:"@ + rest);
            lemma_tagged("VEC:"@, rest);
            lemma_other_tag(s, "VEC:"@, "INT:"@, 0);
            lemma_other_tag(s, "VEC:"@, "FLOAT:"@, 0);
            lemma_other_tag(s, "VEC:"@, "TEXT:"@, 0);
            lemma_other_tag(s, "VEC:"@, "BOOL:"@, 0);
            lemma_other_tag(s, "VEC:"@, "DATE:"@, 0);
            lemma_other_tag(s, "VEC:"@, "TIME:"@, 0);
            lemma_vector_back(v);
            law_read_shown_nat(v.len(), usize::MAX as nat);
        },
    }
}

/// A vector comes back from the text behind its tag.
proof fn lemma_vector_back(v: Seq<Double>)
    requires
        storable(Datum::Vector(v)),
    ensures
        ({
            let rest = show_nat(v.len()) + ":"@ + join(shown_numbers(v), ","@);
            let i = index_of(rest, ':');
            &&& i < rest.len()
            &&& rest.take(i) == show_nat(v.len())
            &&& numbers_of(split(rest.skip(i + 1), ',')) == Some(v)
        }),
{
    reveal_strlit(":");
    reveal_strlit(",");
    let n = show_nat(v.len());
    let nums = shown_numbers(v);
    let tail = join(nums, ","@);
    let rest = n + ":"@ + tail;
    lemma_show_nat(v.len());
    assert forall|j: int| 0 <= j < n.len() implies rest[j] != ':' by {
        assert(rest[j] == n[j]);
        assert(is_digit(n[j]));
    }
    assert(rest[n.len() as int] == ':');
    lemma_index_of_is(rest, ':', n.len() as int);
    assert(rest.take(n.len() as int) =~= n);
    assert(rest.skip(n.len() as int + 1) =~= tail);
    assert forall|i: int| 0 <= i < nums.len() implies !(#[trigger] nums[i]).contains(',') by {
        lemma_double_text(v[i]);
        lemma_plain_text(show_double(v[i]));
    }
    assert(","@ =~= seq![',']);
    lemma_split_join(nums, ',');
    lemma_numbers_back(v);
}

// ---------------------------------------------------------------------------
// Lines
// ---------------------------------------------------------------------------

/// A name that can be a field: it holds nothing that parts fields or lines.
pub open spec fn clean_name(s: Seq<char>) -> bool {
    is_closed_field(s) && !s.contains('\n')
}

/// A column that can be read back: its name holds nothing that parts fields or lines and
/// no colon, and its index is its place.
pub open spec fn storable_column(c: Column, i: int) -> bool {
    &&& is_closed_field(column_code(c))
    &&& !c.name.contains('\n')
    &&& !c.name.contains(':')
    &&& c.index == i
}

/// A table that can be read back: it has columns, and all of it is storable. A row has
/// a value that fits for each column.
pub open spec fn storable_table(t: Table) -> bool {
    &&& clean_name(t.schema.name)
    &&& 0 < t.schema.columns.len() <= usize::MAX
    &&& forall|i: int|
        0 <= i < t.schema.columns.len() ==> storable_column(#[trigger] t.schema.columns[i], i)
    &&& forall|i: int|
        0 <= i < t.rows.len() ==> storable_row(t.schema.columns, #[trigger] t.rows[i])
}

/// A row that can be read back.
pub open spec fn storable_row(columns: Seq<Column>, r: Record) -> bool {
    &&& row_error(columns, r.values) is None
    &&& forall|i: int| 0 <= i < r.values.len() ==> storable(#[trigger] r.values[i])
}

/// A database that can be read back from its snapshot.
pub open spec fn storable_database(db: Database) -> bool {
    &&& db.wf()
    &&& forall|i: int| 0 <= i < db.tables.len() ==> storable_table(#[trigger] db.tables[i])
}

/// Closed fields come back from the line that they are joined to.
pub proof fn law_fields_round_trip(parts: Seq<Seq<char>>)
    requires
        parts.len() > 0,
        forall|i: int| 0 <= i < parts.len() ==> is_closed_field(#[trigger] parts[i]),
    ensures
        fields(join(parts, "|"@)) == parts,
    decreases parts.len(),
{
    reveal_strlit("|");
    assert("|"@ =~= seq!['|']);
    assert(is_closed_field(parts[0]));
    if parts.len() == 1 {
        lemma_fields_single(parts[0]);
        assert(parts =~= seq![parts[0]]);
    } else {
        let rest = parts.skip(1);
        lemma_join_front(parts, "|"@);
        assert forall|i: int| 0 <= i < rest.len() implies is_closed_field(#[trigger] rest[i]) by {
            assert(rest[i] == parts[i + 1]);
        }
        law_fields_round_trip(rest);
        lemma_fields_cons(parts[0], join(rest, "|"@));
        assert(parts[0] + seq!['|'] + join(rest, "|"@) =~= parts[0] + ("|"@ + join(rest, "|"@)));
        assert(seq![parts[0]] + rest =~= parts);
    }
}

/// A storable value is a closed field that stays within its line.
pub proof fn lemma_value_field(d: Datum)
    requires
        storable(d),
    ensures
        is_closed_field(value_code(d)),
        !value_code(d).contains('\n'),
        !value_code(d).contains('\r'),
        value_code(d).len() > 0,
{
    reveal_strlit("INT:");
    reveal_strlit("FLOAT:");
    reveal_strlit("TEXT:");
    reveal_strlit("BOOL:");
    reveal_strlit("DATE:");
    reveal_strlit("TIME:");
    reveal_strlit("VEC:");
    reveal_strlit(":");
    reveal_strlit(",");
    reveal_strlit("true");
    reveal_strlit("false");
    match d {
        Datum::Integer(n) => {
            lemma_int_text(n as int);
            lemma_plain_text(show_int(n as int));
            lemma_tag_field("INT:"@, show_int(n as int));
        },
        Datum::Float(x) => {
            lemma_double_text(x);
            lemma_plain_text(show_double(x));
            lemma_tag_field("FLOAT:"@, show_double(x));
        },
        Datum::Text(t) => {
            lemma_escaped_closed(t);
            lemma_clean_tag("TEXT:"@);
            lemma_closed_concat("TEXT:"@, escaped(t));
            lemma_no_line_end("TEXT:"@, escaped(t));
        },
        Datum::Boolean(b) => {
            lemma_tag_field(
                "BOOL:"@,
                if b {
                    "true"@
                } else {
                    "false"@
                },
            );
        },
        Datum::Date(t) => {
            lemma_date_text(t);
            lemma_tag_field("DATE:"@, t);
        },
        Datum::Time(t) => {
            lemma_time_text(t);
            lemma_tag_field("TIME:"@, t);
        },
        Datum::Vector(v) => {
            let n = show_nat(v.len());
            lemma_show_nat(v.len());
            lemma_plain_digits(n);
            lemma_plain_text(n);
            lemma_numbers_text(v);
            let tail = join(shown_numbers(v), ","@);
            lemma_tag_field("VEC:"@, n);
            lemma_tag_field(":"@, tail);
            lemma_closed_concat("VEC:"@ + n, ":"@ + tail);
            lemma_no_line_end("VEC:"@ + n, ":"@ + tail);
            assert(value_code(d) =~= ("VEC:"@ + n) + (":"@ + tail));
        },
    }
}

pub proof fn lemma_int_text(n: int)
    ensures
        all_plain(show_int(n)),
{
    if n < 0 {
        lemma_show_nat((-n) as nat);
        lemma_plain_digits(show_nat((-n) as nat));
        lemma_plain_concat(seq!['-'], show_nat((-n) as nat));
    } else {
        lemma_show_nat(n as nat);
        lemma_plain_digits(show_nat(n as nat));
    }
}

proof fn lemma_clean_tag(tag: Seq<char>)
    requires
        forall|i: int|
            0 <= i < tag.len() ==> tag[i] != '|' && tag[i] != '\\' && tag[i] != '\n' && tag[i]
                != '\r',
    ensures
        is_closed_field(tag),
        !tag.contains('\n'),
        !tag.contains('\r'),
{
    lemma_plain_closed(tag);
}

proof fn lemma_no_line_end(a: Seq<char>, b: Seq<char>)
    requires
        !a.contains('\n'),
        !a.contains('\r'),
        !b.contains('\n'),
        !b.contains('\r'),
    ensures
        !(a + b).contains('\n'),
        !(a + b).contains('\r'),
{
    let s = a + b;
    assert forall|i: int| 0 <= i < s.len() implies s[i] != '\n' && s[i] != '\r' by {
        if i < a.len() {
            assert(a.contains(a[i]));
        } else {
            assert(b.contains(b[i - a.len()]));
        }
    }
}

proof fn lemma_tag_field(tag: Seq<char>, s: Seq<char>)
    requires
        forall|i: int|
            0 <= i < tag.len() ==> tag[i] != '|' && tag[i] != '\\' && tag[i] != '\n' && tag[i]
                != '\r',
        !s.contains('|'),
        !s.contains('\\'),
        !s.contains('\n'),
        !s.contains('\r'),
    ensures
        is_closed_field(tag + s),
        !(tag + s).contains('\n'),
        !(tag + s).contains('\r'),
{
    lemma_clean_tag(tag);
    lemma_plain_closed(s);
    lemma_closed_concat(tag, s);
    lemma_no_line_end(tag, s);
}

/// The numbers of a vector, joined by commas, hold nothing that parts fields or lines.
proof fn lemma_numbers_text(v: Seq<Double>)
    ensures
        ({
            let s = join(shown_numbers(v), ","@);
            !s.contains('|') && !s.contains('\\') && !s.contains('\n') && !s.contains('\r')
        }),
    decreases v.len(),
{
    reveal_strlit(",");
    let p = shown_numbers(v);
    let s = join(p, ","@);
    if v.len() == 1 {
        lemma_double_text(v[0]);
        lemma_plain_text(show_double(v[0]));
    } else if v.len() > 1 {
        let w = v.drop_last();
        assert(shown_numbers(w) =~= p.drop_last());
        lemma_numbers_text(w);
        lemma_double_text(v.last());
        lemma_plain_text(show_double(v.last()));
        let a = join(p.drop_last(), ","@);
        let b = show_double(v.last());
        assert(s == a + ","@ + b);
        assert forall|i: int| 0 <= i < s.len() implies s[i] != '|' && s[i] != '\\' && s[i]
            != '\n' && s[i] != '\r' by {
            if i < a.len() {
                assert(s[i] == a[i]);
                assert(a.contains(a[i]));
            } else if i > a.len() {
                assert(s[i] == b[i - a.len() - 1]);
                assert(b.contains(b[i - a.len() - 1]));
            }
        }
    }
}

/// A text of three fields of digits holds nothing that parts fields or lines.
proof fn lemma_three_fields(s: Seq<char>, c: char)
    requires
        split(s, c).len() == 3,
        all_digits(split(s, c)[0]),
        all_digits(split(s, c)[1]),
        all_digits(split(s, c)[2]),
        c == '-' || c == ':',
    ensures
        !s.contains('|'),
        !s.contains('\\'),
        !s.contains('\n'),
        !s.contains('\r'),
{
    let p = split(s, c);
    crate::types::lemma_three_pieces(s, c);
    assert forall|i: int| 0 <= i < s.len() implies s[i] != '|' && s[i] != '\\' && s[i] != '\n'
        && s[i] != '\r' by {
        let (a, b) = (p[0].len(), p[0].len() + 1 + p[1].len());
        if i < a {
            assert(s[i] == p[0][i]);
            assert(is_digit(p[0][i]));
        } else if i == a {
            assert(s[i] == c);
        } else if i < b {
            assert(s[i] == p[1][i - a - 1]);
            assert(is_digit(p[1][i - a - 1]));
        } else if i == b {
            assert(s[i] == c);
        } else {
            assert(s[i] == p[2][i - b - 1]);
            assert(is_digit(p[2][i - b - 1]));
        }
    }
}

proof fn lemma_date_text(s: Seq<char>)
    requires
        date_of(s) == Ok::<Seq<char>, Seq<char>>(s),
    ensures
        !s.contains('|'),
        !s.contains('\\'),
        !s.contains('\n'),
        !s.contains('\r'),
{
    lemma_three_fields(s, '-');
}

proof fn lemma_time_text(s: Seq<char>)
    requires
        time_of(s) == Ok::<Seq<char>, Seq<char>>(s),
    ensures
        !s.contains('|'),
        !s.contains('\\'),
        !s.contains('\n'),
        !s.contains('\r'),
{
    crate::types::lemma_time_parts(s);
    lemma_three_fields(s, ':');
}

proof fn lemma_type_text(t: DataType)
    ensures
        type_code(t).len() > 0,
        !type_code(t).contains('|'),
        !type_code(t).contains('\\'),
        !type_code(t).contains('\n'),
        !type_code(t).contains('\r'),
{
    reveal_strlit("INTEGER");
    reveal_strlit("FLOAT");
    reveal_strlit("TEXT");
    reveal_strlit("BOOLEAN");
    reveal_strlit("DATE");
    reveal_strlit("TIME");
    reveal_strlit("VECTOR:");
    match t {
        DataType::Vector(n) => {
            lemma_show_nat(n as nat);
            let d = show_nat(n as nat);
            let s = type_code(t);
            assert forall|i: int| 0 <= i < s.len() implies s[i] != '|' && s[i] != '\\' && s[i]
                != '\n' && s[i] != '\r' by {
                if i >= 7 {
                    assert(s[i] == d[i - 7]);
                    assert(is_digit(d[i - 7]));
                }
            }
        },
        _ => {},
    }
}

/// A storable column is a closed field, and comes back from it.
proof fn lemma_column_field(c: Column, i: int)
    requires
        storable_column(c, i),
    ensures
        ({
            let s = column_code(c);
            let k = index_of(s, ':');
            &&& is_closed_field(s)
            &&& !s.contains('\n')
            &&& s.len() > 0
            &&& s.last() != '\r'
            &&& k < s.len()
            &&& s.take(k) == c.name
            &&& type_coded(s.skip(k + 1)) == Ok::<DataType, Seq<char>>(c.data_type)
        }),
{
    reveal_strlit(":");
    let t = type_code(c.data_type);
    let s = column_code(c);
    let n = c.name.len() as int;
    lemma_type_text(c.data_type);
    law_type_round_trip(c.data_type);
    assert forall|j: int| 0 <= j < n implies s[j] != ':' by {
        assert(s[j] == c.name[j]);
        assert(c.name.contains(c.name[j]));
    }
    assert(s[n] == ':');
    lemma_index_of_is(s, ':', n);
    assert(s.take(n) =~= c.name);
    assert(s.skip(n + 1) =~= t);
    assert(s.last() == t.last());
    assert(t.contains(t.last()));
    assert forall|j: int| 0 <= j < s.len() implies s[j] != '\n' by {
        if j < n {
            assert(c.name.contains(c.name[j]));
        } else if j > n {
            assert(s[j] == t[j - n - 1]);
            assert(t.contains(t[j - n - 1]));
        }
    }
}

/// Joined fields hold no line feed where none of them does, and end as the last one.
proof fn lemma_joined_fields(p: Seq<Seq<char>>)
    requires
        p.len() > 0,
        forall|i: int| 0 <= i < p.len() ==> !(#[trigger] p[i]).contains('\n') && p[i].len() > 0,
    ensures
        !join(p, "|"@).contains('\n'),
        join(p, "|"@).len() > 0,
        join(p, "|"@).last() == p.last().last(),
    decreases p.len(),
{
    reveal_strlit("|");
    let s = join(p, "|"@);
    assert(p[p.len() - 1].len() > 0);
    if p.len() == 1 {
        assert(!p[0].contains('\n'));
    } else {
        let q = p.drop_last();
        assert forall|i: int| 0 <= i < q.len() implies !(#[trigger] q[i]).contains('\n') && q[i].len()
            > 0 by {
            assert(q[i] == p[i]);
        }
        lemma_joined_fields(q);
        let a = join(q, "|"@);
        let b = p.last();
        assert(!p[p.len() - 1].contains('\n'));
        assert(s == a + "|"@ + b);
        assert forall|i: int| 0 <= i < s.len() implies s[i] != '\n' by {
            if i < a.len() {
                assert(s[i] == a[i]);
                assert(a.contains(a[i]));
            } else if i > a.len() {
                assert(s[i] == b[i - a.len() - 1]);
                assert(b.contains(b[i - a.len() - 1]));
            }
        }
        assert(s.last() == b.last());
    }
}

/// A line that stands in a snapshot: it is within one line, and is not taken for one
/// that ends with a carriage return.
pub open spec fn is_line(s: Seq<char>) -> bool {
    !s.contains('\n') && (s.len() > 0 ==> s.last() != '\r')
}

/// Lines come back from the text that they make.
pub proof fn lemma_lines_back(l: Seq<Seq<char>>, t: Seq<char>)
    requires
        forall|i: int| 0 <= i < l.len() ==> is_line(#[trigger] l[i]),
    ensures
        lines(lines_text(l) + t) == l + lines(t),
    decreases l.len(),
{
    reveal_strlit("\n");
    assert("\n"@ =~= seq!['\n']);
    if l.len() == 0 {
        assert(lines_text(l) + t =~= t);
        assert(l + lines(t) =~= lines(t));
    } else {
        let m = l.drop_last();
        let x = l.last();
        assert(is_line(l[l.len() - 1]));
        assert forall|i: int| 0 <= i < m.len() implies is_line(#[trigger] m[i]) by {
            assert(m[i] == l[i]);
        }
        lemma_lines_back(m, x + seq!['\n'] + t);
        assert(lines_text(l) + t =~= lines_text(m) + (x + seq!['\n'] + t));
        lemma_lines_cons(x, t);
        assert(strip_return(x) == x);
        assert(m + (seq![x] + lines(t)) =~= l + lines(t));
    }
}

/// A word that can start a line: it holds nothing that parts fields or lines, and is no
/// comment.
pub open spec fn is_head(s: Seq<char>) -> bool {
    &&& s.len() > 0
    &&& s[0] != '#'
    &&& forall|i: int|
        0 <= i < s.len() ==> s[i] != '|' && s[i] != '\\' && s[i] != '\n' && s[i] != '\r'
}

/// A line that names a table and its columns holds them.
pub proof fn lemma_columns_line(head: Seq<char>, name: Seq<char>, c: Seq<Column>)
    requires
        is_head(head),
        clean_name(name),
        0 < c.len() <= usize::MAX,
        forall|i: int| 0 <= i < c.len() ==> storable_column(#[trigger] c[i], i),
    ensures
        ({
            let s = head + "|"@ + name + "|"@ + columns_code(c);
            let p = fields(s);
            &&& is_line(s)
            &&& p.len() == c.len() + 2
            &&& p[0] == head
            &&& p[1] == name
            &&& forall|w: Seq<char>| #[trigger]
                columns_coded(w, p.skip(2)) == Ok::<Seq<Column>, Seq<char>>(c)
            &&& s[0] != '#'
            &&& s.len() > 0
        }),
{
    reveal_strlit("|");
    let q = c.map_values(|c: Column| column_code(c));
    let s = head + "|"@ + name + "|"@ + columns_code(c);
    assert forall|i: int| 0 <= i < q.len() implies is_closed_field(#[trigger] q[i]) && !q[i].contains(
        '\n',
    ) && q[i].len() > 0 by {
        assert(storable_column(c[i], i));
        lemma_column_field(c[i], i);
    }
    law_fields_round_trip(q);
    lemma_joined_fields(q);
    lemma_plain_closed(head);
    let tail = columns_code(c);
    lemma_fields_cons(name, tail);
    lemma_fields_cons(head, name + seq!['|'] + tail);
    assert(s =~= head + seq!['|'] + (name + seq!['|'] + tail));
    let p = fields(s);
    assert(p =~= seq![head, name] + q);
    assert(p.skip(2) =~= q);
    assert forall|w: Seq<char>| #[trigger]
        columns_coded(w, p.skip(2)) == Ok::<Seq<Column>, Seq<char>>(c) by {
        lemma_columns_back(w, c, c.len() as int);
        assert(q.take(c.len() as int) =~= q);
        assert(c.take(c.len() as int) =~= c);
    }
    assert(storable_column(c[c.len() - 1], c.len() - 1));
    lemma_column_field(c.last(), c.len() - 1);
    assert(s.last() == tail.last());
    assert forall|i: int| 0 <= i < s.len() implies s[i] != '\n' by {
        let h = head.len() + 1;
        let k = h + name.len();
        if i < h - 1 {
            assert(s[i] == head[i]);
        } else if h <= i < k {
            assert(s[i] == name[i - h]);
            assert(name.contains(name[i - h]));
        } else if i > k {
            assert(s[i] == tail[i - k - 1]);
            assert(tail.contains(tail[i - k - 1]));
        }
    }
}

/// The line of a schema holds the table's name and its columns.
proof fn lemma_schema_line(t: Table)
    requires
        storable_table(t),
    ensures
        is_line(schema_line(t.schema)),
        ({
            let p = fields(schema_line(t.schema));
            &&& p.len() == t.schema.columns.len() + 2
            &&& p[0] == "SCHEMA"@
            &&& p[1] == t.schema.name
            &&& forall|w: Seq<char>| #[trigger]
                columns_coded(w, p.skip(2)) == Ok::<Seq<Column>, Seq<char>>(t.schema.columns)
            &&& schema_line(t.schema)[0] != '#'
            &&& schema_line(t.schema).len() > 0
        }),
{
    reveal_strlit("SCHEMA|");
    reveal_strlit("SCHEMA");
    reveal_strlit("|");
    lemma_columns_line("SCHEMA"@, t.schema.name, t.schema.columns);
    assert("SCHEMA|"@ =~= "SCHEMA"@ + "|"@);
}

proof fn lemma_columns_back(w: Seq<char>, c: Seq<Column>, k: int)
    requires
        0 <= k <= c.len() <= usize::MAX,
        forall|i: int| 0 <= i < c.len() ==> storable_column(#[trigger] c[i], i),
    ensures
        columns_coded(w, c.map_values(|c: Column| column_code(c)).take(k)) == Ok::<
            Seq<Column>,
            Seq<char>,
        >(c.take(k)),
    decreases k,
{
    let q = c.map_values(|c: Column| column_code(c));
    if k > 0 {
        lemma_columns_back(w, c, k - 1);
        assert(q.take(k).drop_last() =~= q.take(k - 1));
        assert(storable_column(c[k - 1], k - 1));
        lemma_column_field(c[k - 1], k - 1);
        assert(q.take(k).last() == column_code(c[k - 1]));
        assert(c.take(k) =~= c.take(k - 1).push(c[k - 1]));
    } else {
        assert(c.take(0) =~= Seq::empty());
    }
}

/// A line that names a table holds its name.
pub proof fn lemma_name_line(head: Seq<char>, name: Seq<char>)
    requires
        is_head(head),
        clean_name(name),
        name.len() > 0 ==> name.last() != '\r',
    ensures
        ({
            let s = head + "|"@ + name;
            &&& is_line(s)
            &&& fields(s) == seq![head, name]
            &&& s[0] != '#'
            &&& s.len() > 0
        }),
{
    reveal_strlit("|");
    let s = head + "|"@ + name;
    lemma_plain_closed(head);
    lemma_fields_single(name);
    lemma_fields_cons(head, name);
    assert(s =~= head + seq!['|'] + name);
    assert(fields(s) =~= seq![head, name]);
    assert forall|i: int| 0 <= i < s.len() implies s[i] != '\n' by {
        let h = head.len() + 1;
        if i < h - 1 {
            assert(s[i] == head[i]);
        } else if h <= i {
            assert(s[i] == name[i - h]);
            assert(name.contains(name[i - h]));
        }
    }
    if name.len() > 0 {
        assert(s.last() == name.last());
    } else {
        assert(s.last() == '|');
    }
}

/// A line that names a table and an id holds them.
pub proof fn lemma_short_line(head: Seq<char>, name: Seq<char>, id: u64)
    requires
        is_head(head),
        clean_name(name),
    ensures
        ({
            let s = head + "|"@ + name + "|"@ + show_nat(id as nat);
            &&& is_line(s)
            &&& fields(s) == seq![head, name, show_nat(id as nat)]
            &&& s[0] != '#'
            &&& s.len() > 0
        }),
{
    reveal_strlit("|");
    let n = show_nat(id as nat);
    let s = head + "|"@ + name + "|"@ + n;
    lemma_plain_closed(head);
    lemma_show_nat(id as nat);
    lemma_plain_digits(n);
    lemma_plain_text(n);
    lemma_plain_closed(n);
    lemma_fields_single(n);
    lemma_fields_cons(name, n);
    lemma_fields_cons(head, name + seq!['|'] + n);
    assert(s =~= head + seq!['|'] + (name + seq!['|'] + n));
    assert(fields(s) =~= seq![head, name, n]);
    assert(s.last() == n.last());
    assert(n.contains(n.last()));
    assert forall|i: int| 0 <= i < s.len() implies s[i] != '\n' by {
        let h = head.len() + 1;
        let a = h + name.len();
        if i < h - 1 {
            assert(s[i] == head[i]);
        } else if h <= i < a {
            assert(s[i] == name[i - h]);
            assert(name.contains(name[i - h]));
        } else if a < i {
            assert(s[i] == n[i - a - 1]);
            assert(n.contains(n[i - a - 1]));
        }
    }
}

/// A line that names a table, an id and values holds them.
pub proof fn lemma_values_line(head: Seq<char>, name: Seq<char>, id: u64, v: Seq<Datum>)
    requires
        is_head(head),
        clean_name(name),
        v.len() > 0,
        forall|i: int| 0 <= i < v.len() ==> storable(#[trigger] v[i]),
    ensures
        ({
            let s = head + "|"@ + name + "|"@ + show_nat(id as nat) + "|"@ + values_code(v);
            let p = fields(s);
            &&& is_line(s)
            &&& p.len() == v.len() + 3
            &&& p[0] == head
            &&& p[1] == name
            &&& p[2] == show_nat(id as nat)
            &&& values_coded(p.skip(3)) == Ok::<Seq<Datum>, Seq<char>>(v)
            &&& s[0] != '#'
            &&& s.len() > 0
        }),
{
    let q = v.map_values(|d: Datum| value_code(d));
    assert forall|i: int| 0 <= i < q.len() implies is_closed_field(#[trigger] q[i]) && !q[i].contains(
        '\n',
    ) && q[i].len() > 0 by {
        assert(storable(v[i]));
        lemma_value_field(v[i]);
    }
    assert(storable(v[v.len() - 1]));
    lemma_value_field(v.last());
    assert(q.last().contains(q.last().last()));
    lemma_id_line(head, name, id, q);
    let s = head + "|"@ + name + "|"@ + show_nat(id as nat) + "|"@ + values_code(v);
    let p = fields(s);
    assert(p.skip(3) =~= q);
    lemma_values_back(v, v.len() as int);
    assert(q.take(v.len() as int) =~= q);
    assert(v.take(v.len() as int) =~= v);
}

/// A line that names a table and an id, with closed fields behind them, holds them.
pub proof fn lemma_id_line(head: Seq<char>, name: Seq<char>, id: u64, q: Seq<Seq<char>>)
    requires
        is_head(head),
        clean_name(name),
        q.len() > 0,
        q.last().len() > 0,
        q.last().last() != '\r',
        forall|i: int|
            0 <= i < q.len() ==> is_closed_field(#[trigger] q[i]) && !q[i].contains('\n')
                && q[i].len() > 0,
    ensures
        ({
            let s = head + "|"@ + name + "|"@ + show_nat(id as nat) + "|"@ + join(q, "|"@);
            &&& is_line(s)
            &&& fields(s) == seq![head, name, show_nat(id as nat)] + q
            &&& s[0] != '#'
            &&& s.len() > 0
        }),
{
    reveal_strlit("|");
    let n = show_nat(id as nat);
    let tail = join(q, "|"@);
    let s = head + "|"@ + name + "|"@ + n + "|"@ + tail;
    law_fields_round_trip(q);
    lemma_joined_fields(q);
    lemma_plain_closed(head);
    lemma_show_nat(id as nat);
    lemma_plain_digits(n);
    lemma_plain_text(n);
    lemma_plain_closed(n);
    lemma_fields_cons(n, tail);
    lemma_fields_cons(name, n + seq!['|'] + tail);
    lemma_fields_cons(head, name + seq!['|'] + (n + seq!['|'] + tail));
    assert(s =~= head + seq!['|'] + (name + seq!['|'] + (n + seq!['|'] + tail)));
    assert(fields(s) =~= seq![head, name, n] + q);
    assert(s.last() == tail.last());
    assert forall|i: int| 0 <= i < s.len() implies s[i] != '\n' by {
        let h = head.len() + 1;
        let a = h + name.len();
        let b = a + 1 + n.len();
        if i < h - 1 {
            assert(s[i] == head[i]);
        } else if h <= i < a {
            assert(s[i] == name[i - h]);
            assert(name.contains(name[i - h]));
        } else if a < i < b {
            assert(s[i] == n[i - a - 1]);
            assert(n.contains(n[i - a - 1]));
        } else if i > b {
            assert(s[i] == tail[i - b - 1]);
            assert(tail.contains(tail[i - b - 1]));
        }
    }
}

/// The line of a row holds the table's name, the id and the values.
proof fn lemma_row_line(name: Seq<char>, columns: Seq<Column>, r: Record)
    requires
        clean_name(name),
        columns.len() > 0,
        storable_row(columns, r),
    ensures
        is_line(row_line(name, r)),
        ({
            let p = fields(row_line(name, r));
            &&& p.len() == r.values.len() + 3
            &&& p.len() >= 4
            &&& p[0] == "ROW"@
            &&& p[1] == name
            &&& p[2] == show_nat(r.id as nat)
            &&& values_coded(p.skip(3)) == Ok::<Seq<Datum>, Seq<char>>(r.values)
            &&& row_line(name, r)[0] != '#'
            &&& row_line(name, r).len() > 0
        }),
{
    reveal_strlit("ROW|");
    reveal_strlit("ROW");
    reveal_strlit("|");
    lemma_values_line("ROW"@, name, r.id, r.values);
    assert("ROW|"@ =~= "ROW"@ + "|"@);
}

proof fn lemma_values_back(v: Seq<Datum>, k: int)
    requires
        0 <= k <= v.len(),
        forall|i: int| 0 <= i < v.len() ==> storable(#[trigger] v[i]),
    ensures
        values_coded(v.map_values(|d: Datum| value_code(d)).take(k)) == Ok::<
            Seq<Datum>,
            Seq<char>,
        >(v.take(k)),
    decreases k,
{
    let q = v.map_values(|d: Datum| value_code(d));
    if k > 0 {
        lemma_values_back(v, k - 1);
        assert(q.take(k).drop_last() =~= q.take(k - 1));
        assert(storable(v[k - 1]));
        law_value_round_trip(v[k - 1]);
        assert(q.take(k).last() == value_code(v[k - 1]));
        assert(v.take(k) =~= v.take(k - 1).push(v[k - 1]));
    } else {
        assert(v.take(0) =~= Seq::empty());
    }
}

// ---------------------------------------------------------------------------
// Snapshots
// ---------------------------------------------------------------------------

/// The database after lines that are all right.
spec fn after_lines(db: Database, l: Seq<Seq<char>>) -> Option<Database>
    decreases l.len(),
{
    if l.len() == 0 {
        Some(db)
    } else {
        match after_lines(db, l.drop_last()) {
            None => None,
            Some(d) => {
                let (next, e) = import_line(d, 1, l.last());
                if e is Some {
                    None
                } else {
                    Some(next)
                }
            },
        }
    }
}

/// Whether a line is right, and what it does, does not depend on its number.
proof fn lemma_line_number(db: Database, n: nat, m: nat, line: Seq<char>)
    ensures
        import_line(db, n, line).0 == import_line(db, m, line).0,
        import_line(db, n, line).1 is None <==> import_line(db, m, line).1 is None,
{
    let p = fields(line);
    if p[0] == "SCHEMA"@ && p.len() >= 3 {
        let a = super::snapshot::at_line(n, "行 SCHEMA 列格式错误: "@);
        let b = super::snapshot::at_line(m, "行 SCHEMA 列格式错误: "@);
        lemma_columns_message(a, b, p.skip(2));
    }
}

proof fn lemma_columns_message(a: Seq<char>, b: Seq<char>, p: Seq<Seq<char>>)
    ensures
        columns_coded(a, p) is Ok <==> columns_coded(b, p) is Ok,
        columns_coded(a, p) is Ok ==> columns_coded(a, p) == columns_coded(b, p),
    decreases p.len(),
{
    if p.len() > 0 {
        lemma_columns_message(a, b, p.drop_last());
    }
}

proof fn lemma_import_block(db: Database, l: Seq<Seq<char>>, i: int, k: int)
    requires
        0 <= i <= k <= l.len(),
        after_lines(db, l.subrange(i, k)) is Some,
    ensures
        import_lines(db, l, i) == import_lines(after_lines(db, l.subrange(i, k))->0, l, k),
    decreases k - i,
{
    let m = l.subrange(i, k);
    if i < k {
        assert(m.drop_last() =~= l.subrange(i, k - 1));
        assert(m.last() == l[k - 1]);
        lemma_import_block(db, l, i, k - 1);
        lemma_line_number(after_lines(db, m.drop_last())->0, 1, k as nat, l[k - 1]);
    } else {
        assert(m =~= Seq::empty());
    }
}

proof fn lemma_after_concat(db: Database, a: Seq<Seq<char>>, b: Seq<Seq<char>>)
    requires
        after_lines(db, a) is Some,
    ensures
        after_lines(db, a + b) == after_lines(after_lines(db, a)->0, b),
    decreases b.len(),
{
    if b.len() == 0 {
        assert(a + b =~= a);
    } else {
        assert((a + b).drop_last() =~= a + b.drop_last());
        assert((a + b).last() == b.last());
        lemma_after_concat(db, a, b.drop_last());
    }
}

/// The tables with the rows of the first `k` only.
spec fn filled(t: Seq<Table>, k: int) -> Seq<Table> {
    Seq::new(
        t.len(),
        |i: int|
            if i < k {
                t[i]
            } else {
                Table { schema: t[i].schema, rows: Seq::empty() }
            },
    )
}

proof fn lemma_schemas_back(t: Seq<Table>, k: int)
    requires
        0 <= k <= t.len(),
        super::engine::distinct_names(t),
        forall|i: int| 0 <= i < t.len() ==> storable_table(#[trigger] t[i]),
    ensures
        after_lines(Database::empty(), schema_lines(t).take(k)) == Some(
            Database { tables: filled(t.take(k), 0), next_id: 1 },
        ),
    decreases k,
{
    let l = schema_lines(t);
    if k == 0 {
        assert(l.take(0) =~= Seq::empty());
        assert(filled(t.take(0), 0) =~= Seq::empty());
    } else {
        lemma_schemas_back(t, k - 1);
        assert(l.take(k).drop_last() =~= l.take(k - 1));
        let x = t[k - 1];
        assert(storable_table(x));
        assert(l.take(k).last() == schema_line(x.schema));
        lemma_schema_line(x);
        let db = Database { tables: filled(t.take(k - 1), 0), next_id: 1 };
        assert forall|j: int| 0 <= j < k - 1 implies (#[trigger] db.tables[j]).schema.name
            != x.schema.name by {
            assert(t[j].schema.name != t[k - 1].schema.name);
        }
        lemma_table_index_is(db.tables, x.schema.name, k - 1);
        reveal_strlit("SCHEMA");
        reveal_strlit("ROW");
        reveal_strlit("NEXTID");
        assert(db.replaced(x.schema).tables =~= filled(t.take(k), 0));
    }
}

/// The rows of one table are read back into it.
proof fn lemma_table_back(t: Seq<Table>, k: int, j: int)
    requires
        0 <= k < t.len(),
        0 <= j <= t[k].rows.len(),
        super::engine::distinct_names(t),
        forall|i: int| 0 <= i < t.len() ==> storable_table(#[trigger] t[i]),
    ensures
        after_lines(
            Database { tables: filled(t, k), next_id: 1 },
            table_lines(t[k]).take(j),
        ) == Some(
            Database {
                tables: filled(t, k).update(
                    k,
                    Table { schema: t[k].schema, rows: t[k].rows.take(j) },
                ),
                next_id: 1,
            },
        ),
    decreases j,
{
    let x = t[k];
    let l = table_lines(x);
    assert(storable_table(x));
    if j == 0 {
        assert(l.take(0) =~= Seq::empty());
        assert(x.rows.take(0) =~= Seq::empty());
        assert(filled(t, k).update(k, Table { schema: x.schema, rows: x.rows.take(0) }) =~= filled(
            t,
            k,
        ));
    } else {
        lemma_table_back(t, k, j - 1);
        assert(l.take(j).drop_last() =~= l.take(j - 1));
        let r = x.rows[j - 1];
        assert(storable_row(x.schema.columns, r));
        assert(l.take(j).last() == row_line(x.schema.name, r));
        lemma_row_line(x.schema.name, x.schema.columns, r);
        law_read_shown_nat(r.id as nat, u64::MAX as nat);
        let db = Database {
            tables: filled(t, k).update(
                k,
                Table { schema: x.schema, rows: x.rows.take(j - 1) },
            ),
            next_id: 1,
        };
        assert forall|i: int| 0 <= i < k implies (#[trigger] db.tables[i]).schema.name
            != x.schema.name by {
            assert(t[i].schema.name != t[k].schema.name);
        }
        lemma_table_index_is(db.tables, x.schema.name, k);
        reveal_strlit("SCHEMA");
        reveal_strlit("ROW");
        reveal_strlit("NEXTID");
        assert(x.rows.take(j) =~= x.rows.take(j - 1).push(r));
        assert(db.with_row(x.schema.name, r).tables =~= filled(t, k).update(
            k,
            Table { schema: x.schema, rows: x.rows.take(j) },
        ));
    }
}

proof fn lemma_rows_back(t: Seq<Table>, k: int)
    requires
        0 <= k <= t.len(),
        super::engine::distinct_names(t),
        forall|i: int| 0 <= i < t.len() ==> storable_table(#[trigger] t[i]),
    ensures
        after_lines(Database { tables: filled(t, 0), next_id: 1 }, row_lines(t.take(k))) == Some(
            Database { tables: filled(t, k), next_id: 1 },
        ),
    decreases k,
{
    if k == 0 {
        assert(t.take(0) =~= Seq::empty());
    } else {
        lemma_rows_back(t, k - 1);
        assert(t.take(k).drop_last() =~= t.take(k - 1));
        let x = t[k - 1];
        lemma_table_back(t, k - 1, x.rows.len() as int);
        assert(table_lines(x).take(x.rows.len() as int) =~= table_lines(x));
        assert(x.rows.take(x.rows.len() as int) =~= x.rows);
        assert(filled(t, k - 1).update(k - 1, x) =~= filled(t, k));
        let start = Database { tables: filled(t, 0), next_id: 1 };
        lemma_after_concat(start, row_lines(t.take(k - 1)), table_lines(x));
    }
}

/// Every line of a snapshot is one line.
proof fn lemma_snapshot_lines(db: Database)
    requires
        storable_database(db),
    ensures
        forall|i: int| 0 <= i < body_lines(db).len() ==> is_line(#[trigger] body_lines(db)[i]),
        is_line(checksum_line(lines_text(body_lines(db)))),
        lines(exported(db)) == body_lines(db).push(checksum_line(lines_text(body_lines(db)))),
{
    let t = db.tables;
    let b = body_lines(db);
    reveal_strlit("# ProbeDB state v1");
    reveal_strlit("NEXTID|");
    reveal_strlit("# checksum ");
    reveal_strlit("\n");
    let s = schema_lines(t);
    assert forall|i: int| 0 <= i < s.len() implies is_line(#[trigger] s[i]) by {
        assert(storable_table(t[i]));
        lemma_schema_line(t[i]);
    }
    lemma_row_lines(t);
    let r = row_lines(t);
    lemma_show_nat(db.next_id as nat);
    let n = next_id_line(db.next_id);
    let d = show_nat(db.next_id as nat);
    assert forall|i: int| 0 <= i < n.len() implies n[i] != '\n' && n[i] != '\r' by {
        if i >= 7 {
            assert(n[i] == d[i - 7]);
            assert(is_digit(d[i - 7]));
        }
    }
    assert(is_line(header()));
    assert forall|i: int| 0 <= i < b.len() implies is_line(#[trigger] b[i]) by {
        if i == 0 {
        } else if i < 1 + s.len() {
            assert(b[i] == s[i - 1]);
        } else if i < 1 + s.len() + r.len() {
            assert(b[i] == r[i - 1 - s.len()]);
        } else {
            assert(b[i] == n);
        }
    }
    let body = lines_text(b);
    let c = checksum_line(body);
    let h = show_hex(text_checksum(body) as nat, 16);
    law_read_shown_hex(text_checksum(body));
    assert forall|i: int| 0 <= i < c.len() implies c[i] != '\n' && c[i] != '\r' by {
        if i >= 11 {
            assert(c[i] == h[i - 11]);
            assert(hex_value(h[i - 11]) is Some);
        }
    }
    lemma_lines_back(b, c + "\n"@);
    assert(exported(db) =~= body + (c + "\n"@));
    assert("\n"@ =~= seq!['\n']);
    lemma_lines_cons(c, Seq::empty());
    assert(c + seq!['\n'] + Seq::<char>::empty() =~= c + "\n"@);
    assert(lines(Seq::empty()) =~= Seq::empty());
    assert(b + (seq![c] + Seq::<Seq<char>>::empty()) =~= b.push(c));
}

proof fn lemma_row_lines(t: Seq<Table>)
    requires
        forall|i: int| 0 <= i < t.len() ==> storable_table(#[trigger] t[i]),
    ensures
        forall|i: int| 0 <= i < row_lines(t).len() ==> is_line(#[trigger] row_lines(t)[i]),
    decreases t.len(),
{
    if t.len() > 0 {
        let u = t.drop_last();
        assert forall|i: int| 0 <= i < u.len() implies storable_table(#[trigger] u[i]) by {
            assert(storable_table(t[i]));
        }
        lemma_row_lines(u);
        let x = t.last();
        assert(storable_table(t[t.len() - 1]));
        let l = table_lines(x);
        let a = row_lines(u);
        let all = row_lines(t);
        assert forall|i: int| 0 <= i < all.len() implies is_line(#[trigger] all[i]) by {
            if i < a.len() {
                assert(all[i] == a[i]);
            } else {
                let j = i - a.len();
                assert(all[i] == l[j]);
                assert(storable_row(x.schema.columns, x.rows[j]));
                lemma_row_line(x.schema.name, x.schema.columns, x.rows[j]);
            }
        }
    }
}

/// A storable database is read back from its snapshot as it was.
pub proof fn law_import_export(db: Database)
    requires
        storable_database(db),
    ensures
        imported(exported(db)) == (db, None::<Seq<char>>),
{
    let t = db.tables;
    let b = body_lines(db);
    let c = checksum_line(lines_text(b));
    let l = b.push(c);
    lemma_snapshot_lines(db);
    reveal_strlit("# ProbeDB state v1");
    reveal_strlit("# checksum ");
    let empty = Database::empty();
    // The header.
    let h = seq![header()];
    assert(h.drop_last() =~= Seq::empty());
    assert(h.last() == header());
    assert(after_lines(empty, Seq::empty()) == Some(empty));
    assert(after_lines(empty, h) == Some(empty));
    // The schemas.
    lemma_schemas_back(t, t.len() as int);
    assert(t.take(t.len() as int) =~= t);
    assert(schema_lines(t).take(t.len() as int) =~= schema_lines(t));
    lemma_after_concat(empty, h, schema_lines(t));
    // The rows.
    let start = Database { tables: filled(t, 0), next_id: 1 };
    lemma_rows_back(t, t.len() as int);
    assert(filled(t, t.len() as int) =~= t);
    lemma_after_concat(empty, h + schema_lines(t), row_lines(t));
    // The next id.
    let rows = h + schema_lines(t) + row_lines(t);
    let full = Database { tables: t, next_id: 1 };
    assert(after_lines(empty, rows) == Some(full));
    let n = next_id_line(db.next_id);
    lemma_next_id_line(full, db.next_id);
    assert(b =~= rows.push(n));
    assert(b.drop_last() =~= rows);
    assert(after_lines(empty, b) == Some(db));
    // The checksum.
    assert(l.drop_last() =~= b);
    assert(c[0] == '#');
    assert(after_lines(empty, l) == Some(db));
    assert(l.subrange(0, l.len() as int) =~= l);
    lemma_import_block(empty, l, 0, l.len() as int);
}

proof fn lemma_next_id_line(db: Database, id: u64)
    ensures
        import_line(db, 1, next_id_line(id)) == (
            (Database { next_id: id, ..db }),
            None::<Seq<char>>,
        ),
{
    reveal_strlit("NEXTID|");
    reveal_strlit("NEXTID");
    reveal_strlit("SCHEMA");
    reveal_strlit("ROW");
    let d = show_nat(id as nat);
    let s = next_id_line(id);
    lemma_show_nat(id as nat);
    lemma_plain_digits(d);
    lemma_plain_text(d);
    lemma_plain_closed(d);
    lemma_plain_closed("NEXTID"@);
    lemma_fields_single(d);
    lemma_fields_cons("NEXTID"@, d);
    assert(s =~= "NEXTID"@ + seq!['|'] + d);
    assert(fields(s) =~= seq!["NEXTID"@, d]);
    law_read_shown_nat(id as nat, u64::MAX as nat);
    assert("NEXTID"@[0] != "SCHEMA"@[0]);
    assert("NEXTID"@[0] != "ROW"@[0]);
}

} // verus!
