//! How types and values are written to and read from the lines of a file.
//!
//! The fields of a line are parted by `|`. A text hides its own bars, backslashes and
//! line ends behind a backslash, so that any text can be a field.

use vstd::prelude::*;

use crate::decimal::parse_double;
use crate::decimal::push_double;
use crate::decimal::read_double;
use crate::decimal::show_double;
use crate::double::Double;
use crate::number::parse_i64;
use crate::number::parse_usize;
use crate::number::push_i64;
use crate::number::push_u64;
use crate::number::read_i64;
use crate::number::read_nat;
use crate::number::show_int;
use crate::number::show_nat;
use crate::text::chars_of;
use crate::text::has_prefix;
use crate::text::index_of;
use crate::text::is_text;
use crate::text::join;
use crate::text::join2;
use crate::text::joined;
use crate::text::lower;
use crate::text::pieces;
use crate::text::position_of;
use crate::text::push_chars;
use crate::text::push_str;
use crate::text::slice;
use crate::text::split;
use crate::text::starts_with;
use crate::text::string_of;
use crate::text::texts;
use crate::text::to_lower;
use crate::text::trim;
use crate::text::trim_char;
use crate::text::trimmed;
use crate::text::trimmed_of;
use crate::types::date_of;
use crate::types::normalize_date;
use crate::types::normalize_time;
use crate::types::number_texts;
use crate::types::shown_numbers;
use crate::types::time_of;
use crate::types::DataType;
use crate::types::Datum;
use crate::types::Value;

verus! {

// ---------------------------------------------------------------------------
// Escaping
// ---------------------------------------------------------------------------

/// A character of a text as it stands in a field.
pub open spec fn escaped_char(c: char) -> Seq<char> {
    if c == '\\' {
        seq!['\\', '\\']
    } else if c == '|' {
        seq!['\\', '|']
    } else if c == '\n' {
        seq!['\\', 'n']
    } else if c == '\r' {
        seq!['\\', 'r']
    } else {
        seq![c]
    }
}

/// A text as it stands in a field.
pub open spec fn escaped(s: Seq<char>) -> Seq<char>
    decreases s.len(),
{
    if s.len() == 0 {
        Seq::empty()
    } else {
        escaped_char(s[0]) + escaped(s.skip(1))
    }
}

/// What a backslash with the character `c` behind it stands for.
pub open spec fn unescaped_pair(c: char) -> Seq<char> {
    if c == '\\' {
        seq!['\\']
    } else if c == '|' {
        seq!['|']
    } else if c == 'n' {
        seq!['\n']
    } else if c == 'r' {
        seq!['\r']
    } else {
        seq!['\\', c]
    }
}

/// The text that a field stands for.
pub open spec fn unescaped(s: Seq<char>) -> Seq<char>
    decreases s.len(),
{
    if s.len() == 0 {
        Seq::empty()
    } else if s[0] != '\\' {
        seq![s[0]] + unescaped(s.skip(1))
    } else if s.len() == 1 {
        seq!['\\']
    } else {
        unescaped_pair(s[1]) + unescaped(s.skip(2))
    }
}

/// Writes a text as it stands in a field.
pub fn escape_text(s: &Vec<char>) -> (r: Vec<char>)
    ensures
        r@ == escaped(s@),
{
    let mut out: Vec<char> = Vec::new();
    let mut i: usize = 0;
    assert(s@.skip(0) =~= s@);
    assert(out@ + escaped(s@) =~= escaped(s@));
    while i < s.len()
        invariant
            i <= s.len(),
            out@ + escaped(s@.skip(i as int)) == escaped(s@),
        decreases s.len() - i,
    {
        let ghost before = out@;
        let c: char = s[i];
        if c == '\\' {
            out.push('\\');
            out.push('\\');
        } else if c == '|' {
            out.push('\\');
            out.push('|');
        } else if c == '\n' {
            out.push('\\');
            out.push('n');
        } else if c == '\r' {
            out.push('\\');
            out.push('r');
        } else {
            out.push(c);
        }
        proof {
            let rest = s@.skip(i as int);
            assert(rest.skip(1) =~= s@.skip(i + 1));
            assert(out@ =~= before + escaped_char(c));
            assert(out@ + escaped(s@.skip(i + 1)) =~= before + (escaped_char(c) + escaped(
                s@.skip(i + 1),
            )));
        }
        i += 1;
    }
    assert(s@.skip(s@.len() as int) =~= Seq::empty());
    assert(out@ + Seq::<char>::empty() =~= out@);
    out
}

/// Reads the text that a field stands for.
pub fn unescape_text(s: &Vec<char>) -> (r: Vec<char>)
    ensures
        r@ == unescaped(s@),
{
    let mut out: Vec<char> = Vec::new();
    let mut i: usize = 0;
    assert(s@.skip(0) =~= s@);
    assert(out@ + unescaped(s@) =~= unescaped(s@));
    while i < s.len()
        invariant
            i <= s.len(),
            out@ + unescaped(s@.skip(i as int)) == unescaped(s@),
        decreases s.len() - i,
    {
        let ghost before = out@;
        let ghost rest = s@.skip(i as int);
        let c: char = s[i];
        if c != '\\' {
            out.push(c);
            proof {
                assert(rest.skip(1) =~= s@.skip(i + 1));
                assert(out@ + unescaped(s@.skip(i + 1)) =~= before + (seq![c] + unescaped(
                    s@.skip(i + 1),
                )));
            }
            i += 1;
        } else if i + 1 == s.len() {
            out.push('\\');
            proof {
                assert(s@.skip(i + 1) =~= Seq::empty());
                assert(unescaped(Seq::empty()) =~= Seq::empty());
                assert(out@ + unescaped(s@.skip(i + 1)) =~= before + seq!['\\']);
            }
            i += 1;
        } else {
            let d: char = s[i + 1];
            if d == '\\' {
                out.push('\\');
            } else if d == '|' {
                out.push('|');
            } else if d == 'n' {
                out.push('\n');
            } else if d == 'r' {
                out.push('\r');
            } else {
                out.push('\\');
                out.push(d);
            }
            proof {
                assert(rest[1] == d);
                assert(rest.skip(2) =~= s@.skip(i + 2));
                assert(out@ =~= before + unescaped_pair(d));
                assert(out@ + unescaped(s@.skip(i + 2)) =~= before + (unescaped_pair(d)
                    + unescaped(s@.skip(i + 2))));
            }
            i += 2;
        }
    }
    assert(s@.skip(s@.len() as int) =~= Seq::empty());
    assert(out@ + Seq::<char>::empty() =~= out@);
    out
}

/// Every text comes back from its field.
pub proof fn law_escape_round_trip(s: Seq<char>)
    ensures
        unescaped(escaped(s)) == s,
    decreases s.len(),
{
    if s.len() > 0 {
        let c = s[0];
        let rest = s.skip(1);
        let e = escaped(s);
        law_escape_round_trip(rest);
        assert(s =~= seq![c] + rest);
        if escaped_char(c).len() == 1 {
            assert(e[0] == c);
            assert(e.skip(1) =~= escaped(rest));
        } else {
            assert(e[0] == '\\');
            assert(e[1] == escaped_char(c)[1]);
            assert(e.skip(2) =~= escaped(rest));
            assert(unescaped_pair(e[1]) =~= seq![c]);
        }
    }
}

// ---------------------------------------------------------------------------
// Fields
// ---------------------------------------------------------------------------

/// The fields of a line from `start` on, where the characters before `i` have been
/// looked at. A backslash hides the character behind it.
pub open spec fn fields_from(s: Seq<char>, start: int, i: int) -> Seq<Seq<char>>
    decreases s.len() - i,
{
    if i < 0 || i >= s.len() {
        seq![s.subrange(start, s.len() as int)]
    } else if s[i] == '\\' && i + 1 < s.len() {
        fields_from(s, start, i + 2)
    } else if s[i] == '|' {
        seq![s.subrange(start, i)] + fields_from(s, i + 1, i + 1)
    } else {
        fields_from(s, start, i + 1)
    }
}

/// The fields of a line: what stands between its bars, but for those that a backslash
/// hides.
pub open spec fn fields(s: Seq<char>) -> Seq<Seq<char>> {
    fields_from(s, 0, 0)
}

/// The fields of a line.
pub fn split_pipe_aware(s: &Vec<char>) -> (r: Vec<Vec<char>>)
    ensures
        texts(r@) == fields(s@),
        r@.len() > 0,
{
    let mut r: Vec<Vec<char>> = Vec::new();
    let mut start: usize = 0;
    let mut i: usize = 0;
    assert(texts(r@) + fields(s@) =~= fields(s@));
    while i < s.len()
        invariant
            start <= i <= s.len(),
            texts(r@) + fields_from(s@, start as int, i as int) == fields(s@),
        decreases s.len() - i,
    {
        if s[i] == '\\' && i + 1 < s.len() {
            i += 2;
        } else {
            if s[i] == '|' {
                let piece = slice(s, start, i);
                let ghost before = r@;
                r.push(piece);
                proof {
                    assert(texts(r@) =~= texts(before).push(piece@));
                    let rest = fields_from(s@, i + 1, i + 1);
                    assert(texts(r@) + rest =~= texts(before) + (seq![piece@] + rest));
                }
                start = i + 1;
            }
            i += 1;
        }
    }
    let piece = slice(s, start, s.len());
    let ghost before = r@;
    r.push(piece);
    assert(texts(r@) =~= texts(before) + seq![piece@]);
    r
}

/// A text that can stand in a line between two bars: read from its start, it holds no
/// bar that a backslash does not hide, and no backslash at its end.
pub open spec fn is_closed_field(s: Seq<char>) -> bool
    decreases s.len(),
{
    if s.len() == 0 {
        true
    } else if s[0] == '|' {
        false
    } else if s[0] == '\\' {
        s.len() > 1 && is_closed_field(s.skip(2))
    } else {
        is_closed_field(s.skip(1))
    }
}

/// A closed field is passed over up to its end.
proof fn lemma_pass_field(s: Seq<char>, start: int, i: int, f: Seq<char>)
    requires
        is_closed_field(f),
        0 <= start <= i,
        i + f.len() <= s.len(),
        s.subrange(i, i + f.len()) == f,
    ensures
        fields_from(s, start, i) == fields_from(s, start, i + f.len()),
    decreases f.len(),
{
    if f.len() > 0 {
        assert(s[i] == f[0]);
        if f[0] == '\\' {
            let g = f.skip(2);
            assert(s.subrange(i + 2, i + 2 + g.len()) =~= g);
            lemma_pass_field(s, start, i + 2, g);
        } else {
            let g = f.skip(1);
            assert(s.subrange(i + 1, i + 1 + g.len()) =~= g);
            lemma_pass_field(s, start, i + 1, g);
        }
    }
}

proof fn lemma_fields_shift(s: Seq<char>, t: Seq<char>, start: int, i: int)
    requires
        0 <= start <= i <= t.len(),
    ensures
        fields_from(s + t, start + s.len(), i + s.len()) == fields_from(t, start, i),
    decreases t.len() - i,
{
    let w = s + t;
    let k = s.len();
    if i < t.len() {
        assert(w[i + k] == t[i]);
        if t[i] == '\\' && i + 1 < t.len() {
            lemma_fields_shift(s, t, start, i + 2);
        } else if t[i] == '|' {
            lemma_fields_shift(s, t, i + 1, i + 1);
            assert(w.subrange(start + k, i + k) =~= t.subrange(start, i));
        } else {
            lemma_fields_shift(s, t, start, i + 1);
        }
    } else {
        assert(w.subrange(start + k, w.len() as int) =~= t.subrange(start, t.len() as int));
    }
}

/// What stands before the first bar is the first field.
pub proof fn lemma_fields_cons(f: Seq<char>, t: Seq<char>)
    requires
        is_closed_field(f),
    ensures
        fields(f + seq!['|'] + t) == seq![f] + fields(t),
{
    let h = f + seq!['|'];
    let s = h + t;
    assert(s.subrange(0, f.len() as int) =~= f);
    lemma_pass_field(s, 0, 0, f);
    assert(s[f.len() as int] == '|');
    lemma_fields_shift(h, t, 0, 0);
}

/// A closed field alone is the only field of its line.
pub proof fn lemma_fields_single(f: Seq<char>)
    requires
        is_closed_field(f),
    ensures
        fields(f) == seq![f],
{
    assert(f.subrange(0, f.len() as int) =~= f);
    lemma_pass_field(f, 0, 0, f);
}

/// Escaping closes a field.
pub proof fn lemma_escaped_closed(s: Seq<char>)
    ensures
        is_closed_field(escaped(s)),
        !escaped(s).contains('\n'),
        !escaped(s).contains('\r'),
    decreases s.len(),
{
    if s.len() > 0 {
        let c = s[0];
        let rest = escaped(s.skip(1));
        let e = escaped(s);
        lemma_escaped_closed(s.skip(1));
        if escaped_char(c).len() == 1 {
            assert(e[0] == c);
            assert(e.skip(1) =~= rest);
        } else {
            assert(e[0] == '\\');
            assert(e.skip(2) =~= rest);
        }
        let n = escaped_char(c).len();
        assert forall|i: int| 0 <= i < e.len() implies e[i] != '\n' && e[i] != '\r' by {
            if i >= n {
                assert(e[i] == rest[i - n]);
                assert(rest.contains(rest[i - n]));
            }
        }
    }
}

/// A text without bars and backslashes is closed.
pub proof fn lemma_plain_closed(s: Seq<char>)
    requires
        !s.contains('|'),
        !s.contains('\\'),
    ensures
        is_closed_field(s),
    decreases s.len(),
{
    if s.len() > 0 {
        assert(s.contains(s[0]));
        let t = s.skip(1);
        assert forall|i: int| 0 <= i < t.len() implies t[i] != '|' && t[i] != '\\' by {
            assert(t[i] == s[i + 1]);
            assert(s.contains(s[i + 1]));
        }
        lemma_plain_closed(t);
    }
}

/// Two closed fields, one behind the other, make a closed one.
pub proof fn lemma_closed_concat(a: Seq<char>, b: Seq<char>)
    requires
        is_closed_field(a),
        is_closed_field(b),
    ensures
        is_closed_field(a + b),
    decreases a.len(),
{
    if a.len() == 0 {
        assert(a + b =~= b);
    } else if a[0] == '\\' {
        lemma_closed_concat(a.skip(2), b);
        assert((a + b).skip(2) =~= a.skip(2) + b);
    } else {
        lemma_closed_concat(a.skip(1), b);
        assert((a + b).skip(1) =~= a.skip(1) + b);
    }
}

// ---------------------------------------------------------------------------
// Types
// ---------------------------------------------------------------------------

/// A column type as it stands in a line.
pub open spec fn type_code(t: DataType) -> Seq<char> {
    match t {
        DataType::Integer => "INTEGER"@,
        DataType::Float => "FLOAT"@,
        DataType::Text => "TEXT"@,
        DataType::Boolean => "BOOLEAN"@,
        DataType::Date => "DATE"@,
        DataType::Time => "TIME"@,
        DataType::Vector(n) => "VECTOR:"@ + show_nat(n as nat),
    }
}

/// The column type that stands in a line, or what is wrong with it.
pub open spec fn type_coded(s: Seq<char>) -> Result<DataType, Seq<char>> {
    if s == "INTEGER"@ {
        Ok(DataType::Integer)
    } else if s == "FLOAT"@ {
        Ok(DataType::Float)
    } else if s == "TEXT"@ {
        Ok(DataType::Text)
    } else if s == "BOOLEAN"@ {
        Ok(DataType::Boolean)
    } else if s == "DATE"@ {
        Ok(DataType::Date)
    } else if s == "TIME"@ {
        Ok(DataType::Time)
    } else if starts_with(s, "VECTOR:"@) {
        match read_nat(s.skip(7), usize::MAX as nat) {
            Some(n) => Ok(DataType::Vector(n as usize)),
            None => Err("VECTOR维度解析失败: "@ + s),
        }
    } else {
        Err("未知数据类型: "@ + s)
    }
}

/// Writes a column type.
pub fn encode_type(t: &DataType) -> (r: Vec<char>)
    ensures
        r@ == type_code(*t),
{
    match t {
        DataType::Integer => chars_of("INTEGER"),
        DataType::Float => chars_of("FLOAT"),
        DataType::Text => chars_of("TEXT"),
        DataType::Boolean => chars_of("BOOLEAN"),
        DataType::Date => chars_of("DATE"),
        DataType::Time => chars_of("TIME"),
        DataType::Vector(n) => {
            let mut out = chars_of("VECTOR:");
            push_u64(&mut out, *n as u64);
            out
        },
    }
}

/// Reads a column type.
pub fn decode_type(s: &Vec<char>) -> (r: Result<DataType, String>)
    ensures
        match r {
            Ok(t) => type_coded(s@) == Ok::<DataType, Seq<char>>(t),
            Err(e) => type_coded(s@) == Err::<DataType, Seq<char>>(e@),
        },
{
    if is_text(s, "INTEGER") {
        Ok(DataType::Integer)
    } else if is_text(s, "FLOAT") {
        Ok(DataType::Float)
    } else if is_text(s, "TEXT") {
        Ok(DataType::Text)
    } else if is_text(s, "BOOLEAN") {
        Ok(DataType::Boolean)
    } else if is_text(s, "DATE") {
        Ok(DataType::Date)
    } else if is_text(s, "TIME") {
        Ok(DataType::Time)
    } else if has_prefix(s, "VECTOR:") {
        proof {
            reveal_strlit("VECTOR:");
            assert(s@.skip(7) =~= s@.subrange(7, s@.len() as int));
        }
        match parse_usize(&slice(s, 7, s.len())) {
            Some(n) => Ok(DataType::Vector(n)),
            None => Err(join2("VECTOR维度解析失败: ", string_of(s).as_str())),
        }
    } else {
        Err(join2("未知数据类型: ", string_of(s).as_str()))
    }
}

/// Every column type comes back from its code.
pub proof fn law_type_round_trip(t: DataType)
    ensures
        type_coded(type_code(t)) == Ok::<DataType, Seq<char>>(t),
{
    lemma_type_names();
    match t {
        DataType::Vector(n) => {
            let s = type_code(t);
            let p = "VECTOR:"@;
            assert(s.subrange(0, 7) =~= p);
            assert(s.skip(7) =~= show_nat(n as nat));
            crate::number::law_read_shown_nat(n as nat, usize::MAX as nat);
            assert(s[0] == 'V');
        },
        _ => {},
    }
}

proof fn lemma_type_names()
    ensures
        "INTEGER"@.len() == 7,
        "INTEGER"@[0] == 'I',
        "FLOAT"@[0] == 'F',
        "FLOAT"@.len() == 5,
        "TEXT"@[0] == 'T',
        "TEXT"@[1] == 'E',
        "TEXT"@.len() == 4,
        "BOOLEAN"@[0] == 'B',
        "BOOLEAN"@.len() == 7,
        "DATE"@[0] == 'D',
        "DATE"@.len() == 4,
        "TIME"@[0] == 'T',
        "TIME"@[1] == 'I',
        "TIME"@.len() == 4,
        "VECTOR:"@.len() == 7,
        "VECTOR:"@[0] == 'V',
        "VECTOR:"@ == seq!['V', 'E', 'C', 'T', 'O', 'R', ':'],
{
    reveal_strlit("INTEGER");
    reveal_strlit("FLOAT");
    reveal_strlit("TEXT");
    reveal_strlit("BOOLEAN");
    reveal_strlit("DATE");
    reveal_strlit("TIME");
    reveal_strlit("VECTOR:");
    assert("VECTOR:"@ =~= seq!['V', 'E', 'C', 'T', 'O', 'R', ':']);
}

// ---------------------------------------------------------------------------
// Values
// ---------------------------------------------------------------------------

/// A value as it stands in a line.
pub open spec fn value_code(d: Datum) -> Seq<char> {
    match d {
        Datum::Integer(n) => "INT:"@ + show_int(n as int),
        Datum::Float(x) => "FLOAT:"@ + show_double(x),
        Datum::Text(s) => "TEXT:"@ + escaped(s),
        Datum::Boolean(b) => "BOOL:"@ + (if b {
            "true"@
        } else {
            "false"@
        }),
        Datum::Date(s) => "DATE:"@ + s,
        Datum::Time(s) => "TIME:"@ + s,
        Datum::Vector(v) => "VEC:"@ + show_nat(v.len()) + ":"@ + join(shown_numbers(v), ","@),
    }
}

/// The numbers of a list, up to the first that is none.
pub open spec fn numbers_of(p: Seq<Seq<char>>) -> Option<Seq<Double>>
    decreases p.len(),
{
    if p.len() == 0 {
        Some(Seq::empty())
    } else {
        match (numbers_of(p.drop_last()), read_double(trim(p.last()))) {
            (Some(v), Some(x)) => Some(v.push(x)),
            _ => None,
        }
    }
}

/// The vector that a field behind `VEC:` stands for.
pub open spec fn vector_coded(s: Seq<char>, rest: Seq<char>) -> Result<Datum, Seq<char>> {
    let i = index_of(rest, ':');
    if i >= rest.len() {
        Err("向量编码格式错误: "@ + s)
    } else if read_nat(rest.take(i), usize::MAX as nat) is None {
        Err("向量长度解析失败: "@ + s)
    } else {
        match numbers_of(split(rest.skip(i + 1), ',')) {
            Some(v) => Ok(Datum::Vector(v)),
            None => Err("向量元素解析失败: "@ + s),
        }
    }
}

/// The value that stands in a line, or what is wrong with it.
pub open spec fn value_coded(s: Seq<char>) -> Result<Datum, Seq<char>> {
    if starts_with(s, "INT:"@) {
        match read_i64(s.skip(4)) {
            Some(n) => Ok(Datum::Integer(n)),
            None => Err("整数解析失败: "@ + s),
        }
    } else if starts_with(s, "FLOAT:"@) {
        match read_double(s.skip(6)) {
            Some(x) => Ok(Datum::Float(x)),
            None => Err("浮点解析失败: "@ + s),
        }
    } else if starts_with(s, "TEXT:"@) {
        Ok(Datum::Text(unescaped(s.skip(5))))
    } else if starts_with(s, "BOOL:"@) {
        if s.skip(5) == "true"@ {
            Ok(Datum::Boolean(true))
        } else if s.skip(5) == "false"@ {
            Ok(Datum::Boolean(false))
        } else {
            Err("布尔解析失败: "@ + s)
        }
    } else if starts_with(s, "DATE:"@) {
        match date_of(s.skip(5)) {
            Ok(d) => Ok(Datum::Date(d)),
            Err(e) => Err(e),
        }
    } else if starts_with(s, "TIME:"@) {
        match time_of(s.skip(5)) {
            Ok(d) => Ok(Datum::Time(d)),
            Err(e) => Err(e),
        }
    } else if starts_with(s, "VEC:"@) {
        vector_coded(s, s.skip(4))
    } else {
        Err("未知值编码: "@ + s)
    }
}

/// A value or an error, by its view.
pub open spec fn value_result(r: Result<Value, String>) -> Result<Datum, Seq<char>> {
    match r {
        Ok(v) => Ok(v@),
        Err(e) => Err(e@),
    }
}

/// Writes a value.
pub fn encode_value(v: &Value) -> (r: Vec<char>)
    ensures
        r@ == value_code(v@),
{
    match v {
        Value::Integer(n) => {
            let mut out = chars_of("INT:");
            push_i64(&mut out, *n);
            out
        },
        Value::Float(x) => {
            let mut out = chars_of("FLOAT:");
            push_double(&mut out, *x);
            out
        },
        Value::Text(s) => {
            let mut out = chars_of("TEXT:");
            push_chars(&mut out, &escape_text(&chars_of(s.as_str())));
            out
        },
        Value::Boolean(b) => {
            let mut out = chars_of("BOOL:");
            push_str(
                &mut out,
                if *b {
                    "true"
                } else {
                    "false"
                },
            );
            out
        },
        Value::Date(s) => {
            let mut out = chars_of("DATE:");
            push_str(&mut out, s.as_str());
            out
        },
        Value::Time(s) => {
            let mut out = chars_of("TIME:");
            push_str(&mut out, s.as_str());
            out
        },
        Value::Vector(v) => {
            let mut out = chars_of("VEC:");
            push_u64(&mut out, v.len() as u64);
            push_str(&mut out, ":");
            push_chars(&mut out, &joined(&number_texts(v), ","));
            out
        },
    }
}

fn rest_of(s: &Vec<char>, n: usize) -> (r: Vec<char>)
    requires
        n <= s@.len(),
    ensures
        r@ == s@.skip(n as int),
{
    assert(s@.skip(n as int) =~= s@.subrange(n as int, s@.len() as int));
    slice(s, n, s.len())
}

/// The numbers of a list that commas part.
pub fn parse_numbers(s: &Vec<char>) -> (r: Option<Vec<Double>>)
    ensures
        match r {
            Some(v) => numbers_of(split(s@, ',')) == Some(v@),
            None => numbers_of(split(s@, ',')) is None,
        },
{
    let p = pieces(s, ',');
    let ghost t = texts(p@);
    let mut v: Vec<Double> = Vec::new();
    let mut i: usize = 0;
    assert(t.take(0) =~= Seq::empty());
    assert(v@ =~= Seq::empty());
    while i < p.len()
        invariant
            i <= p.len(),
            t == texts(p@),
            t == split(s@, ','),
            numbers_of(t.take(i as int)) == Some(v@),
        decreases p.len() - i,
    {
        proof {
            assert(t.take(i + 1).drop_last() =~= t.take(i as int));
            assert(t.take(i + 1).last() == p@[i as int]@);
        }
        match parse_double(&trimmed(&p[i])) {
            Some(x) => v.push(x),
            None => {
                proof {
                    lemma_numbers_none(t, i + 1);
                }
                return None;
            },
        }
        i += 1;
    }
    assert(t.take(p@.len() as int) =~= t);
    Some(v)
}

proof fn lemma_numbers_none(s: Seq<Seq<char>>, k: int)
    requires
        0 <= k <= s.len(),
        numbers_of(s.take(k)) is None,
    ensures
        numbers_of(s) is None,
    decreases s.len() - k,
{
    if k == s.len() {
        assert(s.take(k) =~= s);
    } else {
        assert(s.take(k + 1).drop_last() =~= s.take(k));
        lemma_numbers_none(s, k + 1);
    }
}

/// Reads a value.
pub fn decode_value(s: &Vec<char>) -> (r: Result<Value, String>)
    ensures
        value_result(r) == value_coded(s@),
{
    proof {
        lemma_value_tags();
    }
    if has_prefix(s, "INT:") {
        match parse_i64(&rest_of(s, 4)) {
            Some(n) => Ok(Value::Integer(n)),
            None => Err(join2("整数解析失败: ", string_of(s).as_str())),
        }
    } else if has_prefix(s, "FLOAT:") {
        match parse_double(&rest_of(s, 6)) {
            Some(x) => Ok(Value::Float(x)),
            None => Err(join2("浮点解析失败: ", string_of(s).as_str())),
        }
    } else if has_prefix(s, "TEXT:") {
        Ok(Value::Text(string_of(&unescape_text(&rest_of(s, 5)))))
    } else if has_prefix(s, "BOOL:") {
        let rest = rest_of(s, 5);
        if is_text(&rest, "true") {
            Ok(Value::Boolean(true))
        } else if is_text(&rest, "false") {
            Ok(Value::Boolean(false))
        } else {
            Err(join2("布尔解析失败: ", string_of(s).as_str()))
        }
    } else if has_prefix(s, "DATE:") {
        match normalize_date(string_of(&rest_of(s, 5)).as_str()) {
            Ok(d) => Ok(Value::Date(d)),
            Err(e) => Err(e),
        }
    } else if has_prefix(s, "TIME:") {
        match normalize_time(string_of(&rest_of(s, 5)).as_str()) {
            Ok(d) => Ok(Value::Time(d)),
            Err(e) => Err(e),
        }
    } else if has_prefix(s, "VEC:") {
        let rest = rest_of(s, 4);
        let i: usize = position_of(&rest, ':');
        if i == rest.len() {
            return Err(join2("向量编码格式错误: ", string_of(s).as_str()));
        }
        assert(rest@.take(i as int) =~= rest@.subrange(0, i as int));
        if parse_usize(&slice(&rest, 0, i)).is_none() {
            return Err(join2("向量长度解析失败: ", string_of(s).as_str()));
        }
        match parse_numbers(&rest_of(&rest, i + 1)) {
            Some(v) => Ok(Value::Vector(v)),
            None => Err(join2("向量元素解析失败: ", string_of(s).as_str())),
        }
    } else {
        Err(join2("未知值编码: ", string_of(s).as_str()))
    }
}

proof fn lemma_value_tags()
    ensures
        "INT:"@ == seq!['I', 'N', 'T', ':'],
        "FLOAT:"@ == seq!['F', 'L', 'O', 'A', 'T', ':'],
        "TEXT:"@ == seq!['T', 'E', 'X', 'T', ':'],
        "BOOL:"@ == seq!['B', 'O', 'O', 'L', ':'],
        "DATE:"@ == seq!['D', 'A', 'T', 'E', ':'],
        "TIME:"@ == seq!['T', 'I', 'M', 'E', ':'],
        "VEC:"@ == seq!['V', 'E', 'C', ':'],
{
    reveal_strlit("INT:");
    reveal_strlit("FLOAT:");
    reveal_strlit("TEXT:");
    reveal_strlit("BOOL:");
    reveal_strlit("DATE:");
    reveal_strlit("TIME:");
    reveal_strlit("VEC:");
    assert("INT:"@ =~= seq!['I', 'N', 'T', ':']);
    assert("FLOAT:"@ =~= seq!['F', 'L', 'O', 'A', 'T', ':']);
    assert("TEXT:"@ =~= seq!['T', 'E', 'X', 'T', ':']);
    assert("BOOL:"@ =~= seq!['B', 'O', 'O', 'L', ':']);
    assert("DATE:"@ =~= seq!['D', 'A', 'T', 'E', ':']);
    assert("TIME:"@ =~= seq!['T', 'I', 'M', 'E', ':']);
    assert("VEC:"@ =~= seq!['V', 'E', 'C', ':']);
}

/// Reads a value of the type `t` as it is written in a statement.
pub open spec fn value_read(s: Seq<char>, t: DataType) -> Result<Datum, Seq<char>> {
    match t {
        DataType::Integer => match read_i64(s) {
            Some(n) => Ok(Datum::Integer(n)),
            None => Err("无法解析为整数: "@ + s),
        },
        DataType::Float => match read_double(s) {
            Some(x) => Ok(Datum::Float(x)),
            None => Err("无法解析为浮点数: "@ + s),
        },
        DataType::Text => Ok(Datum::Text(trim_char(s, '\''))),
        DataType::Boolean => {
            let w = lower(trim_char(trim(s), '\''));
            if w == "true"@ || w == "1"@ {
                Ok(Datum::Boolean(true))
            } else if w == "false"@ || w == "0"@ {
                Ok(Datum::Boolean(false))
            } else {
                Err("无法解析为布尔值: "@ + s)
            }
        },
        DataType::Date => match date_of(s) {
            Ok(d) => Ok(Datum::Date(d)),
            Err(e) => Err(e),
        },
        DataType::Time => match time_of(s) {
            Ok(d) => Ok(Datum::Time(d)),
            Err(e) => Err(e),
        },
        DataType::Vector(_) => match numbers_of(split(trim_char(trim_char(s, '['), ']'), ',')) {
            Some(v) => Ok(Datum::Vector(v)),
            None => Err("无法解析为向量: "@ + s),
        },
    }
}

/// Reads a value of the given type as it is written in a statement.
pub fn parse_value(value_str: &str, col_type: &DataType) -> (r: Result<Value, String>)
    ensures
        value_result(r) == value_read(value_str@, *col_type),
{
    let s = chars_of(value_str);
    match col_type {
        DataType::Integer => match parse_i64(&s) {
            Some(n) => Ok(Value::Integer(n)),
            None => Err(join2("无法解析为整数: ", value_str)),
        },
        DataType::Float => match parse_double(&s) {
            Some(x) => Ok(Value::Float(x)),
            None => Err(join2("无法解析为浮点数: ", value_str)),
        },
        DataType::Text => Ok(Value::Text(string_of(&trimmed_of(&s, '\'')))),
        DataType::Boolean => {
            let w = to_lower(&trimmed_of(&trimmed(&s), '\''));
            if is_text(&w, "true") || is_text(&w, "1") {
                Ok(Value::Boolean(true))
            } else if is_text(&w, "false") || is_text(&w, "0") {
                Ok(Value::Boolean(false))
            } else {
                Err(join2("无法解析为布尔值: ", value_str))
            }
        },
        DataType::Date => match normalize_date(value_str) {
            Ok(d) => Ok(Value::Date(d)),
            Err(e) => Err(e),
        },
        DataType::Time => match normalize_time(value_str) {
            Ok(d) => Ok(Value::Time(d)),
            Err(e) => Err(e),
        },
        DataType::Vector(_) => {
            let body = trimmed_of(&trimmed_of(&s, '['), ']');
            match parse_numbers(&body) {
                Some(v) => Ok(Value::Vector(v)),
                None => Err(join2("无法解析为向量: ", value_str)),
            }
        },
    }
}

/// Whether a column of the type `t` may hold the value. A number column takes whole
/// numbers too; a vector must have the dimension of its column.
pub open spec fn fits(t: DataType, d: Datum) -> bool {
    match (t, d) {
        (DataType::Integer, Datum::Integer(_)) => true,
        (DataType::Float, Datum::Float(_)) => true,
        (DataType::Float, Datum::Integer(_)) => true,
        (DataType::Text, Datum::Text(_)) => true,
        (DataType::Boolean, Datum::Boolean(_)) => true,
        (DataType::Date, Datum::Date(_)) => true,
        (DataType::Time, Datum::Time(_)) => true,
        (DataType::Vector(n), Datum::Vector(v)) => n == 0 || v.len() == n,
        _ => false,
    }
}

/// Whether a column of the type may hold the value.
pub fn type_matches(col_type: &DataType, value: &Value) -> (r: bool)
    ensures
        r == fits(*col_type, value@),
{
    match (col_type, value) {
        (DataType::Integer, Value::Integer(_)) => true,
        (DataType::Float, Value::Float(_)) => true,
        (DataType::Float, Value::Integer(_)) => true,
        (DataType::Text, Value::Text(_)) => true,
        (DataType::Boolean, Value::Boolean(_)) => true,
        (DataType::Date, Value::Date(_)) => true,
        (DataType::Time, Value::Time(_)) => true,
        (DataType::Vector(n), Value::Vector(v)) => *n == 0 || v.len() == *n,
        _ => false,
    }
}

} // verus!
