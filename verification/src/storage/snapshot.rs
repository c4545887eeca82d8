//! Snapshots: the whole database as text.
//!
//! ```text
//! # ProbeDB state v1
//! SCHEMA|<table>|<column>:<type>|...
//! ROW|<table>|<id>|<value>|...
//! NEXTID|<id>
//! # checksum <hash of all lines before>
//! ```

use vstd::prelude::*;
use vstd::utf8::encode_utf8;

use super::codec::decode_type;
use super::codec::decode_value;
use super::codec::encode_type;
use super::codec::encode_value;
use super::codec::fields;
use super::codec::split_pipe_aware;
use super::codec::type_code;
use super::codec::type_coded;
use super::codec::value_code;
use super::codec::value_coded;
use super::engine::unit_result;
use super::engine::Database;
use super::engine::StorageEngine;
use super::schema::columns_view;
use super::schema::rows_view;
use super::schema::Column;
use super::schema::ColumnInfo;
use super::schema::Record;
use super::schema::Row;
use super::schema::Schema;
use super::schema::Table;
use super::schema::TableSchema;
use crate::number::parse_u64;
use crate::number::push_hex;
use crate::number::push_u64;
use crate::number::read_nat;
use crate::number::show_hex;
use crate::number::show_nat;
use crate::text::chars_of;
use crate::text::index_of;
use crate::text::is_text;
use crate::text::join;
use crate::text::joined;
use crate::text::lines;
use crate::text::lines_of;
use crate::text::position_of;
use crate::text::push_chars;
use crate::text::push_str;
use crate::text::slice;
use crate::text::string_of;
use crate::text::texts;
use crate::types::data;
use crate::types::Datum;
use crate::types::Value;

verus! {

// ---------------------------------------------------------------------------
// Checksums
// ---------------------------------------------------------------------------

/// The FNV-1a hash of no bytes.
pub const FNV_BASIS: u64 = 0xcbf2_9ce4_8422_2325;

/// The factor of the FNV-1a hash.
pub const FNV_PRIME: u64 = 0x0000_0100_0000_01b3;

/// The FNV-1a hash of bytes: each byte is mixed in by an exclusive or, and the hash is
/// then multiplied, modulo 2^64.
pub open spec fn fnv(bytes: Seq<u8>) -> u64
    decreases bytes.len(),
{
    if bytes.len() == 0 {
        FNV_BASIS
    } else {
        (fnv(bytes.drop_last()) ^ (bytes.last() as u64)).wrapping_mul(FNV_PRIME)
    }
}

/// The FNV-1a hash of bytes, in 64 bits.
pub fn fnv1a64(bytes: &[u8]) -> (r: u64)
    ensures
        r == fnv(bytes@),
{
    let mut h: u64 = FNV_BASIS;
    let mut i: usize = 0;
    assert(bytes@.take(0) =~= Seq::empty());
    while i < bytes.len()
        invariant
            i <= bytes@.len(),
            h == fnv(bytes@.take(i as int)),
        decreases bytes@.len() - i,
    {
        assert(bytes@.take(i + 1).drop_last() =~= bytes@.take(i as int));
        h = (h ^ (bytes[i] as u64)).wrapping_mul(FNV_PRIME);
        i += 1;
    }
    assert(bytes@.take(bytes@.len() as int) =~= bytes@);
    h
}

/// The checksum of a text.
pub open spec fn text_checksum(s: Seq<char>) -> u64 {
    fnv(encode_utf8(s))
}

/// The checksum of a text.
pub fn checksum_of(s: &Vec<char>) -> (r: u64)
    ensures
        r == text_checksum(s@),
{
    let t = string_of(s);
    fnv1a64(t.as_str().as_bytes())
}

// ---------------------------------------------------------------------------
// Writing
// ---------------------------------------------------------------------------

/// A column as it stands in a line.
pub open spec fn column_code(c: Column) -> Seq<char> {
    c.name + ":"@ + type_code(c.data_type)
}

/// The columns of a table as they stand in a line.
pub open spec fn columns_code(c: Seq<Column>) -> Seq<char> {
    join(c.map_values(|c: Column| column_code(c)), "|"@)
}

/// The values of a row as they stand in a line.
pub open spec fn values_code(v: Seq<Datum>) -> Seq<char> {
    join(v.map_values(|d: Datum| value_code(d)), "|"@)
}

/// The line of a schema.
pub open spec fn schema_line(s: Schema) -> Seq<char> {
    "SCHEMA|"@ + s.name + "|"@ + columns_code(s.columns)
}

/// The line of a row.
pub open spec fn row_line(name: Seq<char>, r: Record) -> Seq<char> {
    "ROW|"@ + name + "|"@ + show_nat(r.id as nat) + "|"@ + values_code(r.values)
}

/// The lines of the schemas.
pub open spec fn schema_lines(t: Seq<Table>) -> Seq<Seq<char>> {
    t.map_values(|t: Table| schema_line(t.schema))
}

/// The lines of the rows of a table.
pub open spec fn table_lines(t: Table) -> Seq<Seq<char>> {
    t.rows.map_values(|r: Record| row_line(t.schema.name, r))
}

/// The lines of the rows of all tables.
pub open spec fn row_lines(t: Seq<Table>) -> Seq<Seq<char>>
    decreases t.len(),
{
    if t.len() == 0 {
        Seq::empty()
    } else {
        row_lines(t.drop_last()) + table_lines(t.last())
    }
}

/// The line of the next id.
pub open spec fn next_id_line(id: u64) -> Seq<char> {
    "NEXTID|"@ + show_nat(id as nat)
}

/// The first line of a snapshot.
pub open spec fn header() -> Seq<char> {
    "# ProbeDB state v1"@
}

/// The lines of a snapshot but for the checksum.
pub open spec fn body_lines(db: Database) -> Seq<Seq<char>> {
    seq![header()] + schema_lines(db.tables) + row_lines(db.tables) + seq![next_id_line(db.next_id)]
}

/// Lines with a line feed at the end of each.
pub open spec fn lines_text(l: Seq<Seq<char>>) -> Seq<char>
    decreases l.len(),
{
    if l.len() == 0 {
        Seq::empty()
    } else {
        lines_text(l.drop_last()) + l.last() + "\n"@
    }
}

/// The line of the checksum of what stands before it.
pub open spec fn checksum_line(body: Seq<char>) -> Seq<char> {
    "# checksum "@ + show_hex(text_checksum(body) as nat, 16)
}

/// A database as text.
pub open spec fn exported(db: Database) -> Seq<char> {
    let body = lines_text(body_lines(db));
    body + checksum_line(body) + "\n"@
}

/// Appends the columns as they stand in a line.
pub fn push_columns(out: &mut Vec<char>, columns: &Vec<ColumnInfo>)
    ensures
        final(out)@ == old(out)@ + columns_code(columns_view(columns@)),
{
    let mut parts: Vec<Vec<char>> = Vec::new();
    let ghost c = columns_view(columns@);
    let mut i: usize = 0;
    while i < columns.len()
        invariant
            i <= columns.len(),
            c == columns_view(columns@),
            texts(parts@) == c.take(i as int).map_values(|c: Column| column_code(c)),
        decreases columns.len() - i,
    {
        let mut t = chars_of(columns[i].name.as_str());
        push_str(&mut t, ":");
        push_chars(&mut t, &encode_type(&columns[i].data_type));
        let ghost before = parts@;
        parts.push(t);
        proof {
            assert(texts(parts@) =~= texts(before).push(t@));
            assert(c.take(i + 1).map_values(|c: Column| column_code(c)) =~= c.take(
                i as int,
            ).map_values(|c: Column| column_code(c)).push(column_code(columns@[i as int]@)));
        }
        i += 1;
    }
    assert(c.take(columns@.len() as int) =~= c);
    push_chars(out, &joined(&parts, "|"));
}

/// Appends the values as they stand in a line.
pub fn push_values(out: &mut Vec<char>, values: &Vec<Value>)
    ensures
        final(out)@ == old(out)@ + values_code(data(values@)),
{
    let mut parts: Vec<Vec<char>> = Vec::new();
    let ghost d = data(values@);
    let mut i: usize = 0;
    while i < values.len()
        invariant
            i <= values.len(),
            d == data(values@),
            texts(parts@) == d.take(i as int).map_values(|d: Datum| value_code(d)),
        decreases values.len() - i,
    {
        let t = encode_value(&values[i]);
        let ghost before = parts@;
        parts.push(t);
        proof {
            assert(texts(parts@) =~= texts(before).push(t@));
            assert(d.take(i + 1).map_values(|d: Datum| value_code(d)) =~= d.take(
                i as int,
            ).map_values(|d: Datum| value_code(d)).push(value_code(values@[i as int]@)));
        }
        i += 1;
    }
    assert(d.take(values@.len() as int) =~= d);
    push_chars(out, &joined(&parts, "|"));
}

fn push_row_line(out: &mut Vec<char>, name: &str, row: &Row)
    ensures
        final(out)@ == old(out)@ + row_line(name@, row@) + "\n"@,
{
    let ghost start = out@;
    push_str(out, "ROW|");
    push_str(out, name);
    push_str(out, "|");
    push_u64(out, row.id);
    push_str(out, "|");
    push_values(out, &row.values);
    push_str(out, "\n");
    assert(out@ =~= start + row_line(name@, row@) + "\n"@);
}

proof fn lemma_lines_text_push(l: Seq<Seq<char>>, x: Seq<char>)
    ensures
        lines_text(l.push(x)) == lines_text(l) + x + "\n"@,
{
    assert(l.push(x).drop_last() =~= l);
}

impl StorageEngine {
    /// The database as text.
    pub fn export_state(&self) -> (r: String)
        ensures
            r@ == exported(self@),
    {
        let mut out = self.snapshot_body();
        let sum: u64 = checksum_of(&out);
        push_str(&mut out, "# checksum ");
        push_hex(&mut out, sum, 16);
        push_str(&mut out, "\n");
        proof {
            let body = lines_text(body_lines(self@));
            assert(out@ =~= exported(self@));
        }
        string_of(&out)
    }

    fn snapshot_body(&self) -> (r: Vec<char>)
        ensures
            r@ == lines_text(body_lines(self@)),
    {
        let ghost tables = self@.tables;
        let mut out = chars_of("# ProbeDB state v1");
        push_str(&mut out, "\n");
        let ghost mut done: Seq<Seq<char>> = seq![header()];
        proof {
            assert(Seq::<Seq<char>>::empty().push(header()) =~= done);
            lemma_lines_text_push(Seq::empty(), header());
            assert(lines_text(Seq::empty()) =~= Seq::empty());
            assert(out@ =~= lines_text(done));
        }
        let n: usize = self.table_count();
        let mut i: usize = 0;
        assert(done =~= seq![header()] + schema_lines(tables.take(0)));
        while i < n
            invariant
                i <= n,
                n == self@.tables.len(),
                tables == self@.tables,
                out@ == lines_text(done),
                done == seq![header()] + schema_lines(tables.take(i as int)),
            decreases n - i,
        {
            let schema = self.schema_at(i);
            let ghost start = out@;
            push_str(&mut out, "SCHEMA|");
            push_str(&mut out, schema.name.as_str());
            push_str(&mut out, "|");
            push_columns(&mut out, &schema.columns);
            push_str(&mut out, "\n");
            proof {
                assert(out@ =~= start + schema_line(schema@) + "\n"@);
                lemma_lines_text_push(done, schema_line(schema@));
                assert(schema_lines(tables.take(i + 1)) =~= schema_lines(
                    tables.take(i as int),
                ).push(schema_line(schema@)));
                assert(done.push(schema_line(schema@)) =~= seq![header()] + schema_lines(
                    tables.take(i + 1),
                ));
                done = done.push(schema_line(schema@));
            }
            i += 1;
        }
        let ghost top = done;
        proof {
            assert(tables.take(n as int) =~= tables);
            assert(tables.take(0) =~= Seq::empty());
            assert(done =~= top + row_lines(tables.take(0)));
        }
        i = 0;
        while i < n
            invariant
                i <= n,
                n == self@.tables.len(),
                tables == self@.tables,
                out@ == lines_text(done),
                done == top + row_lines(tables.take(i as int)),
            decreases n - i,
        {
            let rows = self.rows_at(i);
            let schema = self.schema_at(i);
            let ghost t = tables[i as int];
            let ghost base = done;
            let mut j: usize = 0;
            assert(base =~= base + table_lines(t).take(0));
            while j < rows.len()
                invariant
                    j <= rows.len(),
                    rows_view(rows@) == t.rows,
                    schema@ == t.schema,
                    out@ == lines_text(done),
                    done == base + table_lines(t).take(j as int),
                decreases rows.len() - j,
            {
                push_row_line(&mut out, schema.name.as_str(), &rows[j]);
                proof {
                    let l = row_line(t.schema.name, rows@[j as int]@);
                    assert(t.rows[j as int] == rows@[j as int]@);
                    assert(table_lines(t)[j as int] == l);
                    lemma_lines_text_push(done, l);
                    assert(table_lines(t).take(j + 1) =~= table_lines(t).take(j as int).push(l));
                    assert(done.push(l) =~= base + table_lines(t).take(j + 1));
                    done = done.push(l);
                }
                j += 1;
            }
            proof {
                assert(table_lines(t).take(rows@.len() as int) =~= table_lines(t));
                assert(tables.take(i + 1).drop_last() =~= tables.take(i as int));
                assert(tables.take(i + 1).last() == t);
                assert(done =~= top + row_lines(tables.take(i + 1)));
            }
            i += 1;
        }
        let ghost start = out@;
        push_str(&mut out, "NEXTID|");
        push_u64(&mut out, self.next_id());
        push_str(&mut out, "\n");
        proof {
            assert(tables.take(n as int) =~= tables);
            assert(out@ =~= start + next_id_line(self@.next_id) + "\n"@);
            lemma_lines_text_push(done, next_id_line(self@.next_id));
            assert(done.push(next_id_line(self@.next_id)) =~= body_lines(self@));
        }
        out
    }
}

// ---------------------------------------------------------------------------
// Reading
// ---------------------------------------------------------------------------

/// The columns that fields stand for, up to the first that is wrong.
pub open spec fn columns_coded(wrong: Seq<char>, p: Seq<Seq<char>>) -> Result<
    Seq<Column>,
    Seq<char>,
>
    decreases p.len(),
{
    if p.len() == 0 {
        Ok(Seq::empty())
    } else {
        match columns_coded(wrong, p.drop_last()) {
            Err(e) => Err(e),
            Ok(v) => {
                let s = p.last();
                let i = index_of(s, ':');
                if i >= s.len() {
                    Err(wrong + s)
                } else {
                    match type_coded(s.skip(i + 1)) {
                        Err(e) => Err(e),
                        Ok(t) => Ok(
                            v.push(Column { name: s.take(i), data_type: t, index: v.len() as usize }),
                        ),
                    }
                }
            },
        }
    }
}

/// The values that fields stand for, up to the first that is wrong.
pub open spec fn values_coded(p: Seq<Seq<char>>) -> Result<Seq<Datum>, Seq<char>>
    decreases p.len(),
{
    if p.len() == 0 {
        Ok(Seq::empty())
    } else {
        match values_coded(p.drop_last()) {
            Err(e) => Err(e),
            Ok(v) => match value_coded(p.last()) {
                Err(e) => Err(e),
                Ok(d) => Ok(v.push(d)),
            },
        }
    }
}

/// What is wrong in the line `n`.
pub open spec fn at_line(n: nat, text: Seq<char>) -> Seq<char> {
    "第"@ + show_nat(n) + text
}

/// The database after the line `n` of a snapshot, and what is wrong with the line.
pub open spec fn import_line(db: Database, n: nat, line: Seq<char>) -> (
    Database,
    Option<Seq<char>>,
) {
    let p = fields(line);
    if line.len() == 0 || line[0] == '#' {
        (db, None)
    } else if p[0] == "SCHEMA"@ {
        if p.len() < 3 {
            (db, Some(at_line(n, "行 SCHEMA 字段不足"@)))
        } else {
            match columns_coded(at_line(n, "行 SCHEMA 列格式错误: "@), p.skip(2)) {
                Err(e) => (db, Some(e)),
                Ok(columns) => (db.replaced(Schema { name: p[1], columns }), None),
            }
        }
    } else if p[0] == "ROW"@ {
        if p.len() < 4 {
            (db, Some(at_line(n, "行 ROW 字段不足"@)))
        } else {
            match (read_nat(p[2], u64::MAX as nat), values_coded(p.skip(3))) {
                (None, _) => (db, Some(at_line(n, "行 ROW id 解析失败: "@ + p[2]))),
                (_, Err(e)) => (db, Some(e)),
                (Some(id), Ok(values)) => match db.insert_error(p[1], values) {
                    Some(e) => (db, Some(e)),
                    None => (db.with_row(p[1], Record { id: id as u64, values }), None),
                },
            }
        }
    } else if p[0] == "NEXTID"@ {
        if p.len() < 2 {
            (db, Some(at_line(n, "行 NEXTID 字段不足"@)))
        } else {
            match read_nat(p[1], u64::MAX as nat) {
                None => (db, Some(at_line(n, "行 NEXTID 解析失败: "@ + p[1]))),
                Some(id) => (Database { next_id: id as u64, ..db }, None),
            }
        }
    } else {
        (db, Some(at_line(n, "行未知记录类型: "@ + p[0])))
    }
}

/// The database after the lines of a snapshot from `i` on. Reading stops at the first
/// line that is wrong.
pub open spec fn import_lines(db: Database, l: Seq<Seq<char>>, i: int) -> (
    Database,
    Option<Seq<char>>,
)
    decreases l.len() - i,
{
    if i < 0 || i >= l.len() {
        (db, None)
    } else {
        let (next, e) = import_line(db, (i + 1) as nat, l[i]);
        if e is Some {
            (next, e)
        } else {
            import_lines(next, l, i + 1)
        }
    }
}

/// The database that a snapshot holds, and what is wrong with the snapshot.
pub open spec fn imported(s: Seq<char>) -> (Database, Option<Seq<char>>) {
    import_lines(Database::empty(), lines(s), 0)
}

/// Reads the columns that the fields from `from` on stand for.
pub fn decode_columns(wrong: &Vec<char>, p: &Vec<Vec<char>>, from: usize) -> (r: Result<
    Vec<ColumnInfo>,
    String,
>)
    requires
        from <= p@.len(),
    ensures
        match r {
            Ok(v) => columns_coded(wrong@, texts(p@).skip(from as int)) == Ok::<
                Seq<Column>,
                Seq<char>,
            >(columns_view(v@)),
            Err(e) => columns_coded(wrong@, texts(p@).skip(from as int)) == Err::<
                Seq<Column>,
                Seq<char>,
            >(e@),
        },
{
    let ghost t = texts(p@).skip(from as int);
    let mut v: Vec<ColumnInfo> = Vec::new();
    let mut i: usize = from;
    assert(t.take(0) =~= Seq::empty());
    assert(columns_view(v@) =~= Seq::empty());
    while i < p.len()
        invariant
            from <= i <= p.len(),
            t == texts(p@).skip(from as int),
            v@.len() == i - from,
            columns_coded(wrong@, t.take(i - from)) == Ok::<Seq<Column>, Seq<char>>(
                columns_view(v@),
            ),
        decreases p.len() - i,
    {
        let k: usize = position_of(&p[i], ':');
        proof {
            assert(t.take(i - from + 1).drop_last() =~= t.take(i - from));
            assert(t.take(i - from + 1).last() == p@[i as int]@);
            assert(columns_view(v@).len() == v@.len());
        }
        if k == p[i].len() {
            let mut out = crate::text::copy_chars(wrong);
            push_chars(&mut out, &p[i]);
            proof {
                lemma_columns_coded_error(wrong@, t, i - from + 1);
            }
            return Err(string_of(&out));
        }
        let name = slice(&p[i], 0, k);
        let code = slice(&p[i], k + 1, p[i].len());
        proof {
            let s = p@[i as int]@;
            assert(s.take(k as int) =~= name@);
            assert(s.skip(k + 1) =~= code@);
        }
        match decode_type(&code) {
            Ok(data_type) => {
                let ghost before = v@;
                let c = ColumnInfo { name: string_of(&name), data_type, index: i - from };
                v.push(c);
                assert(columns_view(v@) =~= columns_view(before).push(c@));
            },
            Err(e) => {
                proof {
                    lemma_columns_coded_error(wrong@, t, i - from + 1);
                }
                return Err(e);
            },
        }
        i += 1;
    }
    assert(t.take(p@.len() - from) =~= t);
    Ok(v)
}

proof fn lemma_columns_coded_error(wrong: Seq<char>, p: Seq<Seq<char>>, k: int)
    requires
        0 <= k <= p.len(),
        columns_coded(wrong, p.take(k)) is Err,
    ensures
        columns_coded(wrong, p) == columns_coded(wrong, p.take(k)),
    decreases p.len() - k,
{
    if k == p.len() {
        assert(p.take(k) =~= p);
    } else {
        assert(p.take(k + 1).drop_last() =~= p.take(k));
        lemma_columns_coded_error(wrong, p, k + 1);
    }
}

/// Reads the values that the fields from `from` on stand for.
pub fn decode_values(p: &Vec<Vec<char>>, from: usize) -> (r: Result<Vec<Value>, String>)
    requires
        from <= p@.len(),
    ensures
        match r {
            Ok(v) => values_coded(texts(p@).skip(from as int)) == Ok::<Seq<Datum>, Seq<char>>(
                data(v@),
            ),
            Err(e) => values_coded(texts(p@).skip(from as int)) == Err::<Seq<Datum>, Seq<char>>(
                e@,
            ),
        },
{
    let ghost t = texts(p@).skip(from as int);
    let mut v: Vec<Value> = Vec::new();
    let mut i: usize = from;
    assert(t.take(0) =~= Seq::empty());
    assert(data(v@) =~= Seq::empty());
    while i < p.len()
        invariant
            from <= i <= p.len(),
            t == texts(p@).skip(from as int),
            values_coded(t.take(i - from)) == Ok::<Seq<Datum>, Seq<char>>(data(v@)),
        decreases p.len() - i,
    {
        proof {
            assert(t.take(i - from + 1).drop_last() =~= t.take(i - from));
            assert(t.take(i - from + 1).last() == p@[i as int]@);
        }
        match decode_value(&p[i]) {
            Ok(d) => {
                let ghost before = v@;
                v.push(d);
                assert(data(v@) =~= data(before).push(d@));
            },
            Err(e) => {
                proof {
                    lemma_values_coded_error(t, i - from + 1);
                }
                return Err(e);
            },
        }
        i += 1;
    }
    assert(t.take(p@.len() - from) =~= t);
    Ok(v)
}

proof fn lemma_values_coded_error(p: Seq<Seq<char>>, k: int)
    requires
        0 <= k <= p.len(),
        values_coded(p.take(k)) is Err,
    ensures
        values_coded(p) == values_coded(p.take(k)),
    decreases p.len() - k,
{
    if k == p.len() {
        assert(p.take(k) =~= p);
    } else {
        assert(p.take(k + 1).drop_last() =~= p.take(k));
        lemma_values_coded_error(p, k + 1);
    }
}

fn line_error(n: usize, text: &str, tail: &Vec<char>) -> (r: String)
    ensures
        r@ == at_line(n as nat, text@ + tail@),
{
    let mut out = chars_of("第");
    push_u64(&mut out, n as u64);
    push_str(&mut out, text);
    push_chars(&mut out, tail);
    assert(out@ =~= at_line(n as nat, text@ + tail@));
    string_of(&out)
}

impl StorageEngine {
    /// Replaces the database by the one that a snapshot holds. Where a line is wrong,
    /// what was read before it stays.
    pub fn import_state(&mut self, state: &str) -> (r: Result<(), String>)
        ensures
            final(self).wf(),
            final(self)@ == imported(state@).0,
            match imported(state@).1 {
                None => r is Ok,
                Some(e) => unit_result(r) == Err::<(), Seq<char>>(e),
            },
    {
        self.clear();
        let l = lines_of(&chars_of(state));
        let ghost t = texts(l@);
        let mut i: usize = 0;
        while i < l.len()
            invariant
                i <= l.len(),
                t == texts(l@),
                self.wf(),
                imported(state@) == import_lines(self@, t, i as int),
            decreases l.len() - i,
        {
            assert(t[i as int] == l@[i as int]@);
            match self.import_one(i + 1, &l[i]) {
                Some(e) => {
                    return Err(e);
                },
                None => {},
            }
            i += 1;
        }
        Ok(())
    }

    fn import_one(&mut self, n: usize, line: &Vec<char>) -> (r: Option<String>)
        requires
            old(self).wf(),
        ensures
            final(self).wf(),
            final(self)@ == import_line(old(self)@, n as nat, line@).0,
            match r {
                None => import_line(old(self)@, n as nat, line@).1 is None,
                Some(e) => import_line(old(self)@, n as nat, line@).1 == Some(e@),
            },
    {
        if line.len() == 0 || line[0] == '#' {
            return None;
        }
        let p = split_pipe_aware(line);
        let ghost t = texts(p@);
        let nothing: Vec<char> = Vec::new();
        proof {
            assert(t.len() == p@.len());
            assert(t[0] == p@[0]@);
            assert(nothing@ =~= Seq::empty());
            assert("行 SCHEMA 字段不足"@ + nothing@ =~= "行 SCHEMA 字段不足"@);
            assert("行 ROW 字段不足"@ + nothing@ =~= "行 ROW 字段不足"@);
            assert("行 NEXTID 字段不足"@ + nothing@ =~= "行 NEXTID 字段不足"@);
        }
        if is_text(&p[0], "SCHEMA") {
            if p.len() < 3 {
                return Some(line_error(n, "行 SCHEMA 字段不足", &nothing));
            }
            assert(t[1] == p@[1]@);
            let mut wrong = chars_of("第");
            push_u64(&mut wrong, n as u64);
            push_str(&mut wrong, "行 SCHEMA 列格式错误: ");
            match decode_columns(&wrong, &p, 2) {
                Err(e) => Some(e),
                Ok(columns) => {
                    self.replace_table(TableSchema { name: string_of(&p[1]), columns });
                    None
                },
            }
        } else if is_text(&p[0], "ROW") {
            if p.len() < 4 {
                return Some(line_error(n, "行 ROW 字段不足", &nothing));
            }
            assert(t[1] == p@[1]@ && t[2] == p@[2]@);
            let id: u64 = match parse_u64(&p[2]) {
                Some(id) => id,
                None => {
                    return Some(line_error(n, "行 ROW id 解析失败: ", &p[2]));
                },
            };
            match decode_values(&p, 3) {
                Err(e) => Some(e),
                Ok(values) => match self.insert_row_with_id(string_of(&p[1]).as_str(), id, values) {
                    Ok(_) => None,
                    Err(e) => Some(e),
                },
            }
        } else if is_text(&p[0], "NEXTID") {
            if p.len() < 2 {
                return Some(line_error(n, "行 NEXTID 字段不足", &nothing));
            }
            assert(t[1] == p@[1]@);
            match parse_u64(&p[1]) {
                Some(id) => {
                    self.set_next_id(id);
                    None
                },
                None => Some(line_error(n, "行 NEXTID 解析失败: ", &p[1])),
            }
        } else {
            Some(line_error(n, "行未知记录类型: ", &p[0]))
        }
    }
}

} // verus!
