//! What a statement does: the changes that it makes, one after the other, the records
//! that are logged ahead of each, and what is told at the end.

use vstd::prelude::*;

use super::column::find_column;
use super::column::no_column;
use super::column::position_of_column;
use super::column::Naming;
use super::condition::filter_rows;
use super::condition::matched;
use super::select::run_select;
use super::select::selected;
use super::select::Answer;
use super::select::QueryResult;
use crate::number::push_u64;
use crate::number::show_nat;
use crate::sql::statement::assignment_views;
use crate::sql::statement::column_views;
use crate::sql::statement::opt_text;
use crate::sql::statement::text_rows;
use crate::sql::statement::ColumnDef;
use crate::sql::statement::SQLStatement;
use crate::sql::statement::Statement;
use crate::storage::codec::encode_value;
use crate::storage::codec::parse_value;
use crate::storage::codec::value_code;
use crate::storage::codec::value_read;
use crate::storage::engine::missing;
use crate::storage::engine::rows_without;
use crate::storage::engine::updated_count;
use crate::storage::engine::updated_rows;
use crate::storage::engine::Database;
use crate::storage::engine::StorageEngine;
use crate::storage::schema::columns_view;
use crate::storage::schema::rows_view;
use crate::storage::schema::Column;
use crate::storage::schema::ColumnInfo;
use crate::storage::schema::Record;
use crate::storage::schema::Row;
use crate::storage::schema::Schema;
use crate::storage::schema::TableSchema;
use crate::storage::snapshot::columns_code;
use crate::storage::snapshot::push_columns;
use crate::storage::snapshot::push_values;
use crate::storage::snapshot::values_code;
use crate::text::chars_of;
use crate::text::join3;
use crate::text::push_chars;
use crate::text::push_str;
use crate::text::string_of;
use crate::text::string_texts;
use crate::text::trim_char;
use crate::text::trimmed_of;
use crate::types::data;
use crate::types::Datum;
use crate::types::Value;

verus! {

// ---------------------------------------------------------------------------
// Changes
// ---------------------------------------------------------------------------

/// A change to the tables.
#[verifier::ext_equal]
pub enum Alteration {
    Create(Schema),
    Drop(Seq<char>),
    Insert(Seq<char>, Seq<Datum>),
    Delete(Seq<char>, Seq<u64>),
    Update(Seq<char>, Seq<u64>, usize, Datum),
}

/// The record of a deleted row.
pub open spec fn delete_record(table: Seq<char>, id: u64) -> Seq<char> {
    "D|"@ + table + "|"@ + show_nat(id as nat)
}

/// The record of an updated row.
pub open spec fn update_record(table: Seq<char>, id: u64, col: usize, d: Datum) -> Seq<char> {
    "U|"@ + table + "|"@ + show_nat(id as nat) + "|"@ + show_nat(col as nat) + "|"@ + value_code(d)
}

/// The records that are logged ahead of a change, where the next row gets the id
/// `next_id`.
pub open spec fn records(a: Alteration, next_id: u64) -> Seq<Seq<char>> {
    match a {
        Alteration::Create(s) => seq!["T|"@ + s.name + "|"@ + columns_code(s.columns)],
        Alteration::Drop(t) => seq!["DROP|"@ + t],
        Alteration::Insert(t, values) => seq![
            "I|"@ + t + "|"@ + show_nat(next_id as nat) + "|"@ + values_code(values),
        ],
        Alteration::Delete(t, ids) => ids.map_values(|id: u64| delete_record(t, id)),
        Alteration::Update(t, ids, col, d) => ids.map_values(
            |id: u64| update_record(t, id, col, d),
        ),
    }
}

/// The database after a change, with the id of the row that was inserted or the number
/// of rows that were deleted or updated; or why the change cannot be made.
pub open spec fn altered(db: Database, a: Alteration) -> Result<(Database, nat), Seq<char>> {
    match a {
        Alteration::Create(s) => if db.has(s.name) {
            Err("表 '"@ + s.name + "' 已存在"@)
        } else {
            Ok((db.created(s), 0))
        },
        Alteration::Drop(t) => if db.has(t) {
            Ok((db.dropped(t), 0))
        } else {
            Err(missing(t))
        },
        Alteration::Insert(t, values) => match db.insert_error(t, values) {
            Some(e) => Err(e),
            None => if db.next_id == u64::MAX {
                Err("行ID已用尽"@)
            } else {
                Ok(
                    (
                        Database {
                            next_id: (db.next_id + 1) as u64,
                            ..db.with_row(t, Record { id: db.next_id, values })
                        },
                        db.next_id as nat,
                    ),
                )
            },
        },
        Alteration::Delete(t, ids) => if db.has(t) {
            let rows = db.table(t).rows;
            let left = rows_without(rows, ids);
            Ok((db.with_rows(t, left), (rows.len() - left.len()) as nat))
        } else {
            Err(missing(t))
        },
        Alteration::Update(t, ids, col, d) => if db.has(t) {
            let rows = db.table(t).rows;
            Ok(
                (
                    db.with_rows(t, updated_rows(rows, ids, col as int, d)),
                    updated_count(rows, ids, col as int),
                ),
            )
        } else {
            Err(missing(t))
        },
    }
}

/// A change to the tables.
#[derive(Debug)]
pub enum Change {
    Create(TableSchema),
    Drop(String),
    Insert(String, Vec<Value>),
    Delete(String, Vec<u64>),
    Update(String, Vec<u64>, usize, Value),
}

impl View for Change {
    type V = Alteration;

    open spec fn view(&self) -> Alteration {
        match self {
            Change::Create(s) => Alteration::Create(s@),
            Change::Drop(t) => Alteration::Drop(t@),
            Change::Insert(t, values) => Alteration::Insert(t@, data(values@)),
            Change::Delete(t, ids) => Alteration::Delete(t@, ids@),
            Change::Update(t, ids, col, v) => Alteration::Update(t@, ids@, *col, v@),
        }
    }
}

/// What changes hold.
pub open spec fn change_views(v: Seq<Change>) -> Seq<Alteration> {
    v.map_values(|c: Change| c@)
}

fn delete_records(table: &str, ids: &Vec<u64>) -> (r: Vec<String>)
    ensures
        string_texts(r@) == ids@.map_values(|id: u64| delete_record(table@, id)),
{
    let mut r: Vec<String> = Vec::new();
    let mut i: usize = 0;
    while i < ids.len()
        invariant
            i <= ids@.len(),
            string_texts(r@) == ids@.take(i as int).map_values(
                |id: u64| delete_record(table@, id),
            ),
        decreases ids@.len() - i,
    {
        let mut out = chars_of("D|");
        push_str(&mut out, table);
        push_str(&mut out, "|");
        push_u64(&mut out, ids[i]);
        let ghost before = r@;
        r.push(string_of(&out));
        proof {
            assert(string_texts(r@) =~= string_texts(before).push(out@));
            assert(ids@.take(i + 1).map_values(|id: u64| delete_record(table@, id))
                =~= ids@.take(i as int).map_values(|id: u64| delete_record(table@, id)).push(
                delete_record(table@, ids@[i as int]),
            ));
        }
        i += 1;
    }
    assert(ids@.take(ids@.len() as int) =~= ids@);
    r
}

fn update_records(table: &str, ids: &Vec<u64>, col: usize, value: &Value) -> (r: Vec<String>)
    ensures
        string_texts(r@) == ids@.map_values(|id: u64| update_record(table@, id, col, value@)),
{
    let code = encode_value(value);
    let mut r: Vec<String> = Vec::new();
    let mut i: usize = 0;
    while i < ids.len()
        invariant
            i <= ids@.len(),
            code@ == value_code(value@),
            string_texts(r@) == ids@.take(i as int).map_values(
                |id: u64| update_record(table@, id, col, value@),
            ),
        decreases ids@.len() - i,
    {
        let mut out = chars_of("U|");
        push_str(&mut out, table);
        push_str(&mut out, "|");
        push_u64(&mut out, ids[i]);
        push_str(&mut out, "|");
        push_u64(&mut out, col as u64);
        push_str(&mut out, "|");
        push_chars(&mut out, &code);
        let ghost before = r@;
        r.push(string_of(&out));
        proof {
            assert(string_texts(r@) =~= string_texts(before).push(out@));
            assert(ids@.take(i + 1).map_values(|id: u64| update_record(table@, id, col, value@))
                =~= ids@.take(i as int).map_values(
                |id: u64| update_record(table@, id, col, value@),
            ).push(update_record(table@, ids@[i as int], col, value@)));
        }
        i += 1;
    }
    assert(ids@.take(ids@.len() as int) =~= ids@);
    r
}

fn one_record(out: &Vec<char>) -> (r: Vec<String>)
    ensures
        string_texts(r@) == seq![out@],
{
    let mut r: Vec<String> = Vec::new();
    r.push(string_of(out));
    assert(string_texts(r@) =~= seq![out@]);
    r
}

impl Change {
    /// The records that are logged ahead of the change, where the next row gets the id
    /// `next_id`.
    pub fn records(&self, next_id: u64) -> (r: Vec<String>)
        ensures
            string_texts(r@) == records(self@, next_id),
    {
        match self {
            Change::Create(schema) => {
                let mut out = chars_of("T|");
                push_str(&mut out, schema.name.as_str());
                push_str(&mut out, "|");
                push_columns(&mut out, &schema.columns);
                one_record(&out)
            },
            Change::Drop(table) => {
                let mut out = chars_of("DROP|");
                push_str(&mut out, table.as_str());
                one_record(&out)
            },
            Change::Insert(table, values) => {
                let mut out = chars_of("I|");
                push_str(&mut out, table.as_str());
                push_str(&mut out, "|");
                push_u64(&mut out, next_id);
                push_str(&mut out, "|");
                push_values(&mut out, values);
                one_record(&out)
            },
            Change::Delete(table, ids) => delete_records(table.as_str(), ids),
            Change::Update(table, ids, col, value) => update_records(
                table.as_str(),
                ids,
                *col,
                value,
            ),
        }
    }

    /// Makes the change. Returns the id of the row that was inserted or the number of
    /// rows that were deleted or updated.
    pub fn apply(self, engine: &mut StorageEngine) -> (r: Result<u64, String>)
        requires
            old(engine).wf(),
        ensures
            final(engine).wf(),
            match altered(old(engine)@, self@) {
                Ok((db, n)) => r is Ok && r->Ok_0 == n && final(engine)@ == db,
                Err(e) => r is Err && r->Err_0@ == e && final(engine)@ == old(engine)@,
            },
    {
        match self {
            Change::Create(schema) => match engine.create_table(schema) {
                Ok(_) => Ok(0),
                Err(e) => Err(e),
            },
            Change::Drop(table) => match engine.drop_table(table.as_str()) {
                Ok(_) => Ok(0),
                Err(e) => Err(e),
            },
            Change::Insert(table, values) => engine.insert(table.as_str(), values),
            Change::Delete(table, ids) => match engine.delete_by_ids(table.as_str(), &ids) {
                Ok(n) => Ok(n as u64),
                Err(e) => Err(e),
            },
            Change::Update(table, ids, col, value) => match engine.update_by_ids(
                table.as_str(),
                &ids,
                col,
                value,
            ) {
                Ok(n) => Ok(n as u64),
                Err(e) => Err(e),
            },
        }
    }
}

// ---------------------------------------------------------------------------
// Plans
// ---------------------------------------------------------------------------

/// What is told when the changes of a statement have been made.
#[verifier::ext_equal]
pub enum Conclusion {
    Fails(Seq<char>),
    Created(Seq<char>),
    Dropped(Seq<char>),
    Inserted,
    Deleted,
    Updated,
    Selected(Answer),
}

/// The changes that a statement makes, and what is told afterwards.
#[verifier::ext_equal]
pub struct Course {
    pub changes: Seq<Alteration>,
    pub conclusion: Conclusion,
}

impl Course {
    /// The statement fails and changes nothing.
    pub open spec fn fails(e: Seq<char>) -> Course {
        Course { changes: Seq::empty(), conclusion: Conclusion::Fails(e) }
    }

    /// The statement makes one change.
    pub open spec fn one(a: Alteration, conclusion: Conclusion) -> Course {
        Course { changes: seq![a], conclusion }
    }
}

/// The columns of a new table, numbered in their order.
pub open spec fn defined_columns(c: Seq<(Seq<char>, crate::types::DataType)>) -> Seq<Column> {
    Seq::new(
        c.len(),
        |i: int| Column { name: c[i].0, data_type: c[i].1, index: i as usize },
    )
}

/// The values of the first `n` columns of a row that is given by texts.
pub open spec fn row_read(columns: Seq<Column>, t: Seq<Seq<char>>, n: int) -> Result<
    Seq<Datum>,
    Seq<char>,
>
    decreases n,
{
    if n <= 0 {
        Ok(Seq::empty())
    } else {
        match row_read(columns, t, n - 1) {
            Err(e) => Err(e),
            Ok(v) => {
                let column = columns[n - 1];
                let text = trim_char(t[n - 1], '\'');
                match value_read(text, column.data_type) {
                    Ok(d) => Ok(v.push(d)),
                    Err(e) => Err(
                        "无法解析列 '"@ + column.name + "' 的值 '"@ + text + "': "@ + e,
                    ),
                }
            },
        }
    }
}

/// How many texts of a row have a column.
pub open spec fn columns_given(columns: Seq<Column>, t: Seq<Seq<char>>) -> int {
    if t.len() <= columns.len() {
        t.len() as int
    } else {
        columns.len() as int
    }
}

/// The rows that a statement inserts. A text too many is passed over.
pub open spec fn rows_read(columns: Seq<Column>, rows: Seq<Seq<Seq<char>>>) -> Result<
    Seq<Seq<Datum>>,
    Seq<char>,
>
    decreases rows.len(),
{
    if rows.len() == 0 {
        Ok(Seq::empty())
    } else {
        match rows_read(columns, rows.drop_last()) {
            Err(e) => Err(e),
            Ok(v) => match row_read(columns, rows.last(), columns_given(columns, rows.last())) {
                Ok(d) => Ok(v.push(d)),
                Err(e) => Err(e),
            },
        }
    }
}

/// The course of an `INSERT` statement.
pub open spec fn insert_course(
    db: Database,
    table: Seq<char>,
    values: Seq<Seq<Seq<char>>>,
) -> Course {
    if !db.has(table) {
        Course::fails(missing(table))
    } else {
        match rows_read(db.table(table).schema.columns, values) {
            Err(e) => Course::fails(e),
            Ok(rows) => Course {
                changes: insertions(table, rows),
                conclusion: Conclusion::Inserted,
            },
        }
    }
}

/// The ids of rows.
pub open spec fn ids_of(rows: Seq<Record>) -> Seq<u64> {
    rows.map_values(|r: Record| r.id)
}

/// The ids of the rows of a table that meet a condition.
pub open spec fn matched_ids(db: Database, table: Seq<char>, condition: Option<Seq<char>>) -> Seq<
    u64,
> {
    ids_of(matched(db.table(table).rows, condition, db.table(table).schema.columns))
}

/// The changes of the assignments of an `UPDATE` statement, up to the first that cannot
/// be made; and the error of that one.
pub open spec fn assignment_changes(
    columns: Seq<Column>,
    table: Seq<char>,
    ids: Seq<u64>,
    a: Seq<(Seq<char>, Seq<char>)>,
) -> Course
    decreases a.len(),
{
    if a.len() == 0 {
        Course { changes: Seq::empty(), conclusion: Conclusion::Updated }
    } else {
        let before = assignment_changes(columns, table, ids, a.drop_last());
        if before.conclusion is Fails {
            before
        } else {
            let (name, text) = a.last();
            match find_column(columns, Naming::Exact, name) {
                None => Course { conclusion: Conclusion::Fails(no_column(name)), ..before },
                Some(c) => match value_read(text, c.data_type) {
                    Err(e) => Course {
                        conclusion: Conclusion::Fails("解析更新值 '"@ + text + "' 失败: "@ + e),
                        ..before
                    },
                    Ok(d) => Course {
                        changes: before.changes.push(Alteration::Update(table, ids, c.index, d)),
                        ..before
                    },
                },
            }
        }
    }
}

/// The course of a statement. A statement that fails may have made changes before: an
/// `UPDATE` makes its assignments one by one.
pub open spec fn planned(db: Database, s: Statement) -> Course {
    match s {
        Statement::CreateTable { name, columns } => Course::one(
            Alteration::Create(Schema { name, columns: defined_columns(columns) }),
            Conclusion::Created(name),
        ),
        Statement::DropTable { table } => Course::one(
            Alteration::Drop(table),
            Conclusion::Dropped(table),
        ),
        Statement::Insert { table, columns: _, values } => insert_course(db, table, values),
        Statement::Delete { table, condition } => if db.has(table) {
            Course::one(
                Alteration::Delete(table, matched_ids(db, table, condition)),
                Conclusion::Deleted,
            )
        } else {
            Course::fails(missing(table))
        },
        Statement::Update { table, assignments, condition } => if db.has(table) {
            assignment_changes(
                db.table(table).schema.columns,
                table,
                matched_ids(db, table, condition),
                assignments,
            )
        } else {
            Course::fails(missing(table))
        },
        Statement::Select(query) => match selected(db, query) {
            Ok(answer) => Course {
                changes: Seq::empty(),
                conclusion: Conclusion::Selected(answer),
            },
            Err(e) => Course::fails(e),
        },
    }
}

/// What is told when the changes of a statement have been made.
pub enum Outcome {
    Fails(String),
    Created(String),
    Dropped(String),
    Inserted,
    Deleted,
    Updated,
    Selected(QueryResult),
}

impl View for Outcome {
    type V = Conclusion;

    open spec fn view(&self) -> Conclusion {
        match self {
            Outcome::Fails(e) => Conclusion::Fails(e@),
            Outcome::Created(t) => Conclusion::Created(t@),
            Outcome::Dropped(t) => Conclusion::Dropped(t@),
            Outcome::Inserted => Conclusion::Inserted,
            Outcome::Deleted => Conclusion::Deleted,
            Outcome::Updated => Conclusion::Updated,
            Outcome::Selected(a) => Conclusion::Selected(a@),
        }
    }
}

/// The changes that a statement makes, and what is told afterwards.
pub struct Plan {
    pub changes: Vec<Change>,
    pub outcome: Outcome,
}

impl View for Plan {
    type V = Course;

    open spec fn view(&self) -> Course {
        Course { changes: change_views(self.changes@), conclusion: self.outcome@ }
    }
}

fn failure(e: String) -> (r: Plan)
    ensures
        r@ == Course::fails(e@),
{
    let r = Plan { changes: Vec::new(), outcome: Outcome::Fails(e) };
    assert(change_views(r.changes@) =~= Seq::empty());
    r
}

fn one_change(change: Change, outcome: Outcome) -> (r: Plan)
    ensures
        r@ == Course::one(change@, outcome@),
{
    let mut changes: Vec<Change> = Vec::new();
    changes.push(change);
    let r = Plan { changes, outcome };
    assert(change_views(r.changes@) =~= seq![change@]);
    r
}

fn define_columns(columns: &Vec<ColumnDef>) -> (r: Vec<ColumnInfo>)
    ensures
        columns_view(r@) == defined_columns(column_views(columns@)),
{
    let ghost all = defined_columns(column_views(columns@));
    let mut r: Vec<ColumnInfo> = Vec::new();
    let mut i: usize = 0;
    while i < columns.len()
        invariant
            i <= columns@.len(),
            all == defined_columns(column_views(columns@)),
            columns_view(r@) == all.take(i as int),
        decreases columns@.len() - i,
    {
        let ghost before = r@;
        let c = ColumnInfo {
            name: columns[i].name.as_str().to_owned(),
            data_type: columns[i].data_type,
            index: i,
        };
        r.push(c);
        proof {
            assert(columns_view(r@) =~= columns_view(before).push(c@));
            assert(all[i as int] == c@);
            assert(all.take(i + 1) =~= all.take(i as int).push(c@));
        }
        i += 1;
    }
    assert(all.take(columns@.len() as int) =~= all);
    r
}

fn value_error(column: &str, text: &Vec<char>, e: &str) -> (r: String)
    ensures
        r@ == "无法解析列 '"@ + column@ + "' 的值 '"@ + text@ + "': "@ + e@,
{
    let mut out = chars_of("无法解析列 '");
    push_str(&mut out, column);
    push_str(&mut out, "' 的值 '");
    push_chars(&mut out, text);
    push_str(&mut out, "': ");
    push_str(&mut out, e);
    string_of(&out)
}

proof fn lemma_row_error(columns: Seq<Column>, t: Seq<Seq<char>>, k: int, n: int)
    requires
        0 <= k <= n,
        row_read(columns, t, k) is Err,
    ensures
        row_read(columns, t, n) == row_read(columns, t, k),
    decreases n - k,
{
    if k < n {
        lemma_row_error(columns, t, k, n - 1);
    }
}

fn read_row(columns: &Vec<ColumnInfo>, row: &Vec<String>) -> (r: Result<Vec<Value>, String>)
    ensures
        ({
            let c = columns_view(columns@);
            let t = string_texts(row@);
            match r {
                Ok(v) => row_read(c, t, columns_given(c, t)) == Ok::<Seq<Datum>, Seq<char>>(
                    data(v@),
                ),
                Err(e) => row_read(c, t, columns_given(c, t)) == Err::<Seq<Datum>, Seq<char>>(e@),
            }
        }),
{
    let ghost c = columns_view(columns@);
    let ghost t = string_texts(row@);
    let mut out: Vec<Value> = Vec::new();
    let mut i: usize = 0;
    assert(data(out@) =~= Seq::empty());
    while i < row.len() && i < columns.len()
        invariant
            i <= row@.len(),
            i <= columns@.len(),
            c == columns_view(columns@),
            t == string_texts(row@),
            row_read(c, t, i as int) == Ok::<Seq<Datum>, Seq<char>>(data(out@)),
        decreases row@.len() - i,
    {
        let text = trimmed_of(&chars_of(row[i].as_str()), '\'');
        assert(t[i as int] == row@[i as int]@);
        assert(c[i as int] == columns@[i as int]@);
        match parse_value(string_of(&text).as_str(), &columns[i].data_type) {
            Ok(v) => {
                let ghost before = out@;
                out.push(v);
                assert(data(out@) =~= data(before).push(v@));
            },
            Err(e) => {
                let e = value_error(columns[i].name.as_str(), &text, e.as_str());
                proof {
                    assert(row_read(c, t, i + 1) == Err::<Seq<Datum>, Seq<char>>(e@));
                    lemma_row_error(c, t, i + 1, columns_given(c, t));
                }
                return Err(e);
            },
        }
        i += 1;
    }
    Ok(out)
}

proof fn lemma_rows_error(columns: Seq<Column>, rows: Seq<Seq<Seq<char>>>, k: int)
    requires
        0 <= k <= rows.len(),
        rows_read(columns, rows.take(k)) is Err,
    ensures
        rows_read(columns, rows) == rows_read(columns, rows.take(k)),
    decreases rows.len() - k,
{
    if k < rows.len() {
        assert(rows.take(k + 1).drop_last() =~= rows.take(k));
        lemma_rows_error(columns, rows, k + 1);
    } else {
        assert(rows.take(k) =~= rows);
    }
}

/// The alterations that insert rows into a table.
pub open spec fn insertions(table: Seq<char>, rows: Seq<Seq<Datum>>) -> Seq<Alteration> {
    rows.map_values(|v: Seq<Datum>| Alteration::Insert(table, v))
}

fn plan_rows(table: &str, columns: &Vec<ColumnInfo>, values: &Vec<Vec<String>>) -> (r: Plan)
    ensures
        r@ == match rows_read(columns_view(columns@), text_rows(values@)) {
            Err(e) => Course::fails(e),
            Ok(rows) => Course {
                changes: insertions(table@, rows),
                conclusion: Conclusion::Inserted,
            },
        },
{
    let ghost c = columns_view(columns@);
    let ghost all = text_rows(values@);
    let mut changes: Vec<Change> = Vec::new();
    let mut i: usize = 0;
    assert(all.take(0) =~= Seq::empty());
    assert(change_views(changes@) =~= insertions(table@, Seq::empty()));
    while i < values.len()
        invariant
            i <= values@.len(),
            c == columns_view(columns@),
            all == text_rows(values@),
            rows_read(c, all.take(i as int)) is Ok,
            change_views(changes@) == insertions(table@, rows_read(c, all.take(i as int))->Ok_0),
        decreases values@.len() - i,
    {
        proof {
            assert(all.take(i + 1).drop_last() =~= all.take(i as int));
            assert(all.take(i + 1).last() == string_texts(values@[i as int]@));
        }
        match read_row(columns, &values[i]) {
            Ok(row) => {
                let ghost before = changes@;
                let ghost rows = rows_read(c, all.take(i as int))->Ok_0;
                let change = Change::Insert(table.to_owned(), row);
                changes.push(change);
                proof {
                    assert(change_views(changes@) =~= change_views(before).push(change@));
                    assert(insertions(table@, rows.push(data(row@))) =~= insertions(
                        table@,
                        rows,
                    ).push(change@));
                }
            },
            Err(e) => {
                proof {
                    lemma_rows_error(c, all, i + 1);
                }
                return failure(e);
            },
        }
        i += 1;
    }
    assert(all.take(values@.len() as int) =~= all);
    Plan { changes, outcome: Outcome::Inserted }
}

fn row_ids(rows: &Vec<Row>) -> (r: Vec<u64>)
    ensures
        r@ == ids_of(rows_view(rows@)),
{
    let mut r: Vec<u64> = Vec::new();
    let mut i: usize = 0;
    while i < rows.len()
        invariant
            i <= rows@.len(),
            r@ == ids_of(rows_view(rows@)).take(i as int),
        decreases rows@.len() - i,
    {
        r.push(rows[i].id);
        assert(ids_of(rows_view(rows@)).take(i + 1) =~= ids_of(rows_view(rows@)).take(
            i as int,
        ).push(rows@[i as int].id));
        i += 1;
    }
    assert(ids_of(rows_view(rows@)).take(rows@.len() as int) =~= ids_of(rows_view(rows@)));
    r
}

fn find_ids(columns: &Vec<ColumnInfo>, rows: &Vec<Row>, condition: &Option<String>) -> (r: Vec<u64>)
    ensures
        r@ == ids_of(matched(rows_view(rows@), opt_text(*condition), columns_view(columns@))),
{
    match condition {
        Some(c) => row_ids(&filter_rows(rows, c.as_str(), columns)),
        None => row_ids(rows),
    }
}

fn copy_ids(ids: &Vec<u64>) -> (r: Vec<u64>)
    ensures
        r@ == ids@,
{
    let mut r: Vec<u64> = Vec::new();
    let mut i: usize = 0;
    while i < ids.len()
        invariant
            i <= ids@.len(),
            r@ == ids@.take(i as int),
        decreases ids@.len() - i,
    {
        r.push(ids[i]);
        assert(ids@.take(i + 1) =~= ids@.take(i as int).push(ids@[i as int]));
        i += 1;
    }
    assert(ids@.take(ids@.len() as int) =~= ids@);
    r
}

fn update_error(text: &str, e: &str) -> (r: String)
    ensures
        r@ == "解析更新值 '"@ + text@ + "' 失败: "@ + e@,
{
    let mut out = chars_of("解析更新值 '");
    push_str(&mut out, text);
    push_str(&mut out, "' 失败: ");
    push_str(&mut out, e);
    string_of(&out)
}

proof fn lemma_assignment_error(
    columns: Seq<Column>,
    table: Seq<char>,
    ids: Seq<u64>,
    a: Seq<(Seq<char>, Seq<char>)>,
    k: int,
)
    requires
        0 <= k <= a.len(),
        assignment_changes(columns, table, ids, a.take(k)).conclusion is Fails,
    ensures
        assignment_changes(columns, table, ids, a) == assignment_changes(
            columns,
            table,
            ids,
            a.take(k),
        ),
    decreases a.len() - k,
{
    if k < a.len() {
        assert(a.take(k + 1).drop_last() =~= a.take(k));
        lemma_assignment_error(columns, table, ids, a, k + 1);
    } else {
        assert(a.take(k) =~= a);
    }
}

fn plan_assignments(
    table: &str,
    columns: &Vec<ColumnInfo>,
    ids: &Vec<u64>,
    assignments: &Vec<(String, String)>,
) -> (r: Plan)
    ensures
        r@ == assignment_changes(
            columns_view(columns@),
            table@,
            ids@,
            assignment_views(assignments@),
        ),
{
    let ghost c = columns_view(columns@);
    let ghost all = assignment_views(assignments@);
    let mut changes: Vec<Change> = Vec::new();
    let mut i: usize = 0;
    assert(all.take(0) =~= Seq::empty());
    assert(change_views(changes@) =~= Seq::empty());
    while i < assignments.len()
        invariant
            i <= assignments@.len(),
            c == columns_view(columns@),
            all == assignment_views(assignments@),
            assignment_changes(c, table@, ids@, all.take(i as int)) == (Course {
                changes: change_views(changes@),
                conclusion: Conclusion::Updated,
            }),
        decreases assignments@.len() - i,
    {
        proof {
            assert(all.take(i + 1).drop_last() =~= all.take(i as int));
            assert(all.take(i + 1).last() == (
                assignments@[i as int].0@,
                assignments@[i as int].1@,
            ));
        }
        let name = chars_of(assignments[i].0.as_str());
        let text = assignments[i].1.as_str();
        let k: usize = position_of_column(columns, Naming::Exact, &name);
        if k == columns.len() {
            let e = join3("列 '", assignments[i].0.as_str(), "' 不存在");
            proof {
                lemma_assignment_error(c, table@, ids@, all, i + 1);
            }
            return Plan { changes, outcome: Outcome::Fails(e) };
        }
        assert(c[k as int] == columns@[k as int]@);
        match parse_value(text, &columns[k].data_type) {
            Ok(v) => {
                let ghost before = changes@;
                let change = Change::Update(table.to_owned(), copy_ids(ids), columns[k].index, v);
                changes.push(change);
                assert(change_views(changes@) =~= change_views(before).push(change@));
            },
            Err(e) => {
                let e = update_error(text, e.as_str());
                proof {
                    lemma_assignment_error(c, table@, ids@, all, i + 1);
                }
                return Plan { changes, outcome: Outcome::Fails(e) };
            },
        }
        i += 1;
    }
    assert(all.take(assignments@.len() as int) =~= all);
    Plan { changes, outcome: Outcome::Updated }
}

fn plan_delete(engine: &StorageEngine, table: String, condition: &Option<String>) -> (r: Plan)
    ensures
        r@ == planned(
            engine@,
            Statement::Delete { table: table@, condition: opt_text(*condition) },
        ),
{
    match (engine.get_schema(table.as_str()), engine.scan_table(table.as_str())) {
        (Ok(schema), Ok(rows)) => {
            let ids = find_ids(&schema.columns, rows, condition);
            one_change(Change::Delete(table, ids), Outcome::Deleted)
        },
        (Err(e), _) => failure(e),
        (_, Err(e)) => failure(e),
    }
}

fn plan_update(
    engine: &StorageEngine,
    table: &str,
    assignments: &Vec<(String, String)>,
    condition: &Option<String>,
) -> (r: Plan)
    ensures
        r@ == planned(
            engine@,
            Statement::Update {
                table: table@,
                assignments: assignment_views(assignments@),
                condition: opt_text(*condition),
            },
        ),
{
    match (engine.get_schema(table), engine.scan_table(table)) {
        (Ok(schema), Ok(rows)) => {
            let ids = find_ids(&schema.columns, rows, condition);
            plan_assignments(table, &schema.columns, &ids, assignments)
        },
        (Err(e), _) => failure(e),
        (_, Err(e)) => failure(e),
    }
}

/// Plans a statement: works out its changes and what is to be told, and changes nothing.
pub fn plan_statement(engine: &StorageEngine, stmt: SQLStatement) -> (r: Plan)
    ensures
        r@ == planned(engine@, stmt@),
{
    match stmt {
        SQLStatement::CreateTable { name, columns } => {
            let schema = TableSchema {
                name: name.as_str().to_owned(),
                columns: define_columns(&columns),
            };
            one_change(Change::Create(schema), Outcome::Created(name))
        },
        SQLStatement::DropTable { table_name } => one_change(
            Change::Drop(table_name.as_str().to_owned()),
            Outcome::Dropped(table_name),
        ),
        SQLStatement::Insert { table_name, columns: _, values } => match engine.get_schema(
            table_name.as_str(),
        ) {
            Ok(schema) => plan_rows(table_name.as_str(), &schema.columns, &values),
            Err(e) => failure(e),
        },
        SQLStatement::Delete { table_name, where_clause } => plan_delete(
            engine,
            table_name,
            &where_clause,
        ),
        SQLStatement::Update { table_name, assignments, where_clause } => plan_update(
            engine,
            table_name.as_str(),
            &assignments,
            &where_clause,
        ),
        SQLStatement::Select {
            table_name,
            columns,
            where_clause,
            order_by,
            group_by,
            having,
            limit,
            offset,
            distinct,
            join,
        } => match run_select(
            engine,
            table_name.as_str(),
            &columns,
            &where_clause,
            &order_by,
            &group_by,
            &having,
            limit,
            offset,
            distinct,
            &join,
        ) {
            Ok(answer) => {
                let r = Plan { changes: Vec::new(), outcome: Outcome::Selected(answer) };
                assert(change_views(r.changes@) =~= Seq::empty());
                r
            },
            Err(e) => failure(e),
        },
    }
}

} // verus!
