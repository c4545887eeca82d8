//! Tables: their columns and their rows.

use vstd::prelude::*;

use crate::types::copy_values;
use crate::types::data;
use crate::types::DataType;
use crate::types::Datum;
use crate::types::Value;

verus! {

/// A column of a table.
#[derive(Debug, Clone)]
pub struct ColumnInfo {
    pub name: String,
    pub data_type: DataType,
    /// The place of the column's value in a row.
    pub index: usize,
}

/// The name and the columns of a table.
#[derive(Debug, Clone)]
pub struct TableSchema {
    pub name: String,
    pub columns: Vec<ColumnInfo>,
}

/// A row of a table.
#[derive(Debug, Clone)]
pub struct Row {
    pub id: u64,
    pub values: Vec<Value>,
}

/// What a column holds.
#[verifier::ext_equal]
pub struct Column {
    pub name: Seq<char>,
    pub data_type: DataType,
    pub index: usize,
}

/// What a schema holds.
#[verifier::ext_equal]
pub struct Schema {
    pub name: Seq<char>,
    pub columns: Seq<Column>,
}

/// What a row holds.
#[verifier::ext_equal]
pub struct Record {
    pub id: u64,
    pub values: Seq<Datum>,
}

/// A table: its schema and its rows, the oldest first.
#[verifier::ext_equal]
pub struct Table {
    pub schema: Schema,
    pub rows: Seq<Record>,
}

impl View for ColumnInfo {
    type V = Column;

    open spec fn view(&self) -> Column {
        Column { name: self.name@, data_type: self.data_type, index: self.index }
    }
}

/// What columns hold.
pub open spec fn columns_view(v: Seq<ColumnInfo>) -> Seq<Column> {
    v.map_values(|c: ColumnInfo| c@)
}

impl View for TableSchema {
    type V = Schema;

    open spec fn view(&self) -> Schema {
        Schema { name: self.name@, columns: columns_view(self.columns@) }
    }
}

impl View for Row {
    type V = Record;

    open spec fn view(&self) -> Record {
        Record { id: self.id, values: data(self.values@) }
    }
}

/// What rows hold.
pub open spec fn rows_view(v: Seq<Row>) -> Seq<Record> {
    v.map_values(|r: Row| r@)
}

impl ColumnInfo {
    /// A copy of the column.
    pub fn copy(&self) -> (r: ColumnInfo)
        ensures
            r@ == self@,
    {
        ColumnInfo {
            name: self.name.as_str().to_owned(),
            data_type: self.data_type,
            index: self.index,
        }
    }
}

/// A copy of columns.
pub fn copy_columns(v: &Vec<ColumnInfo>) -> (r: Vec<ColumnInfo>)
    ensures
        columns_view(r@) == columns_view(v@),
{
    let mut r: Vec<ColumnInfo> = Vec::new();
    let mut i: usize = 0;
    while i < v.len()
        invariant
            i <= v.len(),
            columns_view(r@) == columns_view(v@).take(i as int),
        decreases v.len() - i,
    {
        let ghost before = r@;
        r.push(v[i].copy());
        proof {
            assert(columns_view(r@) =~= columns_view(before).push(v@[i as int]@));
            assert(columns_view(v@).take(i + 1) =~= columns_view(v@).take(i as int).push(
                v@[i as int]@,
            ));
        }
        i += 1;
    }
    assert(columns_view(v@).take(v@.len() as int) =~= columns_view(v@));
    r
}

impl TableSchema {
    /// A copy of the schema.
    pub fn copy(&self) -> (r: TableSchema)
        ensures
            r@ == self@,
    {
        TableSchema { name: self.name.as_str().to_owned(), columns: copy_columns(&self.columns) }
    }
}

impl Row {
    /// A copy of the row.
    pub fn copy(&self) -> (r: Row)
        ensures
            r@ == self@,
    {
        Row { id: self.id, values: copy_values(&self.values) }
    }
}

/// A copy of rows.
pub fn copy_rows(v: &Vec<Row>) -> (r: Vec<Row>)
    ensures
        rows_view(r@) == rows_view(v@),
{
    let mut r: Vec<Row> = Vec::new();
    let mut i: usize = 0;
    while i < v.len()
        invariant
            i <= v.len(),
            rows_view(r@) == rows_view(v@).take(i as int),
        decreases v.len() - i,
    {
        let ghost before = r@;
        r.push(v[i].copy());
        proof {
            assert(rows_view(r@) =~= rows_view(before).push(v@[i as int]@));
            assert(rows_view(v@).take(i + 1) =~= rows_view(v@).take(i as int).push(v@[i as int]@));
        }
        i += 1;
    }
    assert(rows_view(v@).take(v@.len() as int) =~= rows_view(v@));
    r
}

} // verus!
