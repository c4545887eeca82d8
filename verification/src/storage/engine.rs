//! The storage engine: the tables in memory.

use vstd::prelude::*;

use super::codec::fits;
use super::codec::type_matches;
use super::schema::rows_view;
use super::schema::Column;
use super::schema::Record;
use super::schema::Row;
use super::schema::Schema;
use super::schema::Table;
use super::schema::TableSchema;
use crate::number::push_u64;
use crate::number::show_nat;
use crate::text::chars_of;
use crate::text::join3;
use crate::text::push_chars;
use crate::text::push_str;
use crate::text::same_str;
use crate::text::string_of;
use crate::text::string_texts;
use crate::types::data;
use crate::types::debug_type;
use crate::types::debug_value;
use crate::types::type_debug;
use crate::types::value_debug;
use crate::types::Datum;
use crate::types::Value;

verus! {

// ---------------------------------------------------------------------------
// The model
// ---------------------------------------------------------------------------

/// What the engine holds: the tables in the order of their creation, and the id of
/// the next row.
#[verifier::ext_equal]
pub struct Database {
    pub tables: Seq<Table>,
    pub next_id: u64,
}

/// The index of the table with the given name, or the number of tables.
pub open spec fn table_index(t: Seq<Table>, name: Seq<char>) -> int
    decreases t.len(),
{
    if t.len() == 0 || t[0].schema.name == name {
        0
    } else {
        1 + table_index(t.skip(1), name)
    }
}

/// No two tables have one name.
pub open spec fn distinct_names(t: Seq<Table>) -> bool {
    forall|i: int, j: int|
        0 <= i < j < t.len() ==> #[trigger] t[i].schema.name != #[trigger] t[j].schema.name
}

/// There is no such table.
pub open spec fn missing(name: Seq<char>) -> Seq<char> {
    "表 '"@ + name + "' 不存在"@
}

/// The index from `i` on of the first value that its column may not hold.
pub open spec fn misfit(columns: Seq<Column>, values: Seq<Datum>, i: int) -> Option<int>
    decreases values.len() - i,
{
    if i < 0 || i >= values.len() {
        None
    } else if fits(columns[i].data_type, values[i]) {
        misfit(columns, values, i + 1)
    } else {
        Some(i)
    }
}

/// What keeps a row out of a table with the given columns, if anything does.
pub open spec fn row_error(columns: Seq<Column>, values: Seq<Datum>) -> Option<Seq<char>> {
    if values.len() != columns.len() {
        Some(
            "列数不匹配: 需要 "@ + show_nat(columns.len()) + " 列, 提供了 "@ + show_nat(values.len())
                + " 列"@,
        )
    } else {
        match misfit(columns, values, 0) {
            None => None,
            Some(i) => Some(
                "列 '"@ + columns[i].name + "' 类型不匹配: 期望 "@ + type_debug(
                    columns[i].data_type,
                ) + ", 得到 "@ + value_debug(values[i]),
            ),
        }
    }
}

/// The rows whose id is not among `ids`.
pub open spec fn rows_without(rows: Seq<Record>, ids: Seq<u64>) -> Seq<Record>
    decreases rows.len(),
{
    if rows.len() == 0 {
        Seq::empty()
    } else {
        let rest = rows_without(rows.drop_last(), ids);
        if ids.contains(rows.last().id) {
            rest
        } else {
            rest.push(rows.last())
        }
    }
}

/// Whether an update of the column `col` in the rows `ids` changes the row.
pub open spec fn is_updated(r: Record, ids: Seq<u64>, col: int) -> bool {
    ids.contains(r.id) && 0 <= col < r.values.len()
}

/// The row after an update.
pub open spec fn updated_row(r: Record, ids: Seq<u64>, col: int, d: Datum) -> Record {
    if is_updated(r, ids, col) {
        Record { id: r.id, values: r.values.update(col, d) }
    } else {
        r
    }
}

/// The rows after an update.
pub open spec fn updated_rows(rows: Seq<Record>, ids: Seq<u64>, col: int, d: Datum) -> Seq<
    Record,
> {
    rows.map_values(|r: Record| updated_row(r, ids, col, d))
}

/// The number of rows that an update changes.
pub open spec fn updated_count(rows: Seq<Record>, ids: Seq<u64>, col: int) -> nat
    decreases rows.len(),
{
    if rows.len() == 0 {
        0
    } else {
        updated_count(rows.drop_last(), ids, col) + (if is_updated(rows.last(), ids, col) {
            1nat
        } else {
            0nat
        })
    }
}

impl Database {
    /// No tables; the first row gets the id 1.
    pub open spec fn empty() -> Database {
        Database { tables: Seq::empty(), next_id: 1 }
    }

    pub open spec fn wf(self) -> bool {
        distinct_names(self.tables)
    }

    /// The index of the table with the given name, or the number of tables.
    pub open spec fn index(self, name: Seq<char>) -> int {
        table_index(self.tables, name)
    }

    pub open spec fn has(self, name: Seq<char>) -> bool {
        self.index(name) < self.tables.len()
    }

    pub open spec fn table(self, name: Seq<char>) -> Table {
        self.tables[self.index(name)]
    }

    /// The table with other rows.
    pub open spec fn with_rows(self, name: Seq<char>, rows: Seq<Record>) -> Database {
        Database {
            tables: self.tables.update(
                self.index(name),
                Table { schema: self.table(name).schema, rows },
            ),
            next_id: self.next_id,
        }
    }

    /// A new table at the end.
    pub open spec fn created(self, schema: Schema) -> Database {
        Database {
            tables: self.tables.push(Table { schema, rows: Seq::empty() }),
            next_id: self.next_id,
        }
    }

    /// The tables but for the one with the given name.
    pub open spec fn dropped(self, name: Seq<char>) -> Database {
        Database { tables: self.tables.remove(self.index(name)), next_id: self.next_id }
    }

    /// The table with a row more.
    pub open spec fn with_row(self, name: Seq<char>, row: Record) -> Database {
        self.with_rows(name, self.table(name).rows.push(row))
    }

    /// What keeps a row out of the table with the given name, if anything does.
    pub open spec fn insert_error(self, name: Seq<char>, values: Seq<Datum>) -> Option<
        Seq<char>,
    > {
        if !self.has(name) {
            Some(missing(name))
        } else {
            row_error(self.table(name).schema.columns, values)
        }
    }
}

proof fn lemma_table_index(t: Seq<Table>, name: Seq<char>)
    ensures
        0 <= table_index(t, name) <= t.len(),
        table_index(t, name) < t.len() ==> t[table_index(t, name)].schema.name == name,
        forall|j: int| 0 <= j < table_index(t, name) ==> (#[trigger] t[j]).schema.name != name,
    decreases t.len(),
{
    if t.len() > 0 && t[0].schema.name != name {
        lemma_table_index(t.skip(1), name);
        assert forall|j: int| 0 <= j < table_index(t, name) implies (
        #[trigger] t[j]).schema.name != name by {
            if j > 0 {
                assert(t[j] == t.skip(1)[j - 1]);
            }
        }
    }
}

/// Only one index can be that of the first table with a name.
pub proof fn lemma_table_index_is(t: Seq<Table>, name: Seq<char>, i: int)
    requires
        0 <= i <= t.len(),
        forall|j: int| 0 <= j < i ==> (#[trigger] t[j]).schema.name != name,
        i < t.len() ==> t[i].schema.name == name,
    ensures
        table_index(t, name) == i,
{
    lemma_table_index(t, name);
    let k = table_index(t, name);
    if k < i {
        assert(t[k].schema.name != name);
    }
    if i < k {
        assert(t[i].schema.name != name);
    }
}

/// Where a table is found, it has the name that was looked for.
pub proof fn lemma_found(db: Database, name: Seq<char>)
    ensures
        0 <= db.index(name) <= db.tables.len(),
        db.has(name) ==> db.table(name).schema.name == name,
{
    lemma_table_index(db.tables, name);
}

/// No table before the one that is found has the name.
pub proof fn lemma_before_found(db: Database, name: Seq<char>)
    ensures
        forall|j: int|
            0 <= j < db.index(name) ==> (#[trigger] db.tables[j]).schema.name != name,
{
    lemma_table_index(db.tables, name);
}

/// Where no table is found, none has the name.
pub proof fn lemma_not_found(db: Database, name: Seq<char>)
    requires
        !db.has(name),
    ensures
        forall|j: int|
            0 <= j < db.tables.len() ==> (#[trigger] db.tables[j]).schema.name != name,
{
    lemma_table_index(db.tables, name);
}

// ---------------------------------------------------------------------------
// The engine
// ---------------------------------------------------------------------------

#[derive(Debug)]
struct StoredTable {
    schema: TableSchema,
    rows: Vec<Row>,
}

impl View for StoredTable {
    type V = Table;

    closed spec fn view(&self) -> Table {
        Table { schema: self.schema@, rows: rows_view(self.rows@) }
    }
}

spec fn tables_view(v: Seq<StoredTable>) -> Seq<Table> {
    v.map_values(|t: StoredTable| t@)
}

/// The tables in memory.
#[derive(Debug)]
pub struct StorageEngine {
    tables: Vec<StoredTable>,
    next_id: u64,
}

impl View for StorageEngine {
    type V = Database;

    closed spec fn view(&self) -> Database {
        Database { tables: tables_view(self.tables@), next_id: self.next_id }
    }
}

/// A count or an error, by its view.
pub open spec fn count_result(r: Result<usize, String>) -> Result<nat, Seq<char>> {
    match r {
        Ok(n) => Ok(n as nat),
        Err(e) => Err(e@),
    }
}

/// Nothing or an error, by its view.
pub open spec fn unit_result(r: Result<(), String>) -> Result<(), Seq<char>> {
    match r {
        Ok(_) => Ok(()),
        Err(e) => Err(e@),
    }
}

fn missing_table(name: &str) -> (r: String)
    ensures
        r@ == missing(name@),
{
    join3("表 '", name, "' 不存在")
}

fn contains_id(ids: &Vec<u64>, id: u64) -> (r: bool)
    ensures
        r == ids@.contains(id),
{
    let mut i: usize = 0;
    while i < ids.len()
        invariant
            i <= ids.len(),
            forall|j: int| 0 <= j < i ==> ids@[j] != id,
        decreases ids.len() - i,
    {
        if ids[i] == id {
            assert(ids@[i as int] == id);
            return true;
        }
        i += 1;
    }
    false
}

/// What keeps a row out of a table, if anything does.
fn check_row(schema: &TableSchema, values: &Vec<Value>) -> (r: Option<String>)
    ensures
        match r {
            Some(e) => row_error(schema@.columns, data(values@)) == Some(e@),
            None => row_error(schema@.columns, data(values@)) is None,
        },
{
    let ghost columns = schema@.columns;
    let ghost d = data(values@);
    if values.len() != schema.columns.len() {
        let mut out = chars_of("列数不匹配: 需要 ");
        push_u64(&mut out, schema.columns.len() as u64);
        push_str(&mut out, " 列, 提供了 ");
        push_u64(&mut out, values.len() as u64);
        push_str(&mut out, " 列");
        return Some(string_of(&out));
    }
    let mut i: usize = 0;
    while i < values.len()
        invariant
            i <= values.len(),
            values.len() == schema.columns.len(),
            columns == schema@.columns,
            d == data(values@),
            misfit(columns, d, 0) == misfit(columns, d, i as int),
        decreases values.len() - i,
    {
        assert(columns[i as int] == schema.columns@[i as int]@);
        assert(d[i as int] == values@[i as int]@);
        if !type_matches(&schema.columns[i].data_type, &values[i]) {
            let mut out = chars_of("列 '");
            push_str(&mut out, schema.columns[i].name.as_str());
            push_str(&mut out, "' 类型不匹配: 期望 ");
            push_chars(&mut out, &debug_type(&schema.columns[i].data_type));
            push_str(&mut out, ", 得到 ");
            push_chars(&mut out, &debug_value(&values[i]));
            return Some(string_of(&out));
        }
        i += 1;
    }
    None
}

impl StorageEngine {
    /// No two tables have one name.
    pub open spec fn wf(&self) -> bool {
        self@.wf()
    }

    /// An engine without tables.
    pub fn new() -> (r: StorageEngine)
        ensures
            r@ == Database::empty(),
            r.wf(),
    {
        let r = StorageEngine { tables: Vec::new(), next_id: 1 };
        assert(tables_view(r.tables@) =~= Seq::empty());
        r
    }

    fn find(&self, name: &str) -> (r: usize)
        ensures
            r == self@.index(name@),
            r <= self.tables@.len(),
            self.tables@.len() == self@.tables.len(),
            r < self.tables@.len() ==> self.tables@[r as int]@ == self@.tables[r as int],
    {
        let mut i: usize = 0;
        while i < self.tables.len()
            invariant
                i <= self.tables@.len(),
                forall|j: int| 0 <= j < i ==> (#[trigger] self@.tables[j]).schema.name != name@,
            decreases self.tables@.len() - i,
        {
            assert(self@.tables[i as int] == self.tables@[i as int]@);
            if same_str(self.tables[i].schema.name.as_str(), name) {
                proof {
                    lemma_table_index_is(self@.tables, name@, i as int);
                }
                return i;
            }
            i += 1;
        }
        proof {
            lemma_table_index_is(self@.tables, name@, i as int);
        }
        i
    }

    /// Adds a table without rows.
    pub fn create_table(&mut self, schema: TableSchema) -> (r: Result<(), String>)
        requires
            old(self).wf(),
        ensures
            final(self).wf(),
            old(self)@.has(schema@.name) ==> final(self)@ == old(self)@ && unit_result(r)
                == Err::<(), Seq<char>>("表 '"@ + schema@.name + "' 已存在"@),
            !old(self)@.has(schema@.name) ==> final(self)@ == old(self)@.created(schema@) && r
                is Ok,
    {
        let i: usize = self.find(schema.name.as_str());
        if i < self.tables.len() {
            return Err(join3("表 '", schema.name.as_str(), "' 已存在"));
        }
        let ghost before = self.tables@;
        let table = StoredTable { schema, rows: Vec::new() };
        self.tables.push(table);
        proof {
            assert(rows_view(table.rows@) =~= Seq::empty());
            assert(self@.tables =~= old(self)@.tables.push(table@));
            lemma_table_index(old(self)@.tables, schema@.name);
        }
        Ok(())
    }

    /// Removes a table with its rows.
    pub fn drop_table(&mut self, table_name: &str) -> (r: Result<(), String>)
        requires
            old(self).wf(),
        ensures
            final(self).wf(),
            !old(self)@.has(table_name@) ==> final(self)@ == old(self)@ && unit_result(r) == Err::<
                (),
                Seq<char>,
            >(missing(table_name@)),
            old(self)@.has(table_name@) ==> final(self)@ == old(self)@.dropped(table_name@) && r
                is Ok,
    {
        let i: usize = self.find(table_name);
        if i == self.tables.len() {
            return Err(missing_table(table_name));
        }
        self.tables.remove(i);
        assert(self@.tables =~= old(self)@.tables.remove(i as int));
        Ok(())
    }

    /// Adds a row with the next id, which it returns.
    pub fn insert(&mut self, table_name: &str, values: Vec<Value>) -> (r: Result<u64, String>)
        requires
            old(self).wf(),
        ensures
            final(self).wf(),
            match old(self)@.insert_error(table_name@, data(values@)) {
                Some(e) => r is Err && r->Err_0@ == e && final(self)@ == old(self)@,
                None => if old(self)@.next_id == u64::MAX {
                    r is Err && r->Err_0@ == "行ID已用尽"@ && final(self)@ == old(self)@
                } else {
                    &&& r == Ok::<u64, String>(old(self)@.next_id)
                    &&& final(self)@.next_id == old(self)@.next_id + 1
                    &&& final(self)@.tables == old(self)@.with_row(
                        table_name@,
                        Record { id: old(self)@.next_id, values: data(values@) },
                    ).tables
                },
            },
    {
        let i: usize = self.find(table_name);
        if i == self.tables.len() {
            return Err(missing_table(table_name));
        }
        match check_row(&self.tables[i].schema, &values) {
            Some(e) => {
                return Err(e);
            },
            None => {},
        }
        if self.next_id == u64::MAX {
            return Err("行ID已用尽".to_owned());
        }
        let id: u64 = self.next_id;
        self.next_id = id + 1;
        self.push_row(i, Row { id, values });
        Ok(id)
    }

    fn push_row(&mut self, i: usize, row: Row)
        requires
            i < old(self).tables@.len(),
        ensures
            final(self).next_id == old(self).next_id,
            final(self)@.tables == old(self)@.tables.update(
                i as int,
                Table {
                    schema: old(self)@.tables[i as int].schema,
                    rows: old(self)@.tables[i as int].rows.push(row@),
                },
            ),
            old(self).wf() ==> final(self).wf(),
    {
        let ghost before = self.tables@;
        self.tables[i].rows.push(row);
        proof {
            assert(rows_view(self.tables@[i as int].rows@) =~= rows_view(
                before[i as int].rows@,
            ).push(row@));
            assert(self@.tables =~= old(self)@.tables.update(
                i as int,
                Table {
                    schema: old(self)@.tables[i as int].schema,
                    rows: old(self)@.tables[i as int].rows.push(row@),
                },
            ));
        }
    }

    /// The rows of a table.
    pub fn scan_table(&self, table_name: &str) -> (r: Result<&Vec<Row>, String>)
        ensures
            match r {
                Ok(rows) => self@.has(table_name@) && rows_view(rows@) == self@.table(
                    table_name@,
                ).rows,
                Err(e) => !self@.has(table_name@) && e@ == missing(table_name@),
            },
    {
        let i: usize = self.find(table_name);
        if i == self.tables.len() {
            return Err(missing_table(table_name));
        }
        Ok(&self.tables[i].rows)
    }

    /// The rows of a table, to be changed in place.
    pub fn table_data_mut(&mut self, table_name: &str) -> (r: Result<&mut Vec<Row>, String>)
        requires
            old(self).wf(),
        ensures
            match r {
                Ok(rows) => {
                    &&& old(self)@.has(table_name@)
                    &&& rows_view(rows@) == old(self)@.table(table_name@).rows
                    &&& final(self)@ == old(self)@.with_rows(
                        table_name@,
                        rows_view(final(rows)@),
                    )
                    &&& final(self).wf()
                },
                Err(e) => {
                    &&& !old(self)@.has(table_name@)
                    &&& e@ == missing(table_name@)
                    &&& final(self)@ == old(self)@
                },
            },
    {
        let i: usize = self.find(table_name);
        if i == self.tables.len() {
            return Err(missing_table(table_name));
        }
        Ok(&mut self.tables[i].rows)
    }

    /// The schema of a table.
    pub fn get_schema(&self, table_name: &str) -> (r: Result<&TableSchema, String>)
        ensures
            match r {
                Ok(schema) => self@.has(table_name@) && schema@ == self@.table(table_name@).schema,
                Err(e) => !self@.has(table_name@) && e@ == missing(table_name@),
            },
    {
        let i: usize = self.find(table_name);
        if i == self.tables.len() {
            return Err(missing_table(table_name));
        }
        Ok(&self.tables[i].schema)
    }

    /// The names of the tables, in the order of their creation.
    pub fn table_names(&self) -> (r: Vec<String>)
        ensures
            string_texts(r@) == self@.tables.map_values(|t: Table| t.schema.name),
    {
        let mut r: Vec<String> = Vec::new();
        let mut i: usize = 0;
        while i < self.tables.len()
            invariant
                i <= self.tables@.len(),
                string_texts(r@) == self@.tables.take(i as int).map_values(
                    |t: Table| t.schema.name,
                ),
            decreases self.tables@.len() - i,
        {
            let ghost before = r@;
            let name = self.tables[i].schema.name.as_str().to_owned();
            r.push(name);
            proof {
                assert(string_texts(r@) =~= string_texts(before).push(name@));
                assert(self@.tables.take(i + 1).map_values(|t: Table| t.schema.name)
                    =~= self@.tables.take(i as int).map_values(|t: Table| t.schema.name).push(
                    self.tables@[i as int]@.schema.name,
                ));
            }
            i += 1;
        }
        assert(self@.tables.take(self.tables@.len() as int) =~= self@.tables);
        r
    }

    /// Removes the rows with the given ids and returns how many there were.
    pub fn delete_by_ids(&mut self, table_name: &str, ids: &Vec<u64>) -> (r: Result<
        usize,
        String,
    >)
        requires
            old(self).wf(),
        ensures
            final(self).wf(),
            !old(self)@.has(table_name@) ==> final(self)@ == old(self)@ && count_result(r)
                == Err::<nat, Seq<char>>(missing(table_name@)),
            old(self)@.has(table_name@) ==> {
                let rows = old(self)@.table(table_name@).rows;
                let left = rows_without(rows, ids@);
                &&& final(self)@ == old(self)@.with_rows(table_name@, left)
                &&& r is Ok && r->Ok_0 + left.len() == rows.len()
            },
    {
        let k: usize = self.find(table_name);
        if k == self.tables.len() {
            return Err(missing_table(table_name));
        }
        let ghost before = self.tables@;
        let ghost rows = self@.tables[k as int].rows;
        let mut kept: Vec<Row> = Vec::new();
        let mut deleted: usize = 0;
        let mut i: usize = 0;
        let n: usize = self.tables[k].rows.len();
        assert(rows_view(kept@) =~= Seq::empty());
        assert(rows.take(0) =~= Seq::empty());
        while i < n
            invariant
                i <= n,
                k < self.tables@.len(),
                self.tables@ == before,
                n == before[k as int].rows@.len(),
                rows == rows_view(before[k as int].rows@),
                rows_view(kept@) == rows_without(rows.take(i as int), ids@),
                deleted + kept@.len() == i,
            decreases n - i,
        {
            proof {
                assert(rows.take(i + 1).drop_last() =~= rows.take(i as int));
                assert(rows.take(i + 1).last() == before[k as int].rows@[i as int]@);
            }
            if contains_id(ids, self.tables[k].rows[i].id) {
                deleted += 1;
            } else {
                let ghost was = kept@;
                kept.push(self.tables[k].rows[i].copy());
                assert(rows_view(kept@) =~= rows_view(was).push(before[k as int].rows@[i as int]@));
            }
            i += 1;
        }
        self.tables[k].rows = kept;
        proof {
            assert(rows.take(n as int) =~= rows);
            assert(rows_view(kept@).len() == kept@.len());
            assert(self@.tables =~= old(self)@.with_rows(
                table_name@,
                rows_without(rows, ids@),
            ).tables);
        }
        Ok(deleted)
    }

    /// Sets a column in the rows with the given ids, and returns how many rows changed.
    pub fn update_by_ids(
        &mut self,
        table_name: &str,
        ids: &Vec<u64>,
        col_index: usize,
        new_value: Value,
    ) -> (r: Result<usize, String>)
        requires
            old(self).wf(),
        ensures
            final(self).wf(),
            !old(self)@.has(table_name@) ==> final(self)@ == old(self)@ && count_result(r)
                == Err::<nat, Seq<char>>(missing(table_name@)),
            old(self)@.has(table_name@) ==> {
                let rows = old(self)@.table(table_name@).rows;
                &&& final(self)@ == old(self)@.with_rows(
                    table_name@,
                    updated_rows(rows, ids@, col_index as int, new_value@),
                )
                &&& count_result(r) == Ok::<nat, Seq<char>>(
                    updated_count(rows, ids@, col_index as int),
                )
            },
    {
        let k: usize = self.find(table_name);
        if k == self.tables.len() {
            return Err(missing_table(table_name));
        }
        let ghost before = self.tables@;
        let ghost rows = self@.tables[k as int].rows;
        let ghost col = col_index as int;
        let mut out: Vec<Row> = Vec::new();
        let mut updated: usize = 0;
        let mut i: usize = 0;
        let n: usize = self.tables[k].rows.len();
        assert(rows_view(out@) =~= updated_rows(rows.take(0), ids@, col, new_value@));
        assert(rows.take(0) =~= Seq::empty());
        while i < n
            invariant
                i <= n,
                col == col_index,
                k < self.tables@.len(),
                self.tables@ == before,
                n == before[k as int].rows@.len(),
                rows == rows_view(before[k as int].rows@),
                rows_view(out@) == updated_rows(rows.take(i as int), ids@, col, new_value@),
                updated == updated_count(rows.take(i as int), ids@, col),
                updated <= i,
            decreases n - i,
        {
            let mut row = self.tables[k].rows[i].copy();
            let ghost was = row@;
            proof {
                assert(rows.take(i + 1).drop_last() =~= rows.take(i as int));
                assert(rows.take(i + 1).last() == was);
            }
            if contains_id(ids, row.id) && col_index < row.values.len() {
                let ghost values = row.values@;
                row.values.set(col_index, new_value.copy());
                assert(data(row.values@) =~= data(values).update(col, new_value@));
                updated += 1;
            }
            let ghost old_out = out@;
            out.push(row);
            proof {
                assert(row@ == updated_row(was, ids@, col, new_value@));
                assert(rows_view(out@) =~= rows_view(old_out).push(row@));
                assert(updated_rows(rows.take(i + 1), ids@, col, new_value@) =~= updated_rows(
                    rows.take(i as int),
                    ids@,
                    col,
                    new_value@,
                ).push(row@));
            }
            i += 1;
        }
        self.tables[k].rows = out;
        proof {
            assert(rows.take(n as int) =~= rows);
            assert(self@.tables =~= old(self)@.with_rows(
                table_name@,
                updated_rows(rows, ids@, col, new_value@),
            ).tables);
        }
        Ok(updated)
    }

    /// The id of the next row.
    pub fn next_id(&self) -> (r: u64)
        ensures
            r == self@.next_id,
    {
        self.next_id
    }

    /// Sets the id of the next row.
    pub fn set_next_id(&mut self, id: u64)
        requires
            old(self).wf(),
        ensures
            final(self).wf(),
            final(self)@ == (Database { next_id: id, ..old(self)@ }),
    {
        self.next_id = id;
    }

    /// Adds a row with a given id.
    pub fn insert_row_with_id(&mut self, table_name: &str, id: u64, values: Vec<Value>) -> (r:
        Result<(), String>)
        requires
            old(self).wf(),
        ensures
            final(self).wf(),
            match old(self)@.insert_error(table_name@, data(values@)) {
                Some(e) => unit_result(r) == Err::<(), Seq<char>>(e) && final(self)@ == old(self)@,
                None => r is Ok && final(self)@ == old(self)@.with_row(
                    table_name@,
                    Record { id, values: data(values@) },
                ),
            },
    {
        let i: usize = self.find(table_name);
        if i == self.tables.len() {
            return Err(missing_table(table_name));
        }
        match check_row(&self.tables[i].schema, &values) {
            Some(e) => {
                return Err(e);
            },
            None => {},
        }
        self.push_row(i, Row { id, values });
        Ok(())
    }

    /// The number of tables.
    pub(crate) fn table_count(&self) -> (r: usize)
        ensures
            r == self@.tables.len(),
    {
        self.tables.len()
    }

    /// The schema of the table at the given place.
    pub(crate) fn schema_at(&self, i: usize) -> (r: &TableSchema)
        requires
            i < self@.tables.len(),
        ensures
            r@ == self@.tables[i as int].schema,
    {
        assert(self@.tables[i as int] == self.tables@[i as int]@);
        &self.tables[i].schema
    }

    /// The rows of the table at the given place.
    pub(crate) fn rows_at(&self, i: usize) -> (r: &Vec<Row>)
        requires
            i < self@.tables.len(),
        ensures
            rows_view(r@) == self@.tables[i as int].rows,
    {
        assert(self@.tables[i as int] == self.tables@[i as int]@);
        &self.tables[i].rows
    }

    /// Removes all tables and starts the ids at 1.
    pub(crate) fn clear(&mut self)
        ensures
            final(self)@ == Database::empty(),
            final(self).wf(),
    {
        self.tables = Vec::new();
        self.next_id = 1;
        assert(tables_view(self.tables@) =~= Seq::empty());
    }

    /// Puts a table without rows in the place of the one with the same name, or at the
    /// end where there is none.
    pub(crate) fn replace_table(&mut self, schema: TableSchema)
        requires
            old(self).wf(),
        ensures
            final(self).wf(),
            final(self)@ == old(self)@.replaced(schema@),
    {
        let i: usize = self.find(schema.name.as_str());
        let table = StoredTable { schema, rows: Vec::new() };
        assert(rows_view(table.rows@) =~= Seq::empty());
        proof {
            lemma_table_index(old(self)@.tables, schema@.name);
        }
        if i < self.tables.len() {
            self.tables.set(i, table);
            assert(self@.tables =~= old(self)@.tables.update(i as int, table@));
        } else {
            self.tables.push(table);
            assert(self@.tables =~= old(self)@.tables.push(table@));
        }
    }
}

impl Database {
    /// A table without rows in the place of the one with the same name, or at the end
    /// where there is none.
    pub open spec fn replaced(self, schema: Schema) -> Database {
        let t = Table { schema, rows: Seq::empty() };
        Database {
            tables: if self.has(schema.name) {
                self.tables.update(self.index(schema.name), t)
            } else {
                self.tables.push(t)
            },
            next_id: self.next_id,
        }
    }
}

} // verus!
