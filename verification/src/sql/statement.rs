//! The statements of the SQL dialect.

use vstd::prelude::*;

use crate::text::string_texts;
use crate::types::DataType;

verus! {

/// A column of a `CREATE TABLE` statement.
#[derive(Debug, Clone)]
pub struct ColumnDef {
    pub name: String,
    pub data_type: DataType,
}

/// The `JOIN table ON left_col = right_col` part of a query.
#[derive(Debug, Clone)]
pub struct JoinClause {
    pub table: String,
    pub left_col: String,
    pub right_col: String,
}

/// A statement.
#[derive(Debug, Clone)]
#[allow(inconsistent_fields)]
pub enum SQLStatement {
    CreateTable { name: String, columns: Vec<ColumnDef> },
    DropTable { table_name: String },
    Insert { table_name: String, columns: Vec<String>, values: Vec<Vec<String>> },
    Select {
        table_name: String,
        columns: Vec<String>,
        where_clause: Option<String>,
        order_by: Option<String>,
        group_by: Option<String>,
        having: Option<String>,
        limit: Option<u64>,
        offset: Option<u64>,
        distinct: bool,
        join: Option<JoinClause>,
    },
    Delete { table_name: String, where_clause: Option<String> },
    Update {
        table_name: String,
        /// Each column with the text of its new value.
        assignments: Vec<(String, String)>,
        where_clause: Option<String>,
    },
}

/// What a `JOIN` clause holds.
#[verifier::ext_equal]
pub struct Join {
    pub table: Seq<char>,
    pub left: Seq<char>,
    pub right: Seq<char>,
}

/// What a query holds.
#[verifier::ext_equal]
pub struct Query {
    pub table: Seq<char>,
    pub columns: Seq<Seq<char>>,
    pub condition: Option<Seq<char>>,
    pub order_by: Option<Seq<char>>,
    pub group_by: Option<Seq<char>>,
    pub having: Option<Seq<char>>,
    pub limit: Option<u64>,
    pub offset: Option<u64>,
    pub distinct: bool,
    pub join: Option<Join>,
}

/// What a statement holds.
#[verifier::ext_equal]
#[allow(inconsistent_fields)]
pub enum Statement {
    CreateTable { name: Seq<char>, columns: Seq<(Seq<char>, DataType)> },
    DropTable { table: Seq<char> },
    Insert { table: Seq<char>, columns: Seq<Seq<char>>, values: Seq<Seq<Seq<char>>> },
    Select(Query),
    Delete { table: Seq<char>, condition: Option<Seq<char>> },
    Update {
        table: Seq<char>,
        assignments: Seq<(Seq<char>, Seq<char>)>,
        condition: Option<Seq<char>>,
    },
}

/// The text that an optional string holds.
pub open spec fn opt_text(s: Option<String>) -> Option<Seq<char>> {
    match s {
        Some(t) => Some(t@),
        None => None,
    }
}

/// The rows of texts that rows of strings hold.
pub open spec fn text_rows(v: Seq<Vec<String>>) -> Seq<Seq<Seq<char>>> {
    v.map_values(|r: Vec<String>| string_texts(r@))
}

/// The names and types of column definitions.
pub open spec fn column_views(v: Seq<ColumnDef>) -> Seq<(Seq<char>, DataType)> {
    v.map_values(|c: ColumnDef| (c.name@, c.data_type))
}

/// The columns and texts of assignments.
pub open spec fn assignment_views(v: Seq<(String, String)>) -> Seq<(Seq<char>, Seq<char>)> {
    v.map_values(|a: (String, String)| (a.0@, a.1@))
}

impl View for JoinClause {
    type V = Join;

    open spec fn view(&self) -> Join {
        Join { table: self.table@, left: self.left_col@, right: self.right_col@ }
    }
}

/// The join that an optional clause holds.
pub open spec fn opt_join(j: Option<JoinClause>) -> Option<Join> {
    match j {
        Some(c) => Some(c@),
        None => None,
    }
}

impl View for SQLStatement {
    type V = Statement;

    open spec fn view(&self) -> Statement {
        match self {
            SQLStatement::CreateTable { name, columns } => Statement::CreateTable {
                name: name@,
                columns: column_views(columns@),
            },
            SQLStatement::DropTable { table_name } => Statement::DropTable { table: table_name@ },
            SQLStatement::Insert { table_name, columns, values } => Statement::Insert {
                table: table_name@,
                columns: string_texts(columns@),
                values: text_rows(values@),
            },
            SQLStatement::Select {
                table_name,
                columns,
                where_clause,
                order_by,
                group_by,
                having,
                limit,
                offset,
                distinct,
                join,
            } => Statement::Select(
                Query {
                    table: table_name@,
                    columns: string_texts(columns@),
                    condition: opt_text(*where_clause),
                    order_by: opt_text(*order_by),
                    group_by: opt_text(*group_by),
                    having: opt_text(*having),
                    limit: *limit,
                    offset: *offset,
                    distinct: *distinct,
                    join: opt_join(*join),
                },
            ),
            SQLStatement::Delete { table_name, where_clause } => Statement::Delete {
                table: table_name@,
                condition: opt_text(*where_clause),
            },
            SQLStatement::Update { table_name, assignments, where_clause } => Statement::Update {
                table: table_name@,
                assignments: assignment_views(assignments@),
                condition: opt_text(*where_clause),
            },
        }
    }
}

/// The statements of a script.
pub open spec fn statement_views(v: Seq<SQLStatement>) -> Seq<Statement> {
    v.map_values(|s: SQLStatement| s@)
}

} // verus!
