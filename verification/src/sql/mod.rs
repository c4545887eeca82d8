//! SQL: the statements and the parser that reads them.

pub mod list;
pub mod parser;
pub mod query;
pub mod reading;
pub mod rows;
pub mod script;
pub mod statement;

pub use parser::parse_sql;
pub use statement::ColumnDef;
pub use statement::JoinClause;
pub use statement::SQLStatement;
