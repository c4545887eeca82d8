//! ProbeDB: a small embedded SQL database whose tables hold vectors beside
//! ordinary columns. This crate is the verified core: the value types, the SQL
//! parser, the storage engine and its text formats, the write-ahead log and the
//! query executor.

pub mod arithmetic;
pub mod calendar;
pub mod db;
pub mod decimal;
pub mod display;
pub mod double;
pub mod executor;
pub mod natural;
pub mod number;
pub mod persistence;
pub mod rounding;
pub mod runs;
pub mod similarity;
pub mod sql;
pub mod storage;
pub mod text;
pub mod texts;
pub mod types;
pub mod values;
pub mod whole;

pub use db::ProbeDB;
