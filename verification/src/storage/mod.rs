//! Storage: the tables, and the text format in which they are kept.

pub mod checksum;
pub mod codec;
pub mod engine;
pub mod round_trip;
pub mod schema;
pub mod snapshot;

pub use codec::parse_value;
pub use engine::StorageEngine;
pub use schema::ColumnInfo;
pub use schema::Row;
pub use schema::TableSchema;
pub use snapshot::fnv1a64;
