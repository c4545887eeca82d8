//! Persistence: checks on snapshots, and the write-ahead log.

pub mod check;
pub mod damage;
pub mod load;
pub mod malformed;
pub mod recovery;
pub mod reopen;
pub mod twice;
pub mod wal;

pub use check::validate_checksum;
pub use check::validate_header;
