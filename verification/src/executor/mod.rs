//! The executor: what statements do to a database, and what queries return.

pub mod aggregate;
pub mod answers;
pub mod calls;
pub mod clauses;
pub mod column;
pub mod compare;
pub mod condition;
pub mod effects;
pub mod filter;
pub mod group;
pub mod laws;
pub mod like;
pub mod order;
pub mod plan;
pub mod queries;
pub mod ranking;
pub mod run;
pub mod select;
pub mod sort;
pub mod totals;

pub use run::ExecuteResult;
pub use run::Executor;
