//! An embedded key-value store with dynamically typed, recursively
//! structured values, a predicate-based query layer, and a verified
//! whole-snapshot binary codec for durable persistence.

pub mod condition;
pub mod database;
pub mod storage;
pub mod text;
pub mod value;

use vstd::prelude::*;

verus! {

/// The recoverable failures the store reports to its caller.
#[derive(Clone, Copy, Debug, PartialEq, Eq, Structural)]
pub enum DbError {
    /// An update or delete addressed a key that is not present.
    KeyNotFound,
    /// Snapshot bytes did not decode as a complete mapping.
    SerializationError,
}

} // verus!

pub use condition::Cond;
pub use condition::Condition;
pub use database::Database;
pub use database::DatabaseStats;
pub use storage::StorageEngine;
pub use value::Val;
pub use value::Value;
