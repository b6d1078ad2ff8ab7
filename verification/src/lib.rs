//! An in-memory, append-only row store with secondary indices on columns.
//!
//! All rows of a [`Store`] have the same number of columns, and all cells have the same type
//! `T`. Queries are conjunctions of [`Condition`]s, each comparing one column against a value.
//! Indices, attached per column, narrow the rows a query has to visit; they never change what a
//! query returns.
pub mod cmp;
pub mod error;
pub mod idx;
pub mod query;
pub mod store;

pub use cmp::Comparison;
pub use cmp::Condition;
pub use cmp::Value;
pub use error::Error;
pub use idx::Bound;
pub use idx::EqualityIndex;
pub use idx::HashIndex;
pub use idx::Index;
pub use idx::RangeIndex;
pub use store::Store;
