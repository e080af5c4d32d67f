//! Laws: what the operations are for.
//!
//! Each law relates the results of an operation to what went into it, or the
//! results of two calls to each other, in terms that the operation's own
//! computation does not use.

pub mod adjustments;
pub mod budgets;
pub mod chance;
pub mod gate;
pub mod keeping;
pub mod lifecycle;
pub mod nodes;
pub mod orders;
pub mod reception;
pub mod records;
pub mod reports;
pub mod retries;
pub mod rewards;
pub mod scoring;
pub mod selection;
pub mod sessions;
pub mod travel;
pub mod values;
pub mod windows;
