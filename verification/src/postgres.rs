//! Configuration of a PostgreSQL backend, which is not implemented yet.
//!
//! There is no partial backend: one that took writes without keeping them would
//! let a node appear to learn when it did not.

use vstd::prelude::*;

verus! {

/// Why this backend is unavailable, and what to use instead.
pub const UNIMPLEMENTED: &'static str =
    "the PostgreSQL backend is not implemented yet; use `backend = \"sqlite\"`. See https://openntl.org/guides/storage-backends";

/// Configuration that a PostgreSQL backend will accept.
#[derive(Debug, PartialEq, Eq)]
pub struct PostgresConfig {
    /// Connection URL.
    pub url: String,
    /// Schema to place the tables in, to keep them out of the public one.
    pub schema: String,
    /// Connection pool size.
    pub max_connections: u32,
}

impl PostgresConfig {
    /// Configuration for a connection URL, with defaults elsewhere.
    pub fn at(url: &str) -> (r: PostgresConfig)
        ensures
            r.url@ == url@,
            r.schema@ == "ntl"@,
            r.max_connections == 16,
    {
        PostgresConfig { url: url.to_string(), schema: "ntl".to_string(), max_connections: 16 }
    }
}

} // verus!
