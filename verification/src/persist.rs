//! Rows of the persistent store, as the rest of the server sees them.
use vstd::prelude::*;

verus! {

/// The latest schema version the store produces (`PRAGMA user_version`).
pub const SCHEMA_VERSION: i64 = 1;

/// A row of the `players` table.
#[derive(Debug, Clone, PartialEq, Eq)]
pub struct PlayerRow {
    pub id: i64,
    pub name: String,
    pub token_hash: String,
    pub gold: i64,
    pub created_at: i64,
    pub last_seen: i64,
}

} // verus!
