//! Indexed storage for typed records in an ordered key-value region.
//!
//! The crate keeps serialized records under stable numeric identifiers,
//! enforces uniqueness of natural keys, reuses freed identifiers, and
//! answers cursor-based range queries in either direction.
use vstd::prelude::*;

pub mod order;
pub mod record;
pub mod map;
pub mod table;
pub mod laws;
pub mod host_group;
pub mod types;
pub mod policy;
pub mod stats;

verus! {

/// Failures surfaced by the storage layer.
#[derive(Clone, Copy, Debug, PartialEq, Eq, Structural)]
pub enum Error {
    /// The requested identifier has no live record.
    NotFound,
    /// The natural key is already taken by a live record.
    KeyExists,
    /// The live record does not match the expected prior value.
    ValueMismatch,
    /// Every assignable identifier is in use.
    IdExhausted,
    /// The stored payload cannot be decoded.
    Corrupt,
}

} // verus!
