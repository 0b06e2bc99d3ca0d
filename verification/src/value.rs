use vstd::prelude::*;

verus! {

/// A scalar payload held by one signal.
///
/// The store never interprets these values: a pitch, a tempo or a name is
/// carried through unchanged, and equal writes still count as writes.
#[derive(Debug, Clone, PartialEq, Eq)]
pub enum Value {
    Int(i64),
    Text(String),
}

/// The error conditions of the store.
///
/// All of them are local, synchronous results of one call: none is retried,
/// none is swallowed, and none leaves a partial mutation behind.
#[derive(Debug, Clone, Copy, PartialEq, Eq)]
pub enum StoreError {
    /// An insert named a key that is already live in the collection.
    DuplicateKey,
    /// A remove or move named a key that is not in the collection.
    KeyNotFound,
    /// A field read or write resolved through a removed ancestor.
    StaleReference,
    /// A path addressed a position that does not exist, or a node of the
    /// wrong shape (a scalar where a collection was expected, or the
    /// reverse).
    NotFound,
}

} // verus!
