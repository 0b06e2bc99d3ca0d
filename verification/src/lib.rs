//! A fine-grained reactive store for identity-keyed, tree-shaped data.
//!
//! The crate provides four cooperating pieces:
//!
//! * [`signal::Signal`] — a single mutable cell that tracks its subscribers
//!   and a monotone version counter;
//! * [`tree::Entity`], [`tree::KeyedCollection`] — an ordered collection of
//!   entities with stable identity keys, nestable to arbitrary depth;
//! * [`path::FieldPath`] — a field handle: a path from the root, owning no
//!   data and resolved afresh at every access, so that a handle into a
//!   removed entity fails cleanly instead of dangling;
//! * [`store::Store`] — the root of such a tree together with the write
//!   batch: path-addressed reads, writes and structural edits, where a read
//!   in a tracked context registers the reader on every signal it touches
//!   and a write enqueues exactly the subscribers of the written signal;
//! * [`diff::diff`] — the keyed diff engine, turning two key orders into a
//!   patch list of inserts, removes and moves that never rebuilds an entity
//!   whose key survives.
//!
//! Batching is deferred: writes accumulate subscribers in the current batch
//! and [`store::Store::flush`] hands the batch to the caller; writes made
//! while the caller runs its subscribers start the next batch. Before a
//! subscriber re-runs, [`store::Store::clear_subscriber`] discards its
//! stale dependency edges. The properties that tie these pieces together —
//! identity preservation across moves, minimal notification, the
//! round-trip of a remove and a reinsert, and locality of tracking — are
//! stated and proved in [`laws`].

pub mod diff;
pub mod laws;
pub mod path;
pub mod signal;
pub mod store;
pub mod tree;
pub mod value;
