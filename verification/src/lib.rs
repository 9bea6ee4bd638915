//! An in-memory, transactionally mutated graph store over a closed set of
//! node types, with automatic maintenance of inverse ("mirror") links.
//!
//! Nodes live in an arena with generation-checked handles ([`index::NodeIndex`]):
//! removal tombstones a slot and bumps its generation, so a reused slot never
//! resolves an old handle. Callers stage mutations in a [`graph::Transaction`]
//! and apply them with [`graph::Graph::commit`], which walks the log in
//! staging order and propagates every link change to the mirror set of the
//! affected endpoint. The [`laws`] module states and proves the store's
//! global guarantees: round-trip of committed values, non-aliasing of reused
//! handles, idempotence of mirror edits, mirror cleanup on removal, and the
//! bidirectional-link invariant.

pub mod arena;
pub mod graph;
pub mod index;
pub mod laws;
pub mod node;
