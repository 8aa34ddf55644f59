//! An in-memory, generic, directed-link graph container.
//!
//! A graph is a set of uniquely identified nodes, each carrying a typed
//! [`value::Value`] payload, plus a set of directed links between node
//! identifiers. Adjacency in either direction is answered from a derived
//! index that is kept in exact sync with the link set; the synchronisation
//! invariant is stated in [`graph`] and maintained by every mutation.
//!
//! Queries are built as immutable [`query::Query`] descriptions (or
//! incrementally through [`query::GraphQuery`]) and evaluated against a
//! graph in boolean or set mode. The reference semantics of every
//! operation is written once, over [`model::GraphModel`], and each
//! executable operation is proved to follow it; [`laws`] states the
//! library-wide guarantees over that model.

pub mod graph;
pub mod laws;
pub mod model;
pub mod query;
pub mod value;
