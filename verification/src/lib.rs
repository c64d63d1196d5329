//! A commit-graph query engine.
//!
//! The engine maintains a directed acyclic graph of commits, answers
//! set-algebra reachability queries over it (ancestors, descendants, range,
//! heads, roots, `only`), and layers an event-sourced classification on top
//! that divides commits into observed, obsolete, public, visible and draft
//! sets. Deterministic topological sorting and connected-component
//! decomposition are built on the same query surface.
//!
//! Synchronization against an external object store is expressed as a state
//! machine ([`index::SyncState`]): the caller looks up each requested commit
//! and hands its parents back, and the engine decides which commit to request
//! next and how the graph grows.

pub mod commit_set;
pub mod dag;
pub mod error;
pub mod index;
pub mod oid;
pub mod sort;
