//! A graph synchronization engine for collections of markdown documents
//! connected by wiki-links.
//!
//! The library derives a directed multigraph from a document set: one node
//! per document, one phantom node per referenced but missing document, and
//! one edge per wiki-link occurrence. A full snapshot comes from
//! [`graph::build_graph`]; between snapshots a [`cache::GraphCache`] holds the
//! derived state and the handlers in [`delta`] turn one filesystem event into
//! a minimal delta, which [`events::emit_delta`] orders for a consumer.
//! Reading directories and files, watching the filesystem and publishing
//! events are left to the embedding application.
//!
//! The invariants the engine maintains, and the agreement of the incremental
//! path with a full rescan, are stated and proved in [`laws`] and in the
//! lemmas of [`graph`] and [`events`].

pub mod parser;
pub mod scanner;
pub mod graph;
pub mod cache;
pub mod delta;
pub mod events;
pub mod config;
pub mod watch;
pub mod helpers;
pub mod laws;
