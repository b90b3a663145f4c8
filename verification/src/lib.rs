//! A workspace memory engine: a persistent, searchable, filesystem-like
//! document store for long-running agents.
//!
//! Documents are markdown files organized in a virtual directory hierarchy.
//! Each document is chunked into bounded text segments, optionally embedded,
//! and indexed for hybrid retrieval that fuses a lexical ranker with vector
//! similarity through reciprocal rank fusion.
//!
//! The crate is organized around three layers:
//!
//! - a storage contract ([`store::StorageBackend`]) with a verified in-memory
//!   implementation ([`store::InMemoryStore`]);
//! - pure algorithms: path normalization ([`pathnorm`]), chunking ([`chunk`]),
//!   rank fusion ([`search`]), and text heuristics ([`text`], [`intent`]);
//! - a facade ([`workspace::Workspace`]) that binds a `(user, agent)` scope
//!   over one backend and provides file operations, seeding and search.

pub mod chunk;
pub mod date;
pub mod embed;
pub mod intent;
pub mod shell;
pub mod store;
pub mod pathnorm;
pub mod search;
pub mod seeds;
pub mod text;
pub mod types;
pub mod workspace;
