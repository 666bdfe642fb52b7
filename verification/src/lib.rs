//! A hierarchical, filesystem-backed document store: tree-structured notes,
//! each addressed by a compact integer path, persisted as one file per node
//! inside nested directories that mirror the tree shape.
//!
//! This crate is the storage engine itself: path addressing and encoding,
//! the in-memory node index with its queries and mutation planning, the
//! content-hash render cache, and the commit/undo message protocol.  All
//! filesystem and external-process work is left to the surrounding
//! application, which feeds results back in as plain values.

pub mod cache;
pub mod calendar;
pub mod chars;
pub mod edit;
pub mod errors;
pub mod index;
pub mod mutate;
pub mod natural;
pub mod node;
pub mod order;
pub mod path;
pub mod search;
pub mod versioning;

pub use errors::StoreError;
pub use index::{LoadEntry, NodeIndex};
pub use node::{Header, MailAccount, Node};
pub use order::Rank;
pub use versioning::GitHistoryEntry;
pub use path::TreePath;
