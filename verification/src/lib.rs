//! A personal media library core: a content-addressable file store with
//! derived thumbnail renditions, and a relational metadata layer that keeps
//! assets, tags and their associations consistent.
//!
//! The crate models the state that the operations act on (the file tree and
//! the metadata tables) so that the identity, uniqueness and cascade rules
//! are verified; platform input/output is layered on top by callers.

pub mod arith;
pub mod clipboard;
pub mod content;
pub mod error;
pub mod export;
pub mod ingest;
pub mod metadata;
pub mod paths;
pub mod text;
pub mod thumbs;
pub mod timestamp;
