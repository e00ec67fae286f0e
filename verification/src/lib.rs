//! A mutable virtual byte buffer backed by a pluggable persistence layer,
//! fronted by a read cache, and traversable by position-tracking cursors
//! that stay coherent across concurrent edits via a versioned edit log.

pub mod edit;
pub mod glob_match;
pub mod cache;
pub mod persistence;
pub mod regex_replace;
pub mod virtual_buffer;

pub use cache::Cache;
pub use edit::{Edit, EditKind};
pub use persistence::{MemStore, PersistenceLayer, StoreError};
pub use glob_match::{filename_glob_matches, is_glob_pattern};
pub use regex_replace::{build_regex, collect_regex_matches, expand_replacement, normalize_replacement, ReplaceMatch};
pub use virtual_buffer::{ByteIterator, VirtualBuffer};
