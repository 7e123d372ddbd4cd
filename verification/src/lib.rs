//! A key-value store that keeps each mapping in two files under a root directory.
//!
//! The verified part of the store decides everything that does not touch the
//! disk: where the files of a key live, which file-system steps an operation
//! takes for what it observed, how the mapping count changes, and how many
//! mappings an existing directory already holds.

pub mod digest;
pub mod paths;
pub mod disk;
pub mod store;
pub mod plans;
pub mod laws;

pub use store::{EntryPaths, KVStore, StoreError};
pub use disk::FsOp;
