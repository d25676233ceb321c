//! Audit and garbage collection for a content-addressed incremental backup store.
//!
//! The library holds the verified logic: canonical object names, the manifest tree
//! and its walk, manifest decoding on top of `jaded`, hash verification outcomes,
//! and the mark-and-sweep archival plan.
pub mod identifier;
pub mod manifest;
pub mod archive;
pub mod index;
pub mod sweep;
pub mod verify;
pub mod decode;
