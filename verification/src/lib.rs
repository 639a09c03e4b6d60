//! A content-addressed object store for build artifacts.
//!
//! The store keeps immutable objects (blobs or directory trees) under a
//! deterministic content identity, and mutable named references that point
//! at identities.  Object creation goes through a staging/publish protocol
//! so that a partially written object is never visible under its final
//! identity.

pub mod digest;
pub mod error;
pub mod identity;
pub mod object;
pub mod store;
