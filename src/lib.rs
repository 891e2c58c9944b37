//! A virtual filesystem: one path, metadata and listing interface over
//! in-memory trees, overlays of two trees in which the upper one shadows the
//! lower, and composite namespaces that route `/<mount>/...` to named
//! members, with depth-first walks, glob filtering and tree copies on top.
pub mod error;
pub mod path;
pub mod memory;
pub mod overlay;
pub mod composite;
pub mod boxed;
pub mod types;
pub mod laws;
pub mod glob;
pub mod walk;
pub mod physical;
pub mod copy;
pub mod resolve;
