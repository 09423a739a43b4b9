//! An arena-backed tree whose nodes carry caller-supplied payloads.
//!
//! Nodes live in a vector of slots and are addressed by their slot index.
//! Each node records its parent, the ordered list of its children (when it
//! may have children) and a list of data values (when it may hold data).
//! A vacated slot is reused by the next insertion, lowest index first.
pub mod error;
pub mod laws;
pub mod lemmas;
pub mod model;
pub mod tree;

pub use crate::error::TreeError;
pub use crate::tree::{Tree, ALLOW_CHILDREN, ALLOW_DATA};
