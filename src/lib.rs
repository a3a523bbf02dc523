//! Guest memory snapshots: describing a guest memory layout, dumping its
//! contents in full or page by page from a dirty bitmap, and composing a
//! restored memory image out of a base layer, an overlay layer and a
//! working-set layer.

pub mod error;
pub mod state;
pub mod dump;
pub mod restore;
pub mod page;
pub mod laws;
pub mod working_set;
