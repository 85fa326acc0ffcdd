//! Depth-first rendering of a directory tree as a connector diagram, with
//! per-kind entry counts.

pub mod order;
pub mod render;
pub mod walk;
pub mod laws;
