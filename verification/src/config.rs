//! The wrapper's configuration description and the artifacts rendered from it.

pub mod render;
pub mod schema;
