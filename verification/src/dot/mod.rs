//! Vertices written in the dot language.
pub mod vertex;
