//! Rendering: the evaluation engine and its resources.

pub mod renderer;
pub mod texture;
