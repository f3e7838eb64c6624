//! Data types and definitions.

pub mod camera;
pub mod color;
pub mod drawable;
pub mod path;
pub mod shape;
pub mod value;
pub mod weight;
