pub mod document;
pub mod encoding;
pub mod format;
pub mod laws;
pub mod model;
pub mod strings;
pub mod text;

pub use document::{Dockerfile, OutOfBounds};
