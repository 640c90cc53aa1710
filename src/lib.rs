//! Line-oriented substring search over one file's bytes and over the direct
//! children of a directory.

pub mod error;
pub mod text;
pub mod index;
pub mod directory;
pub mod render;

