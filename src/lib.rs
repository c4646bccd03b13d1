//! A file-tree browser core: an immutable snapshot of a directory subtree,
//! the expansion state that decides which rows are visible, and the
//! rasterizer that draws those rows into a character grid.

pub mod node;
pub mod state;
pub mod tree;
pub mod render;
pub mod snapshot;
