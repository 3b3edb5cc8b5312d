//! The data a tree drawing is read into: one entry per line, and the nodes
//! that hold the entries together.

pub mod file_item;
pub mod node;

pub use file_item::{FileItem, FileItemError, FileItemView};
pub use node::{Node, NodeView, Tree};
