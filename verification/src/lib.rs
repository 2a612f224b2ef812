//! A mutable text-buffer engine for a line-oriented editor: document content
//! lives in a rope, edits are addressed by (row, column), and a side index
//! over line lengths answers longest-line queries without rescanning the
//! document.

pub mod buffer;
pub mod cursor;
pub mod rope;
mod seed;
pub mod selection;
pub mod text;
