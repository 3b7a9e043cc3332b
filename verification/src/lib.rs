//! Text-storage core of a terminal editor: a persistent chunk tree with
//! explicit gaps, a piece-table text buffer with integrated line tracking,
//! and a viewport-bounded TextMate highlighter.

pub mod chunk_cells;
pub mod chunk_shape;
pub mod chunk_tree;
pub mod line_index;
pub mod lines;
pub mod piece_tree;
pub mod primitives;
mod sharing;
pub mod strings;
pub mod text_buffer;
pub mod virtual_file;
pub mod word_navigation;
