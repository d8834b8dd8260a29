//! Parses a small markdown dialect into one ordered tree per block and
//! compiles those trees to HTML.
//!
//! - `tree`: an arena-backed ordered tree with breadth- and depth-first walks.
//! - `tokens`: the block and inline elements that trees hold.
//! - `scan`, `inline`, `parser`: recognisers over the source characters and
//!   the breadth-first growth of each block's tree.
//! - `compilation_targets::to_html`: the depth-first walk that writes markup.
//! - `tree_reader`, `tree_test`: trees whose nodes own their children.

pub mod tree;
pub mod tokens;
pub mod scan;
pub mod inline;
pub mod parser;
pub mod compilation_targets;
pub mod tree_test;
pub mod tree_reader;
