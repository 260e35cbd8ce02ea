//! A text tree writer: one line per file, the lines kept in a map ordered
//! by file name.

pub mod tree;
pub mod utils;
