//! A small git implementation: the object formats, hashing and tree
//! handling of a git clone, proved with Verus.

pub mod backup_files;
pub mod codec;
pub mod entry;
pub mod error;
pub mod git_object_utils;
pub mod order;
pub mod parser;
pub mod text;
pub mod utils;
