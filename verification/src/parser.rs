//! The commands of the command line, as plain values.

use vstd::prelude::*;

verus! {

/// A command and its arguments.
#[derive(Clone, PartialEq, Eq, PartialOrd, Ord, Debug)]
pub enum GitCommand {
    /// Initialize a git repository.
    Init,
    /// Print a stored object; `pretty_print` asks for its contents.
    CatFile { filepath: String, pretty_print: bool },
    /// Hash a file; `pretty_print` asks to write it into the object database.
    HashObject { filepath: String, pretty_print: bool },
    /// List the entries of a tree.
    LSTree { tree_path: String, name_only: Option<String> },
    /// Write the working directory as a tree.
    WriteTree { tree_path: Option<String> },
    Unknown,
}

/// The command line: one command.
#[derive(Debug)]
pub struct Git {
    pub command: GitCommand,
}

} // verus!
