//! One line of a text tree: `<mode> blob <hash>\t<name>`.

use vstd::prelude::*;
use vstd::string::*;

verus! {

/// A file's line in a text tree.
pub struct Tree {
    pub mode: String,
    pub name: String,
    pub hash: String,
}

/// `<mode> blob <hash>\t<name>`.
pub open spec fn tree_text(mode: Seq<char>, name: Seq<char>, hash: Seq<char>) -> Seq<char> {
    mode + seq![' ', 'b', 'l', 'o', 'b', ' '] + hash + seq!['\t'] + name
}

/// The line as an object entry: the line, a space, the hash again and a
/// NUL.
pub open spec fn tree_object_text(mode: Seq<char>, name: Seq<char>, hash: Seq<char>) -> Seq<char> {
    tree_text(mode, name, hash) + seq![' '] + hash + seq!['\0']
}

impl Tree {
    pub fn new(mode: String, name: String, hash: String) -> (t: Self)
        ensures
            t.mode@ == mode@,
            t.name@ == name@,
            t.hash@ == hash@,
    {
        Self { mode, name, hash }
    }

    /// `<mode> blob <hash>\t<name>`, as the line is displayed.
    pub fn to_string(&self) -> (s: String)
        ensures
            s@ == tree_text(self.mode@, self.name@, self.hash@),
    {
        let mut s = String::new();
        s.append(self.mode.as_str());
        proof {
            reveal_strlit(" blob ");
            reveal_strlit("\t");
        }
        s.append(" blob ");
        s.append(self.hash.as_str());
        s.append("\t");
        s.append(self.name.as_str());
        assert(s@ =~= tree_text(self.mode@, self.name@, self.hash@));
        s
    }

    /// The line, a space, the hash and a NUL.
    pub fn to_tree_object_string(&self) -> (s: String)
        ensures
            s@ == tree_object_text(self.mode@, self.name@, self.hash@),
    {
        let mut s = self.to_string();
        proof {
            reveal_strlit(" ");
            reveal_strlit("\0");
        }
        s.append(" ");
        s.append(self.hash.as_str());
        s.append("\0");
        assert(s@ =~= tree_object_text(self.mode@, self.name@, self.hash@));
        s
    }
}

} // verus!
