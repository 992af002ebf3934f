use vstd::prelude::*;
use vstd::string::*;
use vstd::utf8::encode_utf8;

use crate::author::author_chars;
use crate::author::Author;
use crate::database::object::Object;
use crate::message::Message;
use crate::types::Types;

verus! {

/// The text of a commit: tree and optional parent headers, author and
/// committer lines, a blank line, then the message and a final newline.
pub open spec fn commit_chars(
    tree: Seq<char>,
    parent: Option<Seq<char>>,
    author: Author,
    msg: Seq<char>,
) -> Seq<char> {
    "tree "@ + tree + "\n"@ + (match parent {
        Some(p) => "parent "@ + p + "\n"@,
        None => Seq::<char>::empty(),
    }) + "author "@ + author_chars(author) + "\n"@ + "committer "@ + author_chars(author) + "\n"@
        + "\n"@ + msg + "\n"@
}

/// The view of an optional hash string.
pub open spec fn opt_chars(o: Option<String>) -> Option<Seq<char>> {
    match o {
        Some(s) => Some(s@),
        None => None,
    }
}

/// The `Commit` object is the commit-like wrapper over a stored tree: it
/// references the tree by hash, names an optional parent snapshot, and
/// carries the author metadata and message.
pub struct Commit {
    /// The hash of the `Tree` the `Commit` wraps.
    pub tree: String,

    /// Unique oid of the `Commit`, set once it has been stored.
    pub oid: Option<String>,

    /// Possible parent of the `Commit`.
    pub parent: Option<String>,

    /// The `Message` attached to this commit.
    pub message: Message,
}

impl Commit {
    /// Create a new `Commit`.
    pub fn new(parent: Option<String>, tree: String, message: Message) -> (r: Commit)
        ensures
            r.tree == tree,
            r.parent == parent,
            r.message == message,
            r.oid is None,
    {
        Commit { tree, oid: None, parent, message }
    }
}

impl Object for Commit {
    open spec fn obj_kind(&self) -> Types {
        Types::Commit
    }

    open spec fn data_spec(&self) -> Seq<u8> {
        encode_utf8(
            commit_chars(self.tree@, opt_chars(self.parent), self.message.author, self.message.message@),
        )
    }

    open spec fn oid_spec(&self) -> Option<Seq<char>> {
        match self.oid {
            Some(s) => Some(s@),
            None => None,
        }
    }

    open spec fn serializable(&self) -> bool {
        true
    }

    fn get_type(&self) -> (t: Types) {
        Types::Commit
    }

    fn get_data(&self) -> (d: Vec<u8>) {
        let mut s = String::from_str("tree ");
        s.append(self.tree.as_str());
        s.append("\n");
        match &self.parent {
            Some(p) => {
                s.append("parent ");
                s.append(p.as_str());
                s.append("\n");
            },
            None => (),
        }
        let author_line = self.message.author.to_display_string();
        s.append("author ");
        s.append(author_line.as_str());
        s.append("\n");
        s.append("committer ");
        s.append(author_line.as_str());
        s.append("\n");
        s.append("\n");
        s.append(self.message.message.as_str());
        s.append("\n");
        proof {
            assert(s@ =~= commit_chars(
                self.tree@,
                opt_chars(self.parent),
                self.message.author,
                self.message.message@,
            ));
        }
        s.as_str().as_bytes_vec()
    }

    fn set_oid(&mut self, hash: String) {
        self.oid = Some(hash);
    }

    fn get_oid(&self) -> (o: Option<String>) {
        match &self.oid {
            Some(s) => Some(s.clone()),
            None => None,
        }
    }
}

} // verus!
