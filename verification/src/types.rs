use vstd::prelude::*;

verus! {

/// The kinds of object that the database stores.
#[derive(Clone, Copy, Debug, PartialEq, Eq, Structural)]
pub enum Types {
    Blob,
    Tree,
    Commit,
}

/// Every failure the library can surface.
///
/// `NotFound`: an expected file or pointer is absent (often benign, e.g. an
/// empty HEAD before the first snapshot).
/// `Corrupt`: stored bytes do not match the canonical object grammar.
/// `IOFailure`: a filesystem or compression step failed.
/// `LockContention`: another holder owns the update lock.
/// `InvalidInput`: the caller handed in data that violates an input contract,
/// such as a name collision while building a tree.
/// `NotHeld`: a lock operation was attempted without holding the lock.
#[derive(Clone, Copy, Debug, PartialEq, Eq, Structural)]
pub enum RitError {
    NotFound,
    Corrupt,
    IOFailure,
    LockContention,
    InvalidInput,
    NotHeld,
}

impl Types {
    /// The kind tag that appears in an object's canonical header.
    pub open spec fn chars(self) -> Seq<char> {
        match self {
            Types::Blob => "blob"@,
            Types::Tree => "tree"@,
            Types::Commit => "commit"@,
        }
    }

    pub fn as_string(&self) -> (r: String)
        ensures
            r@ == self.chars(),
    {
        match self {
            Types::Blob => String::from_str("blob"),
            Types::Tree => String::from_str("tree"),
            Types::Commit => String::from_str("commit"),
        }
    }

    pub fn as_type(s: String) -> (r: Types)
        requires
            s@ == "blob"@ || s@ == "tree"@ || s@ == "commit"@,
        ensures
            r.chars() == s@,
    {
        if s == String::from_str("blob") {
            Types::Blob
        } else if s == String::from_str("tree") {
            Types::Tree
        } else {
            Types::Commit
        }
    }
}

} // verus!
