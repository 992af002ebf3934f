use vstd::prelude::*;

use crate::codec::is_oid_chars;
use crate::workspace::FileStat;

verus! {

/// The mode string an entry of the given kind serializes under.
pub open spec fn mode_chars(stat: FileStat) -> Seq<char> {
    match stat {
        FileStat::File => "100644"@,
        FileStat::Executable => "100755"@,
        FileStat::Dir => "040000"@,
    }
}

/// `Entry` serves to package up what a `Tree` needs to know about its
/// contents: the file's path, the object id its blob was stored under, and
/// its file kind.
pub struct Entry {
    /// Name is the path to the entry.
    pub name: String,

    /// Object id (hash), forty lowercase hex digits.
    pub oid: String,

    /// File kind, which fixes the serialized mode string.
    pub stat: FileStat,
}

impl Entry {
    /// Create a new `Entry`.
    pub fn new(name: String, oid: String, stat: FileStat) -> (r: Entry)
        requires
            is_oid_chars(oid@),
        ensures
            r.name == name,
            r.oid == oid,
            r.stat == stat,
    {
        Entry { name, oid, stat }
    }

    /// Get the name of the `Entry`.
    pub fn get_name(&self) -> (r: String)
        ensures
            r == self.name,
    {
        self.name.clone()
    }

    /// Get the oid of the `Entry`.
    pub fn get_oid(&self) -> (r: String)
        ensures
            r == self.oid,
    {
        self.oid.clone()
    }

    /// Get the file mode.
    pub fn get_mode(&self) -> (r: String)
        ensures
            r@ == mode_chars(self.stat),
    {
        match self.stat {
            FileStat::File => String::from_str("100644"),
            FileStat::Executable => String::from_str("100755"),
            FileStat::Dir => String::from_str("040000"),
        }
    }

    /// An exact duplicate of this entry.
    pub fn duplicate(&self) -> (r: Entry)
        ensures
            r == *self,
    {
        Entry { name: self.name.clone(), oid: self.oid.clone(), stat: self.stat }
    }
}

} // verus!
