use vstd::prelude::*;

verus! {

/// Print some pretty information about a stored object.
pub struct CatFile {
    /// Path to the stored object.
    pub path: String,
}

} // verus!
