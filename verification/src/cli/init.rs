use vstd::prelude::*;

verus! {

/// Initialize a repository.
pub struct Init {
    /// Path where to initialize a repository; the working directory when
    /// absent.
    pub path: Option<String>,
}

} // verus!
