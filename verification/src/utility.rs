use vstd::prelude::*;

use crate::types::RitError;

verus! {

/// Decide whether a directory is a repository, from what the filesystem
/// reports: whether the root, its repository directory, and the object
/// database exist.
pub fn is_repo(root_exists: bool, git_exists: bool, db_exists: bool) -> (r: Result<bool, RitError>)
    ensures
        !root_exists ==> r == Err::<bool, RitError>(RitError::NotFound),
        root_exists ==> r == Ok::<bool, RitError>(git_exists && db_exists),
{
    if !root_exists {
        return Err(RitError::NotFound);
    }
    if !git_exists {
        return Ok(false);
    }
    if !db_exists {
        return Ok(false);
    }
    Ok(true)
}

} // verus!
