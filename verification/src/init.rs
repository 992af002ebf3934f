use vstd::prelude::*;
use vstd::string::*;

use crate::types::RitError;
use crate::utility::is_repo;

verus! {

/// The directories an initialization must create.
pub struct InitPlan {
    pub dirs: Vec<String>,
}

/// Plan the directory structure of a fresh repository under `path`:
/// refuses a path that already is a repository, and otherwise names the
/// object database and refs directories to create.
pub fn create_repo(path: String, root_exists: bool, git_exists: bool, db_exists: bool) -> (r:
    Result<InitPlan, RitError>)
    ensures
        !root_exists ==> r == Err::<InitPlan, RitError>(RitError::NotFound),
        root_exists && git_exists && db_exists ==> r == Err::<InitPlan, RitError>(
            RitError::InvalidInput,
        ),
        root_exists && !(git_exists && db_exists) ==> (r matches Ok(p) && p.dirs@.len() == 2
            && p.dirs@[0]@ == path@ + "/.git/objects"@ && p.dirs@[1]@ == path@ + "/.git/refs"@),
{
    match is_repo(root_exists, git_exists, db_exists) {
        Err(e) => Err(e),
        Ok(true) => Err(RitError::InvalidInput),
        Ok(false) => {
            let mut objects = path.clone();
            objects.append("/.git/objects");
            let mut refs_dir = path.clone();
            refs_dir.append("/.git/refs");
            let mut dirs: Vec<String> = Vec::new();
            dirs.push(objects);
            dirs.push(refs_dir);
            Ok(InitPlan { dirs })
        },
    }
}

} // verus!
