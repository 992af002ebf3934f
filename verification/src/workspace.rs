use vstd::prelude::*;

use crate::types::RitError;

verus! {

/// The three file kinds the snapshot format distinguishes.
#[derive(Clone, Copy, Debug, PartialEq, Eq, Structural)]
pub enum FileStat {
    Dir,
    File,
    Executable,
}

/// The workspace is responsible for the files in the working tree: all the
/// files that can be directly edited, rather than those stored under the
/// repository's own directory. Scanning the disk happens outside the
/// library; the workspace holds the already-filtered list of relative paths
/// it was handed.
pub struct Workspace {
    /// Root of the repository.
    pub root_path: String,

    /// List of all files in the repository worth snapshotting.
    pub list_files: Vec<String>,
}

impl Workspace {
    /// Create a new `Workspace` at `root_path` holding the given file list.
    pub fn new(root_path: String, list_files: Vec<String>) -> (r: Workspace)
        ensures
            r.root_path == root_path,
            r.list_files == list_files,
    {
        Workspace { root_path, list_files }
    }

    /// Return the list of files in the repository.
    /// An empty vector represents an empty repository.
    pub fn get_list_files(&self) -> (r: &Vec<String>)
        ensures
            r == &self.list_files,
    {
        &self.list_files
    }

    /// Return the root of the repository.
    pub fn get_root_path(&self) -> (r: &String)
        ensures
            r == &self.root_path,
    {
        &self.root_path
    }

    /// Classify a file from what the filesystem reports about it: whether the
    /// path exists, is a directory, is a regular file, and is executable.
    pub fn stat_file(&self, exists: bool, is_dir: bool, is_file: bool, is_exec: bool) -> (r: Result<
        FileStat,
        RitError,
    >)
        ensures
            !exists ==> r == Err::<FileStat, RitError>(RitError::NotFound),
            exists && is_dir ==> r == Ok::<FileStat, RitError>(FileStat::Dir),
            exists && !is_dir && is_file && is_exec ==> r == Ok::<FileStat, RitError>(
                FileStat::Executable,
            ),
            exists && !is_dir && is_file && !is_exec ==> r == Ok::<FileStat, RitError>(
                FileStat::File,
            ),
            exists && !is_dir && !is_file ==> r == Err::<FileStat, RitError>(RitError::IOFailure),
    {
        if !exists {
            Err(RitError::NotFound)
        } else if is_dir {
            Ok(FileStat::Dir)
        } else if is_file && is_exec {
            Ok(FileStat::Executable)
        } else if is_file {
            Ok(FileStat::File)
        } else {
            Err(RitError::IOFailure)
        }
    }
}

} // verus!
