use vstd::prelude::*;
use vstd::string::*;
use vstd::utf8::encode_utf8;

use crate::types::RitError;

verus! {

/// The atomic publish step of a committed lock: the caller renames
/// `lock_path` onto `file_path` after making sure the lock file holds
/// exactly `contents`.
pub struct LockCommit {
    pub lock_path: String,

    pub file_path: String,

    pub contents: Vec<u8>,
}

/// A `Lockfile` prevents simultaneous access to a file.
///
/// The lock is a sidecar file whose mere existence signals "in use": the
/// caller creates it exclusively when told to acquire, and renames it onto
/// the protected file on commit. The state machine here decides; the caller
/// reports what the filesystem said.
pub struct Lockfile {
    /// The file that is locked.
    pub file_path: String,

    /// The file-lock, beside the protected file with `.lock` appended.
    pub lock_path: String,

    /// Whether this instance holds the lock.
    pub held: bool,

    /// What has been written into the held lock file so far.
    pub buffer: Vec<u8>,
}

impl Lockfile {
    /// Create a new `Lockfile` guarding `path`.
    pub fn new(path: String) -> (r: Lockfile)
        ensures
            r.file_path == path,
            r.lock_path@ == path@ + ".lock"@,
            !r.held,
            r.buffer@ == Seq::<u8>::empty(),
    {
        let mut lock_path = path.clone();
        lock_path.append(".lock");
        Lockfile { file_path: path, lock_path, held: false, buffer: Vec::new() }
    }

    /// Try acquiring the lock.
    ///
    /// `lock_unavailable` reports what the filesystem said: the lock file
    /// already exists, so it is held by someone else. Returns `Ok(false)`
    /// when the lock is ours (we already held it, or we acquire it now, and
    /// the caller must then create the lock file exclusively), `Ok(true)`
    /// when another holder owns it and we must wait.
    pub fn hold_for_update(&mut self, lock_unavailable: bool) -> (r: Result<bool, RitError>)
        ensures
            old(self).held ==> r == Ok::<bool, RitError>(false) && *final(self) == *old(self),
            !old(self).held && lock_unavailable ==> r == Ok::<bool, RitError>(true) && *final(self)
                == *old(self),
            !old(self).held && !lock_unavailable ==> r == Ok::<bool, RitError>(false)
                && *final(self) == (Lockfile { held: true, ..*old(self) }),
    {
        if self.held {
            return Ok(false);
        }
        if lock_unavailable {
            return Ok(true);
        }
        self.held = true;
        Ok(false)
    }

    /// Write the data into the held lock file.
    /// Fails with `NotHeld` if this instance does not hold the lock.
    pub fn write(&mut self, s: String) -> (r: Result<(), RitError>)
        ensures
            !old(self).held ==> r == Err::<(), RitError>(RitError::NotHeld)
                && *final(self) == *old(self),
            old(self).held ==> r == Ok::<(), RitError>(()) && final(self).held
                && final(self).file_path == old(self).file_path
                && final(self).lock_path == old(self).lock_path
                && final(self).buffer@ == old(self).buffer@ + encode_utf8(s@),
    {
        self.raise_on_stale_lock()?;
        let mut bytes = s.as_str().as_bytes_vec();
        self.buffer.append(&mut bytes);
        Ok(())
    }

    /// Commit the written changes to the protected file: hand back the
    /// rename that publishes atomically, and release the lock.
    /// Fails with `NotHeld` if this instance does not hold the lock.
    pub fn commit(&mut self) -> (r: Result<LockCommit, RitError>)
        ensures
            !old(self).held ==> r == Err::<LockCommit, RitError>(RitError::NotHeld)
                && *final(self) == *old(self),
            old(self).held ==> (r matches Ok(c) && c.lock_path == old(self).lock_path
                && c.file_path == old(self).file_path && c.contents@ == old(self).buffer@
                && !final(self).held && final(self).buffer@ == Seq::<u8>::empty()
                && final(self).file_path == old(self).file_path
                && final(self).lock_path == old(self).lock_path),
    {
        self.raise_on_stale_lock()?;
        let contents = vstd::slice::slice_to_vec(self.buffer.as_slice());
        self.buffer.clear();
        self.held = false;
        Ok(LockCommit {
            lock_path: self.lock_path.clone(),
            file_path: self.file_path.clone(),
            contents,
        })
    }

    /// Raise an error if we do not have the lock.
    fn raise_on_stale_lock(&self) -> (r: Result<(), RitError>)
        ensures
            self.held ==> r == Ok::<(), RitError>(()),
            !self.held ==> r == Err::<(), RitError>(RitError::NotHeld),
    {
        if self.held {
            Ok(())
        } else {
            Err(RitError::NotHeld)
        }
    }
}

} // verus!
