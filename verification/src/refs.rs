use vstd::prelude::*;
use vstd::string::*;
use vstd::utf8::decode_utf8;
use vstd::utf8::encode_utf8;
use vstd::utf8::valid_utf8;

use crate::codec::lemma_encode_utf8_concat;
use crate::lockfile::LockCommit;
use crate::lockfile::Lockfile;
use crate::types::RitError;

verus! {

/// The pointer file's path under the repository's own directory.
pub open spec fn head_path_chars(pathname: Seq<char>) -> Seq<char> {
    pathname + "/HEAD"@
}

/// The stored hash without its trailing record delimiter.
pub open spec fn strip_newline(s: Seq<char>) -> Seq<char> {
    if s.len() > 0 && s[s.len() - 1] == '\n' {
        s.drop_last()
    } else {
        s
    }
}

/// Relies on `String::from_utf8`: it succeeds exactly on valid UTF-8 input
/// and yields its decoding.
#[verifier::external_body]
fn string_from_utf8(bytes: Vec<u8>) -> (r: Option<String>)
    ensures
        match r {
            Some(s) => valid_utf8(bytes@) && s@ == decode_utf8(bytes@),
            None => !valid_utf8(bytes@),
        },
{
    String::from_utf8(bytes).ok()
}

/// `Refs` manages the pointer to the latest snapshot: a single file holding
/// its hash, advanced only under the scoped lock.
pub struct Refs {
    /// Points to the repository's own directory.
    pub pathname: String,
}

impl Refs {
    /// Create a new `Refs` handle; `present` reports whether the directory
    /// it manages exists on disk.
    pub fn new(pathname: String, present: bool) -> (r: Result<Refs, RitError>)
        ensures
            present ==> (r matches Ok(re) && re.pathname == pathname),
            !present ==> r == Err::<Refs, RitError>(RitError::NotFound),
    {
        if !present {
            return Err(RitError::NotFound);
        }
        Ok(Refs { pathname })
    }

    /// Get the path to HEAD.
    fn head_path(&self) -> (r: String)
        ensures
            r@ == head_path_chars(self.pathname@),
    {
        let mut p = self.pathname.clone();
        p.append("/HEAD");
        p
    }

    /// Update HEAD to point at a new snapshot: acquire the lock on the
    /// pointer path, write the hash and its newline delimiter, and commit.
    ///
    /// `lock_unavailable` reports what the filesystem said of the lock file.
    /// Never overwrites silently: when another holder owns the lock this
    /// fails with `LockContention` and changes nothing.
    pub fn update_head(&self, oid: String, lock_unavailable: bool) -> (r: Result<
        LockCommit,
        RitError,
    >)
        ensures
            lock_unavailable ==> r == Err::<LockCommit, RitError>(RitError::LockContention),
            !lock_unavailable ==> (r matches Ok(c) && c.file_path@ == head_path_chars(
                self.pathname@,
            ) && c.lock_path@ == head_path_chars(self.pathname@) + ".lock"@ && c.contents@
                == encode_utf8(oid@ + "\n"@)),
    {
        let ghost oid_view = oid@;
        let mut lockfile = Lockfile::new(self.head_path());
        let wait = match lockfile.hold_for_update(lock_unavailable) {
            Ok(w) => w,
            Err(_) => {
                return Err(RitError::IOFailure);
            },
        };
        if wait {
            return Err(RitError::LockContention);
        }
        match lockfile.write(oid) {
            Ok(_) => (),
            Err(_) => {
                return Err(RitError::NotHeld);
            },
        }
        match lockfile.write(String::from_str("\n")) {
            Ok(_) => (),
            Err(_) => {
                return Err(RitError::NotHeld);
            },
        }
        match lockfile.commit() {
            Ok(c) => {
                proof {
                    lemma_encode_utf8_concat(oid_view, "\n"@);
                    assert(c.contents@ =~= encode_utf8(oid_view + "\n"@));
                }
                Ok(c)
            },
            Err(_) => Err(RitError::NotHeld),
        }
    }

    /// Read the HEAD file if it exists and return the stored hash, trimmed
    /// of its trailing delimiter. `contents` is the pointer file's bytes, or
    /// `None` when the file does not exist yet: an empty repository, not an
    /// error.
    pub fn read_head(&self, contents: Option<Vec<u8>>) -> (r: Result<Option<String>, RitError>)
        ensures
            contents is None ==> r == Ok::<Option<String>, RitError>(None),
            contents matches Some(b) ==> ((valid_utf8(b@) ==> (r matches Ok(o) && o matches Some(s)
                && s@ == strip_newline(decode_utf8(b@)))) && (!valid_utf8(b@) ==> r == Err::<
                Option<String>,
                RitError,
            >(RitError::Corrupt))),
    {
        let bytes = match contents {
            None => {
                return Ok(None);
            },
            Some(b) => b,
        };
        let s = match string_from_utf8(bytes) {
            None => {
                return Err(RitError::Corrupt);
            },
            Some(s) => s,
        };
        let n = s.as_str().unicode_len();
        if n > 0 && s.as_str().get_char(n - 1) == '\n' {
            let trimmed = s.as_str().substring_char(0, n - 1).to_owned();
            proof {
                assert(trimmed@ =~= strip_newline(s@));
            }
            Ok(Some(trimmed))
        } else {
            proof {
                assert(s@ == strip_newline(s@));
            }
            Ok(Some(s))
        }
    }
}

} // verus!
