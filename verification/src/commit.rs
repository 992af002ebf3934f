use vstd::prelude::*;
use vstd::slice::slice_to_vec;
use vstd::string::*;
use vstd::utf8::encode_utf8;

use crate::codec::oid_of;
use crate::database::blob::Blob;
use crate::database::commit::commit_chars;
use crate::database::commit::opt_chars;
use crate::database::entry::Entry;
use crate::database::object::Object;
use crate::database::tree::build_spec;
use crate::database::tree::entries_dv;
use crate::database::tree::entry_v;
use crate::database::tree::entries_payload;
use crate::database::tree::postorder_payloads;
use crate::database::tree::tree_oid_of;
use crate::database::tree::EntryV;
use crate::database::tree::Tree;
use crate::database::write_ok;
use crate::database::Database;
use crate::database::WriteRequest;
use crate::lockfile::LockCommit;
use crate::message::Message;
use crate::refs::head_path_chars;
use crate::refs::Refs;
use crate::types::RitError;
use crate::types::Types;
use crate::utility::is_repo;
use crate::workspace::FileStat;

verus! {

/// One file of the working tree, as the workspace scan hands it over: its
/// relative path, its bytes, and its kind.
pub struct CommitFile {
    pub path: String,

    pub data: Vec<u8>,

    pub stat: FileStat,
}

/// The tree entry a committed file reduces to: its path, the id its blob is
/// stored under, and its kind.
pub open spec fn file_entry_v(f: CommitFile) -> EntryV {
    EntryV { name: f.path@, oid: oid_of(Types::Blob, f.data@), stat: f.stat }
}

pub open spec fn files_entries(s: Seq<CommitFile>) -> Seq<EntryV> {
    Seq::new(s.len(), |i: int| file_entry_v(s[i]))
}

/// Everything a snapshot asks of the filesystem: the object writes in
/// dependency order (blobs, then trees bottom-up, then the commit), and the
/// pointer advance, to run under the lock's publish step.
pub struct CommitPlan {
    /// The new snapshot's hash.
    pub oid: String,

    /// The object writes, children always before the parents whose bytes
    /// reference them.
    pub writes: Vec<WriteRequest>,

    /// The locked write and rename that advances HEAD.
    pub head: LockCommit,
}

/// Create a snapshot of the given files and plan everything that must reach
/// the disk: store each file's blob, build the tree and store it bottom-up,
/// store the commit wrapper, and advance HEAD under the lock.
///
/// `root_exists`, `git_exists` and `db_exists` report what the filesystem
/// says of the repository; `lock_unavailable` reports whether the HEAD lock
/// file is already taken; `parent` is what HEAD held before.
pub fn make_commit(
    root_path: &String,
    root_exists: bool,
    git_exists: bool,
    db_exists: bool,
    files: Vec<CommitFile>,
    parent: Option<String>,
    message: Message,
    lock_unavailable: bool,
) -> (r: Result<CommitPlan, RitError>)
    ensures
        !root_exists ==> r == Err::<CommitPlan, RitError>(RitError::NotFound),
        root_exists && !(git_exists && db_exists) ==> r == Err::<CommitPlan, RitError>(
            RitError::NotFound,
        ),
        r == Err::<CommitPlan, RitError>(RitError::InvalidInput) ==> build_spec(
            files_entries(files@),
        ) is None,
        r == Err::<CommitPlan, RitError>(RitError::LockContention) ==> lock_unavailable,
        root_exists && git_exists && db_exists && !lock_unavailable && build_spec(
            files_entries(files@),
        ) is Some ==> r is Ok,
        r matches Ok(plan) ==> ({
            let db = root_path@ + "/.git/objects"@;
            let es = build_spec(files_entries(files@))->Some_0;
            let tree_pls = postorder_payloads(es) + seq![entries_payload(es)];
            let commit_bytes = encode_utf8(
                commit_chars(tree_oid_of(es), opt_chars(parent), message.author, message.message@),
            );
            &&& !lock_unavailable
            &&& root_exists && git_exists && db_exists
            &&& build_spec(files_entries(files@)) is Some
            &&& plan.oid@ == oid_of(Types::Commit, commit_bytes)
            &&& plan.writes@.len() == files@.len() + tree_pls.len() + 1
            &&& (forall|k: int|
                0 <= k < files@.len() ==> write_ok(
                    plan.writes@[k],
                    db,
                    Types::Blob,
                    files@[k].data@,
                ))
            &&& (forall|k: int|
                0 <= k < tree_pls.len() ==> write_ok(
                    plan.writes@[files@.len() + k],
                    db,
                    Types::Tree,
                    tree_pls[k],
                ))
            &&& write_ok(
                plan.writes@[plan.writes@.len() - 1],
                db,
                Types::Commit,
                commit_bytes,
            )
            &&& plan.head.file_path@ == head_path_chars(root_path@ + "/.git"@)
            &&& plan.head.lock_path@ == head_path_chars(root_path@ + "/.git"@) + ".lock"@
            &&& plan.head.contents@ == encode_utf8(plan.oid@ + "\n"@)
        }),
{
    match is_repo(root_exists, git_exists, db_exists) {
        Err(e) => {
            return Err(e);
        },
        Ok(false) => {
            return Err(RitError::NotFound);
        },
        Ok(true) => (),
    }
    let mut git_path = root_path.clone();
    git_path.append("/.git");
    let mut db_path = root_path.clone();
    db_path.append("/.git/objects");
    let database = match Database::new(db_path, db_exists) {
        Ok(d) => d,
        Err(_) => {
            return Err(RitError::NotFound);
        },
    };
    let refs = match Refs::new(git_path, git_exists) {
        Ok(re) => re,
        Err(_) => {
            return Err(RitError::NotFound);
        },
    };
    proof {
        assert(database.db_path@ == root_path@ + "/.git/objects"@);
    }

    // store one blob per file and collect the tree entries
    let mut writes: Vec<WriteRequest> = Vec::new();
    let mut entries: Vec<Entry> = Vec::new();
    let mut i: usize = 0;
    while i < files.len()
        invariant
            i <= files@.len(),
            root_exists && git_exists && db_exists,
            database.db_path@ == root_path@ + "/.git/objects"@,
            writes@.len() == i,
            entries@.len() == i,
            forall|k: int|
                0 <= k < i ==> write_ok(
                    #[trigger] writes@[k],
                    root_path@ + "/.git/objects"@,
                    Types::Blob,
                    files@[k].data@,
                ),
            forall|k: int|
                0 <= k < i ==> #[trigger] entries_dv(entries@)[k] == file_entry_v(files@[k]),
            forall|k: int|
                0 <= k < i ==> crate::codec::is_oid_chars(#[trigger] entries@[k].oid@),
        decreases files@.len() - i,
    {
        let f = &files[i];
        let mut blob = Blob::new(slice_to_vec(f.data.as_slice()));
        let req = match database.store(&mut blob) {
            Ok(req) => req,
            Err(_) => unreached(),
        };
        writes.push(req);
        let oid = match blob.get_oid() {
            Some(s) => s,
            None => unreached(),
        };
        let entry = Entry::new(f.path.clone(), oid, f.stat);
        let ghost entries0 = entries@;
        entries.push(entry);
        proof {
            assert(entry_v(entry) == file_entry_v(files@[i as int]));
            assert forall|k: int|
                0 <= k < i + 1 implies #[trigger] entries_dv(entries@)[k] == file_entry_v(
                files@[k],
            ) by {
                if k < i {
                    assert(entries@[k] == entries0[k]);
                    assert(entries_dv(entries0)[k] == file_entry_v(files@[k]));
                }
            }
        }
        i += 1;
    }
    proof {
        assert(entries_dv(entries@) =~= files_entries(files@));
    }

    // build the tree and store it bottom-up
    let root = match Tree::build(entries) {
        Ok(t) => t,
        Err(_) => {
            return Err(RitError::InvalidInput);
        },
    };
    let ghost blob_writes = writes@;
    let stored_root = match root.traverse(&database, &mut writes) {
        Ok(t) => t,
        Err(_) => unreached(),
    };
    let ghost tree_writes = writes@;
    let tree_oid = match &stored_root.oid {
        Some(s) => s.clone(),
        None => unreached(),
    };

    // wrap the tree in a commit and store it
    let mut commit_obj = crate::database::commit::Commit::new(parent, tree_oid, message);
    let creq = match database.store(&mut commit_obj) {
        Ok(req) => req,
        Err(_) => unreached(),
    };
    writes.push(creq);
    let commit_oid = match commit_obj.get_oid() {
        Some(s) => s,
        None => unreached(),
    };

    // advance HEAD under the lock
    let head = match refs.update_head(commit_oid.clone(), lock_unavailable) {
        Ok(c) => c,
        Err(e) => {
            return Err(e);
        },
    };
    proof {
        let db = root_path@ + "/.git/objects"@;
        let es = build_spec(files_entries(files@))->Some_0;
        let tree_pls = postorder_payloads(es) + seq![entries_payload(es)];
        assert(writes@ == tree_writes.push(creq));
        assert(writes@.len() == files@.len() + tree_pls.len() + 1);
        assert forall|k: int| 0 <= k < files@.len() implies write_ok(
            writes@[k],
            db,
            Types::Blob,
            files@[k].data@,
        ) by {
            assert(tree_writes.subrange(0, blob_writes.len() as int)[k] == tree_writes[k]);
            assert(writes@[k] == tree_writes[k]);
        }
        assert forall|k: int| 0 <= k < tree_pls.len() implies write_ok(
            writes@[files@.len() + k],
            db,
            Types::Tree,
            tree_pls[k],
        ) by {
            assert(writes@[files@.len() + k] == tree_writes[blob_writes.len() + k]);
        }
        assert(writes@[writes@.len() - 1] == creq);
    }
    Ok(CommitPlan { oid: commit_oid, writes, head })
}

} // verus!
