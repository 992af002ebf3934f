use rit::lockfile::Lockfile;
use rit::refs::Refs;
use rit::types::RitError;

#[test]
fn lock_paths_sit_beside_the_file() {
    let lf = Lockfile::new("repo/.git/HEAD".to_string());
    assert_eq!(lf.file_path, "repo/.git/HEAD");
    assert_eq!(lf.lock_path, "repo/.git/HEAD.lock");
}

#[test]
fn lock_exclusivity() {
    // one bool stands for the lock file on disk
    let mut lock_file_on_disk = false;

    // first holder acquires
    let mut holder1 = Lockfile::new("HEAD".to_string());
    assert_eq!(holder1.hold_for_update(lock_file_on_disk), Ok(false));
    lock_file_on_disk = true;

    // a distinct holder observes the lock file and must wait
    let mut holder2 = Lockfile::new("HEAD".to_string());
    assert_eq!(holder2.hold_for_update(lock_file_on_disk), Ok(true));

    // re-acquiring from the same holder is a quiet no-op
    assert_eq!(holder1.hold_for_update(lock_file_on_disk), Ok(false));

    // commit renames the lock file away
    holder1.write("abc\n".to_string()).unwrap();
    let commit = holder1.commit().unwrap();
    assert_eq!(commit.lock_path, "HEAD.lock");
    assert_eq!(commit.file_path, "HEAD");
    lock_file_on_disk = false;

    // a fresh acquire succeeds again
    let mut holder3 = Lockfile::new("HEAD".to_string());
    assert_eq!(holder3.hold_for_update(lock_file_on_disk), Ok(false));
}

#[test]
fn write_and_commit_demand_the_lock() {
    let mut lf = Lockfile::new("HEAD".to_string());
    assert_eq!(lf.write("x".to_string()), Err(RitError::NotHeld));
    assert_eq!(lf.commit().err(), Some(RitError::NotHeld));
    lf.hold_for_update(false).unwrap();
    assert_eq!(lf.write("x".to_string()), Ok(()));
    let c = lf.commit().unwrap();
    assert_eq!(c.contents, b"x".to_vec());
    // the lock is released; writing again demands re-acquiring
    assert_eq!(lf.write("y".to_string()), Err(RitError::NotHeld));
}

#[test]
fn pointer_advance() {
    let refs = Refs::new("repo/.git".to_string(), true).unwrap();

    // an empty repository has no snapshot yet
    assert_eq!(refs.read_head(None), Ok(None));

    // the first update writes the hash and its delimiter
    let c1 = refs.update_head("abc123".to_string(), false).unwrap();
    assert_eq!(c1.file_path, "repo/.git/HEAD");
    assert_eq!(c1.lock_path, "repo/.git/HEAD.lock");
    assert_eq!(c1.contents, b"abc123\n".to_vec());
    let head_file = c1.contents.clone();
    assert_eq!(refs.read_head(Some(head_file)), Ok(Some("abc123".to_string())));

    // a second update overwrites with no trace of the prior value
    let c2 = refs.update_head("def456".to_string(), false).unwrap();
    assert_eq!(c2.contents, b"def456\n".to_vec());
    assert_eq!(refs.read_head(Some(c2.contents.clone())), Ok(Some("def456".to_string())));
}

#[test]
fn update_head_reports_contention() {
    let refs = Refs::new("repo/.git".to_string(), true).unwrap();
    let r = refs.update_head("abc123".to_string(), true);
    assert_eq!(r.err(), Some(RitError::LockContention));
}

#[test]
fn read_head_rejects_invalid_utf8() {
    let refs = Refs::new("repo/.git".to_string(), true).unwrap();
    let r = refs.read_head(Some(vec![0xff, 0xfe, 0x0a]));
    assert_eq!(r.err(), Some(RitError::Corrupt));
}

#[test]
fn refs_new_requires_the_directory() {
    assert_eq!(
        Refs::new("repo/.git".to_string(), false).err(),
        Some(RitError::NotFound)
    );
}
