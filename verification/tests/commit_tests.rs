use rit::cat_file::decode_stored_object;
use rit::cli;
use rit::commit::{make_commit, CommitFile};
use rit::init::create_repo;
use rit::message::Message;
use rit::types::{RitError, Types};
use rit::utility::is_repo;
use rit::workspace::{FileStat, Workspace};

fn msg() -> Message {
    Message::from_commit(
        "Ada".to_string(),
        "ada@example.org".to_string(),
        1700000000,
        "first snapshot".to_string(),
    )
}

fn file(path: &str, data: &[u8]) -> CommitFile {
    CommitFile { path: path.to_string(), data: data.to_vec(), stat: FileStat::File }
}

#[test]
fn commit_plans_blobs_trees_commit_and_head() {
    let root = "repo".to_string();
    let files = vec![file("a.txt", b"alpha"), file("dir/b.txt", b"beta")];
    let plan = make_commit(&root, true, true, true, files, None, msg(), false).unwrap();

    // two blobs, two trees (dir then root), one commit
    assert_eq!(plan.writes.len(), 5);
    let last = plan.writes.last().unwrap();
    assert_eq!(last.oid, plan.oid);

    // the last write holds the commit object
    let (kind, payload) = decode_stored_object(&last.bytes).unwrap();
    assert!(matches!(kind, Types::Commit));
    let text = String::from_utf8(payload).unwrap();
    assert!(text.starts_with("tree "));
    assert!(text.contains("author Ada <ada@example.org> 1700000000 "));
    assert!(text.contains("committer Ada <ada@example.org> 1700000000 "));
    assert!(text.ends_with("\nfirst snapshot\n"));
    assert!(!text.contains("parent"));

    // the pointer advance publishes the new hash
    assert_eq!(plan.head.file_path, "repo/.git/HEAD");
    assert_eq!(plan.head.lock_path, "repo/.git/HEAD.lock");
    let mut expected = plan.oid.clone().into_bytes();
    expected.push(b'\n');
    assert_eq!(plan.head.contents, expected);
}

#[test]
fn commit_with_parent_names_it() {
    let root = "repo".to_string();
    let parent = "aaaaaaaaaaaaaaaaaaaaaaaaaaaaaaaaaaaaaaaa".to_string();
    let plan = make_commit(
        &root,
        true,
        true,
        true,
        vec![file("a.txt", b"alpha")],
        Some(parent.clone()),
        msg(),
        false,
    )
    .unwrap();
    let (_, payload) = decode_stored_object(&plan.writes.last().unwrap().bytes).unwrap();
    let text = String::from_utf8(payload).unwrap();
    assert!(text.contains(&format!("parent {}\n", parent)));
}

#[test]
fn commit_is_deterministic_for_identical_input() {
    let root = "repo".to_string();
    let files1 = vec![file("a.txt", b"alpha"), file("b.txt", b"beta")];
    let files2 = vec![file("b.txt", b"beta"), file("a.txt", b"alpha")];
    let p1 = make_commit(&root, true, true, true, files1, None, msg(), false).unwrap();
    let p2 = make_commit(&root, true, true, true, files2, None, msg(), false).unwrap();
    // same file set, either input order: the same snapshot hash
    assert_eq!(p1.oid, p2.oid);
}

#[test]
fn commit_outside_a_repository_fails() {
    let root = "repo".to_string();
    let r = make_commit(&root, false, false, false, Vec::new(), None, msg(), false);
    assert_eq!(r.err(), Some(RitError::NotFound));
    let r2 = make_commit(&root, true, false, false, Vec::new(), None, msg(), false);
    assert_eq!(r2.err(), Some(RitError::NotFound));
}

#[test]
fn commit_under_contention_fails() {
    let root = "repo".to_string();
    let r = make_commit(&root, true, true, true, vec![file("a", b"x")], None, msg(), true);
    assert_eq!(r.err(), Some(RitError::LockContention));
}

#[test]
fn commit_with_colliding_paths_is_invalid_input() {
    let root = "repo".to_string();
    let files = vec![file("a", b"x"), file("a/b", b"y")];
    let r = make_commit(&root, true, true, true, files, None, msg(), false);
    assert_eq!(r.err(), Some(RitError::InvalidInput));
}

#[test]
fn empty_snapshot_commits() {
    let root = "repo".to_string();
    let plan = make_commit(&root, true, true, true, Vec::new(), None, msg(), false).unwrap();
    // one tree (the empty root), one commit
    assert_eq!(plan.writes.len(), 2);
    assert_eq!(plan.writes[0].oid, "4b825dc642cb6eb9a060e54bf8d69288fbee4904");
}

#[test]
fn is_repo_decisions() {
    assert_eq!(is_repo(false, false, false), Err(RitError::NotFound));
    assert_eq!(is_repo(true, false, false), Ok(false));
    assert_eq!(is_repo(true, true, false), Ok(false));
    assert_eq!(is_repo(true, true, true), Ok(true));
}

#[test]
fn create_repo_plans_directories() {
    let plan = create_repo("work".to_string(), true, false, false).unwrap();
    assert_eq!(plan.dirs.len(), 2);
    assert_eq!(plan.dirs[0], "work/.git/objects");
    assert_eq!(plan.dirs[1], "work/.git/refs");
    assert_eq!(
        create_repo("work".to_string(), true, true, true).err(),
        Some(RitError::InvalidInput)
    );
    assert_eq!(
        create_repo("work".to_string(), false, false, false).err(),
        Some(RitError::NotFound)
    );
}

#[test]
fn workspace_holds_the_scanned_list() {
    let ws = Workspace::new(
        "root".to_string(),
        vec!["a.txt".to_string(), "dir/b.txt".to_string()],
    );
    assert_eq!(ws.get_root_path().as_str(), "root");
    assert_eq!(ws.get_list_files().len(), 2);
    assert_eq!(ws.get_list_files()[0], "a.txt");
}

#[test]
fn stat_file_classifies() {
    let ws = Workspace::new("root".to_string(), Vec::new());
    assert_eq!(ws.stat_file(false, false, false, false), Err(RitError::NotFound));
    assert_eq!(ws.stat_file(true, true, false, false), Ok(FileStat::Dir));
    assert_eq!(ws.stat_file(true, false, true, true), Ok(FileStat::Executable));
    assert_eq!(ws.stat_file(true, false, true, false), Ok(FileStat::File));
    assert_eq!(ws.stat_file(true, false, false, false), Err(RitError::IOFailure));
}

#[test]
fn cli_commit_metadata_resolution() {
    let flags = cli::commit::Commit {
        author: Some("Ada".to_string()),
        email: None,
        message: None,
    };
    assert_eq!(flags.get_author(None), Ok("Ada".to_string()));
    assert_eq!(
        flags.get_email(Some("env@example.org".to_string())),
        Ok("env@example.org".to_string())
    );
    assert_eq!(flags.get_email(None), Err(RitError::NotFound));
    assert_eq!(flags.get_message(Some("typed\n".to_string())), Ok("typed\n".to_string()));
    assert_eq!(flags.get_message(Some(String::new())), Err(RitError::NotFound));
    assert_eq!(flags.get_message(None), Err(RitError::NotFound));
}

#[test]
fn message_accessors() {
    let m = msg();
    assert_eq!(m.get_name(), "Ada");
    assert_eq!(m.get_email(), "ada@example.org");
    assert_eq!(m.get_message(), "first snapshot");
    let a = m.get_author();
    assert_eq!(a.name, "Ada");
    assert!(a.time.starts_with("1700000000 "));
    let line = a.to_display_string();
    assert!(line.starts_with("Ada <ada@example.org> 1700000000 "));
    let tail = &a.time["1700000000 ".len()..];
    assert!(tail.starts_with('+') || tail.starts_with('-'));
}
