use rit::database::entry::Entry;
use rit::database::tree::{Tree, TreeEntry};
use rit::database::Database;
use rit::types::RitError;
use rit::workspace::FileStat;

const H1: &str = "aaaaaaaaaaaaaaaaaaaaaaaaaaaaaaaaaaaaaaaa";
const H2: &str = "bbbbbbbbbbbbbbbbbbbbbbbbbbbbbbbbbbbbbbbb";

fn entry(name: &str, oid: &str, stat: FileStat) -> Entry {
    Entry::new(name.to_string(), oid.to_string(), stat)
}

fn root_hash(entries: Vec<Entry>) -> String {
    let tree = Tree::build(entries).unwrap();
    let db = Database::new("objects".to_string(), true).unwrap();
    let mut writes = Vec::new();
    let stored = tree.traverse(&db, &mut writes).unwrap();
    stored.oid.unwrap()
}

#[test]
fn order_independent_root_hash() {
    let h_ab = root_hash(vec![
        entry("a.txt", H1, FileStat::File),
        entry("b.txt", H2, FileStat::File),
    ]);
    let h_ba = root_hash(vec![
        entry("b.txt", H2, FileStat::File),
        entry("a.txt", H1, FileStat::File),
    ]);
    assert_eq!(h_ab, h_ba);
}

#[test]
fn order_independent_nested_root_hash() {
    let h1 = root_hash(vec![
        entry("dir/a.txt", H1, FileStat::File),
        entry("dir/sub/b.txt", H2, FileStat::File),
        entry("c.txt", H2, FileStat::Executable),
    ]);
    let h2 = root_hash(vec![
        entry("c.txt", H2, FileStat::Executable),
        entry("dir/sub/b.txt", H2, FileStat::File),
        entry("dir/a.txt", H1, FileStat::File),
    ]);
    assert_eq!(h1, h2);
}

#[test]
fn nesting_structure() {
    let tree = Tree::build(vec![
        entry("dir/a.txt", H1, FileStat::File),
        entry("dir/sub/b.txt", H2, FileStat::File),
    ])
    .unwrap();
    assert_eq!(tree.entries.len(), 1);
    assert_eq!(tree.entries[0].0, "dir");
    assert!(tree.entries[0].1.is_tree());
    match &tree.entries[0].1 {
        TreeEntry::Tree(dir) => {
            assert_eq!(dir.entries.len(), 2);
            assert_eq!(dir.entries[0].0, "a.txt");
            match &dir.entries[0].1 {
                TreeEntry::Entry(e) => {
                    assert_eq!(e.get_oid(), H1);
                    assert_eq!(e.get_mode(), "100644");
                }
                TreeEntry::Tree(_) => panic!("a.txt should be a leaf"),
            }
            assert_eq!(dir.entries[1].0, "sub");
            match &dir.entries[1].1 {
                TreeEntry::Tree(sub) => {
                    assert_eq!(sub.entries.len(), 1);
                    assert_eq!(sub.entries[0].0, "b.txt");
                }
                TreeEntry::Entry(_) => panic!("sub should be a tree"),
            }
        }
        TreeEntry::Entry(_) => panic!("dir should be a tree"),
    }
}

#[test]
fn empty_snapshot_builds_and_stores() {
    let tree = Tree::build(Vec::new()).unwrap();
    assert_eq!(tree.entries.len(), 0);
    let db = Database::new("objects".to_string(), true).unwrap();
    let mut writes = Vec::new();
    let stored = tree.traverse(&db, &mut writes).unwrap();
    let oid = stored.oid.unwrap();
    // the well-known hash of the empty tree
    assert_eq!(oid, "4b825dc642cb6eb9a060e54bf8d69288fbee4904");
    assert_eq!(writes.len(), 1);
    // a second build of an empty snapshot hashes identically
    let tree2 = Tree::build(Vec::new()).unwrap();
    let mut writes2 = Vec::new();
    let stored2 = tree2.traverse(&db, &mut writes2).unwrap();
    assert_eq!(stored2.oid.unwrap(), oid);
}

#[test]
fn duplicate_name_collides() {
    let r = Tree::build(vec![
        entry("a.txt", H1, FileStat::File),
        entry("a.txt", H2, FileStat::File),
    ]);
    assert!(matches!(r, Err(RitError::InvalidInput)));
}

#[test]
fn leaf_versus_directory_collides() {
    let r = Tree::build(vec![
        entry("a", H1, FileStat::File),
        entry("a/b.txt", H2, FileStat::File),
    ]);
    assert!(matches!(r, Err(RitError::InvalidInput)));
    let r2 = Tree::build(vec![
        entry("a/b.txt", H2, FileStat::File),
        entry("a", H1, FileStat::File),
    ]);
    assert!(matches!(r2, Err(RitError::InvalidInput)));
}

#[test]
fn malformed_paths_are_invalid_input() {
    assert!(matches!(
        Tree::build(vec![entry("", H1, FileStat::File)]),
        Err(RitError::InvalidInput)
    ));
    assert!(matches!(
        Tree::build(vec![entry("a//b", H1, FileStat::File)]),
        Err(RitError::InvalidInput)
    ));
    assert!(matches!(
        Tree::build(vec![entry("a/", H1, FileStat::File)]),
        Err(RitError::InvalidInput)
    ));
}

#[test]
fn postorder_stores_children_before_parent() {
    let tree = Tree::build(vec![
        entry("dir/a.txt", H1, FileStat::File),
        entry("top.txt", H2, FileStat::File),
    ])
    .unwrap();
    let db = Database::new("objects".to_string(), true).unwrap();
    let mut writes = Vec::new();
    let stored = tree.traverse(&db, &mut writes).unwrap();
    // two trees: the nested dir first, the root last
    assert_eq!(writes.len(), 2);
    assert_eq!(writes[1].oid, stored.oid.clone().unwrap());
    assert_ne!(writes[0].oid, writes[1].oid);
}

#[test]
fn tree_payload_embeds_child_hashes_raw() {
    let tree = Tree::build(vec![entry("a.txt", H1, FileStat::File)]).unwrap();
    let db = Database::new("objects".to_string(), true).unwrap();
    let mut writes = Vec::new();
    let stored = tree.traverse(&db, &mut writes).unwrap();
    assert_eq!(writes.len(), 1);
    let (kind, payload) = rit::cat_file::decode_stored_object(&writes[0].bytes).unwrap();
    assert!(matches!(kind, rit::types::Types::Tree));
    let mut expected = b"100644 a.txt\x00".to_vec();
    expected.extend(hex::decode(H1).unwrap());
    assert_eq!(payload, expected);
    assert_eq!(writes[0].oid, stored.oid.unwrap());
}

#[test]
fn nested_tree_entry_is_a_fixed_width_record() {
    let tree = Tree::build(vec![entry("dir/a.txt", H1, FileStat::File)]).unwrap();
    let db = Database::new("objects".to_string(), true).unwrap();
    let mut writes = Vec::new();
    let _stored = tree.traverse(&db, &mut writes).unwrap();
    // the root's payload references the nested tree in binary, not hex
    let (_, root_payload) = rit::cat_file::decode_stored_object(&writes[1].bytes).unwrap();
    let mut expected = b"040000 dir\x00".to_vec();
    expected.extend(hex::decode(&writes[0].oid).unwrap());
    assert_eq!(root_payload, expected);
}

#[test]
fn entry_accessors() {
    let e = entry("x/y.txt", H1, FileStat::Executable);
    assert_eq!(e.get_name(), "x/y.txt");
    assert_eq!(e.get_oid(), H1);
    assert_eq!(e.get_mode(), "100755");
    let dir = entry("d", H1, FileStat::Dir);
    assert_eq!(dir.get_mode(), "040000");
    // a leaf entry is never a nested tree, whatever kind it references
    let te = TreeEntry::Entry(dir);
    assert!(!te.is_tree());
    assert_eq!(te.get_oid(), H1);
    assert_eq!(te.get_mode(), "040000");
    let leaf = TreeEntry::Entry(entry("f", H2, FileStat::File));
    assert!(!leaf.is_tree());
    let nested = TreeEntry::Tree(Tree::new());
    assert!(nested.is_tree());
}
