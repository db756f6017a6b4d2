use minigit::cache::{Object, ObjectType};
use minigit::index::{Index, IndexEntry};
use minigit::tree::{from_object, parse_tree, EntryMode, Tree, TreeEntry};
use minigit::types::GitError;

fn staged(mode: EntryMode, hash: [u8; 20]) -> IndexEntry {
    IndexEntry {
        ctime: 0,
        ctime_ns: 0,
        mtime: 0,
        mtime_ns: 0,
        dev: 0,
        ino: 0,
        mode,
        uid: 0,
        gid: 0,
        size: 0,
        assume_valid: false,
        hash,
    }
}

fn te(mode: EntryMode, name: &[u8], hash: [u8; 20]) -> TreeEntry {
    TreeEntry { mode, name: name.to_vec(), hash }
}

#[test]
fn tree_serialization_layout() {
    let t = Tree {
        entries: vec![te(EntryMode::NormalFile, b"a", [1; 20]), te(EntryMode::Tree, b"d", [2; 20])],
    };
    let o = t.as_object();
    assert_eq!(o.kind, ObjectType::Tree);
    let mut expected = b"100644 a\0".to_vec();
    expected.extend_from_slice(&[1; 20]);
    expected.extend_from_slice(b"40000 d\0");
    expected.extend_from_slice(&[2; 20]);
    assert_eq!(o.data, expected);
}

#[test]
fn tree_round_trips() {
    let t = Tree {
        entries: vec![
            te(EntryMode::NormalFile, b"file.txt", [3; 20]),
            te(EntryMode::ExecutableFile, b"run me", [4; 20]),
            te(EntryMode::Symlink, b"link", [5; 20]),
            te(EntryMode::Tree, b"sub", [6; 20]),
        ],
    };
    let back = from_object(&t.as_object()).unwrap();
    assert_eq!(back.entries.len(), 4);
    for (a, b) in back.entries.iter().zip(t.entries.iter()) {
        assert_eq!(a.mode, b.mode);
        assert_eq!(a.name, b.name);
        assert_eq!(a.hash, b.hash);
    }
}

#[test]
fn empty_tree_parses() {
    assert!(parse_tree(b"").unwrap().entries.is_empty());
}

#[test]
fn unknown_mode_is_malformed() {
    let mut data = b"100600 a\0".to_vec();
    data.extend_from_slice(&[0; 20]);
    assert_eq!(parse_tree(&data).err(), Some(GitError::MalformedTree));
    assert_eq!(parse_tree(b"100644").err(), Some(GitError::MalformedTree));
}

#[test]
fn short_hash_is_io() {
    let mut data = b"100644 a\0".to_vec();
    data.extend_from_slice(&[0; 19]);
    assert_eq!(parse_tree(&data).err(), Some(GitError::Io));
}

#[test]
fn wrong_kind_is_not_a_tree() {
    let o = Object { kind: ObjectType::Blob, data: vec![] };
    assert_eq!(from_object(&o).err(), Some(GitError::MalformedTree));
}

#[test]
fn nested_grouping_matches_hand_built_trees() {
    let h1 = [0x11; 20];
    let h2 = [0x22; 20];
    let h3 = [0x33; 20];
    let mut index = Index::new();
    index.add(b"a/b/c".to_vec(), staged(EntryMode::NormalFile, h1));
    index.add(b"a/b/d".to_vec(), staged(EntryMode::NormalFile, h2));
    index.add(b"a/e".to_vec(), staged(EntryMode::NormalFile, h3));
    let built = index.write_tree();

    let b = Tree { entries: vec![te(EntryMode::NormalFile, b"c", h1), te(EntryMode::NormalFile, b"d", h2)] };
    let hb = b.as_object().hash();
    let a = Tree { entries: vec![te(EntryMode::Tree, b"b", hb), te(EntryMode::NormalFile, b"e", h3)] };
    let ha = a.as_object().hash();
    let root = Tree { entries: vec![te(EntryMode::Tree, b"a", ha)] };
    let hroot = root.as_object().hash();

    assert_eq!(built.hash, hroot);
    assert_eq!(built.objects.len(), 3);
    assert_eq!(built.objects[0].data, b.as_object().data);
    assert_eq!(built.objects[1].data, a.as_object().data);
    assert_eq!(built.objects[2].data, root.as_object().data);
    assert!(built.objects.iter().all(|o| o.kind == ObjectType::Tree));

    let parsed_root = parse_tree(&built.objects[2].data).unwrap();
    assert_eq!(parsed_root.entries.len(), 1);
    assert_eq!(parsed_root.entries[0].mode, EntryMode::Tree);
    assert_eq!(parsed_root.entries[0].name, b"a".to_vec());
    let parsed_a = parse_tree(&built.objects[1].data).unwrap();
    assert_eq!(parsed_a.entries.len(), 2);
    assert_eq!(parsed_a.entries[0].name, b"b".to_vec());
    assert_eq!(parsed_a.entries[1].name, b"e".to_vec());
    assert_eq!(parsed_a.entries[1].hash, h3);
}

#[test]
fn empty_index_gives_empty_tree() {
    let built = Index::new().write_tree();
    assert_eq!(minigit::cache::hash_to_hex(&built.hash), "4b825dc642cb6eb9a060e54bf8d69288fbee4904");
    assert_eq!(built.objects.len(), 1);
    assert!(built.objects[0].data.is_empty());
}

#[test]
fn siblings_after_a_directory() {
    let mut index = Index::new();
    index.add(b"x/one".to_vec(), staged(EntryMode::NormalFile, [1; 20]));
    index.add(b"y".to_vec(), staged(EntryMode::ExecutableFile, [2; 20]));
    index.add(b"z/two".to_vec(), staged(EntryMode::Symlink, [3; 20]));
    let built = index.write_tree();
    assert_eq!(built.objects.len(), 3);
    let root = parse_tree(&built.objects[2].data).unwrap();
    let names: Vec<Vec<u8>> = root.entries.iter().map(|e| e.name.clone()).collect();
    assert_eq!(names, vec![b"x".to_vec(), b"y".to_vec(), b"z".to_vec()]);
    assert_eq!(root.entries[1].mode, EntryMode::ExecutableFile);
    assert_eq!(root.entries[0].hash, built.objects[0].hash());
    assert_eq!(root.entries[2].hash, built.objects[1].hash());
}

#[test]
fn file_and_directory_with_same_name() {
    let mut index = Index::new();
    index.add(b"foo".to_vec(), staged(EntryMode::NormalFile, [1; 20]));
    index.add(b"foo/bar".to_vec(), staged(EntryMode::NormalFile, [2; 20]));
    let built = index.write_tree();
    let root = parse_tree(&built.objects[1].data).unwrap();
    assert_eq!(root.entries.len(), 2);
    assert_eq!(root.entries[0].mode, EntryMode::NormalFile);
    assert_eq!(root.entries[1].mode, EntryMode::Tree);
    assert_eq!(root.entries[1].name, b"foo".to_vec());
}
