use minigit::cache::{Object, ObjectType};
use minigit::commit::{from_object, parse_commit, string_from_hex_bytes, Commit, Timestamp};
use minigit::types::GitError;

const TREE: &str = "4b825dc642cb6eb9a060e54bf8d69288fbee4904";
const PARENT: &str = "ce013625030ba8dba906f756967f9e9ca394464a";

fn sample(parents: Vec<String>, message: &str) -> Commit {
    Commit {
        tree: TREE.to_string(),
        parents,
        author: "A U Thor <author@example.com>".to_string(),
        author_date: Timestamp { seconds: 1234567890, offset: 5400 },
        committer: "C O Mitter <c@example.com>".to_string(),
        committer_date: Timestamp { seconds: 1700000000, offset: -25200 },
        message: message.to_string(),
    }
}

fn same(a: &Commit, b: &Commit) {
    assert_eq!(a.tree, b.tree);
    assert_eq!(a.parents, b.parents);
    assert_eq!(a.author, b.author);
    assert_eq!(a.author_date, b.author_date);
    assert_eq!(a.committer, b.committer);
    assert_eq!(a.committer_date, b.committer_date);
    assert_eq!(a.message, b.message);
}

#[test]
fn serialization_layout() {
    let c = sample(vec![PARENT.to_string()], "Subject\n\nBody\n");
    let o = c.to_object();
    assert_eq!(o.kind, ObjectType::Commit);
    let expected = format!(
        "tree {}\nparent {}\nauthor A U Thor <author@example.com> 1234567890 +0130\ncommitter C O Mitter <c@example.com> 1700000000 -0700\n\nSubject\n\nBody\n",
        TREE, PARENT
    );
    assert_eq!(String::from_utf8(o.data).unwrap(), expected);
}

#[test]
fn commit_round_trips() {
    let c = sample(vec![PARENT.to_string(), TREE.to_string()], "  not trimmed  \n\n");
    let back = from_object(&c.to_object()).unwrap();
    same(&back, &c);
}

#[test]
fn root_commit_round_trips() {
    let c = sample(vec![], "");
    let back = from_object(&c.to_object()).unwrap();
    same(&back, &c);
}

#[test]
fn unicode_names_round_trip() {
    let mut c = sample(vec![], "héllo wörld ✓\n");
    c.author = "Zoë Ünicode <z@example.com>".to_string();
    c.author_date = Timestamp { seconds: 0, offset: 0 };
    let back = from_object(&c.to_object()).unwrap();
    same(&back, &c);
}

#[test]
fn signature_block_is_dropped() {
    let text = format!(
        "tree {}\nauthor A <a@b> 100 +0000\ncommitter C <c@d> 200 -0130\ngpgsig -----BEGIN PGP SIGNATURE-----\n \n abc\n -----END PGP SIGNATURE-----\n\nmsg\n",
        TREE
    );
    let c = parse_commit(text.as_bytes()).unwrap();
    assert_eq!(c.tree, TREE);
    assert!(c.parents.is_empty());
    assert_eq!(c.author, "A <a@b>");
    assert_eq!(c.author_date, Timestamp { seconds: 100, offset: 0 });
    assert_eq!(c.committer_date, Timestamp { seconds: 200, offset: -5400 });
    assert_eq!(c.message, "msg\n");
}

#[test]
fn missing_blank_line_is_malformed() {
    let text = format!("tree {}\nauthor A 1 +0000\ncommitter C 2 +0000\nmsg\n", TREE);
    assert_eq!(parse_commit(text.as_bytes()).err(), Some(GitError::MalformedCommit));
}

#[test]
fn bad_tree_line_is_malformed() {
    assert_eq!(parse_commit(b"tree abc\n").err(), Some(GitError::MalformedCommit));
}

#[test]
fn non_hex_tree_is_invalid_hex() {
    let text = "tree 4B825DC642CB6EB9A060E54BF8D69288FBEE4904\nauthor A 1 +0000\n";
    assert_eq!(parse_commit(text.as_bytes()).err(), Some(GitError::InvalidHex));
}

#[test]
fn bad_date_is_malformed() {
    let text = format!("tree {}\nauthor A soon +0000\ncommitter C 2 +0000\n\n", TREE);
    assert_eq!(parse_commit(text.as_bytes()).err(), Some(GitError::MalformedCommit));
}

#[test]
fn invalid_utf8_message() {
    let mut data = format!("tree {}\nauthor A 1 +0000\ncommitter C 2 +0000\n\n", TREE).into_bytes();
    data.push(0xff);
    assert_eq!(parse_commit(&data).err(), Some(GitError::InvalidUtf8));
}

#[test]
fn wrong_kind_is_not_a_commit() {
    let o = Object { kind: ObjectType::Tree, data: vec![] };
    assert_eq!(from_object(&o).err(), Some(GitError::MalformedCommit));
}

#[test]
fn hex_bytes_become_text() {
    assert_eq!(string_from_hex_bytes(b"09af").unwrap(), "09af");
    assert_eq!(string_from_hex_bytes(b"0g").err(), Some(GitError::InvalidHex));
    assert_eq!(string_from_hex_bytes(b"AB").err(), Some(GitError::InvalidHex));
}
