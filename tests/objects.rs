use minigit::cache::{
    dir_for_hash, hash_from_hex, hash_to_hex, parse_object, path_for_hash, read_obj, Object,
    ObjectType,
};
use minigit::types::GitError;

fn blob(data: &[u8]) -> Object {
    Object { kind: ObjectType::Blob, data: data.to_vec() }
}

#[test]
fn blob_hello_has_known_hash() {
    let o = blob(b"hello\n");
    let hex = hash_to_hex(&o.hash());
    assert_eq!(hex, "ce013625030ba8dba906f756967f9e9ca394464a");
    assert!(hex.starts_with("ce013625030ba8dba906f756967f9e9ca394464"));
}

#[test]
fn blob_hello_reads_back() {
    let o = blob(b"hello\n");
    let file = o.write().unwrap();
    assert_eq!(hash_to_hex(&file.hash), "ce013625030ba8dba906f756967f9e9ca394464a");
    let back = read_obj(&file.bytes).unwrap();
    assert_eq!(back.kind, ObjectType::Blob);
    assert_eq!(back.data, b"hello\n".to_vec());
}

#[test]
fn loose_form_has_header() {
    let o = blob(b"hello\n");
    assert_eq!(o.loose_bytes(), b"blob 6\0hello\n".to_vec());
    let t = Object { kind: ObjectType::Tree, data: vec![] };
    assert_eq!(t.loose_bytes(), b"tree 0\0".to_vec());
    assert_eq!(hash_to_hex(&t.hash()), "4b825dc642cb6eb9a060e54bf8d69288fbee4904");
}

#[test]
fn stored_bytes_are_compressed() {
    let o = blob(b"hello\n");
    let file = o.write().unwrap();
    assert_ne!(file.bytes, o.loose_bytes());
    assert_eq!(file.bytes[0], 0x78);
}

#[test]
fn every_kind_round_trips() {
    for kind in [ObjectType::Blob, ObjectType::Tree, ObjectType::Commit, ObjectType::Tag] {
        let o = Object { kind, data: vec![0, 1, 2, 255, b'\n', b' '] };
        let file = o.write().unwrap();
        let back = read_obj(&file.bytes).unwrap();
        assert_eq!(back.kind, kind);
        assert_eq!(back.data, o.data);
    }
}

#[test]
fn empty_payload_round_trips() {
    let o = blob(b"");
    let back = read_obj(&o.write().unwrap().bytes).unwrap();
    assert_eq!(back.kind, ObjectType::Blob);
    assert!(back.data.is_empty());
}

#[test]
fn writing_twice_gives_same_file() {
    let first = blob(b"same content").write().unwrap();
    let second = blob(b"same content").write().unwrap();
    assert_eq!(first.hash, second.hash);
    assert_eq!(first.bytes, second.bytes);
}

#[test]
fn different_kinds_hash_differently() {
    let a = Object { kind: ObjectType::Blob, data: b"x".to_vec() }.hash();
    let b = Object { kind: ObjectType::Tag, data: b"x".to_vec() }.hash();
    assert_ne!(a, b);
}

#[test]
fn bad_type_word_is_corrupt() {
    assert_eq!(parse_object(b"blub 1\0x").err(), Some(GitError::CorruptObject));
}

#[test]
fn missing_space_is_io() {
    assert_eq!(parse_object(b"blob").err(), Some(GitError::Io));
}

#[test]
fn bad_length_is_parse_int() {
    assert_eq!(parse_object(b"blob 1x\0x").err(), Some(GitError::ParseInt));
    assert_eq!(parse_object(b"blob \0x").err(), Some(GitError::ParseInt));
}

#[test]
fn short_payload_is_io() {
    assert_eq!(parse_object(b"blob 5\0abc").err(), Some(GitError::Io));
}

#[test]
fn extra_bytes_after_payload_are_ignored() {
    let o = parse_object(b"tag 2\0abcdef").unwrap();
    assert_eq!(o.kind, ObjectType::Tag);
    assert_eq!(o.data, b"ab".to_vec());
}

#[test]
fn not_zlib_is_io() {
    assert_eq!(read_obj(b"definitely not zlib").err(), Some(GitError::Io));
}

#[test]
fn hex_round_trip() {
    let text = "ce013625030ba8dba906f756967f9e9ca394464a";
    let h = hash_from_hex(text.as_bytes()).unwrap();
    assert_eq!(h[0], 0xce);
    assert_eq!(h[19], 0x4a);
    assert_eq!(hash_to_hex(&h), text);
}

#[test]
fn hex_rejects_bad_text() {
    assert_eq!(hash_from_hex(b"CE013625030ba8dba906f756967f9e9ca394464a").err(), Some(GitError::InvalidHex));
    assert_eq!(hash_from_hex(b"ce01").err(), Some(GitError::InvalidHex));
}

#[test]
fn store_paths_split_the_hex() {
    let h = hash_from_hex(b"ce013625030ba8dba906f756967f9e9ca394464a").unwrap();
    assert_eq!(dir_for_hash(&h), "ce");
    assert_eq!(path_for_hash(&h), "ce/013625030ba8dba906f756967f9e9ca394464a");
}
