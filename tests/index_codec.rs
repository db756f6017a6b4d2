use minigit::index::{read, Index, IndexEntry};
use minigit::tree::EntryMode;
use minigit::types::GitError;

fn entry(mode: EntryMode, seed: u8) -> IndexEntry {
    IndexEntry {
        ctime: 1_600_000_000 + seed as u32,
        ctime_ns: 123,
        mtime: 1_600_000_100,
        mtime_ns: 456,
        dev: 2049,
        ino: 77 + seed as u32,
        mode,
        uid: 1000,
        gid: 1000,
        size: 42,
        assume_valid: seed % 2 == 1,
        hash: [seed; 20],
    }
}

fn sample() -> Index {
    let mut i = Index::new();
    i.add(b"src/main.rs".to_vec(), entry(EntryMode::NormalFile, 1));
    i.add(b"README".to_vec(), entry(EntryMode::ExecutableFile, 2));
    i.add(b"link".to_vec(), entry(EntryMode::Symlink, 3));
    i
}

#[test]
fn add_keeps_byte_order() {
    let i = sample();
    let names: Vec<Vec<u8>> = i.entries.iter().map(|e| e.0.clone()).collect();
    assert_eq!(names, vec![b"README".to_vec(), b"link".to_vec(), b"src/main.rs".to_vec()]);
}

#[test]
fn add_replaces_same_path() {
    let mut i = sample();
    i.add(b"link".to_vec(), entry(EntryMode::NormalFile, 9));
    assert_eq!(i.entries.len(), 3);
    assert_eq!(i.entries[1].0, b"link".to_vec());
    assert_eq!(i.entries[1].1, entry(EntryMode::NormalFile, 9));
}

#[test]
fn index_round_trips() {
    let i = sample();
    let bytes = i.write().unwrap();
    let back = read(&bytes).unwrap();
    assert_eq!(back.entries.len(), i.entries.len());
    for (a, b) in back.entries.iter().zip(i.entries.iter()) {
        assert_eq!(a.0, b.0);
        assert_eq!(a.1, b.1);
    }
}

#[test]
fn empty_index_round_trips() {
    let bytes = Index::new().write().unwrap();
    assert_eq!(&bytes[..12], b"DIRC\0\0\0\x02\0\0\0\0");
    assert_eq!(bytes.len(), 32);
    assert!(read(&bytes).unwrap().entries.is_empty());
}

#[test]
fn entries_fill_whole_blocks() {
    for len in 0..20usize {
        let mut i = Index::new();
        let name = vec![b'x'; len + 1];
        i.add(name.clone(), entry(EntryMode::NormalFile, 4));
        let bytes = i.write().unwrap();
        let entry_len = bytes.len() - 12 - 20;
        assert_eq!(entry_len % 8, 0);
        assert!(entry_len >= 62 + name.len() + 1);
        assert!(entry_len <= 62 + name.len() + 8);
        assert_eq!(bytes[12 + 62 + name.len()], 0);
    }
}

#[test]
fn layout_of_one_entry() {
    let mut i = Index::new();
    i.add(b"ab".to_vec(), entry(EntryMode::NormalFile, 1));
    let bytes = i.write().unwrap();
    assert_eq!(&bytes[8..12], &[0, 0, 0, 1]);
    assert_eq!(&bytes[12 + 24..12 + 28], &[0, 0, 0x81, 0xa4]);
    assert_eq!(&bytes[12 + 60..12 + 62], &[0x80, 2]);
    assert_eq!(&bytes[12 + 62..12 + 64], b"ab");
    assert_eq!(bytes.len(), 12 + 72 + 20);
}

#[test]
fn long_names_cap_the_length_field() {
    let mut i = Index::new();
    let name = vec![b'n'; 5000];
    i.add(name.clone(), entry(EntryMode::NormalFile, 2));
    let bytes = i.write().unwrap();
    assert_eq!(&bytes[12 + 60..12 + 62], &[0x0f, 0xff]);
    let back = read(&bytes).unwrap();
    assert_eq!(back.entries[0].0, name);
}

#[test]
fn truncated_index_fails() {
    let mut one = Index::new();
    one.add(b"a".to_vec(), entry(EntryMode::NormalFile, 2));
    let mut bytes = one.write().unwrap();
    bytes.truncate(bytes.len() - 20);
    bytes[11] = 2;
    assert_eq!(read(&bytes).err(), Some(GitError::Io));
}

#[test]
fn short_file_fails() {
    assert_eq!(read(b"DIRC").err(), Some(GitError::Io));
}

#[test]
fn bad_signature_fails() {
    let mut bytes = Index::new().write().unwrap();
    bytes[7] = 3;
    assert_eq!(read(&bytes).err(), Some(GitError::BadSignature));
}

fn one_entry_bytes() -> Vec<u8> {
    let mut i = Index::new();
    i.add(b"ab".to_vec(), entry(EntryMode::NormalFile, 2));
    i.write().unwrap()
}

#[test]
fn bad_mode_fails() {
    let mut bytes = one_entry_bytes();
    bytes[12 + 27] = 0;
    assert_eq!(read(&bytes).err(), Some(GitError::BadEntryMode));
}

#[test]
fn extended_flag_fails() {
    let mut bytes = one_entry_bytes();
    bytes[12 + 60] |= 0x40;
    assert_eq!(read(&bytes).err(), Some(GitError::UnsupportedExtension));
}

#[test]
fn wrong_name_length_fails() {
    let mut bytes = one_entry_bytes();
    bytes[12 + 61] = 3;
    assert_eq!(read(&bytes).err(), Some(GitError::CorruptName));
}

#[test]
fn dirty_padding_fails() {
    let mut bytes = one_entry_bytes();
    bytes[12 + 66] = 1;
    assert_eq!(read(&bytes).err(), Some(GitError::CorruptPadding));
}

#[test]
fn directory_entries_cannot_be_written() {
    let mut i = Index::new();
    i.add(b"dir".to_vec(), entry(EntryMode::Tree, 2));
    assert_eq!(i.write().err(), Some(GitError::BadEntryMode));
}

#[test]
fn checksum_covers_the_body() {
    let bytes = sample().write().unwrap();
    let body_len = bytes.len() - 20;
    let digest = sha1::Sha1::from(&bytes[..body_len]).digest().bytes();
    assert_eq!(&bytes[body_len..], &digest[..]);
}

#[test]
fn unsorted_file_is_sorted_on_read() {
    let mut a = Index::new();
    a.add(b"b".to_vec(), entry(EntryMode::NormalFile, 1));
    let mut b = Index::new();
    b.add(b"a".to_vec(), entry(EntryMode::NormalFile, 2));
    let ea = a.write().unwrap();
    let eb = b.write().unwrap();
    let mut bytes = ea[..12].to_vec();
    bytes[11] = 2;
    bytes.extend_from_slice(&ea[12..ea.len() - 20]);
    bytes.extend_from_slice(&eb[12..eb.len() - 20]);
    let back = read(&bytes).unwrap();
    assert_eq!(back.entries[0].0, b"a".to_vec());
    assert_eq!(back.entries[1].0, b"b".to_vec());
}
