use minigit::parse::{parse_decimal, read_until};
use minigit::refs::{candidate_paths, expand_refname, parse_ref, RefContent};
use minigit::tree::EntryMode;
use minigit::types::GitError;
use minigit::worktree::{make_relative, mode_for_file, parse_commit_message, should_ignore};

#[test]
fn comment_lines_are_dropped() {
    let text = b"Fix the thing\n# Please enter the commit message\n\nMore detail\n";
    assert_eq!(parse_commit_message(text).unwrap(), b"Fix the thing\n\nMore detail\n".to_vec());
}

#[test]
fn only_comments_abort() {
    assert_eq!(parse_commit_message(b"\n# comment\n\n"), None);
    assert_eq!(parse_commit_message(b""), None);
}

#[test]
fn last_line_without_newline_is_kept() {
    assert_eq!(parse_commit_message(b"a\r\nb").unwrap(), b"a\nb\n".to_vec());
}

#[test]
fn ignore_rules() {
    assert!(should_ignore(b".git"));
    assert!(should_ignore(b"./.git/objects"));
    assert!(should_ignore(b"sub/target/debug"));
    assert!(should_ignore(b"Cargo.lock"));
    assert!(!should_ignore(b"src/target.rs"));
    assert!(!should_ignore(b".github/x"));
    assert!(!should_ignore(b""));
}

#[test]
fn file_modes() {
    assert_eq!(mode_for_file(true, false, 0o100755), Ok(EntryMode::ExecutableFile));
    assert_eq!(mode_for_file(true, false, 0o100644), Ok(EntryMode::NormalFile));
    assert_eq!(mode_for_file(false, true, 0o120777), Ok(EntryMode::Symlink));
    assert_eq!(mode_for_file(false, false, 0o40755), Err(GitError::BadEntryMode));
}

#[test]
fn relative_path_is_the_path() {
    assert_eq!(make_relative(b"a/b"), Some(b"a/b".to_vec()));
}

#[test]
fn ref_candidates_in_order() {
    let c = candidate_paths(&"main".to_string());
    assert_eq!(
        c,
        vec![
            "main".to_string(),
            "refs/main".to_string(),
            "refs/tags/main".to_string(),
            "refs/heads/main".to_string(),
            "refs/remotes/main".to_string(),
            "refs/heads/main/HEAD".to_string(),
        ]
    );
}

#[test]
fn first_present_ref_wins() {
    let name = "dev".to_string();
    let r = expand_refname(&name, &vec![false, false, true, true, false, false]);
    assert_eq!(r, Ok("refs/tags/dev".to_string()));
    let none = expand_refname(&name, &vec![false; 6]);
    assert_eq!(none, Err(GitError::NotFound));
}

#[test]
fn scanning_stops_at_delimiter() {
    assert_eq!(read_until(b"ab cd", 0, b' '), Ok((b"ab".to_vec(), 3)));
    assert_eq!(read_until(b"ab cd", 3, b' '), Err(GitError::Io));
}

#[test]
fn decimal_parsing() {
    assert_eq!(parse_decimal(b"0042"), Ok(42));
    assert_eq!(parse_decimal(b"18446744073709551616"), Err(GitError::ParseInt));
    assert_eq!(parse_decimal(b"-1"), Err(GitError::ParseInt));
}

#[test]
fn error_descriptions() {
    assert_eq!(GitError::BadSignature.description(), "bad index file signature");
    assert_eq!(GitError::NotFound.description(), "not found");
}

#[test]
fn ref_files() {
    assert_eq!(parse_ref(b"ref: refs/heads/main\n"), RefContent::Symbolic(b"refs/heads/main".to_vec()));
    assert_eq!(parse_ref(b"abc123\n"), RefContent::Direct(b"abc123".to_vec()));
    assert_eq!(parse_ref(b"ref:x"), RefContent::Direct(b"ref:x".to_vec()));
}
