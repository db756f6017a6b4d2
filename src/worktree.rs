//! Decisions made while staging files and writing commit messages: the
//! ignore rule, file modes, and the cleanup of an edited message.

use vstd::prelude::*;
use crate::parse::{bytes_equal, delim_at, find_byte, lemma_delim_at_found, push_all};
use crate::tree::EntryMode;
use crate::types::{GitError, GitResult};

verus! {

/// The line that starts at `p`, without its newline (and without a
/// carriage return before that newline), and where the next line starts.
pub open spec fn line_at(t: Seq<u8>, p: int) -> (Seq<u8>, int) {
    match delim_at(t, p, 10u8) {
        Some(j) => {
            let l = t.subrange(p, j);
            if l.len() > 0 && l.last() == 13u8 {
                (l.drop_last(), j + 1)
            } else {
                (l, j + 1)
            }
        },
        None => (t.subrange(p, t.len() as int), t.len() as int),
    }
}

/// The commit message kept from the lines from `p` on: every line that
/// does not start with `#`, each ended by a newline; and whether any kept
/// line is non-empty.
pub open spec fn message_from(t: Seq<u8>, p: int) -> (Seq<u8>, bool)
    decreases t.len() - p,
{
    if p < 0 || p >= t.len() {
        (Seq::empty(), false)
    } else {
        let (l, next) = line_at(t, p);
        if next <= p || next > t.len() {
            (Seq::empty(), false)
        } else {
            let rest = message_from(t, next);
            if l.len() > 0 && l[0] == 35u8 {
                rest
            } else {
                (l.push(10u8) + rest.0, l.len() > 0 || rest.1)
            }
        }
    }
}

/// Cleans up the text of a commit message as an editor left it: lines
/// that start with `#` are dropped, the others are kept each with a
/// newline. Returns `None` when no kept line has any content, which aborts
/// the commit.
pub fn parse_commit_message(text: &[u8]) -> (r: Option<Vec<u8>>)
    ensures
        message_from(text@, 0).1 ==> (r matches Some(m) && m@ == message_from(text@, 0).0),
        !message_from(text@, 0).1 ==> r is None,
{
    let mut msg: Vec<u8> = Vec::new();
    let mut has_content = false;
    let mut p: usize = 0;
    while p < text.len()
        invariant
            p <= text@.len(),
            message_from(text@, 0).0 == msg@ + message_from(text@, p as int).0,
            message_from(text@, 0).1 == (has_content || message_from(text@, p as int).1),
        decreases text@.len() - p,
    {
        let (start, end, next) = match find_byte(text, p, 10u8) {
            Some(j) => {
                proof {
                    lemma_delim_at_found(text@, p as int, 10u8);
                }
                if j > p && text[j - 1] == 13u8 {
                    (p, j - 1, j + 1)
                } else {
                    (p, j, j + 1)
                }
            },
            None => (p, text.len(), text.len()),
        };
        let ghost l = text@.subrange(start as int, end as int);
        assert(line_at(text@, p as int) == (l, next as int)) by {
            if delim_at(text@, p as int, 10u8) is Some {
                let j = delim_at(text@, p as int, 10u8)->0;
                if j > p && text@[j - 1] == 13u8 {
                    assert(text@.subrange(p as int, j).drop_last() =~= l);
                }
            }
        }
        let ghost before = msg@;
        if !(end > start && text[start] == 35u8) {
            push_all(&mut msg, vstd::slice::slice_subrange(text, start, end));
            msg.push(10u8);
            if end > start {
                has_content = true;
            }
            proof {
                let rest = message_from(text@, next as int);
                assert(msg@ =~= before + l.push(10u8));
                assert(before + (l.push(10u8) + rest.0) =~= msg@ + rest.0);
            }
        }
        p = next;
    }
    assert(msg@ + Seq::<u8>::empty() =~= msg@);
    if has_content {
        Some(msg)
    } else {
        None
    }
}

/// The mode to stage for a file: a regular file is executable when its
/// owner may execute it; anything else but a symbolic link cannot be
/// staged and fails with `BadEntryMode`.
pub fn mode_for_file(is_file: bool, is_symlink: bool, permissions: u32) -> (r: GitResult<EntryMode>)
    ensures
        is_file && permissions & 0o100u32 != 0 ==> r == Ok::<EntryMode, GitError>(EntryMode::ExecutableFile),
        is_file && permissions & 0o100u32 == 0 ==> r == Ok::<EntryMode, GitError>(EntryMode::NormalFile),
        !is_file && is_symlink ==> r == Ok::<EntryMode, GitError>(EntryMode::Symlink),
        !is_file && !is_symlink ==> r == Err::<EntryMode, GitError>(GitError::BadEntryMode),
{
    if is_file {
        if permissions & 0o100u32 != 0 {
            Ok(EntryMode::ExecutableFile)
        } else {
            Ok(EntryMode::NormalFile)
        }
    } else if is_symlink {
        Ok(EntryMode::Symlink)
    } else {
        Err(GitError::BadEntryMode)
    }
}

/// The path to stage for a path given on the command line: for now the
/// path itself.
pub fn make_relative(path: &[u8]) -> (r: Option<Vec<u8>>)
    ensures
        r matches Some(p) && p@ == path@,
{
    let mut v: Vec<u8> = Vec::new();
    push_all(&mut v, path);
    Some(v)
}

/// Whether the slash-separated component of `p` at `[i, j)` is a whole component.
pub open spec fn is_component(p: Seq<u8>, i: int, j: int) -> bool {
    0 <= i <= j <= p.len() && (i == 0 || p[i - 1] == 47u8) && (j == p.len() || p[j] == 47u8)
        && forall|k: int| i <= k < j ==> p[k] != 47u8
}

/// The names that are never staged: `.git`, `target` and `Cargo.lock`.
pub open spec fn ignored_name(c: Seq<u8>) -> bool {
    c == seq![46u8, 103u8, 105u8, 116u8] || c == seq![116u8, 97u8, 114u8, 103u8, 101u8, 116u8] || c
        == seq![67u8, 97u8, 114u8, 103u8, 111u8, 46u8, 108u8, 111u8, 99u8, 107u8]
}

/// Whether some component of the path is an ignored name.
pub open spec fn has_ignored_component(p: Seq<u8>) -> bool {
    exists|i: int, j: int| is_component(p, i, j) && ignored_name(#[trigger] p.subrange(i, j))
}

fn is_ignored_name(c: &[u8]) -> (r: bool)
    ensures
        r == ignored_name(c@),
{
    let git = vec![46u8, 103u8, 105u8, 116u8];
    let target = vec![116u8, 97u8, 114u8, 103u8, 101u8, 116u8];
    let lock = vec![67u8, 97u8, 114u8, 103u8, 111u8, 46u8, 108u8, 111u8, 99u8, 107u8];
    assert(git@ =~= seq![46u8, 103u8, 105u8, 116u8]);
    assert(target@ =~= seq![116u8, 97u8, 114u8, 103u8, 101u8, 116u8]);
    assert(lock@ =~= seq![67u8, 97u8, 114u8, 103u8, 111u8, 46u8, 108u8, 111u8, 99u8, 107u8]);
    bytes_equal(c, git.as_slice()) || bytes_equal(c, target.as_slice()) || bytes_equal(c, lock.as_slice())
}

/// Whether a slash-separated path lies in, or names, something that is
/// never staged: a component `.git`, `target` or `Cargo.lock`.
pub fn should_ignore(path: &[u8]) -> (r: bool)
    ensures
        r == has_ignored_component(path@),
{
    let mut start: usize = 0;
    loop
        invariant
            start <= path@.len(),
            start == 0 || path@[start - 1] == 47u8,
            forall|i: int, j: int|
                #![trigger path@.subrange(i, j)]
                is_component(path@, i, j) && i < start ==> !ignored_name(path@.subrange(i, j)),
        decreases path@.len() - start,
    {
        let end = match find_byte(path, start, 47u8) {
            Some(j) => j,
            None => path.len(),
        };
        proof {
            if delim_at(path@, start as int, 47u8) is Some {
                lemma_delim_at_found(path@, start as int, 47u8);
            } else {
                lemma_no_delim(path@, start as int, 47u8);
            }
        }
        assert(is_component(path@, start as int, end as int));
        if is_ignored_name(vstd::slice::slice_subrange(path, start, end)) {
            return true;
        }
        proof {
            assert forall|i: int, j: int|
                is_component(path@, i, j) && i < end + 1 implies !ignored_name(
                #[trigger] path@.subrange(i, j),
            ) by {
                if i == start as int {
                    if j != end as int {
                        if j < end {
                            assert(path@[j] == 47u8);
                        } else {
                            assert(path@[end as int] != 47u8 || end == path@.len());
                            if end < path@.len() {
                                assert(path@[end as int] == 47u8);
                            }
                        }
                    }
                } else if i > start {
                    assert(path@[i - 1] == 47u8);
                }
            }
        }
        if end >= path.len() {
            assert forall|i: int, j: int| is_component(path@, i, j) implies !ignored_name(
                #[trigger] path@.subrange(i, j),
            ) by {
                if i >= end + 1 {
                    assert(i <= path@.len());
                }
            }
            return false;
        }
        start = end + 1;
    }
}

/// Where no `end` byte follows `from`, none lies in the rest of `s`.
proof fn lemma_no_delim(s: Seq<u8>, from: int, end: u8)
    requires
        0 <= from <= s.len(),
        delim_at(s, from, end) is None,
    ensures
        forall|k: int| from <= k < s.len() ==> s[k] != end,
    decreases s.len() - from,
{
    if from < s.len() {
        lemma_no_delim(s, from + 1, end);
    }
}

} // verus!
