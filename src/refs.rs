//! Where a ref name is looked for, and what a ref file holds.

use vstd::prelude::*;
use crate::parse::{ascii_chars, bytes_equal, push_all, surround_text};
use crate::types::{GitError, GitResult};

verus! {

/// The ASCII bytes of `refs/`.
pub open spec fn refs_dir() -> Seq<u8> {
    seq![114u8, 101u8, 102u8, 115u8, 47u8]
}

/// The ASCII bytes of `refs/tags/`.
pub open spec fn tags_dir() -> Seq<u8> {
    refs_dir() + seq![116u8, 97u8, 103u8, 115u8, 47u8]
}

/// The ASCII bytes of `refs/heads/`.
pub open spec fn heads_dir() -> Seq<u8> {
    refs_dir() + seq![104u8, 101u8, 97u8, 100u8, 115u8, 47u8]
}

/// The ASCII bytes of `refs/remotes/`.
pub open spec fn remotes_dir() -> Seq<u8> {
    refs_dir() + seq![114u8, 101u8, 109u8, 111u8, 116u8, 101u8, 115u8, 47u8]
}

/// The ASCII bytes of `/HEAD`.
pub open spec fn head_file() -> Seq<u8> {
    seq![47u8, 72u8, 69u8, 65u8, 68u8]
}

/// The paths, within the repository directory, at which a ref name is
/// looked for, in the order they are tried.
pub open spec fn ref_candidates(name: Seq<char>) -> Seq<Seq<char>> {
    seq![
        name,
        ascii_chars(refs_dir()) + name,
        ascii_chars(tags_dir()) + name,
        ascii_chars(heads_dir()) + name,
        ascii_chars(remotes_dir()) + name,
        ascii_chars(heads_dir()) + name + ascii_chars(head_file()),
    ]
}

/// The first index at or after `i` whose flag is set, if any.
pub open spec fn first_present(present: Seq<bool>, i: int) -> Option<int>
    decreases present.len() - i,
{
    if i < 0 || i >= present.len() {
        None
    } else if present[i] {
        Some(i)
    } else {
        first_present(present, i + 1)
    }
}

/// The paths, within the repository directory, at which `refname` is
/// looked for, in the order they are tried: the name itself, then under
/// `refs/`, `refs/tags/`, `refs/heads/`, `refs/remotes/`, and finally
/// `refs/heads/<name>/HEAD`.
pub fn candidate_paths(refname: &String) -> (r: Vec<String>)
    ensures
        r@.map_values(|s: String| s@) == ref_candidates(refname@),
{
    let refs = vec![114u8, 101u8, 102u8, 115u8, 47u8];
    let tags = vec![114u8, 101u8, 102u8, 115u8, 47u8, 116u8, 97u8, 103u8, 115u8, 47u8];
    let heads = vec![114u8, 101u8, 102u8, 115u8, 47u8, 104u8, 101u8, 97u8, 100u8, 115u8, 47u8];
    let remotes = vec![
        114u8, 101u8, 102u8, 115u8, 47u8, 114u8, 101u8, 109u8, 111u8, 116u8, 101u8, 115u8, 47u8,
    ];
    let head = vec![47u8, 72u8, 69u8, 65u8, 68u8];
    let none: Vec<u8> = Vec::new();
    assert(refs@ =~= refs_dir());
    assert(tags@ =~= tags_dir());
    assert(heads@ =~= heads_dir());
    assert(remotes@ =~= remotes_dir());
    assert(head@ =~= head_file());
    let mut r: Vec<String> = Vec::new();
    r.push(surround_text(none.as_slice(), refname, none.as_slice()));
    r.push(surround_text(refs.as_slice(), refname, none.as_slice()));
    r.push(surround_text(tags.as_slice(), refname, none.as_slice()));
    r.push(surround_text(heads.as_slice(), refname, none.as_slice()));
    r.push(surround_text(remotes.as_slice(), refname, none.as_slice()));
    r.push(surround_text(heads.as_slice(), refname, head.as_slice()));
    proof {
        let e = ascii_chars(none@);
        assert(e =~= Seq::<char>::empty());
        assert(e + refname@ + e =~= refname@);
        assert(ascii_chars(refs@) + refname@ + e =~= ascii_chars(refs_dir()) + refname@);
        assert(ascii_chars(tags@) + refname@ + e =~= ascii_chars(tags_dir()) + refname@);
        assert(ascii_chars(heads@) + refname@ + e =~= ascii_chars(heads_dir()) + refname@);
        assert(ascii_chars(remotes@) + refname@ + e =~= ascii_chars(remotes_dir()) + refname@);
        assert(r@.map_values(|s: String| s@) =~= ref_candidates(refname@));
    }
    r
}

/// Picks the path at which `refname` is found: `present[i]` tells whether
/// the `i`-th of `candidate_paths(refname)` names a file. Fails with
/// `NotFound` when none does.
pub fn expand_refname(refname: &String, present: &Vec<bool>) -> (r: GitResult<String>)
    requires
        present@.len() == 6,
    ensures
        match first_present(present@, 0) {
            Some(i) => r matches Ok(s) && s@ == ref_candidates(refname@)[i],
            None => r == Err::<String, GitError>(GitError::NotFound),
        },
{
    let mut candidates = candidate_paths(refname);
    let ghost all = candidates@.map_values(|s: String| s@);
    assert(all.len() == 6);
    assert(candidates@.len() == all.len());
    let mut i: usize = 0;
    while i < 6
        invariant
            i <= 6,
            present@.len() == 6,
            candidates@.len() == 6,
            candidates@.map_values(|s: String| s@) == all,
            all == ref_candidates(refname@),
            first_present(present@, 0) == first_present(present@, i as int),
        decreases 6 - i,
    {
        if present[i] {
            let s = candidates.remove(i);
            assert(s@ == all[i as int]);
            return Ok(s);
        }
        i = i + 1;
    }
    Err(GitError::NotFound)
}


/// What a ref file holds: another ref to follow, or a value.
#[derive(Debug, Clone, PartialEq, Eq)]
pub enum RefContent {
    /// `ref: <name>`: the named ref holds the value.
    Symbolic(Vec<u8>),
    /// The value itself, usually a 40-digit hash.
    Direct(Vec<u8>),
}

/// The ASCII bytes of `ref: `.
pub open spec fn symref_prefix() -> Seq<u8> {
    seq![114u8, 101u8, 102u8, 58u8, 32u8]
}

/// The text of a ref file without its final newline, if it has one.
pub open spec fn ref_body(data: Seq<u8>) -> Seq<u8> {
    if data.len() > 0 && data.last() == 10u8 {
        data.drop_last()
    } else {
        data
    }
}

/// Reads the content of a ref file: a body that starts with `ref: ` names
/// another ref, anything else is the value.
pub fn parse_ref(data: &[u8]) -> (r: RefContent)
    ensures
        ({
            let b = ref_body(data@);
            if b.len() >= 5 && b.subrange(0, 5) == symref_prefix() {
                r matches RefContent::Symbolic(t) && t@ == b.subrange(5, b.len() as int)
            } else {
                r matches RefContent::Direct(v) && v@ == b
            }
        }),
{
    let end = if data.len() > 0 && data[data.len() - 1] == 10u8 {
        data.len() - 1
    } else {
        data.len()
    };
    let body = vstd::slice::slice_subrange(data, 0, end);
    assert(body@ =~= ref_body(data@));
    let prefix = vec![114u8, 101u8, 102u8, 58u8, 32u8];
    assert(prefix@ =~= symref_prefix());
    if body.len() >= 5 && bytes_equal(vstd::slice::slice_subrange(body, 0, 5), prefix.as_slice()) {
        let mut t: Vec<u8> = Vec::new();
        push_all(&mut t, vstd::slice::slice_subrange(body, 5, body.len()));
        RefContent::Symbolic(t)
    } else {
        let mut v: Vec<u8> = Vec::new();
        push_all(&mut v, body);
        RefContent::Direct(v)
    }
}

} // verus!
