//! Commit objects: their line grammar, dates with fixed UTC offsets, and
//! the round trip between a commit and its bytes.

use vstd::prelude::*;
use vstd::utf8::{decode_utf8, encode_utf8, valid_utf8};
use crate::cache::{Object, ObjectType};
use crate::parse::{
    ascii_chars, bytes_equal, dec_digits, decode_text, lemma_ascii_text, lemma_dec_digits, push_all,
    read_until, scan_until, string_bytes,
};
use crate::types::{GitError, GitResult};

verus! {

/// The largest number of seconds since the epoch that a commit date may hold.
pub const MAX_SECONDS: i64 = 8_000_000_000_000;

/// A point in time with a fixed UTC offset: seconds since the Unix epoch and
/// the offset in seconds east of UTC.
#[derive(Debug, Clone, Copy, PartialEq, Eq, Structural)]
pub struct Timestamp {
    pub seconds: i64,
    pub offset: i32,
}

impl Timestamp {
    /// Whether the date can be written in a commit and read back: a
    /// non-negative time in range, and an offset of whole minutes under a day.
    pub open spec fn valid(&self) -> bool {
        0 <= self.seconds <= MAX_SECONDS && self.offset % 60 == 0 && -86400 < self.offset < 86400
    }
}

/// The ASCII bytes of a commit date: decimal seconds, a space, the sign of
/// the offset, then its hours and minutes as two digits each.
pub open spec fn date_bytes(t: Timestamp) -> Seq<u8> {
    let a: int = if t.offset < 0 {
        -t.offset
    } else {
        t.offset as int
    };
    let h = a / 3600;
    let m = (a / 60) % 60;
    dec_digits(t.seconds as nat) + seq![32u8, if t.offset < 0 {
        45u8
    } else {
        43u8
    }] + seq![(48 + h / 10) as u8, (48 + h % 10) as u8, (48 + m / 10) as u8, (48 + m % 10) as u8]
}

/// The text of a commit date.
pub open spec fn date_text(t: Timestamp) -> Seq<char> {
    ascii_chars(date_bytes(t))
}

/// A name for what chrono reads from a date text in the `"%s %z"` format:
/// seconds and offset in seconds.
pub uninterp spec fn date_parse_of(s: Seq<char>) -> Option<(int, int)>;

/// Relies on chrono's `DateTime::format` with `"%s %z"`: the seconds since
/// the epoch in decimal, a space, and the offset as a sign with four digits
/// of hours and minutes.
#[verifier::external_body]
fn format_date(t: Timestamp) -> (r: String)
    requires
        t.valid(),
    ensures
        r@ == date_text(t),
{
    let off = chrono::FixedOffset::east_opt(t.offset).unwrap();
    let utc = chrono::DateTime::from_timestamp(t.seconds, 0).unwrap();
    utc.with_timezone(&off).format("%s %z").to_string()
}

/// Relies on chrono's `DateTime::parse_from_str` with `"%s %z"`: it reads
/// back every date that `format_date` writes.
#[verifier::external_body]
fn parse_date(s: &str) -> (r: Option<Timestamp>)
    ensures
        r matches Some(t) ==> date_parse_of(s@) == Some((t.seconds as int, t.offset as int)),
        r is None ==> date_parse_of(s@) is None,
        forall|t: Timestamp| t.valid() && s@ == date_text(t) ==> r == Some(t),
{
    match chrono::DateTime::parse_from_str(s, "%s %z") {
        Ok(d) => Some(Timestamp { seconds: d.timestamp(), offset: d.offset().local_minus_utc() }),
        Err(_) => None,
    }
}

/// The opening of a commit's first line.
pub open spec fn tree_word() -> Seq<u8> {
    seq![116u8, 114u8, 101u8, 101u8, 32u8]
}

/// The word that opens a parent line.
pub open spec fn parent_word() -> Seq<u8> {
    seq![112u8, 97u8, 114u8, 101u8, 110u8, 116u8]
}

/// The word that opens the author line.
pub open spec fn author_word() -> Seq<u8> {
    seq![97u8, 117u8, 116u8, 104u8, 111u8, 114u8]
}

/// The word that opens the committer line.
pub open spec fn committer_word() -> Seq<u8> {
    seq![99u8, 111u8, 109u8, 109u8, 105u8, 116u8, 116u8, 101u8, 114u8]
}

/// The word that opens a signature block.
pub open spec fn gpgsig_word() -> Seq<u8> {
    seq![103u8, 112u8, 103u8, 115u8, 105u8, 103u8]
}

/// The line that closes a signature block.
pub open spec fn sig_end_line() -> Seq<u8> {
    seq![32u8, 45u8, 45u8, 45u8, 45u8, 45u8, 69u8, 78u8, 68u8, 32u8, 80u8, 71u8, 80u8, 32u8, 83u8, 73u8, 71u8, 78u8, 65u8, 84u8, 85u8, 82u8, 69u8, 45u8, 45u8, 45u8, 45u8, 45u8]
}

/// Whether `b` is a lowercase hexadecimal digit.
pub open spec fn is_hex_byte(b: u8) -> bool {
    (48 <= b <= 57) || (97 <= b <= 102)
}

/// Whether every byte of `s` is a lowercase hexadecimal digit.
pub open spec fn all_hex(s: Seq<u8>) -> bool {
    forall|i: int| 0 <= i < s.len() ==> is_hex_byte(#[trigger] s[i])
}

/// Whether every character of `s` is a lowercase hexadecimal digit.
pub open spec fn hex_chars(s: Seq<char>) -> bool {
    forall|i: int| 0 <= i < s.len() ==> ('0' <= #[trigger] s[i] <= '9' || 'a' <= s[i] <= 'f')
}

/// The mathematical form of a commit: tree hash, parent hashes, author,
/// author date, committer, committer date and message.
pub type CommitModel = (Seq<char>, Seq<Seq<char>>, Seq<char>, Timestamp, Seq<char>, Timestamp, Seq<char>);

/// A commit: a tree snapshot, its ancestry, authorship and a message.
pub struct Commit {
    pub tree: String,
    pub parents: Vec<String>,
    pub author: String,
    pub author_date: Timestamp,
    pub committer: String,
    pub committer_date: Timestamp,
    pub message: String,
}

impl View for Commit {
    type V = CommitModel;

    open spec fn view(&self) -> CommitModel {
        (
            self.tree@,
            self.parents@.map_values(|p: String| p@),
            self.author@,
            self.author_date,
            self.committer@,
            self.committer_date,
            self.message@,
        )
    }
}

/// The parent lines of a commit.
pub open spec fn parents_bytes(ps: Seq<Seq<char>>) -> Seq<u8>
    decreases ps.len(),
{
    if ps.len() == 0 {
        Seq::empty()
    } else {
        parent_word() + seq![32u8] + encode_utf8(ps[0]) + seq![10u8] + parents_bytes(ps.drop_first())
    }
}

/// A person line after its opening word: name, a space, then the date.
pub open spec fn person_bytes(name: Seq<char>, t: Timestamp) -> Seq<u8> {
    encode_utf8(name) + seq![32u8] + date_bytes(t)
}

/// The payload of a commit object: the tree line, the parent lines, the
/// author and committer lines, a blank line, then the message as it is.
pub open spec fn commit_bytes(c: CommitModel) -> Seq<u8> {
    tree_word() + encode_utf8(c.0) + seq![10u8] + parents_bytes(c.1) + author_word() + seq![32u8]
        + person_bytes(c.2, c.3) + seq![10u8] + committer_word() + seq![32u8] + person_bytes(c.4, c.5)
        + seq![10u8, 10u8] + encode_utf8(c.6)
}

/// Writing parent lines one after another appends their bytes.
pub proof fn lemma_parents_bytes_push(ps: Seq<Seq<char>>, p: Seq<char>)
    ensures
        parents_bytes(ps.push(p)) == parents_bytes(ps) + (parent_word() + seq![32u8] + encode_utf8(p)
            + seq![10u8]),
    decreases ps.len(),
{
    if ps.len() == 0 {
        assert(ps.push(p).drop_first() =~= Seq::<Seq<char>>::empty());
        assert(ps.push(p)[0] == p);
        assert(parents_bytes(ps) == Seq::<u8>::empty());
        assert(parents_bytes(ps.push(p)) == parent_word() + seq![32u8] + encode_utf8(p) + seq![10u8]
            + parents_bytes(Seq::<Seq<char>>::empty()));
        assert(parents_bytes(ps.push(p)) =~= parents_bytes(ps) + (parent_word() + seq![32u8]
            + encode_utf8(p) + seq![10u8]));
    } else {
        lemma_parents_bytes_push(ps.drop_first(), p);
        assert(ps.push(p).drop_first() =~= ps.drop_first().push(p));
        assert(ps.push(p)[0] == ps[0]);
        assert(parents_bytes(ps.push(p)) =~= parents_bytes(ps) + (parent_word() + seq![32u8]
            + encode_utf8(p) + seq![10u8]));
    }
}

/// The opening of a commit's first line.
fn tree_word_bytes() -> (r: Vec<u8>)
    ensures
        r@ == tree_word(),
{
    let r = vec![116u8, 114u8, 101u8, 101u8, 32u8];
    assert(r@ =~= tree_word());
    r
}

/// The word that opens a parent line.
fn parent_word_bytes() -> (r: Vec<u8>)
    ensures
        r@ == parent_word(),
{
    let r = vec![112u8, 97u8, 114u8, 101u8, 110u8, 116u8];
    assert(r@ =~= parent_word());
    r
}

/// The word that opens the author line.
fn author_word_bytes() -> (r: Vec<u8>)
    ensures
        r@ == author_word(),
{
    let r = vec![97u8, 117u8, 116u8, 104u8, 111u8, 114u8];
    assert(r@ =~= author_word());
    r
}

/// The word that opens the committer line.
fn committer_word_bytes() -> (r: Vec<u8>)
    ensures
        r@ == committer_word(),
{
    let r = vec![99u8, 111u8, 109u8, 109u8, 105u8, 116u8, 116u8, 101u8, 114u8];
    assert(r@ =~= committer_word());
    r
}

/// The word that opens a signature block.
fn gpgsig_word_bytes() -> (r: Vec<u8>)
    ensures
        r@ == gpgsig_word(),
{
    let r = vec![103u8, 112u8, 103u8, 115u8, 105u8, 103u8];
    assert(r@ =~= gpgsig_word());
    r
}

/// The line that closes a signature block.
fn sig_end_line_bytes() -> (r: Vec<u8>)
    ensures
        r@ == sig_end_line(),
{
    let r = vec![32u8, 45u8, 45u8, 45u8, 45u8, 45u8, 69u8, 78u8, 68u8, 32u8, 80u8, 71u8, 80u8, 32u8, 83u8, 73u8, 71u8, 78u8, 65u8, 84u8, 85u8, 82u8, 69u8, 45u8, 45u8, 45u8, 45u8, 45u8];
    assert(r@ =~= sig_end_line());
    r
}

/// Whether `a` begins with the bytes `b`.
fn starts_with(a: &[u8], b: &[u8]) -> (r: bool)
    ensures
        r == (b@.len() <= a@.len() && a@.subrange(0, b@.len() as int) == b@),
{
    if a.len() < b.len() {
        return false;
    }
    bytes_equal(vstd::slice::slice_subrange(a, 0, b.len()), b)
}

/// Converts lowercase hexadecimal digits into a string; any other byte
/// fails with `InvalidHex`.
pub fn string_from_hex_bytes(data: &[u8]) -> (r: GitResult<String>)
    ensures
        r is Ok <==> all_hex(data@),
        r matches Ok(s) ==> s@ == ascii_chars(data@),
        r matches Err(e) ==> e == GitError::InvalidHex,
{
    let mut i: usize = 0;
    while i < data.len()
        invariant
            i <= data@.len(),
            forall|k: int| 0 <= k < i ==> is_hex_byte(#[trigger] data@[k]),
        decreases data@.len() - i,
    {
        let b = data[i];
        if !((48u8 <= b && b <= 57u8) || (97u8 <= b && b <= 102u8)) {
            assert(!is_hex_byte(data@[i as int]));
            return Err(GitError::InvalidHex);
        }
        i = i + 1;
    }
    proof {
        lemma_ascii_text(data@);
    }
    let mut v: Vec<u8> = Vec::new();
    push_all(&mut v, data);
    assert(v@ =~= data@);
    match decode_text(v) {
        Ok(s) => Ok(s),
        Err(_) => Err(GitError::InvalidHex),
    }
}


/// The last position before `end` where `s` holds a space, if any.
pub open spec fn last_space_before(s: Seq<u8>, end: int) -> Option<int>
    decreases end,
{
    if end <= 0 || end > s.len() {
        None
    } else if s[end - 1] == 32u8 {
        Some(end - 1)
    } else {
        last_space_before(s, end - 1)
    }
}

/// Whether the seconds and offset that chrono read make a valid date.
pub open spec fn valid_date_parts(secs: int, off: int) -> bool {
    0 <= secs <= MAX_SECONDS && off % 60 == 0 && -86400 < off < 86400
}

/// Splits a person line at its last two spaces: the name before them, and
/// the date after the second-to-last one.
pub open spec fn person_of(l: Seq<u8>) -> GitResult<(Seq<char>, Timestamp)> {
    match last_space_before(l, l.len() as int) {
        None => Err(GitError::MalformedCommit),
        Some(a) => match last_space_before(l, a) {
            None => Err(GitError::MalformedCommit),
            Some(b) => {
                let name = l.subrange(0, b);
                let date = l.subrange(b + 1, l.len() as int);
                if !valid_utf8(name) || !valid_utf8(date) {
                    Err(GitError::InvalidUtf8)
                } else {
                    match date_parse_of(decode_utf8(date)) {
                        None => Err(GitError::MalformedCommit),
                        Some((secs, off)) => if !valid_date_parts(secs, off) {
                            Err(GitError::MalformedCommit)
                        } else {
                            Ok((decode_utf8(name), Timestamp { seconds: secs as i64, offset: off as i32 }))
                        },
                    }
                }
            },
        },
    }
}

/// The last position before `end` where `s` holds a space, if any.
fn find_last_space(s: &[u8], end: usize) -> (r: Option<usize>)
    requires
        end <= s@.len(),
    ensures
        match r {
            Some(i) => last_space_before(s@, end as int) == Some(i as int),
            None => last_space_before(s@, end as int) is None,
        },
{
    let mut k: usize = end;
    while k > 0
        invariant
            k <= end <= s@.len(),
            last_space_before(s@, end as int) == last_space_before(s@, k as int),
        decreases k,
    {
        if s[k - 1] == 32u8 {
            return Some(k - 1);
        }
        k = k - 1;
    }
    None
}

/// Reads a person line: the name and the date. A written person line
/// reads back as its name and date.
fn parse_person(l: &[u8]) -> (r: GitResult<(String, Timestamp)>)
    ensures
        match r {
            Ok((n, t)) => person_of(l@) == Ok::<(Seq<char>, Timestamp), GitError>((n@, t)),
            Err(e) => person_of(l@) == Err::<(Seq<char>, Timestamp), GitError>(e),
        },
        forall|n: Seq<char>, t: Timestamp|
            t.valid() && l@ == #[trigger] person_bytes(n, t) ==> (r matches Ok((n2, t2)) && n2@ == n
                && t2 == t),
{
    let a = match find_last_space(l, l.len()) {
        Some(a) => a,
        None => {
            proof {
                assert forall|n: Seq<char>, t: Timestamp|
                    t.valid() && l@ == #[trigger] person_bytes(n, t) implies false by {
                    lemma_person_layout(n, t);
                }
            }
            return Err(GitError::MalformedCommit);
        },
    };
    proof {
        lemma_last_space_bound(l@, l@.len() as int);
    }
    let b = match find_last_space(l, a) {
        Some(b) => b,
        None => {
            proof {
                assert forall|n: Seq<char>, t: Timestamp|
                    t.valid() && l@ == #[trigger] person_bytes(n, t) implies false by {
                    lemma_person_layout(n, t);
                }
            }
            return Err(GitError::MalformedCommit);
        },
    };
    proof {
        lemma_last_space_bound(l@, a as int);
    }
    let mut name_bytes: Vec<u8> = Vec::new();
    push_all(&mut name_bytes, vstd::slice::slice_subrange(l, 0, b));
    let mut date_bytes_v: Vec<u8> = Vec::new();
    push_all(&mut date_bytes_v, vstd::slice::slice_subrange(l, b + 1, l.len()));
    let ghost nb = name_bytes@;
    let ghost db = date_bytes_v@;
    proof {
        assert forall|n: Seq<char>, t: Timestamp|
            t.valid() && l@ == #[trigger] person_bytes(n, t) implies nb == encode_utf8(n) && db
            == date_bytes(t) by {
            lemma_person_layout(n, t);
        }
    }
    let name = match decode_text(name_bytes) {
        Ok(s) => s,
        Err(e) => {
            proof {
                assert forall|n: Seq<char>, t: Timestamp|
                    t.valid() && l@ == #[trigger] person_bytes(n, t) implies false by {
                    vstd::utf8::encode_utf8_valid_utf8(n);
                }
            }
            return Err(e);
        },
    };
    let date = match decode_text(date_bytes_v) {
        Ok(s) => s,
        Err(e) => {
            proof {
                assert forall|n: Seq<char>, t: Timestamp|
                    t.valid() && l@ == #[trigger] person_bytes(n, t) implies false by {
                    lemma_date_ascii(t);
                    lemma_ascii_text(date_bytes(t));
                }
            }
            return Err(e);
        },
    };
    proof {
        assert forall|n: Seq<char>, t: Timestamp|
            t.valid() && l@ == #[trigger] person_bytes(n, t) implies date@ == date_text(t) && name@
            == n by {
            lemma_date_ascii(t);
            lemma_ascii_text(date_bytes(t));
            vstd::utf8::encode_utf8_decode_utf8(n);
        }
    }
    let t = match parse_date(date.as_str()) {
        Some(t) => t,
        None => return Err(GitError::MalformedCommit),
    };
    if !(0 <= t.seconds && t.seconds <= MAX_SECONDS && t.offset % 60 == 0 && -86400 < t.offset
        && t.offset < 86400) {
        return Err(GitError::MalformedCommit);
    }
    Ok((name, t))
}

/// Where the spaces, the name and the date lie in a written person line.
proof fn lemma_person_layout(n: Seq<char>, t: Timestamp)
    requires
        t.valid(),
    ensures
        ({
            let l = person_bytes(n, t);
            let e = encode_utf8(n);
            let d = dec_digits(t.seconds as nat);
            &&& last_space_before(l, l.len() as int) == Some(e.len() + 1 + d.len() as int)
            &&& last_space_before(l, e.len() + 1 + d.len() as int) == Some(e.len() as int)
            &&& l.subrange(0, e.len() as int) == e
            &&& l.subrange(e.len() as int + 1, l.len() as int) == date_bytes(t)
        }),
{
    let l = person_bytes(n, t);
    let e = encode_utf8(n);
    let d = dec_digits(t.seconds as nat);
    let db = date_bytes(t);
    lemma_dec_digits(t.seconds as nat);
    lemma_date_ascii(t);
    let a = e.len() as int + 1 + d.len() as int;
    assert(l[a] == 32u8);
    assert(l.len() == a + 6);
    assert forall|k: int| a < k < l.len() implies l[k] != 32u8 by {
        assert(l[k] == db[k - e.len() - 1]);
    }
    assert(last_space_before(l, l.len() as int) == Some(a)) by {
        reveal_with_fuel(last_space_before, 7);
    }
    assert(l[e.len() as int] == 32u8);
    assert forall|k: int| e.len() < k < a implies l[k] != 32u8 by {
        assert(l[k] == d[k - e.len() - 1]);
    }
    lemma_last_space_from(l, e.len() as int, a);
    assert(l.subrange(0, e.len() as int) =~= e);
    assert(l.subrange(e.len() as int + 1, l.len() as int) =~= db);
}

/// The last space before `end` is at `i` when `s[i]` is a space and no
/// space lies between.
proof fn lemma_last_space_from(s: Seq<u8>, i: int, end: int)
    requires
        0 <= i < end <= s.len(),
        s[i] == 32u8,
        forall|k: int| i < k < end ==> s[k] != 32u8,
    ensures
        last_space_before(s, end) == Some(i),
    decreases end - i,
{
    if end - 1 > i {
        lemma_last_space_from(s, i, end - 1);
    }
}

/// Positions that `last_space_before` finds lie before its bound.
proof fn lemma_last_space_bound(s: Seq<u8>, end: int)
    ensures
        last_space_before(s, end) matches Some(i) ==> 0 <= i < end && s[i] == 32u8,
    decreases end,
{
    if end > 0 && end <= s.len() && s[end - 1] != 32u8 {
        lemma_last_space_bound(s, end - 1);
    }
}


/// Reads the tree line: `tree `, forty hex digits, a newline.
pub open spec fn tree_line(s: Seq<u8>) -> GitResult<(Seq<char>, int)> {
    match scan_until(s, 0, 10u8) {
        Err(e) => Err(e),
        Ok((l, p)) => if l.len() != 45 || l.subrange(0, 5) != tree_word() {
            Err(GitError::MalformedCommit)
        } else if !all_hex(l.subrange(5, 45)) {
            Err(GitError::InvalidHex)
        } else {
            Ok((ascii_chars(l.subrange(5, 45)), p))
        },
    }
}

/// Reads the parent lines from `p`: the parent hashes, then the first word
/// that is not `parent` and the position after it.
pub open spec fn parse_parents(s: Seq<u8>, p: int) -> GitResult<(Seq<Seq<char>>, Seq<u8>, int)>
    decreases s.len() - p,
{
    match scan_until(s, p, 32u8) {
        Err(e) => Err(e),
        Ok((w, q)) => if w != parent_word() {
            Ok((Seq::empty(), w, q))
        } else {
            match scan_until(s, q, 10u8) {
                Err(e) => Err(e),
                Ok((h, r)) => if h.len() != 40 {
                    Err(GitError::MalformedCommit)
                } else if !all_hex(h) {
                    Err(GitError::InvalidHex)
                } else if r <= p || r > s.len() {
                    Err(GitError::Unexpected)
                } else {
                    match parse_parents(s, r) {
                        Err(e) => Err(e),
                        Ok((ps, w2, t)) => Ok((seq![ascii_chars(h)] + ps, w2, t)),
                    }
                },
            }
        },
    }
}

/// Reads a person line from `p` up to its newline.
pub open spec fn person_line(s: Seq<u8>, p: int) -> GitResult<(Seq<char>, Timestamp, int)> {
    match scan_until(s, p, 10u8) {
        Err(e) => Err(e),
        Ok((l, q)) => match person_of(l) {
            Err(e) => Err(e),
            Ok((n, t)) => Ok((n, t, q)),
        },
    }
}

/// Skips signature lines from `p` through the closing line.
pub open spec fn skip_sig(s: Seq<u8>, p: int) -> GitResult<int>
    decreases s.len() - p,
{
    match scan_until(s, p, 10u8) {
        Err(e) => Err(e),
        Ok((l, q)) => if l == sig_end_line() {
            Ok(q)
        } else if q <= p || q > s.len() {
            Err(GitError::Unexpected)
        } else {
            skip_sig(s, q)
        },
    }
}

/// Reads the blank line that ends the header, after an optional signature
/// block, which is dropped.
pub open spec fn separator(s: Seq<u8>, p: int) -> GitResult<int> {
    match scan_until(s, p, 10u8) {
        Err(e) => Err(e),
        Ok((l, q)) => if l.len() >= 6 && l.subrange(0, 6) == gpgsig_word() {
            match skip_sig(s, q) {
                Err(e) => Err(e),
                Ok(r) => match scan_until(s, r, 10u8) {
                    Err(e) => Err(e),
                    Ok((l2, t)) => if l2.len() == 0 {
                        Ok(t)
                    } else {
                        Err(GitError::MalformedCommit)
                    },
                },
            }
        } else if l.len() == 0 {
            Ok(q)
        } else {
            Err(GitError::MalformedCommit)
        },
    }
}

/// Parses the payload of a commit object.
pub open spec fn parse_commit_bytes(s: Seq<u8>) -> GitResult<CommitModel> {
    match tree_line(s) {
        Err(e) => Err(e),
        Ok((tree, p1)) => match parse_parents(s, p1) {
            Err(e) => Err(e),
            Ok((ps, w, p2)) => if w != author_word() {
                Err(GitError::MalformedCommit)
            } else {
                match person_line(s, p2) {
                    Err(e) => Err(e),
                    Ok((an, ad, p3)) => match scan_until(s, p3, 32u8) {
                        Err(e) => Err(e),
                        Ok((w2, p4)) => if w2 != committer_word() {
                            Err(GitError::MalformedCommit)
                        } else {
                            match person_line(s, p4) {
                                Err(e) => Err(e),
                                Ok((cn, cd, p5)) => match separator(s, p5) {
                                    Err(e) => Err(e),
                                    Ok(p6) => {
                                        let msg = s.subrange(p6, s.len() as int);
                                        if !valid_utf8(msg) {
                                            Err(GitError::InvalidUtf8)
                                        } else {
                                            Ok((tree, ps, an, ad, cn, cd, decode_utf8(msg)))
                                        }
                                    },
                                },
                            }
                        },
                    },
                }
            },
        },
    }
}

/// Reads the tree line.
fn read_tree_line(s: &[u8]) -> (r: GitResult<(String, usize)>)
    ensures
        match r {
            Ok((t, p)) => tree_line(s@) == Ok::<(Seq<char>, int), GitError>((t@, p as int)),
            Err(e) => tree_line(s@) == Err::<(Seq<char>, int), GitError>(e),
        },
        r matches Ok((t, p)) ==> p <= s@.len(),
{
    let (l, p) = read_until(s, 0, 10u8)?;
    if l.len() != 45 || !starts_with(l.as_slice(), tree_word_bytes().as_slice()) {
        return Err(GitError::MalformedCommit);
    }
    let tree = string_from_hex_bytes(vstd::slice::slice_subrange(l.as_slice(), 5, 45))?;
    Ok((tree, p))
}

/// Reads the parent lines.
fn read_parents(s: &[u8], p0: usize) -> (r: GitResult<(Vec<String>, Vec<u8>, usize)>)
    requires
        p0 <= s@.len(),
    ensures
        match r {
            Ok((ps, w, q)) => parse_parents(s@, p0 as int) == Ok::<(Seq<Seq<char>>, Seq<u8>, int), GitError>(
                (ps@.map_values(|x: String| x@), w@, q as int),
            ),
            Err(e) => parse_parents(s@, p0 as int) == Err::<(Seq<Seq<char>>, Seq<u8>, int), GitError>(e),
        },
        r matches Ok((ps, w, q)) ==> q <= s@.len(),
{
    let mut parents: Vec<String> = Vec::new();
    let mut p: usize = p0;
    let pw = parent_word_bytes();
    loop
        invariant
            p0 <= p <= s@.len(),
            pw@ == parent_word(),
            parse_parents(s@, p0 as int) == match parse_parents(s@, p as int) {
                Ok((ps, w, t)) => Ok((parents@.map_values(|x: String| x@) + ps, w, t)),
                Err(e) => Err(e),
            },
        decreases s@.len() - p,
    {
        let ghost acc = parents@.map_values(|x: String| x@);
        let (w, q) = read_until(s, p, 32u8)?;
        if !bytes_equal(w.as_slice(), pw.as_slice()) {
            assert(acc + Seq::<Seq<char>>::empty() =~= acc);
            return Ok((parents, w, q));
        }
        let (h, r) = read_until(s, q, 10u8)?;
        if h.len() != 40 {
            return Err(GitError::MalformedCommit);
        }
        let parent = string_from_hex_bytes(h.as_slice())?;
        let ghost item = parent@;
        parents.push(parent);
        proof {
            assert(parents@.map_values(|x: String| x@) =~= acc.push(item));
            let rest = parse_parents(s@, r as int);
            if rest is Ok {
                let (ps, w2, t) = rest->Ok_0;
                assert(acc + (seq![item] + ps) =~= acc.push(item) + ps);
            }
        }
        p = r;
    }
}

/// Reads a person line from `p` up to its newline. A written person line
/// reads back as its name and date.
fn read_person_line(s: &[u8], p: usize) -> (r: GitResult<(String, Timestamp, usize)>)
    requires
        p <= s@.len(),
    ensures
        match r {
            Ok((n, t, q)) => person_line(s@, p as int) == Ok::<(Seq<char>, Timestamp, int), GitError>(
                (n@, t, q as int),
            ),
            Err(e) => person_line(s@, p as int) == Err::<(Seq<char>, Timestamp, int), GitError>(e),
        },
        r matches Ok((n, t, q)) ==> q <= s@.len(),
        forall|n: Seq<char>, t: Timestamp|
            t.valid() && no_byte(encode_utf8(n), 10u8) && p + person_bytes(n, t).len() + 1 <= s@.len()
                && s@.subrange(p as int, p + person_bytes(n, t).len() + 1) == #[trigger] person_bytes(n, t)
                + seq![10u8] ==> (r matches Ok((n2, t2, q)) && n2@ == n && t2 == t && q == p
                + person_bytes(n, t).len() + 1),
{
    proof {
        assert forall|n: Seq<char>, t: Timestamp|
            t.valid() && no_byte(encode_utf8(n), 10u8) && p + person_bytes(n, t).len() + 1 <= s@.len()
                && s@.subrange(p as int, p + person_bytes(n, t).len() + 1) == #[trigger] person_bytes(n, t)
                + seq![10u8] implies scan_until(s@, p as int, 10u8) == Ok::<(Seq<u8>, int), GitError>(
            (person_bytes(n, t), p + person_bytes(n, t).len() + 1),
        ) by {
            let pb = person_bytes(n, t);
            let w = s@.subrange(p as int, p + pb.len() + 1);
            lemma_date_ascii(t);
            assert(s@.subrange(p as int, p + pb.len()) =~= pb) by {
                assert forall|i: int| 0 <= i < pb.len() implies s@.subrange(p as int, p + pb.len())[i]
                    == pb[i] by {
                    assert(s@.subrange(p as int, p + pb.len())[i] == w[i]);
                }
            }
            assert(s@[p + pb.len()] == w[pb.len() as int]);
            assert forall|i: int| 0 <= i < pb.len() implies #[trigger] pb[i] != 10u8 by {
                let e = encode_utf8(n);
                if i < e.len() {
                    assert(pb[i] == e[i]);
                } else if i > e.len() {
                    assert(pb[i] == date_bytes(t)[i - e.len() - 1]);
                }
            }
            lemma_scan(s@, p as int, pb, 10u8);
        }
    }
    let (l, q) = match read_until(s, p, 10u8) {
        Ok(x) => x,
        Err(e) => {
            return Err(e);
        },
    };
    let (n, t) = match parse_person(l.as_slice()) {
        Ok(x) => x,
        Err(e) => {
            return Err(e);
        },
    };
    Ok((n, t, q))
}

/// Skips signature lines from `p` through the closing line.
fn skip_signature(s: &[u8], p0: usize) -> (r: GitResult<usize>)
    requires
        p0 <= s@.len(),
    ensures
        match r {
            Ok(q) => skip_sig(s@, p0 as int) == Ok::<int, GitError>(q as int),
            Err(e) => skip_sig(s@, p0 as int) == Err::<int, GitError>(e),
        },
        r matches Ok(q) ==> q <= s@.len(),
{
    let end = sig_end_line_bytes();
    let mut p: usize = p0;
    loop
        invariant
            p0 <= p <= s@.len(),
            end@ == sig_end_line(),
            skip_sig(s@, p0 as int) == skip_sig(s@, p as int),
        decreases s@.len() - p,
    {
        let (l, q) = read_until(s, p, 10u8)?;
        if bytes_equal(l.as_slice(), end.as_slice()) {
            return Ok(q);
        }
        p = q;
    }
}

/// Reads the blank line that ends the header, dropping a signature block
/// before it.
fn read_separator(s: &[u8], p: usize) -> (r: GitResult<usize>)
    requires
        p <= s@.len(),
    ensures
        match r {
            Ok(q) => separator(s@, p as int) == Ok::<int, GitError>(q as int),
            Err(e) => separator(s@, p as int) == Err::<int, GitError>(e),
        },
        r matches Ok(q) ==> q <= s@.len(),
{
    let (l, q) = read_until(s, p, 10u8)?;
    if starts_with(l.as_slice(), gpgsig_word_bytes().as_slice()) {
        let r = skip_signature(s, q)?;
        let (l2, t) = read_until(s, r, 10u8)?;
        if l2.len() == 0 {
            Ok(t)
        } else {
            Err(GitError::MalformedCommit)
        }
    } else if l.len() == 0 {
        Ok(q)
    } else {
        Err(GitError::MalformedCommit)
    }
}

/// Parses the payload of a commit object. A signature block is read and
/// dropped. What `Commit::to_object` writes for a well-formed commit reads
/// back as that commit.
pub fn parse_commit(s: &[u8]) -> (r: GitResult<Commit>)
    ensures
        match r {
            Ok(c) => parse_commit_bytes(s@) == Ok::<CommitModel, GitError>(c@),
            Err(e) => parse_commit_bytes(s@) == Err::<CommitModel, GitError>(e),
        },
        forall|m: CommitModel|
            well_formed_commit(m) && s@ == #[trigger] commit_bytes(m) ==> (r matches Ok(c) && c@ == m),
{
    let (tree, p1) = match read_tree_line(s) {
        Ok(x) => x,
        Err(e) => {
            proof {
                assert forall|m: CommitModel|
                    well_formed_commit(m) && s@ == #[trigger] commit_bytes(m) implies false by {
                    lemma_commit_read(m);
                }
            }
            return Err(e);
        },
    };
    let (parents, w, p2) = match read_parents(s, p1) {
        Ok(x) => x,
        Err(e) => {
            proof {
                assert forall|m: CommitModel|
                    well_formed_commit(m) && s@ == #[trigger] commit_bytes(m) implies false by {
                    lemma_commit_read(m);
                }
            }
            return Err(e);
        },
    };
    if !bytes_equal(w.as_slice(), author_word_bytes().as_slice()) {
        proof {
            assert forall|m: CommitModel|
                well_formed_commit(m) && s@ == #[trigger] commit_bytes(m) implies false by {
                lemma_commit_read(m);
            }
        }
        return Err(GitError::MalformedCommit);
    }
    proof {
        assert forall|m: CommitModel| well_formed_commit(m) && s@ == #[trigger] commit_bytes(m) implies p2
            == 46 + parents_bytes(m.1).len() + 7 && tree@ == m.0 && parents@.map_values(|x: String| x@)
            == m.1 by {
            lemma_commit_read(m);
        }
    }
    let (author, author_date, p3) = match read_person_line(s, p2) {
        Ok(x) => x,
        Err(e) => {
            proof {
                assert forall|m: CommitModel|
                    well_formed_commit(m) && s@ == #[trigger] commit_bytes(m) implies false by {
                    lemma_commit_read(m);
                    assert(person_bytes(m.2, m.3) + seq![10u8] == s@.subrange(
                        p2 as int,
                        p2 + person_bytes(m.2, m.3).len() + 1,
                    ));
                }
            }
            return Err(e);
        },
    };
    proof {
        assert forall|m: CommitModel| well_formed_commit(m) && s@ == #[trigger] commit_bytes(m) implies p3
            == p2 + person_bytes(m.2, m.3).len() + 1 && author@ == m.2 && author_date == m.3 by {
            lemma_commit_read(m);
            assert(person_bytes(m.2, m.3) + seq![10u8] == s@.subrange(
                p2 as int,
                p2 + person_bytes(m.2, m.3).len() + 1,
            ));
        }
    }
    let (w2, p4) = match read_until(s, p3, 32u8) {
        Ok(x) => x,
        Err(e) => {
            proof {
                assert forall|m: CommitModel|
                    well_formed_commit(m) && s@ == #[trigger] commit_bytes(m) implies false by {
                    lemma_commit_read(m);
                }
            }
            return Err(e);
        },
    };
    if !bytes_equal(w2.as_slice(), committer_word_bytes().as_slice()) {
        proof {
            assert forall|m: CommitModel|
                well_formed_commit(m) && s@ == #[trigger] commit_bytes(m) implies false by {
                lemma_commit_read(m);
            }
        }
        return Err(GitError::MalformedCommit);
    }
    let (committer, committer_date, p5) = match read_person_line(s, p4) {
        Ok(x) => x,
        Err(e) => {
            proof {
                assert forall|m: CommitModel|
                    well_formed_commit(m) && s@ == #[trigger] commit_bytes(m) implies false by {
                    lemma_commit_read(m);
                    assert(person_bytes(m.4, m.5) + seq![10u8] == s@.subrange(
                        p4 as int,
                        p4 + person_bytes(m.4, m.5).len() + 1,
                    ));
                }
            }
            return Err(e);
        },
    };
    proof {
        assert forall|m: CommitModel| well_formed_commit(m) && s@ == #[trigger] commit_bytes(m) implies p5
            == p4 + person_bytes(m.4, m.5).len() + 1 && committer@ == m.4 && committer_date == m.5 by {
            lemma_commit_read(m);
            assert(person_bytes(m.4, m.5) + seq![10u8] == s@.subrange(
                p4 as int,
                p4 + person_bytes(m.4, m.5).len() + 1,
            ));
        }
    }
    let p6 = match read_separator(s, p5) {
        Ok(x) => x,
        Err(e) => {
            proof {
                assert forall|m: CommitModel|
                    well_formed_commit(m) && s@ == #[trigger] commit_bytes(m) implies false by {
                    lemma_commit_read(m);
                }
            }
            return Err(e);
        },
    };
    let mut msg: Vec<u8> = Vec::new();
    push_all(&mut msg, vstd::slice::slice_subrange(s, p6, s.len()));
    let message = match decode_text(msg) {
        Ok(x) => x,
        Err(e) => {
            proof {
                assert forall|m: CommitModel|
                    well_formed_commit(m) && s@ == #[trigger] commit_bytes(m) implies false by {
                    lemma_commit_read(m);
                    vstd::utf8::encode_utf8_valid_utf8(m.6);
                }
            }
            return Err(e);
        },
    };
    let c = Commit { tree, parents, author, author_date, committer, committer_date, message };
    proof {
        assert forall|m: CommitModel| well_formed_commit(m) && s@ == #[trigger] commit_bytes(m) implies c@
            == m by {
            lemma_commit_read(m);
            vstd::utf8::encode_utf8_decode_utf8(m.6);
        }
    }
    Ok(c)
}

/// Reads a commit from a stored object; an object of another kind fails
/// with `MalformedCommit`. Reading the object that `Commit::to_object`
/// makes of a well-formed commit gives that commit back.
pub fn from_object(object: &Object) -> (r: GitResult<Commit>)
    ensures
        forall|m: CommitModel|
            object.kind == ObjectType::Commit && well_formed_commit(m) && object.data@
                == #[trigger] commit_bytes(m) ==> (r matches Ok(c) && c@ == m),
        object.kind != ObjectType::Commit ==> r == Err::<Commit, GitError>(GitError::MalformedCommit),
        object.kind == ObjectType::Commit ==> match r {
            Ok(c) => parse_commit_bytes(object.data@) == Ok::<CommitModel, GitError>(c@),
            Err(e) => parse_commit_bytes(object.data@) == Err::<CommitModel, GitError>(e),
        },
{
    if object.kind != ObjectType::Commit {
        return Err(GitError::MalformedCommit);
    }
    parse_commit(object.data.as_slice())
}


/// The bytes of a valid date are ASCII, so its text encodes to them.
pub proof fn lemma_date_ascii(t: Timestamp)
    requires
        t.valid(),
    ensures
        forall|i: int| 0 <= i < date_bytes(t).len() ==> #[trigger] date_bytes(t)[i] < 128,
        encode_utf8(date_text(t)) == date_bytes(t),
        forall|i: int| 0 <= i < date_bytes(t).len() ==> #[trigger] date_bytes(t)[i] != 10u8,
{
    let d = dec_digits(t.seconds as nat);
    lemma_dec_digits(t.seconds as nat);
    let a: int = if t.offset < 0 {
        -t.offset
    } else {
        t.offset as int
    };
    assert(a / 3600 <= 23);
    assert((a / 60) % 60 < 60);
    let b = date_bytes(t);
    assert forall|i: int| 0 <= i < b.len() implies #[trigger] b[i] < 128 && b[i] != 10u8 by {
        if i < d.len() {
            assert(b[i] == d[i]);
        }
    }
    lemma_ascii_text(b);
}

impl Commit {
    /// The commit object for this commit: the tree line, one line per
    /// parent, the author and committer lines with their dates, a blank
    /// line, then the message unchanged.
    pub fn to_object(&self) -> (r: Object)
        requires
            self.author_date.valid(),
            self.committer_date.valid(),
        ensures
            r.kind == ObjectType::Commit,
            r.data@ == commit_bytes(self@),
    {
        let mut d = tree_word_bytes();
        push_all(&mut d, string_bytes(&self.tree).as_slice());
        d.push(10u8);
        let ghost head = d@;
        let ghost ps = self.parents@.map_values(|x: String| x@);
        let pw = parent_word_bytes();
        let mut i: usize = 0;
        assert(ps.take(0) =~= Seq::<Seq<char>>::empty());
        assert(d@ =~= head + parents_bytes(ps.take(0)));
        while i < self.parents.len()
            invariant
                i <= self.parents@.len(),
                ps == self.parents@.map_values(|x: String| x@),
                pw@ == parent_word(),
                d@ == head + parents_bytes(ps.take(i as int)),
            decreases self.parents@.len() - i,
        {
            let ghost before = d@;
            push_all(&mut d, pw.as_slice());
            d.push(32u8);
            push_all(&mut d, string_bytes(&self.parents[i]).as_slice());
            d.push(10u8);
            proof {
                let p = ps[i as int];
                assert(p == self.parents@[i as int]@);
                lemma_parents_bytes_push(ps.take(i as int), p);
                assert(ps.take(i as int).push(p) =~= ps.take(i + 1));
                assert(d@ =~= before + (parent_word() + seq![32u8] + encode_utf8(p) + seq![10u8]));
            }
            i = i + 1;
        }
        assert(ps.take(self.parents@.len() as int) =~= ps);
        let ghost g = d@;
        push_all(&mut d, author_word_bytes().as_slice());
        d.push(32u8);
        push_all(&mut d, string_bytes(&self.author).as_slice());
        d.push(32u8);
        push_all(&mut d, string_bytes(&format_date(self.author_date)).as_slice());
        d.push(10u8);
        proof {
            lemma_date_ascii(self.author_date);
            assert(d@ =~= g + author_word() + seq![32u8] + person_bytes(self.author@, self.author_date)
                + seq![10u8]);
        }
        let ghost g = d@;
        push_all(&mut d, committer_word_bytes().as_slice());
        d.push(32u8);
        push_all(&mut d, string_bytes(&self.committer).as_slice());
        d.push(32u8);
        push_all(&mut d, string_bytes(&format_date(self.committer_date)).as_slice());
        d.push(10u8);
        d.push(10u8);
        proof {
            lemma_date_ascii(self.committer_date);
            assert(d@ =~= g + committer_word() + seq![32u8] + person_bytes(
                self.committer@,
                self.committer_date,
            ) + seq![10u8, 10u8]);
        }
        let ghost g = d@;
        push_all(&mut d, string_bytes(&self.message).as_slice());
        assert(d@ =~= commit_bytes(self@));
        Object { kind: ObjectType::Commit, data: d }
    }
}


/// Whether no byte of `s` is `b`.
pub open spec fn no_byte(s: Seq<u8>, b: u8) -> bool {
    forall|i: int| 0 <= i < s.len() ==> #[trigger] s[i] != b
}

/// Whether a commit can be written and read back unchanged: forty hex
/// digits for the tree and each parent, names whose UTF-8 form holds no
/// newline, and valid dates. (A signature block is never kept.)
pub open spec fn well_formed_commit(c: CommitModel) -> bool {
    &&& c.0.len() == 40 && hex_chars(c.0)
    &&& forall|i: int| 0 <= i < c.1.len() ==> (#[trigger] c.1[i]).len() == 40 && hex_chars(c.1[i])
    &&& no_byte(encode_utf8(c.2), 10u8)
    &&& no_byte(encode_utf8(c.4), 10u8)
    &&& c.3.valid()
    &&& c.5.valid()
}

/// Scanning stops at the delimiter that ends a run free of it.
pub proof fn lemma_scan(s: Seq<u8>, p: int, x: Seq<u8>, end: u8)
    requires
        0 <= p,
        p + x.len() + 1 <= s.len(),
        s.subrange(p, p + x.len()) == x,
        s[p + x.len()] == end,
        no_byte(x, end),
    ensures
        scan_until(s, p, end) == Ok::<(Seq<u8>, int), GitError>((x, p + x.len() + 1)),
{
    assert forall|k: int| p <= k < p + x.len() implies s[k] != end by {
        assert(s[k] == s.subrange(p, p + x.len())[k - p]);
    }
    crate::parse::lemma_delim_at(s, p, p + x.len(), end);
}

/// Hex digit characters are ASCII: their bytes are hex digits, one per
/// character, and read back as the same characters.
pub proof fn lemma_hex_chars(h: Seq<char>)
    requires
        hex_chars(h),
    ensures
        encode_utf8(h).len() == h.len(),
        all_hex(encode_utf8(h)),
        ascii_chars(encode_utf8(h)) == h,
        no_byte(encode_utf8(h), 10u8),
        no_byte(encode_utf8(h), 32u8),
{
    assert forall|i: int| 0 <= i < h.len() implies '\0' <= #[trigger] h[i] <= '\u{7f}' by {
        assert('0' <= h[i] <= '9' || 'a' <= h[i] <= 'f');
    }
    vstd::utf8::is_ascii_chars_encode_utf8(h);
    let e = encode_utf8(h);
    assert forall|i: int| 0 <= i < e.len() implies is_hex_byte(#[trigger] e[i]) && e[i] != 10u8
        && e[i] != 32u8 by {
        assert(h[i] as u8 == e[i]);
        assert('0' <= h[i] <= '9' || 'a' <= h[i] <= 'f');
    }
    assert forall|i: int| 0 <= i < h.len() implies #[trigger] ascii_chars(e)[i] == h[i] by {
        assert(h[i] as u8 == e[i]);
        assert('0' <= h[i] <= '9' || 'a' <= h[i] <= 'f');
    }
    assert(ascii_chars(e) =~= h);
}


/// A written tree line reads back as its hash.
proof fn lemma_tree_line(s: Seq<u8>, tree: Seq<char>)
    requires
        tree.len() == 40,
        hex_chars(tree),
        46 <= s.len(),
        s.subrange(0, 46) == tree_word() + encode_utf8(tree) + seq![10u8],
    ensures
        tree_line(s) == Ok::<(Seq<char>, int), GitError>((tree, 46)),
{
    lemma_hex_chars(tree);
    let l = tree_word() + encode_utf8(tree);
    assert(s.subrange(0, 45) =~= l);
    assert(s[45] == s.subrange(0, 46)[45]);
    assert forall|i: int| 0 <= i < l.len() implies #[trigger] l[i] != 10u8 by {
        if i >= 5 {
            assert(l[i] == encode_utf8(tree)[i - 5]);
        }
    }
    lemma_scan(s, 0, l, 10u8);
    assert(l.subrange(0, 5) =~= tree_word());
    assert(l.subrange(5, 45) =~= encode_utf8(tree));
}

/// A run of written parent lines followed by the author word reads back
/// as the parent hashes.
proof fn lemma_parents(s: Seq<u8>, p: int, ps: Seq<Seq<char>>)
    requires
        forall|i: int| 0 <= i < ps.len() ==> (#[trigger] ps[i]).len() == 40 && hex_chars(ps[i]),
        0 <= p,
        p + parents_bytes(ps).len() + 7 <= s.len(),
        s.subrange(p, p + parents_bytes(ps).len() + 7) == parents_bytes(ps) + author_word() + seq![32u8],
    ensures
        parse_parents(s, p) == Ok::<(Seq<Seq<char>>, Seq<u8>, int), GitError>(
            (ps, author_word(), p + parents_bytes(ps).len() + 7),
        ),
    decreases ps.len(),
{
    let pb = parents_bytes(ps);
    let w = s.subrange(p, p + pb.len() + 7);
    if ps.len() == 0 {
        assert(s.subrange(p, p + 6) =~= author_word()) by {
            assert forall|i: int| 0 <= i < 6 implies s.subrange(p, p + 6)[i] == author_word()[i] by {
                assert(s.subrange(p, p + 6)[i] == w[i]);
            }
        }
        assert(s[p + 6] == w[6]);
        lemma_scan(s, p, author_word(), 32u8);
        assert(author_word() != parent_word()) by {
            assert(author_word()[0] != parent_word()[0]);
        }
        assert(ps =~= Seq::<Seq<char>>::empty());
    } else {
        let h = ps[0];
        lemma_hex_chars(h);
        let eh = encode_utf8(h);
        let rest = parents_bytes(ps.drop_first());
        assert(pb == parent_word() + seq![32u8] + eh + seq![10u8] + rest);
        assert forall|i: int| 0 <= i < 6 implies s.subrange(p, p + 6)[i] == parent_word()[i] by {
            assert(s.subrange(p, p + 6)[i] == w[i]);
        }
        assert(s.subrange(p, p + 6) =~= parent_word());
        assert(s[p + 6] == w[6]);
        lemma_scan(s, p, parent_word(), 32u8);
        assert forall|i: int| 0 <= i < 40 implies s.subrange(p + 7, p + 47)[i] == eh[i] by {
            assert(s.subrange(p + 7, p + 47)[i] == w[7 + i]);
        }
        assert(s.subrange(p + 7, p + 47) =~= eh);
        assert(s[p + 47] == w[47]);
        lemma_scan(s, p + 7, eh, 10u8);
        let r = p + 48;
        assert forall|i: int| 0 <= i < rest.len() + 7 implies s.subrange(r, r + rest.len() + 7)[i]
            == (rest + author_word() + seq![32u8])[i] by {
            assert(s.subrange(r, r + rest.len() + 7)[i] == w[48 + i]);
        }
        assert(s.subrange(r, r + rest.len() + 7) =~= rest + author_word() + seq![32u8]);
        assert forall|i: int| 0 <= i < ps.drop_first().len() implies (
        #[trigger] ps.drop_first()[i]).len() == 40 && hex_chars(ps.drop_first()[i]) by {
            assert(ps.drop_first()[i] == ps[i + 1]);
        }
        lemma_parents(s, r, ps.drop_first());
        assert(seq![ascii_chars(eh)] + ps.drop_first() =~= ps);
    }
}


/// Where each part of a written commit lies, and how the parts read back.
#[verifier::rlimit(60)]
proof fn lemma_commit_read(m: CommitModel)
    requires
        well_formed_commit(m),
    ensures
        ({
            let s = commit_bytes(m);
            let p2: int = 46 + parents_bytes(m.1).len() as int + 7;
            let p3: int = p2 + person_bytes(m.2, m.3).len() + 1;
            let p4: int = p3 + 10;
            let p5: int = p4 + person_bytes(m.4, m.5).len() + 1;
            &&& tree_line(s) == Ok::<(Seq<char>, int), GitError>((m.0, 46))
            &&& parse_parents(s, 46) == Ok::<(Seq<Seq<char>>, Seq<u8>, int), GitError>(
                (m.1, author_word(), p2),
            )
            &&& p3 <= s.len()
            &&& s.subrange(p2, p3) == person_bytes(m.2, m.3) + seq![10u8]
            &&& scan_until(s, p3, 32u8) == Ok::<(Seq<u8>, int), GitError>((committer_word(), p4))
            &&& p5 <= s.len()
            &&& s.subrange(p4, p5) == person_bytes(m.4, m.5) + seq![10u8]
            &&& separator(s, p5) == Ok::<int, GitError>(p5 + 1)
            &&& s.subrange(p5 + 1, s.len() as int) == encode_utf8(m.6)
        }),
{
    let s = commit_bytes(m);
    lemma_hex_chars(m.0);
    lemma_commit_layout(m);
    let pb = parents_bytes(m.1);
    let pa = person_bytes(m.2, m.3) + seq![10u8];
    let pc = person_bytes(m.4, m.5) + seq![10u8];
    let p2: int = 46 + pb.len() as int + 7;
    let p3: int = p2 + pa.len();
    let p4: int = p3 + 10;
    let p5: int = p4 + pc.len();
    lemma_tree_line(s, m.0);
    lemma_parents(s, 46, m.1);
    assert(no_byte(committer_word(), 32u8));
    lemma_scan(s, p3, committer_word(), 32u8);
    assert(s.subrange(p5, p5) =~= Seq::<u8>::empty());
    lemma_scan(s, p5, Seq::<u8>::empty(), 10u8);
}

/// Where the parts of a written commit lie.
proof fn lemma_commit_layout(m: CommitModel)
    requires
        encode_utf8(m.0).len() == 40,
    ensures
        ({
            let s = commit_bytes(m);
            let pb = parents_bytes(m.1);
            let pa = person_bytes(m.2, m.3) + seq![10u8];
            let pc = person_bytes(m.4, m.5) + seq![10u8];
            let p2: int = 46 + pb.len() as int + 7;
            let p3: int = p2 + pa.len();
            let p4: int = p3 + 10;
            let p5: int = p4 + pc.len();
            &&& p5 + 1 <= s.len()
            &&& s.subrange(0, 46) == tree_word() + encode_utf8(m.0) + seq![10u8]
            &&& s.subrange(46, p2) == pb + author_word() + seq![32u8]
            &&& s.subrange(p2, p3) == pa
            &&& s.subrange(p3, p3 + 9) == committer_word()
            &&& s[p3 + 9] == 32u8
            &&& s.subrange(p4, p5) == pc
            &&& s[p5] == 10u8
            &&& s.subrange(p5 + 1, s.len() as int) == encode_utf8(m.6)
        }),
{
    let s = commit_bytes(m);
    let x3 = tree_word() + encode_utf8(m.0) + seq![10u8];
    let x4 = x3 + parents_bytes(m.1);
    let x5 = x4 + author_word();
    let x6 = x5 + seq![32u8];
    let x7 = x6 + person_bytes(m.2, m.3);
    let x8 = x7 + seq![10u8];
    let x9 = x8 + committer_word();
    let x10 = x9 + seq![32u8];
    let x11 = x10 + person_bytes(m.4, m.5);
    let x12 = x11 + seq![10u8, 10u8];
    assert(s == x12 + encode_utf8(m.6));
    assert(s.subrange(0, x12.len() as int) =~= x12);
    assert(s.subrange(x12.len() as int, s.len() as int) =~= encode_utf8(m.6));
    assert(s.subrange(0, x11.len() as int) =~= x11);
    assert(s[x11.len() as int] == 10u8);
    assert(s[x11.len() as int + 1] == 10u8);
    assert(s.subrange(0, x10.len() as int) =~= x10);
    assert(s.subrange(x10.len() as int, x11.len() as int + 1) =~= person_bytes(m.4, m.5) + seq![10u8]);
    assert(s.subrange(0, x8.len() as int) =~= x8);
    assert(s.subrange(x8.len() as int, x8.len() as int + 9) =~= committer_word());
    assert(s[x8.len() as int + 9] == 32u8);
    assert(s.subrange(0, x6.len() as int) =~= x6);
    assert(s.subrange(x6.len() as int, x8.len() as int) =~= person_bytes(m.2, m.3) + seq![10u8]);
    assert(s.subrange(0, 46) =~= x3);
    assert(s.subrange(46, x6.len() as int) =~= parents_bytes(m.1) + author_word() + seq![32u8]);
}

} // verus!
