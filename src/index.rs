//! The staging area: a sorted map from path to metadata, and its binary
//! file format with a trailing checksum.

use vstd::prelude::*;
use crate::cache::{sha1_digest, sha1_of};
use crate::parse::{
    be16_at, be16_bytes, be32_at, be32_bytes, lemma_be16_round_trip, lemma_be32_round_trip,
    lemma_delim_at, push_all, push_u16_be, push_u32_be, read_u16_be, read_u32_be, read_until,
    scan_until,
};
use crate::tree::{hash_at, EntryMode};
use crate::types::{GitError, GitResult};

verus! {

/// The metadata staged for one path.
#[derive(Debug, Clone, Copy, PartialEq, Eq)]
pub struct IndexEntry {
    pub ctime: u32,
    pub ctime_ns: u32,
    pub mtime: u32,
    pub mtime_ns: u32,
    pub dev: u32,
    pub ino: u32,
    pub mode: EntryMode,
    pub uid: u32,
    pub gid: u32,
    pub size: u32,
    pub assume_valid: bool,
    pub hash: [u8; 20],
}

/// The staging area: staged paths with their metadata, kept in ascending
/// byte order of the path, each path at most once.
pub struct Index {
    pub entries: Vec<(Vec<u8>, IndexEntry)>,
}

/// The mathematical form of an index entry: path and metadata.
pub type IndexItem = (Seq<u8>, IndexEntry);

impl View for Index {
    type V = Seq<IndexItem>;

    open spec fn view(&self) -> Seq<IndexItem> {
        self.entries@.map_values(|e: (Vec<u8>, IndexEntry)| (e.0@, e.1))
    }
}

/// Plain lexicographic byte order: `a` comes strictly before `b`.
pub open spec fn bytes_lt(a: Seq<u8>, b: Seq<u8>) -> bool
    decreases a.len(),
{
    if a.len() == 0 {
        b.len() > 0
    } else if b.len() == 0 {
        false
    } else if a[0] != b[0] {
        a[0] < b[0]
    } else {
        bytes_lt(a.drop_first(), b.drop_first())
    }
}

/// Byte order is a strict total order.
pub proof fn lemma_bytes_lt_total(a: Seq<u8>, b: Seq<u8>)
    ensures
        !bytes_lt(a, a),
        bytes_lt(a, b) ==> !bytes_lt(b, a),
        a != b ==> bytes_lt(a, b) || bytes_lt(b, a),
    decreases a.len(),
{
    if a.len() > 0 && b.len() > 0 {
        lemma_bytes_lt_total(a.drop_first(), b.drop_first());
        if a[0] == b[0] && a != b {
            assert(a =~= seq![a[0]] + a.drop_first());
            assert(b =~= seq![b[0]] + b.drop_first());
        }
    } else if a.len() > 0 {
        lemma_bytes_lt_total(a.drop_first(), a.drop_first());
    } else if b.len() == 0 {
        assert(a =~= b);
    }
}

/// Byte order is transitive.
pub proof fn lemma_bytes_lt_trans(a: Seq<u8>, b: Seq<u8>, c: Seq<u8>)
    requires
        bytes_lt(a, b),
        bytes_lt(b, c),
    ensures
        bytes_lt(a, c),
    decreases a.len(),
{
    if a.len() > 0 && a[0] == b[0] && b[0] == c[0] {
        lemma_bytes_lt_trans(a.drop_first(), b.drop_first(), c.drop_first());
    }
}

/// Whether the keys of `s` strictly ascend.
pub open spec fn sorted_keys(s: Seq<IndexItem>) -> bool {
    forall|i: int, j: int| 0 <= i < j < s.len() ==> bytes_lt(#[trigger] s[i].0, #[trigger] s[j].0)
}

/// Puts `(k, e)` into the sorted sequence `s`: it replaces an entry with
/// the same key, or goes where its key belongs in byte order.
pub open spec fn insert_sorted(s: Seq<IndexItem>, k: Seq<u8>, e: IndexEntry) -> Seq<IndexItem>
    decreases s.len(),
{
    if s.len() == 0 {
        seq![(k, e)]
    } else if bytes_lt(s.last().0, k) {
        s.push((k, e))
    } else if s.last().0 == k {
        s.drop_last().push((k, e))
    } else {
        insert_sorted(s.drop_last(), k, e).push(s.last())
    }
}

/// The entry staged under path `k`, if any.
pub open spec fn lookup(s: Seq<IndexItem>, k: Seq<u8>) -> Option<IndexEntry>
    decreases s.len(),
{
    if s.len() == 0 {
        None
    } else if s.last().0 == k {
        Some(s.last().1)
    } else {
        lookup(s.drop_last(), k)
    }
}

/// After staging `e` under `k`, looking up `k` finds `e` and every other
/// path finds what it found before.
pub proof fn lemma_lookup_insert(s: Seq<IndexItem>, k: Seq<u8>, e: IndexEntry, q: Seq<u8>)
    ensures
        lookup(insert_sorted(s, k, e), q) == if q == k {
            Some(e)
        } else {
            lookup(s, q)
        },
    decreases s.len(),
{
    let goal = if q == k {
        Some(e)
    } else {
        lookup(s, q)
    };
    let r = insert_sorted(s, k, e);
    if s.len() == 0 {
        assert(r == seq![(k, e)]);
        assert(r.drop_last() =~= Seq::<IndexItem>::empty());
        assert(r.last() == (k, e));
        assert(lookup(r.drop_last(), q) is None);
        assert(lookup(r, q) == goal);
    } else if bytes_lt(s.last().0, k) {
        assert(r == s.push((k, e)));
        assert(r.drop_last() =~= s);
        assert(r.last() == (k, e));
        assert(lookup(r, q) == goal);
    } else if s.last().0 == k {
        assert(r == s.drop_last().push((k, e)));
        assert(r.drop_last() =~= s.drop_last());
        assert(r.last() == (k, e));
        assert(lookup(r, q) == goal);
    } else {
        lemma_lookup_insert(s.drop_last(), k, e, q);
        assert(r == insert_sorted(s.drop_last(), k, e).push(s.last()));
        assert(r.drop_last() =~= insert_sorted(s.drop_last(), k, e));
        assert(r.last() == s.last());
        assert(lookup(r, q) == goal);
    }
}

/// Whether `a` comes strictly before `b` in byte order.
pub fn bytes_less(a: &[u8], b: &[u8]) -> (r: bool)
    ensures
        r == bytes_lt(a@, b@),
{
    let mut i: usize = 0;
    assert(a@.skip(0) =~= a@);
    assert(b@.skip(0) =~= b@);
    while i < a.len() && i < b.len()
        invariant
            i <= a@.len(),
            i <= b@.len(),
            bytes_lt(a@, b@) == bytes_lt(a@.skip(i as int), b@.skip(i as int)),
        decreases a@.len() - i,
    {
        if a[i] != b[i] {
            return a[i] < b[i];
        }
        assert(a@.skip(i as int).drop_first() =~= a@.skip(i as int + 1));
        assert(b@.skip(i as int).drop_first() =~= b@.skip(i as int + 1));
        i = i + 1;
    }
    i < b.len()
}

impl Index {
    /// Whether the paths ascend strictly in byte order.
    pub open spec fn wf(&self) -> bool {
        sorted_keys(self@)
    }

    /// An empty index.
    pub fn new() -> (r: Index)
        ensures
            r@ == Seq::<IndexItem>::empty(),
            r.wf(),
    {
        let r = Index { entries: Vec::new() };
        assert(r@ =~= Seq::<IndexItem>::empty());
        r
    }

    /// Stages `entry` under `path`, replacing what was staged there before
    /// and keeping the paths in byte order.
    pub fn add(&mut self, path: Vec<u8>, entry: IndexEntry)
        requires
            old(self).wf(),
        ensures
            final(self).wf(),
            final(self)@ == insert_sorted(old(self)@, path@, entry),
            forall|k: Seq<u8>|
                #[trigger] lookup(final(self)@, k) == if k == path@ {
                    Some(entry)
                } else {
                    lookup(old(self)@, k)
                },
    {
        proof {
            assert forall|k: Seq<u8>|
                #[trigger] lookup(insert_sorted(self@, path@, entry), k) == if k == path@ {
                    Some(entry)
                } else {
                    lookup(self@, k)
                } by {
                lemma_lookup_insert(self@, path@, entry, k);
            }
        }
        let ghost s = self@;
        let n = self.entries.len();
        let mut j: usize = n;
        assert(s.take(n as int) =~= s);
        assert(s + s.skip(n as int) =~= s);
        loop
            invariant
                j <= n,
                n == self.entries@.len(),
                self@ == s,
                sorted_keys(s),
                forall|t: int| j <= t < n ==> bytes_lt(path@, #[trigger] s[t].0),
                insert_sorted(s, path@, entry) == insert_sorted(s.take(j as int), path@, entry) + s.skip(
                    j as int,
                ),
            ensures
                j == 0 || !bytes_lt(path@, s[j - 1].0),
            decreases j,
        {
            if j == 0 {
                break;
            }
            if !bytes_less(path.as_slice(), self.entries[j - 1].0.as_slice()) {
                break;
            }
            proof {
                let tj = s.take(j as int);
                assert(s[j - 1].0 == self.entries@[j - 1].0@);
                assert(tj.last() == s[j - 1]);
                lemma_bytes_lt_total(path@, s[j - 1].0);
                assert(tj.drop_last() =~= s.take(j - 1));
                assert(s.skip(j - 1) =~= seq![s[j - 1]] + s.skip(j as int));
                assert(insert_sorted(tj, path@, entry) == insert_sorted(s.take(j - 1), path@, entry).push(
                    s[j - 1],
                ));
                assert(insert_sorted(s.take(j - 1), path@, entry).push(s[j - 1]) + s.skip(j as int)
                    =~= insert_sorted(s.take(j - 1), path@, entry) + s.skip(j - 1));
            }
            j = j - 1;
        }
        let same = j > 0 && !bytes_less(path.as_slice(), self.entries[j - 1].0.as_slice())
            && !bytes_less(self.entries[j - 1].0.as_slice(), path.as_slice());
        proof {
            if j > 0 {
                assert(s[j - 1].0 == self.entries@[j - 1].0@);
                lemma_bytes_lt_total(path@, s[j - 1].0);
                assert(s.take(j as int).last() == s[j - 1]);
                if same {
                    lemma_bytes_lt_total(s[j - 1].0, path@);
                    assert(s[j - 1].0 == path@);
                    assert(s.take(j as int).drop_last() =~= s.take(j - 1));
                } else if !bytes_lt(path@, s[j - 1].0) {
                    assert(bytes_lt(s[j - 1].0, path@));
                }
            }
        }
        let ghost p = path@;
        if same {
            self.entries.set(j - 1, (path, entry));
            proof {
                assert(self@ =~= insert_sorted(s.take(j as int), p, entry) + s.skip(j as int));
                assert forall|a: int, b: int| 0 <= a < b < self@.len() implies bytes_lt(
                    #[trigger] self@[a].0,
                    #[trigger] self@[b].0,
                ) by {
                    assert(bytes_lt(s[a].0, s[b].0));
                }
            }
        } else {
            self.entries.insert(j, (path, entry));
            proof {
                if j > 0 {
                    assert(s.take(j as int).last() == s[j - 1]);
                    assert(bytes_lt(s[j - 1].0, p));
                    assert(insert_sorted(s.take(j as int), p, entry) == s.take(j as int).push((p, entry)));
                } else {
                    assert(s.take(0) =~= Seq::<IndexItem>::empty());
                }
                assert(self@ =~= insert_sorted(s.take(j as int), p, entry) + s.skip(j as int));
                assert forall|a: int, b: int| 0 <= a < b < self@.len() implies bytes_lt(
                    #[trigger] self@[a].0,
                    #[trigger] self@[b].0,
                ) by {
                    if b < j {
                        assert(bytes_lt(s[a].0, s[b].0));
                    } else if a < j && b == j {
                        if a < j - 1 {
                            assert(bytes_lt(s[a].0, s[j - 1].0));
                            lemma_bytes_lt_trans(s[a].0, s[j - 1].0, p);
                        }
                    } else if a == j {
                        assert(bytes_lt(p, s[b - 1].0));
                    } else if a < j && b > j {
                        assert(bytes_lt(s[a].0, s[b - 1].0));
                    } else {
                        assert(a > j);
                        assert(bytes_lt(s[a - 1].0, s[b - 1].0));
                    }
                }
            }
        }
    }
}


/// The 20-byte array that holds the bytes `s[0..k]` followed by zeros.
pub open spec fn array_prefix(s: Seq<u8>, k: nat) -> [u8; 20]
    decreases k,
{
    if k == 0 {
        vstd::array::spec_array_fill_for_copy_type::<u8, 20>(0u8)
    } else {
        vstd::array::spec_array_update(array_prefix(s, (k - 1) as nat), k - 1, s[k - 1])
    }
}

/// The 20-byte array that holds the bytes `s`.
pub open spec fn array20(s: Seq<u8>) -> [u8; 20] {
    array_prefix(s, 20)
}

proof fn lemma_array_prefix(s: Seq<u8>, k: nat)
    requires
        k <= 20,
        s.len() == 20,
    ensures
        forall|i: int| 0 <= i < k ==> #[trigger] array_prefix(s, k)@[i] == s[i],
    decreases k,
{
    broadcast use vstd::array::group_array_axioms;

    if k > 0 {
        lemma_array_prefix(s, (k - 1) as nat);
        let prev = array_prefix(s, (k - 1) as nat);
        assert(array_prefix(s, k) == vstd::array::spec_array_update(prev, k - 1, s[k - 1]));
        assert(array_prefix(s, k)@ == prev@.update(k - 1, s[k - 1]));
        assert forall|i: int| 0 <= i < k implies #[trigger] array_prefix(s, k)@[i] == s[i] by {
            if i < k - 1 {
                assert(prev@[i] == s[i]);
            }
        }
    }
}

/// The array built from twenty bytes holds exactly those bytes, and an
/// array is the one built from its own bytes.
pub proof fn lemma_array20(s: Seq<u8>, h: [u8; 20])
    requires
        s.len() == 20,
    ensures
        array20(s)@ == s,
        h@ == s ==> h == array20(s),
{
    broadcast use vstd::array::group_array_axioms;

    lemma_array_prefix(s, 20);
    assert(array20(s)@ =~= s);
    if h@ == s {
        assert(h =~= array20(s));
    }
}

/// The 32-bit word that the index stores for each mode; directories have none.
pub open spec fn mode_bits(m: EntryMode) -> u32 {
    match m {
        EntryMode::NormalFile => 0o100644u32,
        EntryMode::ExecutableFile => 0o100755u32,
        EntryMode::Symlink => 0o120000u32,
        EntryMode::Tree => 0u32,
    }
}

/// The file mode that an index word stands for, if any.
pub open spec fn mode_of_bits(x: u32) -> Option<EntryMode> {
    if x == 0o100644u32 {
        Some(EntryMode::NormalFile)
    } else if x == 0o100755u32 {
        Some(EntryMode::ExecutableFile)
    } else if x == 0o120000u32 {
        Some(EntryMode::Symlink)
    } else {
        None
    }
}

/// The flags word of an entry: bit 15 is `assume_valid`, bits 0..11 the
/// name length, capped at 0xFFF.
pub open spec fn name_flags(len: nat, assume_valid: bool) -> u16 {
    let l: u16 = if len <= 0xfff {
        len as u16
    } else {
        0xfffu16
    };
    if assume_valid {
        l | 0x8000u16
    } else {
        l
    }
}

/// The length of an entry's fixed header.
pub open spec fn fixed_header_len() -> nat {
    62
}

/// How many zero bytes follow the NUL after a name of `len` bytes, so that
/// the entry fills a whole number of 8-byte blocks.
pub open spec fn pad_len(len: nat) -> nat {
    (7 - (len + 6) % 8) as nat
}

/// The fixed numeric fields of an entry and its hash: 60 bytes.
pub open spec fn entry_fields(e: IndexEntry) -> Seq<u8> {
    be32_bytes(e.ctime) + be32_bytes(e.ctime_ns) + be32_bytes(e.mtime) + be32_bytes(e.mtime_ns)
        + be32_bytes(e.dev) + be32_bytes(e.ino) + be32_bytes(mode_bits(e.mode)) + be32_bytes(e.uid)
        + be32_bytes(e.gid) + be32_bytes(e.size) + e.hash@
}

/// The bytes of one index entry.
pub open spec fn entry_bytes(it: IndexItem) -> Seq<u8> {
    entry_fields(it.1) + be16_bytes(name_flags(it.0.len(), it.1.assume_valid)) + it.0 + seq![0u8]
        + Seq::new(pad_len(it.0.len()), |i: int| 0u8)
}

/// The bytes of a run of entries, in order.
pub open spec fn entries_bytes(s: Seq<IndexItem>) -> Seq<u8>
    decreases s.len(),
{
    if s.len() == 0 {
        Seq::empty()
    } else {
        entry_bytes(s[0]) + entries_bytes(s.drop_first())
    }
}

/// The signature that opens an index file: `DIRC` and version 2.
pub open spec fn index_signature() -> Seq<u8> {
    seq![68u8, 73u8, 82u8, 67u8, 0u8, 0u8, 0u8, 2u8]
}

/// Everything an index file holds before its checksum.
pub open spec fn index_body(s: Seq<IndexItem>) -> Seq<u8> {
    index_signature() + be32_bytes(s.len() as u32) + entries_bytes(s)
}

/// The whole index file: the body, then the SHA-1 of the body.
pub open spec fn index_file(s: Seq<IndexItem>) -> Seq<u8> {
    index_body(s) + sha1_of(index_body(s))
}

/// The metadata that the fixed header at `p` holds, with the given mode
/// and flags.
pub open spec fn entry_from_header(s: Seq<u8>, p: int, m: EntryMode, flags: u16) -> IndexEntry {
    IndexEntry {
        ctime: be32_at(s, p),
        ctime_ns: be32_at(s, p + 4),
        mtime: be32_at(s, p + 8),
        mtime_ns: be32_at(s, p + 12),
        dev: be32_at(s, p + 16),
        ino: be32_at(s, p + 20),
        mode: m,
        uid: be32_at(s, p + 28),
        gid: be32_at(s, p + 32),
        size: be32_at(s, p + 36),
        assume_valid: flags & 0x8000u16 != 0,
        hash: array20(s.subrange(p + 40, p + 60)),
    }
}

/// Whether every byte of `s` is zero.
pub open spec fn all_zero(s: Seq<u8>) -> bool {
    forall|i: int| 0 <= i < s.len() ==> s[i] == 0u8
}

/// Decodes the entry at `p`: the entry and the position after it.
#[verifier::opaque]
pub open spec fn entry_at(s: Seq<u8>, p: int) -> GitResult<(IndexItem, int)> {
    if p < 0 || p + 62 > s.len() {
        Err(GitError::Io)
    } else {
        match mode_of_bits(be32_at(s, p + 24)) {
            None => Err(GitError::BadEntryMode),
            Some(m) => {
                let flags = be16_at(s, p + 60);
                if flags & 0x4000u16 != 0 {
                    Err(GitError::UnsupportedExtension)
                } else {
                    match scan_until(s, p + 62, 0u8) {
                        Err(e) => Err(e),
                        Ok((name, q)) => {
                            let nl = (flags & 0xfffu16) as nat;
                            let pad = pad_len(name.len());
                            if !(name.len() == nl || (name.len() > 0xfff && nl == 0xfff)) {
                                Err(GitError::CorruptName)
                            } else if q + pad > s.len() {
                                Err(GitError::Io)
                            } else if !all_zero(s.subrange(q, q + pad)) {
                                Err(GitError::CorruptPadding)
                            } else {
                                Ok(((name, entry_from_header(s, p, m, flags)), q + pad))
                            }
                        },
                    }
                }
            },
        }
    }
}

/// Puts `acc` in front of a successful decode.
pub open spec fn prepend_records(acc: Seq<IndexItem>, r: GitResult<Seq<IndexItem>>) -> GitResult<
    Seq<IndexItem>,
> {
    match r {
        Ok(rest) => Ok(acc + rest),
        Err(e) => Err(e),
    }
}

/// Decodes `n` entries one after another, starting at `p`.
pub open spec fn parse_records(s: Seq<u8>, p: int, n: nat) -> GitResult<Seq<IndexItem>>
    decreases n,
{
    if n == 0 {
        Ok(Seq::empty())
    } else {
        match entry_at(s, p) {
            Err(e) => Err(e),
            Ok((it, q)) => prepend_records(seq![it], parse_records(s, q, (n - 1) as nat)),
        }
    }
}

/// Stages each record in turn, as `Index::add` does.
pub open spec fn fold_insert(recs: Seq<IndexItem>) -> Seq<IndexItem>
    decreases recs.len(),
{
    if recs.len() == 0 {
        Seq::empty()
    } else {
        insert_sorted(fold_insert(recs.drop_last()), recs.last().0, recs.last().1)
    }
}

/// Decodes an index file: signature, entry count, then that many entries,
/// each staged in turn. The trailing checksum is not checked.
pub open spec fn decode_index(s: Seq<u8>) -> GitResult<Seq<IndexItem>> {
    if s.len() < 12 {
        Err(GitError::Io)
    } else if s.subrange(0, 8) != index_signature() {
        Err(GitError::BadSignature)
    } else {
        match parse_records(s, 12, be32_at(s, 8) as nat) {
            Ok(recs) => Ok(fold_insert(recs)),
            Err(e) => Err(e),
        }
    }
}

/// Whether some entry of `s` has the directory mode, which the index cannot hold.
pub open spec fn has_tree_entry(s: Seq<IndexItem>) -> bool {
    exists|i: int| 0 <= i < s.len() && (#[trigger] s[i]).1.mode == EntryMode::Tree
}


/// The file mode that an index word stands for, if any.
fn mode_from_bits(x: u32) -> (r: Option<EntryMode>)
    ensures
        r == mode_of_bits(x),
{
    if x == 0o100644u32 {
        Some(EntryMode::NormalFile)
    } else if x == 0o100755u32 {
        Some(EntryMode::ExecutableFile)
    } else if x == 0o120000u32 {
        Some(EntryMode::Symlink)
    } else {
        None
    }
}

/// Whether the `n` bytes of `s` at `q` are all zero.
fn zeros_at(s: &[u8], q: usize, n: usize) -> (r: bool)
    requires
        q + n <= s@.len(),
    ensures
        r == all_zero(s@.subrange(q as int, q + n)),
{
    let mut k: usize = 0;
    let len = s.len();
    while k < n
        invariant
            len == s@.len(),
            q + n <= len,
            k <= n,
            all_zero(s@.subrange(q as int, q + k)),
        decreases n - k,
    {
        if s[q + k] != 0u8 {
            assert(s@.subrange(q as int, q + n)[k as int] == s@[q + k]);
            return false;
        }
        k = k + 1;
        assert forall|i: int| 0 <= i < k implies #[trigger] s@.subrange(q as int, q + k)[i] == 0u8 by {
            if i < k - 1 {
                assert(s@.subrange(q as int, q + k)[i] == s@.subrange(q as int, q + k - 1)[i]);
            }
        }
    }
    assert(all_zero(s@.subrange(q as int, q + n))) by {
        assert(s@.subrange(q as int, q + n) =~= s@.subrange(q as int, q + k));
    }
    true
}

/// Decodes the index entry at `p` of `s`; returns the entry and the
/// position after it.
fn parse_entry(s: &[u8], p: usize) -> (r: GitResult<((Vec<u8>, IndexEntry), usize)>)
    ensures
        match r {
            Ok((it, q)) => entry_at(s@, p as int) == Ok::<(IndexItem, int), GitError>(
                ((it.0@, it.1), q as int),
            ),
            Err(e) => entry_at(s@, p as int) == Err::<(IndexItem, int), GitError>(e),
        },
{
    reveal(entry_at);
    if p > s.len() || s.len() - p < 62 {
        return Err(GitError::Io);
    }
    let mode = match mode_from_bits(read_u32_be(s, p + 24)) {
        Some(m) => m,
        None => return Err(GitError::BadEntryMode),
    };
    let flags = read_u16_be(s, p + 60);
    if flags & 0x4000u16 != 0 {
        return Err(GitError::UnsupportedExtension);
    }
    let (name, q) = read_until(s, p + 62, 0u8)?;
    let nl = (flags & 0xfffu16) as usize;
    if !(name.len() == nl || (name.len() > 0xfff && nl == 0xfff)) {
        return Err(GitError::CorruptName);
    }
    let pad = 7 - (name.len() % 8 + 6) % 8;
    assert(pad == pad_len(name@.len())) by {
        assert((name@.len() % 8 + 6) % 8 == (name@.len() + 6) % 8) by (nonlinear_arith);
    }
    if pad > s.len() - q {
        return Err(GitError::Io);
    }
    if !zeros_at(s, q, pad) {
        return Err(GitError::CorruptPadding);
    }
    let hash = hash_at(s, p + 40);
    proof {
        lemma_array20(s@.subrange(p + 40, p + 60), hash);
    }
    let entry = IndexEntry {
        ctime: read_u32_be(s, p),
        ctime_ns: read_u32_be(s, p + 4),
        mtime: read_u32_be(s, p + 8),
        mtime_ns: read_u32_be(s, p + 12),
        dev: read_u32_be(s, p + 16),
        ino: read_u32_be(s, p + 20),
        mode,
        uid: read_u32_be(s, p + 28),
        gid: read_u32_be(s, p + 32),
        size: read_u32_be(s, p + 36),
        assume_valid: flags & 0x8000u16 != 0,
        hash,
    };
    Ok(((name, entry), q + pad))
}

/// Decodes the bytes of an index file: an 8-byte signature, a big-endian
/// entry count, then that many entries, each staged with `Index::add`.
/// Data that ends early fails with `Io`; a bad signature with
/// `BadSignature`; a bad entry with the error its first fault gives.
pub fn read(data: &[u8]) -> (r: GitResult<Index>)
    ensures
        match r {
            Ok(i) => decode_index(data@) == Ok::<Seq<IndexItem>, GitError>(i@) && i.wf(),
            Err(e) => decode_index(data@) == Err::<Seq<IndexItem>, GitError>(e),
        },
{
    if data.len() < 12 {
        return Err(GitError::Io);
    }
    if !(data[0] == 68u8 && data[1] == 73u8 && data[2] == 82u8 && data[3] == 67u8 && data[4] == 0u8
        && data[5] == 0u8 && data[6] == 0u8 && data[7] == 2u8) {
        assert(data@.subrange(0, 8) != index_signature()) by {
            if data@.subrange(0, 8) == index_signature() {
                assert(data@[0] == data@.subrange(0, 8)[0]);
                assert(data@[1] == data@.subrange(0, 8)[1]);
                assert(data@[2] == data@.subrange(0, 8)[2]);
                assert(data@[3] == data@.subrange(0, 8)[3]);
                assert(data@[4] == data@.subrange(0, 8)[4]);
                assert(data@[5] == data@.subrange(0, 8)[5]);
                assert(data@[6] == data@.subrange(0, 8)[6]);
                assert(data@[7] == data@.subrange(0, 8)[7]);
            }
        }
        return Err(GitError::BadSignature);
    }
    assert(data@.subrange(0, 8) =~= index_signature());
    let n = read_u32_be(data, 8);
    let mut index = Index::new();
    let mut p: usize = 12;
    let mut i: u32 = 0;
    let ghost mut acc: Seq<IndexItem> = Seq::empty();
    while i < n
        invariant
            i <= n,
            n == be32_at(data@, 8),
            data@.len() >= 12,
            data@.subrange(0, 8) == index_signature(),
            index.wf(),
            index@ == fold_insert(acc),
            parse_records(data@, 12, n as nat) == prepend_records(
                acc,
                parse_records(data@, p as int, (n - i) as nat),
            ),
        decreases n - i,
    {
        let ((name, entry), q) = match parse_entry(data, p) {
            Ok(x) => x,
            Err(e) => {
                return Err(e);
            },
        };
        let ghost it = (name@, entry);
        proof {
            let rest = parse_records(data@, q as int, (n - i - 1) as nat);
            if rest is Ok {
                assert(acc + (seq![it] + rest->Ok_0) =~= acc.push(it) + rest->Ok_0);
            }
            assert(acc.push(it).drop_last() =~= acc);
        }
        index.add(name, entry);
        proof {
            acc = acc.push(it);
        }
        p = q;
        i = i + 1;
    }
    assert(acc + Seq::<IndexItem>::empty() =~= acc);
    Ok(index)
}


/// Encoding entries one after another appends their bytes.
pub proof fn lemma_entries_bytes_push(a: Seq<IndexItem>, x: IndexItem)
    ensures
        entries_bytes(a.push(x)) == entries_bytes(a) + entry_bytes(x),
    decreases a.len(),
{
    if a.len() == 0 {
        assert(a.push(x).drop_first() =~= Seq::<IndexItem>::empty());
        assert(a.push(x)[0] == x);
        assert(entries_bytes(a.push(x)) == entry_bytes(x) + entries_bytes(Seq::<IndexItem>::empty()));
        assert(entries_bytes(a.push(x)) =~= entries_bytes(a) + entry_bytes(x));
    } else {
        lemma_entries_bytes_push(a.drop_first(), x);
        assert(a.push(x).drop_first() =~= a.drop_first().push(x));
        assert(entries_bytes(a.push(x)) =~= entries_bytes(a) + entry_bytes(x));
    }
}

/// The index word for a file mode.
fn mode_word(m: EntryMode) -> (r: u32)
    requires
        m != EntryMode::Tree,
    ensures
        r == mode_bits(m),
{
    match m {
        EntryMode::NormalFile => 0o100644u32,
        EntryMode::ExecutableFile => 0o100755u32,
        EntryMode::Symlink => 0o120000u32,
        EntryMode::Tree => 0u32,
    }
}

/// Appends the fixed fields and hash of an entry to `out`.
fn push_fields(out: &mut Vec<u8>, e: &IndexEntry)
    requires
        e.mode != EntryMode::Tree,
    ensures
        final(out)@ == old(out)@ + entry_fields(*e),
{
    let ghost o = out@;
    push_u32_be(out, e.ctime);
    let ghost f = be32_bytes(e.ctime);
    assert(out@ =~= o + f);
    push_u32_be(out, e.ctime_ns);
    let ghost f = f + be32_bytes(e.ctime_ns);
    assert(out@ =~= o + f);
    push_u32_be(out, e.mtime);
    let ghost f = f + be32_bytes(e.mtime);
    assert(out@ =~= o + f);
    push_u32_be(out, e.mtime_ns);
    let ghost f = f + be32_bytes(e.mtime_ns);
    assert(out@ =~= o + f);
    push_u32_be(out, e.dev);
    let ghost f = f + be32_bytes(e.dev);
    assert(out@ =~= o + f);
    push_u32_be(out, e.ino);
    let ghost f = f + be32_bytes(e.ino);
    assert(out@ =~= o + f);
    push_u32_be(out, mode_word(e.mode));
    let ghost f = f + be32_bytes(mode_bits(e.mode));
    assert(out@ =~= o + f);
    push_u32_be(out, e.uid);
    let ghost f = f + be32_bytes(e.uid);
    assert(out@ =~= o + f);
    push_u32_be(out, e.gid);
    let ghost f = f + be32_bytes(e.gid);
    assert(out@ =~= o + f);
    push_u32_be(out, e.size);
    let ghost f = f + be32_bytes(e.size);
    assert(out@ =~= o + f);
    push_all(out, e.hash.as_slice());
    let ghost f = f + e.hash@;
    assert(out@ =~= o + f);
}

/// Appends the bytes of one entry to `out`.
fn push_entry(out: &mut Vec<u8>, name: &Vec<u8>, e: &IndexEntry)
    requires
        e.mode != EntryMode::Tree,
    ensures
        final(out)@ == old(out)@ + entry_bytes((name@, *e)),
{
    let ghost o = out@;
    push_fields(out, e);
    let l: u16 = if name.len() <= 0xfff {
        name.len() as u16
    } else {
        0xfffu16
    };
    let flags: u16 = if e.assume_valid {
        l | 0x8000u16
    } else {
        l
    };
    push_u16_be(out, flags);
    let ghost f = entry_fields(*e) + be16_bytes(name_flags(name@.len(), e.assume_valid));
    assert(out@ =~= o + f);
    push_all(out, name.as_slice());
    let ghost f = f + name@;
    assert(out@ =~= o + f);
    out.push(0u8);
    let ghost f = f + seq![0u8];
    assert(out@ =~= o + f);
    let pad = 7 - (name.len() % 8 + 6) % 8;
    assert(pad == pad_len(name@.len())) by {
        assert((name@.len() % 8 + 6) % 8 == (name@.len() + 6) % 8) by (nonlinear_arith);
    }
    let mut k: usize = 0;
    while k < pad
        invariant
            k <= pad,
            out@ == o + f + Seq::new(k as nat, |i: int| 0u8),
        decreases pad - k,
    {
        out.push(0u8);
        k = k + 1;
        assert(out@ =~= o + f + Seq::new(k as nat, |i: int| 0u8));
    }
    assert(out@ =~= o + (f + Seq::new(pad as nat, |i: int| 0u8)));
}

impl Index {
    /// Encodes the index as the bytes of an index file: signature, entry
    /// count, each entry in order, and the SHA-1 of all of that. An entry
    /// with the directory mode cannot be stored and fails with `BadEntryMode`.
    pub fn write(&self) -> (r: GitResult<Vec<u8>>)
        requires
            self@.len() <= u32::MAX,
        ensures
            has_tree_entry(self@) ==> r == Err::<Vec<u8>, GitError>(GitError::BadEntryMode),
            !has_tree_entry(self@) ==> (r matches Ok(b) && b@ == index_file(self@)),
            !has_tree_entry(self@) ==> sha1_of(index_body(self@)).len() == 20,
            self.wf() && (forall|i: int| 0 <= i < self@.len() ==> storable(#[trigger] self@[i])) ==> (
            r matches Ok(b) && decode_index(b@) == Ok::<Seq<IndexItem>, GitError>(self@)),
    {
        proof {
            if self.wf() && (forall|i: int| 0 <= i < self@.len() ==> storable(#[trigger] self@[i])) {
                lemma_index_round_trip(self@);
                assert(!has_tree_entry(self@)) by {
                    if has_tree_entry(self@) {
                        let i = choose|i: int| 0 <= i < self@.len() && (#[trigger] self@[i]).1.mode == EntryMode::Tree;
                        assert(storable(self@[i]));
                    }
                }
            }
        }
        let n = self.entries.len();
        let mut i: usize = 0;
        while i < n
            invariant
                n == self@.len(),
                i <= n,
                forall|j: int| 0 <= j < i ==> (#[trigger] self@[j]).1.mode != EntryMode::Tree,
            decreases n - i,
        {
            if self.entries[i].1.mode == EntryMode::Tree {
                assert(self@[i as int].1.mode == EntryMode::Tree);
                return Err(GitError::BadEntryMode);
            }
            i = i + 1;
        }
        let mut out: Vec<u8> = vec![68u8, 73u8, 82u8, 67u8, 0u8, 0u8, 0u8, 2u8];
        push_u32_be(&mut out, n as u32);
        let ghost head = out@;
        let mut i: usize = 0;
        assert(self@.take(0) =~= Seq::<IndexItem>::empty());
        assert(out@ =~= head + entries_bytes(self@.take(0)));
        while i < n
            invariant
                n == self@.len(),
                i <= n,
                forall|j: int| 0 <= j < n ==> (#[trigger] self@[j]).1.mode != EntryMode::Tree,
                out@ == head + entries_bytes(self@.take(i as int)),
            decreases n - i,
        {
            let ghost before = out@;
            assert(self@[i as int].1.mode != EntryMode::Tree);
            push_entry(&mut out, &self.entries[i].0, &self.entries[i].1);
            proof {
                lemma_entries_bytes_push(self@.take(i as int), self@[i as int]);
                assert(self@.take(i as int).push(self@[i as int]) =~= self@.take(i + 1));
            }
            i = i + 1;
        }
        assert(self@.take(n as int) =~= self@);
        assert(out@ =~= index_body(self@));
        let digest = sha1_digest(out.as_slice());
        assert(digest@.len() == 20);
        push_all(&mut out, digest.as_slice());
        Ok(out)
    }
}


/// Whether an entry can be stored and read back unchanged: a file mode,
/// and a path without NUL bytes.
pub open spec fn storable(it: IndexItem) -> bool {
    it.1.mode != EntryMode::Tree && forall|i: int| 0 <= i < it.0.len() ==> #[trigger] it.0[i] != 0u8
}

/// Every encoded entry fills whole 8-byte blocks: the fixed header, the
/// name, its NUL terminator and the padding add up to a multiple of 8.
pub proof fn lemma_entry_padding(it: IndexItem)
    ensures
        entry_bytes(it).len() == fixed_header_len() + it.0.len() + 1 + pad_len(it.0.len()),
        (fixed_header_len() + it.0.len() + 1 + pad_len(it.0.len())) % 8 == 0,
{
    let n = it.0.len();
    assert((62 + n + 1 + (7 - (n + 6) % 8)) % 8 == 0) by (nonlinear_arith);
}

proof fn lemma_flags_bits(len: nat, av: bool)
    ensures
        name_flags(len, av) & 0x4000u16 == 0,
        (name_flags(len, av) & 0xfffu16) as nat == if len <= 0xfff {
            len
        } else {
            0xfff
        },
        (name_flags(len, av) & 0x8000u16 != 0) == av,
{
    let l: u16 = if len <= 0xfff {
        len as u16
    } else {
        0xfffu16
    };
    assert(l <= 0xfff);
    assert(l & 0x4000u16 == 0 && l & 0xfffu16 == l && l & 0x8000u16 == 0) by (bit_vector)
        requires
            l <= 0xfff,
    ;
    assert((l | 0x8000u16) & 0x4000u16 == 0 && (l | 0x8000u16) & 0xfffu16 == l && (l | 0x8000u16)
        & 0x8000u16 != 0) by (bit_vector)
        requires
            l <= 0xfff,
    ;
}

/// Where each field of an entry lies in its first 60 bytes.
proof fn lemma_fields_layout(e: IndexEntry)
    ensures
        entry_fields(e).len() == 60,
        entry_fields(e).subrange(0, 4) == be32_bytes(e.ctime),
        entry_fields(e).subrange(4, 8) == be32_bytes(e.ctime_ns),
        entry_fields(e).subrange(8, 12) == be32_bytes(e.mtime),
        entry_fields(e).subrange(12, 16) == be32_bytes(e.mtime_ns),
        entry_fields(e).subrange(16, 20) == be32_bytes(e.dev),
        entry_fields(e).subrange(20, 24) == be32_bytes(e.ino),
        entry_fields(e).subrange(24, 28) == be32_bytes(mode_bits(e.mode)),
        entry_fields(e).subrange(28, 32) == be32_bytes(e.uid),
        entry_fields(e).subrange(32, 36) == be32_bytes(e.gid),
        entry_fields(e).subrange(36, 40) == be32_bytes(e.size),
        entry_fields(e).subrange(40, 60) == e.hash@,
{
    let f = entry_fields(e);
    let g1 = be32_bytes(e.ctime);
    let g2 = g1 + be32_bytes(e.ctime_ns);
    let g3 = g2 + be32_bytes(e.mtime);
    let g4 = g3 + be32_bytes(e.mtime_ns);
    let g5 = g4 + be32_bytes(e.dev);
    let g6 = g5 + be32_bytes(e.ino);
    let g7 = g6 + be32_bytes(mode_bits(e.mode));
    let g8 = g7 + be32_bytes(e.uid);
    let g9 = g8 + be32_bytes(e.gid);
    let g10 = g9 + be32_bytes(e.size);
    assert(f == g10 + e.hash@);
    assert(f.subrange(40, 60) =~= e.hash@);
    assert(f.subrange(0, 40) =~= g10);
    assert(f.subrange(36, 40) =~= be32_bytes(e.size));
    assert(g10.subrange(0, 36) =~= g9);
    assert(f.subrange(32, 36) =~= be32_bytes(e.gid));
    assert(g9.subrange(0, 32) =~= g8);
    assert(f.subrange(28, 32) =~= be32_bytes(e.uid));
    assert(g8.subrange(0, 28) =~= g7);
    assert(f.subrange(24, 28) =~= be32_bytes(mode_bits(e.mode)));
    assert(g7.subrange(0, 24) =~= g6);
    assert(f.subrange(20, 24) =~= be32_bytes(e.ino));
    assert(g6.subrange(0, 20) =~= g5);
    assert(f.subrange(16, 20) =~= be32_bytes(e.dev));
    assert(g5.subrange(0, 16) =~= g4);
    assert(f.subrange(12, 16) =~= be32_bytes(e.mtime_ns));
    assert(g4.subrange(0, 12) =~= g3);
    assert(f.subrange(8, 12) =~= be32_bytes(e.mtime));
    assert(g3.subrange(0, 8) =~= g2);
    assert(f.subrange(4, 8) =~= be32_bytes(e.ctime_ns));
    assert(f.subrange(0, 4) =~= be32_bytes(e.ctime));
}

/// Where the parts of an encoded entry lie.
proof fn lemma_entry_layout(it: IndexItem)
    ensures
        entry_bytes(it).len() == 63 + it.0.len() + pad_len(it.0.len()),
        entry_bytes(it).subrange(0, 60) == entry_fields(it.1),
        entry_bytes(it).subrange(60, 62) == be16_bytes(name_flags(it.0.len(), it.1.assume_valid)),
        entry_bytes(it).subrange(62, 62 + it.0.len() as int) == it.0,
        entry_bytes(it)[62 + it.0.len() as int] == 0u8,
        all_zero(entry_bytes(it).subrange(63 + it.0.len() as int, entry_bytes(it).len() as int)),
{
    lemma_fields_layout(it.1);
    let f = entry_fields(it.1);
    let b = be16_bytes(name_flags(it.0.len(), it.1.assume_valid));
    let n = it.0.len() as int;
    let z = Seq::new(pad_len(it.0.len()), |i: int| 0u8);
    let h1 = f + b;
    let h2 = h1 + it.0;
    let h3 = h2 + seq![0u8];
    let eb = entry_bytes(it);
    assert(eb == h3 + z);
    assert(eb.subrange(0, 63 + n) =~= h3);
    assert(eb.subrange(63 + n, eb.len() as int) =~= z);
    assert(h3.subrange(0, 62 + n) =~= h2);
    assert(h2.subrange(0, 62) =~= h1);
    assert(eb.subrange(0, 60) =~= f);
    assert(eb.subrange(60, 62) =~= b);
    assert(eb.subrange(62, 62 + n) =~= it.0);
}

/// The fixed header of an encoded entry decodes to its metadata.
proof fn lemma_header_decode(s: Seq<u8>, p: int, e: IndexEntry, flags: u16)
    requires
        0 <= p,
        p + 60 <= s.len(),
        s.subrange(p, p + 60) == entry_fields(e),
        (flags & 0x8000u16 != 0) == e.assume_valid,
    ensures
        be32_at(s, p + 24) == mode_bits(e.mode),
        entry_from_header(s, p, e.mode, flags) == e,
{
    let f = entry_fields(e);
    lemma_fields_layout(e);
    assert(s.subrange(p, p + 4) =~= f.subrange(0, 4));
    assert(s.subrange(p + 4, p + 8) =~= f.subrange(4, 8));
    assert(s.subrange(p + 8, p + 12) =~= f.subrange(8, 12));
    assert(s.subrange(p + 12, p + 16) =~= f.subrange(12, 16));
    assert(s.subrange(p + 16, p + 20) =~= f.subrange(16, 20));
    assert(s.subrange(p + 20, p + 24) =~= f.subrange(20, 24));
    assert(s.subrange(p + 24, p + 28) =~= f.subrange(24, 28));
    assert(s.subrange(p + 28, p + 32) =~= f.subrange(28, 32));
    assert(s.subrange(p + 32, p + 36) =~= f.subrange(32, 36));
    assert(s.subrange(p + 36, p + 40) =~= f.subrange(36, 40));
    assert(s.subrange(p + 40, p + 60) =~= f.subrange(40, 60));
    lemma_be32_round_trip(e.ctime, s, p);
    lemma_be32_round_trip(e.ctime_ns, s, p + 4);
    lemma_be32_round_trip(e.mtime, s, p + 8);
    lemma_be32_round_trip(e.mtime_ns, s, p + 12);
    lemma_be32_round_trip(e.dev, s, p + 16);
    lemma_be32_round_trip(e.ino, s, p + 20);
    lemma_be32_round_trip(mode_bits(e.mode), s, p + 24);
    lemma_be32_round_trip(e.uid, s, p + 28);
    lemma_be32_round_trip(e.gid, s, p + 32);
    lemma_be32_round_trip(e.size, s, p + 36);
    lemma_array20(s.subrange(p + 40, p + 60), e.hash);
}

/// An encoded entry decodes to itself.
proof fn lemma_entry_round_trip(s: Seq<u8>, p: int, it: IndexItem)
    requires
        storable(it),
        0 <= p,
        p + entry_bytes(it).len() <= s.len(),
        s.subrange(p, p + entry_bytes(it).len()) == entry_bytes(it),
    ensures
        entry_at(s, p) == Ok::<(IndexItem, int), GitError>((it, p + entry_bytes(it).len())),
{
    let e = it.1;
    let name = it.0;
    let eb = entry_bytes(it);
    let n = name.len() as int;
    let flags = name_flags(name.len(), e.assume_valid);
    let q = p + 63 + n;
    let pad = pad_len(name.len()) as int;
    lemma_entry_layout(it);
    lemma_flags_bits(name.len(), e.assume_valid);
    let w = s.subrange(p, p + eb.len());
    assert(s.subrange(p, p + 60) =~= w.subrange(0, 60));
    lemma_header_decode(s, p, e, flags);
    assert(s.subrange(p + 60, p + 62) =~= w.subrange(60, 62));
    lemma_be16_round_trip(flags, s, p + 60);
    assert(s.subrange(p + 62, p + 62 + n) =~= w.subrange(62, 62 + n));
    assert forall|i: int| p + 62 <= i < p + 62 + n implies s[i] != 0u8 by {
        assert(s[i] == s.subrange(p + 62, p + 62 + n)[i - p - 62]);
    }
    assert(s[p + 62 + n] == w[62 + n]);
    lemma_delim_at(s, p + 62, p + 62 + n, 0u8);
    assert(s.subrange(q, q + pad) =~= w.subrange(63 + n, eb.len() as int));
    assert(mode_of_bits(mode_bits(e.mode)) == Some(e.mode));
    reveal(entry_at);
}

/// Encoded entries decode to themselves, in order.
proof fn lemma_records_round_trip(s: Seq<u8>, p: int, items: Seq<IndexItem>)
    requires
        forall|i: int| 0 <= i < items.len() ==> storable(#[trigger] items[i]),
        0 <= p,
        p + entries_bytes(items).len() <= s.len(),
        s.subrange(p, p + entries_bytes(items).len()) == entries_bytes(items),
    ensures
        parse_records(s, p, items.len()) == Ok::<Seq<IndexItem>, GitError>(items),
    decreases items.len(),
{
    if items.len() > 0 {
        let first = entry_bytes(items[0]);
        let rest = entries_bytes(items.drop_first());
        let all = entries_bytes(items);
        assert(all == first + rest);
        assert(s.subrange(p, p + first.len()) =~= first) by {
            assert forall|i: int| 0 <= i < first.len() implies s.subrange(p, p + first.len())[i]
                == first[i] by {
                assert(s.subrange(p, p + all.len())[i] == all[i]);
            }
        }
        assert(storable(items[0]));
        lemma_entry_round_trip(s, p, items[0]);
        let q = p + first.len();
        assert(s.subrange(q, q + rest.len()) =~= rest) by {
            assert forall|i: int| 0 <= i < rest.len() implies s.subrange(q, q + rest.len())[i]
                == rest[i] by {
                assert(s.subrange(p, p + all.len())[first.len() + i] == all[first.len() + i]);
            }
        }
        assert forall|i: int| 0 <= i < items.drop_first().len() implies storable(
            #[trigger] items.drop_first()[i],
        ) by {
            assert(storable(items[i + 1]));
        }
        lemma_records_round_trip(s, q, items.drop_first());
        assert(seq![items[0]] + items.drop_first() =~= items);
    } else {
        assert(items =~= Seq::<IndexItem>::empty());
    }
}

/// Staging entries whose paths already ascend leaves them as they are.
proof fn lemma_fold_insert_sorted(s: Seq<IndexItem>)
    requires
        sorted_keys(s),
    ensures
        fold_insert(s) == s,
    decreases s.len(),
{
    if s.len() > 0 {
        let init = s.drop_last();
        assert(sorted_keys(init)) by {
            assert forall|i: int, j: int| 0 <= i < j < init.len() implies bytes_lt(
                #[trigger] init[i].0,
                #[trigger] init[j].0,
            ) by {
                assert(bytes_lt(s[i].0, s[j].0));
            }
        }
        lemma_fold_insert_sorted(init);
        if init.len() > 0 {
            assert(bytes_lt(s[init.len() - 1].0, s.last().0));
        } else {
            assert(seq![s.last()] =~= s);
        }
        assert(init.push(s.last()) =~= s);
    }
}

/// Encoding an index and decoding the bytes gives the same index back,
/// entry for entry, for an index whose paths ascend, hold no NUL byte and
/// name files only.
pub proof fn lemma_index_round_trip(s: Seq<IndexItem>)
    requires
        sorted_keys(s),
        s.len() <= u32::MAX,
        forall|i: int| 0 <= i < s.len() ==> storable(#[trigger] s[i]),
    ensures
        decode_index(index_file(s)) == Ok::<Seq<IndexItem>, GitError>(s),
{
    let f = index_file(s);
    let body = index_body(s);
    let eb = entries_bytes(s);
    assert(f.len() >= 12);
    assert(f.subrange(0, 8) =~= index_signature());
    assert(f.subrange(8, 12) =~= be32_bytes(s.len() as u32));
    lemma_be32_round_trip(s.len() as u32, f, 8);
    assert(f.subrange(12, 12 + eb.len() as int) =~= eb);
    lemma_records_round_trip(f, 12, s);
    lemma_fold_insert_sorted(s);
}

} // verus!
