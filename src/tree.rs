//! Directory listings (tree objects) and their byte format.

use vstd::prelude::*;
use crate::cache::{Object, ObjectType};
use crate::parse::{bytes_equal, lemma_delim_at, push_all, read_until, scan_until};
use crate::types::{GitError, GitResult};

verus! {

/// The mode of one entry of a directory listing.
#[derive(Debug, Clone, Copy, PartialEq, Eq, Structural)]
pub enum EntryMode {
    NormalFile,
    ExecutableFile,
    Symlink,
    Tree,
}

/// One entry of a directory listing: a mode, a single path component and
/// the hash of the object it names.
pub struct TreeEntry {
    pub mode: EntryMode,
    pub name: Vec<u8>,
    pub hash: [u8; 20],
}

/// One directory level: entries in the order they are serialized.
pub struct Tree {
    pub entries: Vec<TreeEntry>,
}

/// The mathematical form of a tree entry: mode, name and hash bytes.
pub type TreeItem = (EntryMode, Seq<u8>, Seq<u8>);

impl View for TreeEntry {
    type V = TreeItem;

    open spec fn view(&self) -> TreeItem {
        (self.mode, self.name@, self.hash@)
    }
}

impl View for Tree {
    type V = Seq<TreeItem>;

    open spec fn view(&self) -> Seq<TreeItem> {
        self.entries@.map_values(|e: TreeEntry| e@)
    }
}

/// The mode word that a tree object writes for each mode.
pub open spec fn mode_token(m: EntryMode) -> Seq<u8> {
    match m {
        EntryMode::NormalFile => seq![49u8, 48u8, 48u8, 54u8, 52u8, 52u8],
        EntryMode::ExecutableFile => seq![49u8, 48u8, 48u8, 55u8, 53u8, 53u8],
        EntryMode::Symlink => seq![49u8, 50u8, 48u8, 48u8, 48u8, 48u8],
        EntryMode::Tree => seq![52u8, 48u8, 48u8, 48u8, 48u8],
    }
}

/// The mode whose word is `t`, if any.
pub open spec fn mode_of_token(t: Seq<u8>) -> Option<EntryMode> {
    if t == mode_token(EntryMode::NormalFile) {
        Some(EntryMode::NormalFile)
    } else if t == mode_token(EntryMode::ExecutableFile) {
        Some(EntryMode::ExecutableFile)
    } else if t == mode_token(EntryMode::Symlink) {
        Some(EntryMode::Symlink)
    } else if t == mode_token(EntryMode::Tree) {
        Some(EntryMode::Tree)
    } else {
        None
    }
}

/// The bytes of one entry: mode word, space, name, NUL, raw hash.
pub open spec fn item_bytes(e: TreeItem) -> Seq<u8> {
    mode_token(e.0) + seq![32u8] + e.1 + seq![0u8] + e.2
}

/// The payload of a tree object: its entries' bytes, in order, with nothing between.
pub open spec fn tree_bytes(es: Seq<TreeItem>) -> Seq<u8>
    decreases es.len(),
{
    if es.len() == 0 {
        Seq::empty()
    } else {
        tree_bytes(es.drop_last()) + item_bytes(es.last())
    }
}

/// Puts `acc` in front of a successful parse.
pub open spec fn prepend_items(acc: Seq<TreeItem>, r: GitResult<Seq<TreeItem>>) -> GitResult<
    Seq<TreeItem>,
> {
    match r {
        Ok(rest) => Ok(acc + rest),
        Err(e) => Err(e),
    }
}

/// Parses tree entries from position `p` of `s` to its end.
pub open spec fn parse_items(s: Seq<u8>, p: int) -> GitResult<Seq<TreeItem>>
    decreases s.len() - p,
{
    if p < 0 || p >= s.len() {
        Ok(Seq::empty())
    } else {
        match scan_until(s, p, 32u8) {
            Err(_) => Err(GitError::MalformedTree),
            Ok((tok, j)) => match mode_of_token(tok) {
                None => Err(GitError::MalformedTree),
                Some(m) => match scan_until(s, j, 0u8) {
                    Err(e) => Err(e),
                    Ok((name, q)) => if q + 20 > s.len() {
                        Err(GitError::Io)
                    } else if q <= p {
                        Err(GitError::Unexpected)
                    } else {
                        prepend_items(
                            seq![(m, name, s.subrange(q, q + 20))],
                            parse_items(s, q + 20),
                        )
                    },
                },
            },
        }
    }
}

/// The mode word for `m`.
fn mode_token_bytes(m: EntryMode) -> (r: Vec<u8>)
    ensures
        r@ == mode_token(m),
{
    let r = match m {
        EntryMode::NormalFile => vec![49u8, 48u8, 48u8, 54u8, 52u8, 52u8],
        EntryMode::ExecutableFile => vec![49u8, 48u8, 48u8, 55u8, 53u8, 53u8],
        EntryMode::Symlink => vec![49u8, 50u8, 48u8, 48u8, 48u8, 48u8],
        EntryMode::Tree => vec![52u8, 48u8, 48u8, 48u8, 48u8],
    };
    assert(r@ =~= mode_token(m));
    r
}

/// The mode whose word is `t`, if any.
fn mode_from_token(t: &[u8]) -> (r: Option<EntryMode>)
    ensures
        r == mode_of_token(t@),
{
    if bytes_equal(t, mode_token_bytes(EntryMode::NormalFile).as_slice()) {
        Some(EntryMode::NormalFile)
    } else if bytes_equal(t, mode_token_bytes(EntryMode::ExecutableFile).as_slice()) {
        Some(EntryMode::ExecutableFile)
    } else if bytes_equal(t, mode_token_bytes(EntryMode::Symlink).as_slice()) {
        Some(EntryMode::Symlink)
    } else if bytes_equal(t, mode_token_bytes(EntryMode::Tree).as_slice()) {
        Some(EntryMode::Tree)
    } else {
        None
    }
}

/// The twenty bytes of `s` at `q`, as a hash.
pub fn hash_at(s: &[u8], q: usize) -> (r: [u8; 20])
    requires
        q + 20 <= s@.len(),
    ensures
        r@ == s@.subrange(q as int, q + 20),
{
    let mut h: [u8; 20] = [0u8; 20];
    let mut k: usize = 0;
    let n = s.len();
    while k < 20
        invariant
            k <= 20,
            n == s@.len(),
            q + 20 <= n,
            forall|i: int| 0 <= i < k ==> h@[i] == s@[q + i],
        decreases 20 - k,
    {
        h[k] = s[q + k];
        k = k + 1;
    }
    assert(h@ =~= s@.subrange(q as int, q + 20));
    h
}

/// Parses the payload of a tree object.
pub fn parse_tree(s: &[u8]) -> (r: GitResult<Tree>)
    ensures
        match r {
            Ok(t) => parse_items(s@, 0) == Ok::<Seq<TreeItem>, GitError>(t@),
            Err(e) => parse_items(s@, 0) == Err::<Seq<TreeItem>, GitError>(e),
        },
{
    let mut entries: Vec<TreeEntry> = Vec::new();
    let mut p: usize = 0;
    while p < s.len()
        invariant
            p <= s@.len(),
            parse_items(s@, 0) == prepend_items(
                entries@.map_values(|e: TreeEntry| e@),
                parse_items(s@, p as int),
            ),
        decreases s@.len() - p,
    {
        let ghost acc = entries@.map_values(|e: TreeEntry| e@);
        let (tok, j) = match read_until(s, p, 32u8) {
            Ok(x) => x,
            Err(_) => return Err(GitError::MalformedTree),
        };
        let mode = match mode_from_token(tok.as_slice()) {
            Some(m) => m,
            None => return Err(GitError::MalformedTree),
        };
        let (name, q) = read_until(s, j, 0u8)?;
        if s.len() < 20 || q > s.len() - 20 {
            return Err(GitError::Io);
        }
        let hash = hash_at(s, q);
        let ghost item = (mode, name@, hash@);
        entries.push(TreeEntry { mode, name, hash });
        proof {
            assert(entries@.map_values(|e: TreeEntry| e@) =~= acc + seq![item]);
            assert(acc + (seq![item] + parse_items(s@, q + 20)->Ok_0) =~= (acc + seq![item])
                + parse_items(s@, q + 20)->Ok_0);
        }
        p = q + 20;
    }
    proof {
        assert(entries@.map_values(|e: TreeEntry| e@) + Seq::<TreeItem>::empty()
            =~= entries@.map_values(|e: TreeEntry| e@));
    }
    Ok(Tree { entries })
}

/// Reads a tree from a stored object; an object of another kind fails
/// with `MalformedTree`.
pub fn from_object(object: &Object) -> (r: GitResult<Tree>)
    ensures
        object.kind != ObjectType::Tree ==> r == Err::<Tree, GitError>(GitError::MalformedTree),
        object.kind == ObjectType::Tree ==> match r {
            Ok(t) => parse_items(object.data@, 0) == Ok::<Seq<TreeItem>, GitError>(t@),
            Err(e) => parse_items(object.data@, 0) == Err::<Seq<TreeItem>, GitError>(e),
        },
{
    if object.kind != ObjectType::Tree {
        return Err(GitError::MalformedTree);
    }
    parse_tree(object.data.as_slice())
}

/// Appends the bytes of every entry of `entries`, in order, to `out`.
pub fn push_tree_bytes(out: &mut Vec<u8>, entries: &Vec<TreeEntry>)
    ensures
        final(out)@ == old(out)@ + tree_bytes(entries@.map_values(|e: TreeEntry| e@)),
{
    let mut i: usize = 0;
    while i < entries.len()
        invariant
            i <= entries@.len(),
            out@ == old(out)@ + tree_bytes(entries@.subrange(0, i as int).map_values(|e: TreeEntry| e@)),
        decreases entries@.len() - i,
    {
        let e = &entries[i];
        let ghost before = out@;
        let tok = mode_token_bytes(e.mode);
        push_all(out, tok.as_slice());
        out.push(32u8);
        push_all(out, e.name.as_slice());
        out.push(0u8);
        push_all(out, e.hash.as_slice());
        proof {
            let prev = entries@.subrange(0, i as int).map_values(|e: TreeEntry| e@);
            let next = entries@.subrange(0, i as int + 1).map_values(|e: TreeEntry| e@);
            assert(next.drop_last() =~= prev);
            assert(next.last() == e@);
            assert(out@ =~= before + item_bytes(e@));
        }
        i = i + 1;
    }
    assert(entries@.subrange(0, entries@.len() as int) =~= entries@);
}

impl Tree {
    /// The tree object for this directory listing: each entry as mode word,
    /// space, name, NUL and raw hash, in list order.
    pub fn as_object(&self) -> (r: Object)
        ensures
            r.kind == ObjectType::Tree,
            r.data@ == tree_bytes(self@),
    {
        let mut data: Vec<u8> = Vec::new();
        push_tree_bytes(&mut data, &self.entries);
        Object { kind: ObjectType::Tree, data }
    }
}


/// Whether a tree entry can be written and read back unchanged: a name
/// without NUL bytes and a 20-byte hash.
pub open spec fn storable_item(e: TreeItem) -> bool {
    e.2.len() == 20 && forall|i: int| 0 <= i < e.1.len() ==> #[trigger] e.1[i] != 0u8
}

/// Each mode word is read back as its mode, and holds no space.
proof fn lemma_mode_token(m: EntryMode)
    ensures
        mode_of_token(mode_token(m)) == Some(m),
        forall|i: int| 0 <= i < mode_token(m).len() ==> #[trigger] mode_token(m)[i] != 32u8,
{
    let n = mode_token(EntryMode::NormalFile);
    let x = mode_token(EntryMode::ExecutableFile);
    let l = mode_token(EntryMode::Symlink);
    let t = mode_token(EntryMode::Tree);
    assert(n[3] != x[3]);
    assert(n[1] != l[1]);
    assert(x[1] != l[1]);
    assert(n.len() != t.len() && x.len() != t.len() && l.len() != t.len());
}

/// The bytes of a list of entries, taken from the front.
proof fn lemma_tree_bytes_front(es: Seq<TreeItem>)
    requires
        es.len() > 0,
    ensures
        tree_bytes(es) == item_bytes(es[0]) + tree_bytes(es.drop_first()),
    decreases es.len(),
{
    if es.len() == 1 {
        assert(es.drop_last() =~= Seq::<TreeItem>::empty());
        assert(es.drop_first() =~= Seq::<TreeItem>::empty());
        assert(tree_bytes(es) =~= item_bytes(es[0]) + tree_bytes(es.drop_first()));
    } else {
        lemma_tree_bytes_front(es.drop_last());
        assert(es.drop_last().drop_first() =~= es.drop_first().drop_last());
        assert(es.drop_first().last() == es.last());
        assert(es.drop_last()[0] == es[0]);
        assert(tree_bytes(es) =~= item_bytes(es[0]) + tree_bytes(es.drop_first()));
    }
}

/// One written entry at `p` scans back into its parts.
proof fn lemma_item_at(s: Seq<u8>, p: int, e: TreeItem)
    requires
        storable_item(e),
        0 <= p,
        p + item_bytes(e).len() <= s.len(),
        s.subrange(p, p + item_bytes(e).len()) == item_bytes(e),
    ensures
        ({
            let j = p + mode_token(e.0).len() + 1;
            let q = j + e.1.len() + 1;
            &&& scan_until(s, p, 32u8) == Ok::<(Seq<u8>, int), GitError>((mode_token(e.0), j))
            &&& mode_of_token(mode_token(e.0)) == Some(e.0)
            &&& scan_until(s, j, 0u8) == Ok::<(Seq<u8>, int), GitError>((e.1, q))
            &&& s.subrange(q, q + 20) == e.2
            &&& q + 20 == p + item_bytes(e).len()
        }),
{
    let tok = mode_token(e.0);
    let ib = item_bytes(e);
    lemma_mode_token(e.0);
    let j = p + tok.len() + 1;
    let q = j + e.1.len() + 1;
    assert forall|k: int| 0 <= k < ib.len() implies s[p + k] == #[trigger] ib[k] by {
        assert(s[p + k] == s.subrange(p, p + ib.len())[k]);
    }
    assert forall|k: int| p <= k < p + tok.len() implies s[k] != 32u8 by {
        assert(s[k] == ib[k - p]);
        assert(ib[k - p] == tok[k - p]);
    }
    assert(s[p + tok.len()] == ib[tok.len() as int]);
    lemma_delim_at(s, p, p + tok.len(), 32u8);
    assert(s.subrange(p, p + tok.len()) =~= tok) by {
        assert forall|k: int| 0 <= k < tok.len() implies s.subrange(p, p + tok.len())[k] == tok[k] by {
            assert(s[p + k] == ib[k]);
        }
    }
    assert forall|k: int| j <= k < q - 1 implies s[k] != 0u8 by {
        assert(s[k] == ib[k - p]);
        assert(ib[k - p] == e.1[k - j]);
    }
    assert(s[q - 1] == ib[q - 1 - p]);
    lemma_delim_at(s, j, q - 1, 0u8);
    assert(s.subrange(j, q - 1) =~= e.1) by {
        assert forall|k: int| 0 <= k < e.1.len() implies s.subrange(j, q - 1)[k] == e.1[k] by {
            assert(s[j + k] == ib[j + k - p]);
        }
    }
    assert(s.subrange(q, q + 20) =~= e.2) by {
        assert forall|k: int| 0 <= k < 20 implies s.subrange(q, q + 20)[k] == e.2[k] by {
            assert(s[q + k] == ib[q + k - p]);
        }
    }
}

/// Entries written from `p` to the end of `s` read back unchanged.
proof fn lemma_items_round_trip(s: Seq<u8>, p: int, es: Seq<TreeItem>)
    requires
        0 <= p <= s.len(),
        s.subrange(p, s.len() as int) == tree_bytes(es),
        forall|i: int| 0 <= i < es.len() ==> storable_item(#[trigger] es[i]),
    ensures
        parse_items(s, p) == Ok::<Seq<TreeItem>, GitError>(es),
    decreases es.len(),
{
    if es.len() == 0 {
        assert(s.subrange(p, s.len() as int).len() == 0);
        assert(es =~= Seq::<TreeItem>::empty());
    } else {
        lemma_tree_bytes_front(es);
        let e = es[0];
        assert(storable_item(e));
        let w = s.subrange(p, s.len() as int);
        let ib = item_bytes(e);
        let rest = tree_bytes(es.drop_first());
        assert(w == ib + rest);
        assert(w.len() == ib.len() + rest.len());
        assert(p + ib.len() <= s.len());
        assert(s.subrange(p, p + ib.len()) =~= ib) by {
            assert forall|k: int| 0 <= k < ib.len() implies s.subrange(p, p + ib.len())[k] == ib[k] by {
                assert(s.subrange(p, p + ib.len())[k] == w[k]);
            }
        }
        lemma_item_at(s, p, e);
        let q = p + ib.len() - 20;
        assert(s.subrange(q + 20, s.len() as int) =~= rest) by {
            assert forall|k: int| 0 <= k < rest.len() implies s.subrange(q + 20, s.len() as int)[k]
                == rest[k] by {
                assert(s.subrange(q + 20, s.len() as int)[k] == w[ib.len() + k]);
            }
        }
        assert forall|i: int| 0 <= i < es.drop_first().len() implies storable_item(
            #[trigger] es.drop_first()[i],
        ) by {
            assert(es.drop_first()[i] == es[i + 1]);
        }
        lemma_items_round_trip(s, q + 20, es.drop_first());
        assert(seq![(e.0, e.1, s.subrange(q, q + 20))] + es.drop_first() =~= es);
    }
}

/// Parsing the payload of a serialized tree gives back its entries, when
/// no name holds a NUL byte and every hash has 20 bytes.
pub proof fn lemma_tree_round_trip(es: Seq<TreeItem>)
    requires
        forall|i: int| 0 <= i < es.len() ==> storable_item(#[trigger] es[i]),
    ensures
        parse_items(tree_bytes(es), 0) == Ok::<Seq<TreeItem>, GitError>(es),
{
    let s = tree_bytes(es);
    assert(s.subrange(0, s.len() as int) =~= s);
    lemma_items_round_trip(s, 0, es);
}

} // verus!
