//! Folding the flat, sorted index into nested tree objects.

use vstd::prelude::*;
use crate::cache::{object_hash, Object, ObjectType};
use crate::index::{Index, IndexEntry, IndexItem};
use crate::parse::{delim_at, find_byte, lemma_delim_at, lemma_delim_at_found, push_all};
use crate::tree::{tree_bytes, EntryMode, Tree, TreeEntry, TreeItem};

verus! {

/// The hash of the tree object whose entries are `items`.
pub open spec fn tree_id(items: Seq<TreeItem>) -> Seq<u8> {
    object_hash(ObjectType::Tree, tree_bytes(items))
}

/// Whether path `p`, read from `off`, starts with the directory component `c`.
pub open spec fn continues(p: Seq<u8>, off: int, c: Seq<u8>) -> bool {
    delim_at(p, off, 47u8) == Some(off + c.len()) && p.subrange(off, off + c.len()) == c
}

/// How many consecutive entries from `t` on (before `hi`) lie in directory `c`.
pub open spec fn run_len(es: Seq<IndexItem>, t: int, hi: int, off: int, c: Seq<u8>) -> nat
    decreases hi - t,
{
    if t < 0 || t >= hi || t >= es.len() || !continues(es[t].0, off, c) {
        0
    } else {
        1 + run_len(es, t + 1, hi, off, c)
    }
}

/// The directory listing made of the entries `es[lo..hi]`, whose paths
/// are read from byte `off` on, and the payloads of the subtree objects it
/// needs, children before parents. A path without a further `/` is a leaf;
/// a maximal run of consecutive paths that continue with the same directory
/// component becomes one subtree entry. `height` bounds the remaining depth.
pub open spec fn level(es: Seq<IndexItem>, lo: int, hi: int, off: int, height: nat) -> (
    Seq<TreeItem>,
    Seq<Seq<u8>>,
)
    decreases height, hi - lo,
{
    if lo < 0 || lo >= hi || hi > es.len() || height == 0 {
        (Seq::empty(), Seq::empty())
    } else {
        let p = es[lo].0;
        match delim_at(p, off, 47u8) {
            None => {
                let rest = level(es, lo + 1, hi, off, height);
                (seq![(es[lo].1.mode, p.subrange(off, p.len() as int), es[lo].1.hash@)] + rest.0, rest.1)
            },
            Some(j) => {
                let c = p.subrange(off, j);
                let k = lo + 1 + run_len(es, lo + 1, hi, off, c);
                let sub = level(es, lo, k, j + 1, (height - 1) as nat);
                let rest = if k < hi {
                    level(es, k, hi, off, height)
                } else {
                    (Seq::empty(), Seq::empty())
                };
                (
                    seq![(EntryMode::Tree, c, tree_id(sub.0))] + rest.0,
                    sub.1.push(tree_bytes(sub.0)) + rest.1,
                )
            },
        }
    }
}

/// The length of the longest path in `es`.
pub open spec fn max_path_len(es: Seq<IndexItem>) -> nat
    decreases es.len(),
{
    if es.len() == 0 {
        0
    } else {
        let m = max_path_len(es.drop_last());
        if es.last().0.len() > m {
            es.last().0.len()
        } else {
            m
        }
    }
}

/// The entries of the root tree of `es`.
pub open spec fn root_items(es: Seq<IndexItem>) -> Seq<TreeItem> {
    level(es, 0, es.len() as int, 0, max_path_len(es) + 1).0
}

/// The payloads of every tree object that the root tree of `es` needs,
/// children before parents, the root last.
pub open spec fn root_objects(es: Seq<IndexItem>) -> Seq<Seq<u8>> {
    level(es, 0, es.len() as int, 0, max_path_len(es) + 1).1.push(tree_bytes(root_items(es)))
}

/// The payloads of a list of objects.
pub open spec fn payloads(objs: Seq<Object>) -> Seq<Seq<u8>> {
    objs.map_values(|o: Object| o.data@)
}

/// Whether every object of the list is a tree.
pub open spec fn all_trees(objs: Seq<Object>) -> bool {
    forall|i: int| 0 <= i < objs.len() ==> (#[trigger] objs[i]).kind == ObjectType::Tree
}

/// The trees built from an index: the root hash, and every tree object to
/// store, children before parents, the root last.
pub struct BuiltTree {
    pub hash: [u8; 20],
    pub objects: Vec<Object>,
}

proof fn lemma_max_path_len(es: Seq<IndexItem>)
    ensures
        forall|t: int| 0 <= t < es.len() ==> (#[trigger] es[t]).0.len() <= max_path_len(es),
    decreases es.len(),
{
    if es.len() > 0 {
        lemma_max_path_len(es.drop_last());
        assert forall|t: int| 0 <= t < es.len() implies (#[trigger] es[t]).0.len() <= max_path_len(
            es,
        ) by {
            if t < es.len() - 1 {
                assert(es[t] == es.drop_last()[t]);
            }
        }
    }
}

/// Whether path `p` continues with the directory component `q[off..j]`,
/// where `j` is the first `/` of `q` from `off`.
fn continues_with(p: &[u8], q: &[u8], off: usize, j: usize) -> (r: bool)
    requires
        off <= p@.len(),
        delim_at(q@, off as int, 47u8) == Some(j as int),
    ensures
        r == continues(p@, off as int, q@.subrange(off as int, j as int)),
{
    proof {
        lemma_delim_at_found(q@, off as int, 47u8);
    }
    let ghost c = q@.subrange(off as int, j as int);
    if p.len() <= j || p[j] != 47u8 {
        proof {
            if delim_at(p@, off as int, 47u8) is Some {
                lemma_delim_at_found(p@, off as int, 47u8);
            }
        }
        return false;
    }
    let mut k: usize = off;
    while k < j
        invariant
            off <= k <= j,
            j < p@.len(),
            j < q@.len(),
            forall|t: int| off <= t < k ==> p@[t] == q@[t],
            c == q@.subrange(off as int, j as int),
        decreases j - k,
    {
        if p[k] != q[k] {
            assert(p@.subrange(off as int, j as int)[k - off] == p@[k as int]);
            assert(c[k - off] == q@[k as int]);
            return false;
        }
        k = k + 1;
    }
    assert(p@.subrange(off as int, j as int) =~= c);
    assert forall|t: int| off <= t < j implies p@[t] != 47u8 by {
        assert(p@[t] == q@[t]);
    }
    proof {
        lemma_delim_at(p@, off as int, j as int, 47u8);
    }
    true
}

/// Builds the listing of `es[lo..hi]` read from byte `off`, appending the
/// subtree objects it needs to `objs`.
fn build_level(
    es: &Vec<(Vec<u8>, IndexEntry)>,
    lo: usize,
    hi: usize,
    off: usize,
    Ghost(height): Ghost<nat>,
    objs: &mut Vec<Object>,
) -> (r: Vec<TreeEntry>)
    requires
        lo <= hi <= es@.len(),
        forall|t: int|
            lo <= t < hi ==> off <= (#[trigger] es@[t]).0@.len() && es@[t].0@.len() < off + height,
        all_trees(old(objs)@),
    ensures
        r@.map_values(|e: TreeEntry| e@) == level(Index::items(es@), lo as int, hi as int, off as int, height).0,
        payloads(final(objs)@) == payloads(old(objs)@) + level(Index::items(es@), lo as int, hi as int, off as int, height).1,
        all_trees(final(objs)@),
    decreases height,
{
    let ghost items = Index::items(es@);
    let ghost start = payloads(objs@);
    let mut out: Vec<TreeEntry> = Vec::new();
    let mut i: usize = lo;
    proof {
        assert(out@.map_values(|e: TreeEntry| e@) + level(items, lo as int, hi as int, off as int, height).0
            =~= level(items, lo as int, hi as int, off as int, height).0);
        assert(payloads(objs@) + level(items, lo as int, hi as int, off as int, height).1
            =~= start + level(items, lo as int, hi as int, off as int, height).1);
    }
    while i < hi
        invariant
            lo <= i <= hi <= es@.len(),
            items == Index::items(es@),
            forall|t: int|
                lo <= t < hi ==> off <= (#[trigger] es@[t]).0@.len() && es@[t].0@.len() < off + height,
            all_trees(objs@),
            level(items, lo as int, hi as int, off as int, height).0 == out@.map_values(|e: TreeEntry| e@)
                + level(items, i as int, hi as int, off as int, height).0,
            start + level(items, lo as int, hi as int, off as int, height).1 == payloads(objs@) + level(
                items,
                i as int,
                hi as int,
                off as int,
                height,
            ).1,
        decreases hi - i,
    {
        let path = &es[i].0;
        assert(items[i as int].0 == path@);
        assert(es@[i as int].0@.len() < off + height);
        let ghost cur = level(items, i as int, hi as int, off as int, height);
        let ghost before_out = out@.map_values(|e: TreeEntry| e@);
        let ghost before_objs = payloads(objs@);
        match find_byte(path.as_slice(), off, 47u8) {
            None => {
                let mut name: Vec<u8> = Vec::new();
                push_all(&mut name, vstd::slice::slice_subrange(path.as_slice(), off, path.len()));
                let e = TreeEntry { mode: es[i].1.mode, name, hash: es[i].1.hash };
                let ghost leaf = e@;
                out.push(e);
                proof {
                    let rest = level(items, i + 1, hi as int, off as int, height);
                    assert(cur == (seq![leaf] + rest.0, rest.1));
                    assert(out@.map_values(|e: TreeEntry| e@) =~= before_out.push(leaf));
                    assert(before_out + cur.0 =~= before_out.push(leaf) + rest.0);
                }
                i = i + 1;
            },
            Some(j) => {
                proof {
                    lemma_delim_at_found(path@, off as int, 47u8);
                }
                let plen = path.len();
                assert(j < plen);
                let ghost c = path@.subrange(off as int, j as int);
                let mut k: usize = i + 1;
                while k < hi && continues_with(es[k].0.as_slice(), path.as_slice(), off, j)
                    invariant
                        lo <= i < k <= hi <= es@.len(),
                        items == Index::items(es@),
                        path@ == es@[i as int].0@,
                        forall|t: int| lo <= t < hi ==> off <= (#[trigger] es@[t]).0@.len(),
                        delim_at(path@, off as int, 47u8) == Some(j as int),
                        c == path@.subrange(off as int, j as int),
                        i + 1 + run_len(items, i + 1, hi as int, off as int, c) == k + run_len(
                            items,
                            k as int,
                            hi as int,
                            off as int,
                            c,
                        ),
                        forall|t: int| i < t < k ==> continues(#[trigger] items[t].0, off as int, c),
                    decreases hi - k,
                {
                    assert(items[k as int].0 == es@[k as int].0@);
                    k = k + 1;
                }
                proof {
                    if k < hi {
                        assert(items[k as int].0 == es@[k as int].0@);
                    }
                    assert(run_len(items, k as int, hi as int, off as int, c) == 0);
                    assert forall|t: int| i <= t < k implies j + 1 <= (#[trigger] es@[t]).0@.len()
                        && es@[t].0@.len() < j + 1 + (height - 1) by {
                        if t > i {
                            assert(continues(items[t].0, off as int, c));
                            assert(items[t].0 == es@[t].0@);
                            lemma_delim_at_found(items[t].0, off as int, 47u8);
                        }
                    }
                }
                let sub = build_level(es, i, k, j + 1, Ghost((height - 1) as nat), objs);
                let ghost sub_spec = level(items, i as int, k as int, j + 1, (height - 1) as nat);
                assert(payloads(objs@) == before_objs + sub_spec.1);
                let tree = Tree { entries: sub };
                assert(tree@ == sub_spec.0);
                let obj = tree.as_object();
                let hash = obj.hash();
                let ghost payload = obj.data@;
                objs.push(obj);
                let mut name: Vec<u8> = Vec::new();
                push_all(&mut name, vstd::slice::slice_subrange(path.as_slice(), off, j));
                let e = TreeEntry { mode: EntryMode::Tree, name, hash };
                let ghost node = e@;
                out.push(e);
                proof {
                    let rest = level(items, k as int, hi as int, off as int, height);
                    assert(node == (EntryMode::Tree, c, tree_id(sub_spec.0)));
                    assert(cur == (seq![node] + rest.0, sub_spec.1.push(tree_bytes(sub_spec.0)) + rest.1));
                    assert(out@.map_values(|e: TreeEntry| e@) =~= before_out.push(node));
                    assert(before_out + cur.0 =~= before_out.push(node) + rest.0);
                    assert(payloads(objs@) =~= (before_objs + sub_spec.1).push(payload));
                    assert((before_objs + sub_spec.1).push(payload) =~= before_objs + sub_spec.1.push(
                        payload,
                    ));
                    assert(before_objs + cur.1 =~= payloads(objs@) + rest.1);
                    assert forall|t: int| 0 <= t < objs@.len() implies (#[trigger] objs@[t]).kind
                        == ObjectType::Tree by {
                    }
                }
                i = k;
            },
        }
    }
    proof {
        assert(out@.map_values(|e: TreeEntry| e@) + Seq::<TreeItem>::empty() =~= out@.map_values(
            |e: TreeEntry| e@,
        ));
        assert(payloads(objs@) + Seq::<Seq<u8>>::empty() =~= payloads(objs@));
    }
    out
}

impl Index {
    /// The mathematical form of a list of staged entries.
    pub open spec fn items(es: Seq<(Vec<u8>, IndexEntry)>) -> Seq<IndexItem> {
        es.map_values(|e: (Vec<u8>, IndexEntry)| (e.0@, e.1))
    }

    /// Folds the staged paths into nested trees. Returns the hash of the
    /// root tree and every tree object to store, children before parents,
    /// the root last.
    pub fn write_tree(&self) -> (r: BuiltTree)
        ensures
            r.hash@ == tree_id(root_items(self@)),
            payloads(r.objects@) == root_objects(self@),
            all_trees(r.objects@),
    {
        let ghost height = max_path_len(self@) + 1;
        proof {
            lemma_max_path_len(self@);
            assert forall|t: int| 0 <= t < self.entries@.len() implies 0 <= (
            #[trigger] self.entries@[t]).0@.len() && self.entries@[t].0@.len() < 0 + height by {
                assert(self@[t].0 == self.entries@[t].0@);
            }
        }
        let mut objects: Vec<Object> = Vec::new();
        proof {
            assert(payloads(objects@) =~= Seq::<Seq<u8>>::empty());
        }
        let entries = build_level(&self.entries, 0, self.entries.len(), 0, Ghost(height), &mut objects);
        let root = Tree { entries };
        let obj = root.as_object();
        let hash = obj.hash();
        let ghost before = payloads(objects@);
        objects.push(obj);
        proof {
            assert(Index::items(self.entries@) == self@);
            assert(payloads(objects@) =~= before.push(tree_bytes(root_items(self@))));
            assert(Seq::<Seq<u8>>::empty() + level(self@, 0, self@.len() as int, 0, height).1
                =~= level(self@, 0, self@.len() as int, 0, height).1);
        }
        BuiltTree { hash, objects }
    }
}

} // verus!
