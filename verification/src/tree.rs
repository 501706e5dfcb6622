//! Directory trees of a bootstrap: entries addressed by absolute byte paths,
//! overlay application (replace, whiteout, descendant shadowing), and the
//! spec-level semantics every tree rewrite is proved against.

use vstd::prelude::*;
use crate::model::Chunk;

verus! {

/// Path separator byte (`/`).
pub const PATH_SEPARATOR: u8 = 47;

/// One inode of a tree entry.
pub enum Inode {
    /// A directory; child entries stand on their own paths.
    Directory,
    /// A regular file made of content-addressed chunks.
    File { chunks: Vec<Chunk> },
    /// A whiteout marker: deletes the shadowed path and its descendants
    /// during overlay merging.
    Whiteout,
}

/// Spec-level form of an inode.
pub enum InodeV {
    Directory,
    File { chunks: Seq<Chunk> },
    Whiteout,
}

/// One tree entry: an absolute path (`/a/b`) and its inode.
pub struct TreeEntry {
    pub path: Vec<u8>,
    pub node: Inode,
}

/// Spec-level form of a tree entry.
pub struct EntryV {
    pub path: Seq<u8>,
    pub node: InodeV,
}

/// Insertion-ordered list of entries forming one directory tree.
pub struct Tree {
    pub entries: Vec<TreeEntry>,
}

impl View for Inode {
    type V = InodeV;

    open spec fn view(&self) -> InodeV {
        match self {
            Inode::Directory => InodeV::Directory,
            Inode::File { chunks } => InodeV::File { chunks: chunks@ },
            Inode::Whiteout => InodeV::Whiteout,
        }
    }
}

impl View for TreeEntry {
    type V = EntryV;

    open spec fn view(&self) -> EntryV {
        EntryV { path: self.path@, node: self.node@ }
    }
}

impl View for Tree {
    type V = Seq<EntryV>;

    open spec fn view(&self) -> Seq<EntryV> {
        self.entries@.map_values(|e: TreeEntry| e@)
    }
}

/// `p` is a strict ancestor directory of path `q`.
pub open spec fn is_ancestor_path(p: Seq<u8>, q: Seq<u8>) -> bool {
    &&& p.len() < q.len()
    &&& q.take(p.len() as int) == p
    &&& (q[p.len() as int] == PATH_SEPARATOR || (p.len() > 0 && p.last() == PATH_SEPARATOR))
}

/// `q` lies at or below `p`.
pub open spec fn under_path(p: Seq<u8>, q: Seq<u8>) -> bool {
    q == p || is_ancestor_path(p, q)
}

/// Some entry of `t` has path `q`.
pub open spec fn has_path(t: Seq<EntryV>, q: Seq<u8>) -> bool {
    exists|i: int| 0 <= i < t.len() && #[trigger] t[i].path == q
}

/// No two entries of `t` share a path.
pub open spec fn paths_unique(t: Seq<EntryV>) -> bool {
    forall|i: int, j: int| 0 <= i < j < t.len() ==> #[trigger] t[i].path != #[trigger] t[j].path
}

/// Position of the first entry of `t` whose path is `p`, if any.
pub open spec fn spec_tree_find(t: Seq<EntryV>, p: Seq<u8>) -> Option<int>
    decreases t.len(),
{
    if t.len() == 0 {
        None
    } else {
        match spec_tree_find(t.drop_last(), p) {
            Some(i) => Some(i),
            None => if t.last().path == p {
                Some(t.len() - 1)
            } else {
                None
            },
        }
    }
}

/// Inode stored at path `p`, if any.
pub open spec fn spec_tree_lookup(t: Seq<EntryV>, p: Seq<u8>) -> Option<InodeV> {
    match spec_tree_find(t, p) {
        Some(i) => Some(t[i].node),
        None => None,
    }
}

/// Replace the entry at `e.path` by `e`, or append `e` if the path is new.
pub open spec fn spec_tree_set(t: Seq<EntryV>, e: EntryV) -> Seq<EntryV> {
    match spec_tree_find(t, e.path) {
        Some(i) => t.update(i, e),
        None => t.push(e),
    }
}

/// Drop the entry at `p` and every descendant of `p`, keeping order.
pub open spec fn spec_remove_subtree(t: Seq<EntryV>, p: Seq<u8>) -> Seq<EntryV>
    decreases t.len(),
{
    if t.len() == 0 {
        t
    } else {
        let r = spec_remove_subtree(t.drop_last(), p);
        if under_path(p, t.last().path) {
            r
        } else {
            r.push(t.last())
        }
    }
}

/// Drop every strict descendant of `p`, keeping `p` itself and order.
pub open spec fn spec_remove_descendants(t: Seq<EntryV>, p: Seq<u8>) -> Seq<EntryV>
    decreases t.len(),
{
    if t.len() == 0 {
        t
    } else {
        let r = spec_remove_descendants(t.drop_last(), p);
        if is_ancestor_path(p, t.last().path) {
            r
        } else {
            r.push(t.last())
        }
    }
}

/// Overlay one entry onto an accumulating tree: a whiteout deletes the
/// shadowed subtree; a directory replaces the entry at its path; a file
/// replaces the entry at its path and shadows former descendants.
pub open spec fn spec_apply_entry(t: Seq<EntryV>, e: EntryV) -> Seq<EntryV> {
    match e.node {
        InodeV::Whiteout => spec_remove_subtree(t, e.path),
        InodeV::Directory => spec_tree_set(t, e),
        InodeV::File { .. } => spec_tree_set(spec_remove_descendants(t, e.path), e),
    }
}

/// What `spec_tree_find` returns: the first matching position, or proof that
/// none matches.
pub proof fn lemma_tree_find_props(t: Seq<EntryV>, p: Seq<u8>)
    ensures
        match spec_tree_find(t, p) {
            Some(i) => 0 <= i < t.len() && t[i].path == p && (forall|j: int|
                0 <= j < i ==> #[trigger] t[j].path != p),
            None => forall|j: int| 0 <= j < t.len() ==> #[trigger] t[j].path != p,
        },
    decreases t.len(),
{
    if t.len() > 0 {
        let d = t.drop_last();
        lemma_tree_find_props(d, p);
        assert(forall|j: int| 0 <= j < d.len() ==> d[j] == t[j]);
    }
}

/// Once a prefix of `t` contains `p`, the whole sequence finds it at the
/// same position.
pub proof fn lemma_tree_find_extend(t: Seq<EntryV>, k: int, p: Seq<u8>)
    requires
        0 <= k <= t.len(),
    ensures
        spec_tree_find(t.take(k), p) matches Some(i) ==> spec_tree_find(t, p) == Some(i),
    decreases t.len() - k,
{
    if k < t.len() {
        assert(t.take(k + 1).drop_last() =~= t.take(k));
        lemma_tree_find_extend(t, k + 1, p);
    } else {
        assert(t.take(k) =~= t);
    }
}

/// If no prefix entry matches and position `k` does, the find is `k`.
pub proof fn lemma_tree_find_hit(t: Seq<EntryV>, k: int, p: Seq<u8>)
    requires
        0 <= k < t.len(),
        spec_tree_find(t.take(k), p) is None,
        t[k].path == p,
    ensures
        spec_tree_find(t, p) == Some(k),
{
    assert(t.take(k + 1).drop_last() =~= t.take(k));
    assert(t.take(k + 1).last() == t[k]);
    assert(spec_tree_find(t.take(k + 1), p) == Some(k));
    lemma_tree_find_extend(t, k + 1, p);
}

/// Subtree removal only drops entries: every surviving path existed before,
/// and path uniqueness is preserved.
pub proof fn lemma_remove_subtree_paths(t: Seq<EntryV>, p: Seq<u8>)
    ensures
        forall|q: Seq<u8>| has_path(spec_remove_subtree(t, p), q) ==> has_path(t, q),
        paths_unique(t) ==> paths_unique(spec_remove_subtree(t, p)),
    decreases t.len(),
{
    if t.len() > 0 {
        let d = t.drop_last();
        lemma_remove_subtree_paths(d, p);
        assert(forall|j: int| 0 <= j < d.len() ==> d[j] == t[j]);
        let r = spec_remove_subtree(d, p);
        assert forall|q: Seq<u8>| has_path(spec_remove_subtree(t, p), q) implies has_path(t, q) by {
            if has_path(spec_remove_subtree(t, p), q) {
                if !under_path(p, t.last().path) {
                    let i = choose|i: int|
                        0 <= i < spec_remove_subtree(t, p).len() && #[trigger] spec_remove_subtree(
                            t,
                            p,
                        )[i].path == q;
                    if i < r.len() {
                        assert(has_path(r, q));
                        assert(has_path(d, q));
                        let j = choose|j: int| 0 <= j < d.len() && #[trigger] d[j].path == q;
                        assert(t[j].path == q);
                    } else {
                        assert(t[t.len() - 1].path == q);
                    }
                } else {
                    assert(has_path(d, q));
                    let j = choose|j: int| 0 <= j < d.len() && #[trigger] d[j].path == q;
                    assert(t[j].path == q);
                }
            }
        }
        if paths_unique(t) {
            assert(paths_unique(d));
            if !under_path(p, t.last().path) {
                let l = t.last();
                assert forall|i: int, j: int|
                    0 <= i < j < spec_remove_subtree(t, p).len() implies #[trigger] spec_remove_subtree(
                    t,
                    p,
                )[i].path != #[trigger] spec_remove_subtree(t, p)[j].path by {
                    if j == r.len() {
                        assert(spec_remove_subtree(t, p)[j] == l);
                        assert(has_path(r, spec_remove_subtree(t, p)[i].path));
                        assert(has_path(d, spec_remove_subtree(t, p)[i].path));
                        let m = choose|m: int|
                            0 <= m < d.len() && #[trigger] d[m].path == spec_remove_subtree(
                                t,
                                p,
                            )[i].path;
                        assert(t[m].path != t[t.len() - 1].path);
                    }
                }
            }
        }
    }
}

/// Descendant removal only drops entries: every surviving path existed
/// before, and path uniqueness is preserved.
pub proof fn lemma_remove_descendants_paths(t: Seq<EntryV>, p: Seq<u8>)
    ensures
        forall|q: Seq<u8>| has_path(spec_remove_descendants(t, p), q) ==> has_path(t, q),
        paths_unique(t) ==> paths_unique(spec_remove_descendants(t, p)),
    decreases t.len(),
{
    if t.len() > 0 {
        let d = t.drop_last();
        lemma_remove_descendants_paths(d, p);
        assert(forall|j: int| 0 <= j < d.len() ==> d[j] == t[j]);
        let r = spec_remove_descendants(d, p);
        assert forall|q: Seq<u8>|
            has_path(spec_remove_descendants(t, p), q) implies has_path(t, q) by {
            if has_path(spec_remove_descendants(t, p), q) {
                if !is_ancestor_path(p, t.last().path) {
                    let i = choose|i: int|
                        0 <= i < spec_remove_descendants(t, p).len()
                            && #[trigger] spec_remove_descendants(t, p)[i].path == q;
                    if i < r.len() {
                        assert(has_path(r, q));
                        assert(has_path(d, q));
                        let j = choose|j: int| 0 <= j < d.len() && #[trigger] d[j].path == q;
                        assert(t[j].path == q);
                    } else {
                        assert(t[t.len() - 1].path == q);
                    }
                } else {
                    assert(has_path(d, q));
                    let j = choose|j: int| 0 <= j < d.len() && #[trigger] d[j].path == q;
                    assert(t[j].path == q);
                }
            }
        }
        if paths_unique(t) {
            assert(paths_unique(d));
            if !is_ancestor_path(p, t.last().path) {
                let l = t.last();
                assert forall|i: int, j: int|
                    0 <= i < j < spec_remove_descendants(t, p).len() implies #[trigger] spec_remove_descendants(
                    t,
                    p,
                )[i].path != #[trigger] spec_remove_descendants(t, p)[j].path by {
                    if j == r.len() {
                        assert(spec_remove_descendants(t, p)[j] == l);
                        assert(has_path(r, spec_remove_descendants(t, p)[i].path));
                        assert(has_path(d, spec_remove_descendants(t, p)[i].path));
                        let m = choose|m: int|
                            0 <= m < d.len() && #[trigger] d[m].path == spec_remove_descendants(
                                t,
                                p,
                            )[i].path;
                        assert(t[m].path != t[t.len() - 1].path);
                    }
                }
            }
        }
    }
}

/// Every entry surviving subtree removal is an entry of the original tree.
pub proof fn lemma_remove_subtree_contains(t: Seq<EntryV>, p: Seq<u8>)
    ensures
        forall|i: int|
            0 <= i < spec_remove_subtree(t, p).len() ==> t.contains(
                #[trigger] spec_remove_subtree(t, p)[i],
            ),
    decreases t.len(),
{
    if t.len() > 0 {
        let d = t.drop_last();
        lemma_remove_subtree_contains(d, p);
        assert(forall|j: int| 0 <= j < d.len() ==> d[j] == t[j]);
        assert(forall|x: EntryV| d.contains(x) ==> t.contains(x));
        assert(t.contains(t.last()));
        let r = spec_remove_subtree(d, p);
        if !under_path(p, t.last().path) {
            assert(forall|i: int|
                0 <= i < r.len() ==> #[trigger] r.push(t.last())[i] == r[i]);
        }
    }
}

/// Every entry surviving descendant removal is an entry of the original
/// tree.
pub proof fn lemma_remove_descendants_contains(t: Seq<EntryV>, p: Seq<u8>)
    ensures
        forall|i: int|
            0 <= i < spec_remove_descendants(t, p).len() ==> t.contains(
                #[trigger] spec_remove_descendants(t, p)[i],
            ),
    decreases t.len(),
{
    if t.len() > 0 {
        let d = t.drop_last();
        lemma_remove_descendants_contains(d, p);
        assert(forall|j: int| 0 <= j < d.len() ==> d[j] == t[j]);
        assert(forall|x: EntryV| d.contains(x) ==> t.contains(x));
        assert(t.contains(t.last()));
        let r = spec_remove_descendants(d, p);
        if !is_ancestor_path(p, t.last().path) {
            assert(forall|i: int|
                0 <= i < r.len() ==> #[trigger] r.push(t.last())[i] == r[i]);
        }
    }
}

/// Setting an entry preserves path uniqueness and adds at most `e.path`.
pub proof fn lemma_tree_set_paths(t: Seq<EntryV>, e: EntryV)
    ensures
        forall|q: Seq<u8>| has_path(spec_tree_set(t, e), q) ==> has_path(t, q) || q == e.path,
        paths_unique(t) ==> paths_unique(spec_tree_set(t, e)),
        has_path(spec_tree_set(t, e), e.path),
{
    lemma_tree_find_props(t, e.path);
    match spec_tree_find(t, e.path) {
        Some(i) => {
            let r = t.update(i, e);
            assert(r[i].path == e.path);
            if paths_unique(t) {
                assert forall|a: int, b: int|
                    0 <= a < b < r.len() implies #[trigger] r[a].path != #[trigger] r[b].path by {
                    assert(t[a].path != t[b].path);
                    if a == i {
                        if t[b].path == e.path {
                            assert(t[i].path == t[b].path);
                        }
                    } else if b == i {
                        if t[a].path == e.path {
                            assert(t[i].path == t[a].path);
                        }
                    }
                }
            }
        },
        None => {
            let r = t.push(e);
            assert(r[t.len() as int].path == e.path);
            if paths_unique(t) {
                assert forall|a: int, b: int|
                    0 <= a < b < r.len() implies #[trigger] r[a].path != #[trigger] r[b].path by {
                    if b == t.len() {
                        assert(t[a].path != e.path);
                    } else {
                        assert(t[a].path != t[b].path);
                    }
                }
            }
        },
    }
}

/// Lookup in a tree extended by one entry.
pub proof fn lemma_lookup_push(t: Seq<EntryV>, x: EntryV, q: Seq<u8>)
    ensures
        spec_tree_lookup(t.push(x), q) == if has_path(t, q) {
            spec_tree_lookup(t, q)
        } else if x.path == q {
            Some(x.node)
        } else {
            None::<InodeV>
        },
{
    assert(t.push(x).drop_last() =~= t);
    lemma_tree_find_props(t, q);
    lemma_tree_find_props(t.push(x), q);
}

/// Replacing the first entry at `e.path` rewrites exactly that lookup.
pub proof fn lemma_find_update(t: Seq<EntryV>, i: int, e: EntryV, q: Seq<u8>)
    requires
        0 <= i < t.len(),
        t[i].path == e.path,
        forall|j: int| 0 <= j < i ==> #[trigger] t[j].path != e.path,
    ensures
        q == e.path ==> spec_tree_find(t.update(i, e), q) == Some(i),
        q != e.path ==> spec_tree_find(t.update(i, e), q) == spec_tree_find(t, q),
    decreases t.len(),
{
    let u = t.update(i, e);
    if i == t.len() - 1 {
        assert(u.drop_last() =~= t.drop_last());
        lemma_tree_find_props(t.drop_last(), q);
        assert(forall|j: int| 0 <= j < t.len() - 1 ==> t.drop_last()[j] == t[j]);
        assert(u.last() == e);
        assert(t.last() == t[i]);
    } else {
        assert(u.drop_last() =~= t.drop_last().update(i, e));
        assert(forall|j: int| 0 <= j < t.len() - 1 ==> t.drop_last()[j] == t[j]);
        lemma_find_update(t.drop_last(), i, e, q);
        assert(u.last() == t.last());
    }
}

/// Lookup after `spec_tree_set`: the set path now holds `e.node`; all other
/// paths are untouched.
pub proof fn lemma_lookup_set(t: Seq<EntryV>, e: EntryV, q: Seq<u8>)
    ensures
        q == e.path ==> spec_tree_lookup(spec_tree_set(t, e), q) == Some(e.node),
        q != e.path ==> spec_tree_lookup(spec_tree_set(t, e), q) == spec_tree_lookup(t, q),
{
    lemma_tree_find_props(t, e.path);
    match spec_tree_find(t, e.path) {
        Some(i) => {
            lemma_find_update(t, i, e, q);
            if q != e.path {
                lemma_tree_find_props(t, q);
                match spec_tree_find(t, q) {
                    Some(j) => {
                        assert(t[j].path == q);
                        assert(j != i);
                    },
                    None => {},
                }
            }
        },
        None => {
            lemma_lookup_push(t, e, q);
            if has_path(t, q) {
            } else {
                lemma_tree_find_props(t, q);
            }
        },
    }
}

/// Lookup after subtree removal: everything at or below `p` is gone, the
/// rest is untouched.
pub proof fn lemma_lookup_remove_subtree(t: Seq<EntryV>, p: Seq<u8>, q: Seq<u8>)
    ensures
        spec_tree_lookup(spec_remove_subtree(t, p), q) == if under_path(p, q) {
            None::<InodeV>
        } else {
            spec_tree_lookup(t, q)
        },
    decreases t.len(),
{
    if t.len() == 0 {
        lemma_tree_find_props(t, q);
    } else {
        let d = t.drop_last();
        let l = t.last();
        lemma_lookup_remove_subtree(d, p, q);
        let rd = spec_remove_subtree(d, p);
        assert(forall|j: int| 0 <= j < d.len() ==> d[j] == t[j]);
        lemma_tree_find_props(d, q);
        lemma_tree_find_props(rd, q);
        lemma_tree_find_props(t, q);
        if under_path(p, l.path) {
            assert(spec_remove_subtree(t, p) == rd);
            if !under_path(p, q) {
                assert(l.path != q);
                assert(spec_tree_find(t, q) == spec_tree_find(d, q));
            }
        } else {
            assert(spec_remove_subtree(t, p) == rd.push(l));
            lemma_lookup_push(rd, l, q);
            if under_path(p, q) {
                assert(l.path != q);
                assert(spec_tree_lookup(rd, q) is None);
                assert(!has_path(rd, q));
            } else {
                if q == l.path {
                    match spec_tree_find(d, q) {
                        Some(j) => {
                            assert(has_path(rd, q) && spec_tree_lookup(rd, q) == spec_tree_lookup(
                                d,
                                q,
                            ));
                        },
                        None => {
                            assert(spec_tree_lookup(rd, q) is None);
                            assert(!has_path(rd, q));
                            assert(spec_tree_find(t, q) == Some(t.len() - 1));
                        },
                    }
                } else {
                    assert(spec_tree_find(t, q) == spec_tree_find(d, q));
                    match spec_tree_find(rd, q) {
                        Some(j) => {
                            assert(has_path(rd, q));
                        },
                        None => {
                            assert(!has_path(rd, q));
                        },
                    }
                }
            }
        }
    }
}

/// Lookup after descendant removal: strict descendants of `p` are gone, the
/// rest (including `p` itself) is untouched.
pub proof fn lemma_lookup_remove_descendants(t: Seq<EntryV>, p: Seq<u8>, q: Seq<u8>)
    ensures
        spec_tree_lookup(spec_remove_descendants(t, p), q) == if is_ancestor_path(p, q) {
            None::<InodeV>
        } else {
            spec_tree_lookup(t, q)
        },
    decreases t.len(),
{
    if t.len() == 0 {
        lemma_tree_find_props(t, q);
    } else {
        let d = t.drop_last();
        let l = t.last();
        lemma_lookup_remove_descendants(d, p, q);
        let rd = spec_remove_descendants(d, p);
        assert(forall|j: int| 0 <= j < d.len() ==> d[j] == t[j]);
        lemma_tree_find_props(d, q);
        lemma_tree_find_props(rd, q);
        lemma_tree_find_props(t, q);
        if is_ancestor_path(p, l.path) {
            assert(spec_remove_descendants(t, p) == rd);
            if !is_ancestor_path(p, q) {
                assert(l.path != q);
                assert(spec_tree_find(t, q) == spec_tree_find(d, q));
            }
        } else {
            assert(spec_remove_descendants(t, p) == rd.push(l));
            lemma_lookup_push(rd, l, q);
            if is_ancestor_path(p, q) {
                assert(l.path != q);
                assert(spec_tree_lookup(rd, q) is None);
                assert(!has_path(rd, q));
            } else {
                if q == l.path {
                    match spec_tree_find(d, q) {
                        Some(j) => {
                            assert(has_path(rd, q) && spec_tree_lookup(rd, q) == spec_tree_lookup(
                                d,
                                q,
                            ));
                        },
                        None => {
                            assert(spec_tree_lookup(rd, q) is None);
                            assert(!has_path(rd, q));
                            assert(spec_tree_find(t, q) == Some(t.len() - 1));
                        },
                    }
                } else {
                    assert(spec_tree_find(t, q) == spec_tree_find(d, q));
                    match spec_tree_find(rd, q) {
                        Some(j) => {
                            assert(has_path(rd, q));
                        },
                        None => {
                            assert(!has_path(rd, q));
                        },
                    }
                }
            }
        }
    }
}

/// An entry "touches" path `q` if applying it can change what a lookup of
/// `q` returns: it sits at `q`, or it is a whiteout or file at an ancestor.
pub open spec fn entry_touches(e: EntryV, q: Seq<u8>) -> bool {
    e.path == q || ((e.node is Whiteout || e.node is File) && is_ancestor_path(e.path, q))
}

/// Lookup after applying one overlay entry: a non-whiteout entry defines its
/// own path; paths the entry does not touch are untouched; touched paths
/// other than the entry's own are erased.
pub proof fn lemma_lookup_apply(t: Seq<EntryV>, e: EntryV, q: Seq<u8>)
    ensures
        !entry_touches(e, q) ==> spec_tree_lookup(spec_apply_entry(t, e), q) == spec_tree_lookup(
            t,
            q,
        ),
        !(e.node is Whiteout) && q == e.path ==> spec_tree_lookup(spec_apply_entry(t, e), q)
            == Some(e.node),
{
    match e.node {
        InodeV::Whiteout => {
            lemma_lookup_remove_subtree(t, e.path, q);
        },
        InodeV::Directory => {
            lemma_lookup_set(t, e, q);
        },
        InodeV::File { .. } => {
            lemma_lookup_remove_descendants(t, e.path, q);
            lemma_lookup_set(spec_remove_descendants(t, e.path), e, q);
        },
    }
}

/// Removing descendants of a path nothing lies under is a no-op.
pub proof fn lemma_remove_descendants_noop(t: Seq<EntryV>, p: Seq<u8>)
    requires
        forall|i: int| 0 <= i < t.len() ==> !is_ancestor_path(p, #[trigger] t[i].path),
    ensures
        spec_remove_descendants(t, p) == t,
    decreases t.len(),
{
    if t.len() > 0 {
        let d = t.drop_last();
        assert(forall|j: int| 0 <= j < d.len() ==> d[j] == t[j]);
        lemma_remove_descendants_noop(d, p);
        assert(spec_remove_descendants(t, p) =~= t);
    }
}

/// Setting an entry at a fresh path appends it.
pub proof fn lemma_set_fresh(t: Seq<EntryV>, e: EntryV)
    requires
        !has_path(t, e.path),
    ensures
        spec_tree_set(t, e) == t.push(e),
{
    lemma_tree_find_props(t, e.path);
    match spec_tree_find(t, e.path) {
        Some(i) => {
            assert(t[i].path == e.path);
        },
        None => {},
    }
}

/// Applying an entry preserves path uniqueness.
pub proof fn lemma_apply_entry_paths(t: Seq<EntryV>, e: EntryV)
    ensures
        paths_unique(t) ==> paths_unique(spec_apply_entry(t, e)),
{
    match e.node {
        InodeV::Whiteout => {
            lemma_remove_subtree_paths(t, e.path);
        },
        InodeV::Directory => {
            lemma_tree_set_paths(t, e);
        },
        InodeV::File { .. } => {
            lemma_remove_descendants_paths(t, e.path);
            lemma_tree_set_paths(spec_remove_descendants(t, e.path), e);
        },
    }
}

/// Byte-for-byte path equality.
pub fn bytes_eq(a: &Vec<u8>, b: &Vec<u8>) -> (r: bool)
    ensures
        r == (a@ == b@),
{
    if a.len() != b.len() {
        return false;
    }
    let n = a.len();
    let mut k: usize = 0;
    while k < n
        invariant
            n == a@.len(),
            n == b@.len(),
            k <= n,
            forall|j: int| 0 <= j < k ==> a@[j] == b@[j],
        decreases n - k,
    {
        if a[k] != b[k] {
            return false;
        }
        k = k + 1;
    }
    proof {
        assert(a@ =~= b@);
    }
    true
}

/// Whether `p` is a strict ancestor directory of `q`.
pub fn is_ancestor(p: &Vec<u8>, q: &Vec<u8>) -> (r: bool)
    ensures
        r == is_ancestor_path(p@, q@),
{
    if p.len() >= q.len() {
        return false;
    }
    let n = p.len();
    let mut k: usize = 0;
    while k < n
        invariant
            n == p@.len(),
            n < q@.len(),
            k <= n,
            forall|j: int| 0 <= j < k ==> q@[j] == p@[j],
        decreases n - k,
    {
        if q[k] != p[k] {
            proof {
                assert(q@.take(n as int)[k as int] != p@[k as int]);
            }
            return false;
        }
        k = k + 1;
    }
    proof {
        assert(q@.take(n as int) =~= p@);
    }
    if q[n] == PATH_SEPARATOR {
        true
    } else {
        n > 0 && p[n - 1] == PATH_SEPARATOR
    }
}

/// Whether `q` lies at or below `p`.
pub fn path_under(p: &Vec<u8>, q: &Vec<u8>) -> (r: bool)
    ensures
        r == under_path(p@, q@),
{
    if bytes_eq(q, p) {
        true
    } else {
        is_ancestor(p, q)
    }
}

/// Copy of a byte path.
pub fn clone_bytes(v: &Vec<u8>) -> (r: Vec<u8>)
    ensures
        r@ == v@,
{
    let n = v.len();
    let mut r: Vec<u8> = Vec::new();
    let mut k: usize = 0;
    while k < n
        invariant
            n == v@.len(),
            k <= n,
            r@ == v@.take(k as int),
        decreases n - k,
    {
        r.push(v[k]);
        proof {
            assert(r@ =~= v@.take(k + 1));
        }
        k = k + 1;
    }
    proof {
        assert(v@.take(n as int) =~= v@);
    }
    r
}

/// Copy of a chunk list.
pub fn clone_chunks(v: &Vec<Chunk>) -> (r: Vec<Chunk>)
    ensures
        r@ == v@,
{
    let n = v.len();
    let mut r: Vec<Chunk> = Vec::new();
    let mut k: usize = 0;
    while k < n
        invariant
            n == v@.len(),
            k <= n,
            r@ == v@.take(k as int),
        decreases n - k,
    {
        r.push(v[k]);
        proof {
            assert(r@ =~= v@.take(k + 1));
        }
        k = k + 1;
    }
    proof {
        assert(v@.take(n as int) =~= v@);
    }
    r
}

/// Copy of an inode.
pub fn clone_inode(n: &Inode) -> (r: Inode)
    ensures
        r@ == n@,
{
    match n {
        Inode::Directory => Inode::Directory,
        Inode::File { chunks } => Inode::File { chunks: clone_chunks(chunks) },
        Inode::Whiteout => Inode::Whiteout,
    }
}

/// Copy of a tree entry.
pub fn clone_entry(e: &TreeEntry) -> (r: TreeEntry)
    ensures
        r@ == e@,
{
    TreeEntry { path: clone_bytes(&e.path), node: clone_inode(&e.node) }
}

impl Tree {
    /// The empty tree.
    pub fn new() -> (r: Tree)
        ensures
            r@ =~= Seq::<EntryV>::empty(),
    {
        Tree { entries: Vec::new() }
    }

    /// Number of entries.
    pub fn len(&self) -> (r: usize)
        ensures
            r == self@.len(),
    {
        self.entries.len()
    }

    /// Entry lookup by position.
    pub fn get(&self, i: usize) -> (r: &TreeEntry)
        requires
            i < self@.len(),
        ensures
            r@ == self@[i as int],
    {
        &self.entries[i]
    }

    /// Position of the first entry at path `p`, if any.
    pub fn find(&self, p: &Vec<u8>) -> (r: Option<usize>)
        ensures
            match r {
                Some(i) => spec_tree_find(self@, p@) == Some(i as int),
                None => spec_tree_find(self@, p@) is None,
            },
    {
        let n = self.entries.len();
        let mut k: usize = 0;
        while k < n
            invariant
                n == self@.len(),
                k <= n,
                spec_tree_find(self@.take(k as int), p@) is None,
            decreases n - k,
        {
            if bytes_eq(&self.entries[k].path, p) {
                proof {
                    lemma_tree_find_hit(self@, k as int, p@);
                }
                return Some(k);
            }
            proof {
                assert(self@.take(k + 1).drop_last() =~= self@.take(k as int));
                assert(self@.take(k + 1).last() == self@[k as int]);
            }
            k = k + 1;
        }
        proof {
            assert(self@.take(n as int) =~= self@);
        }
        None
    }

    /// Replace the entry at `e.path` by `e`, or append `e` if its path is
    /// new.
    pub fn set_entry(&mut self, e: TreeEntry)
        ensures
            final(self)@ == spec_tree_set(old(self)@, e@),
    {
        let ghost ev = e@;
        let found = self.find(&e.path);
        match found {
            Some(i) => {
                proof {
                    lemma_tree_find_props(self@, ev.path);
                }
                self.entries[i] = e;
                proof {
                    assert(self@ =~= spec_tree_set(old(self)@, ev));
                }
            },
            None => {
                self.entries.push(e);
                proof {
                    assert(self@ =~= spec_tree_set(old(self)@, ev));
                }
            },
        }
    }

    /// Drop the entry at `p` and every descendant of `p`.
    pub fn remove_subtree(&mut self, p: &Vec<u8>)
        ensures
            final(self)@ == spec_remove_subtree(old(self)@, p@),
    {
        let n = self.entries.len();
        let mut out: Vec<TreeEntry> = Vec::new();
        let mut k: usize = 0;
        while k < n
            invariant
                *self == *old(self),
                n == self@.len(),
                k <= n,
                out@.map_values(|e: TreeEntry| e@) == spec_remove_subtree(
                    self@.take(k as int),
                    p@,
                ),
            decreases n - k,
        {
            let keep = !path_under(p, &self.entries[k].path);
            proof {
                assert(self@.take(k + 1).drop_last() =~= self@.take(k as int));
                assert(self@.take(k + 1).last() == self@[k as int]);
            }
            if keep {
                let c = clone_entry(&self.entries[k]);
                out.push(c);
                proof {
                    assert(out@.map_values(|e: TreeEntry| e@) =~= spec_remove_subtree(
                        self@.take(k + 1),
                        p@,
                    ));
                }
            }
            k = k + 1;
        }
        proof {
            assert(self@.take(n as int) =~= self@);
        }
        self.entries = out;
    }

    /// Drop every strict descendant of `p`.
    pub fn remove_descendants(&mut self, p: &Vec<u8>)
        ensures
            final(self)@ == spec_remove_descendants(old(self)@, p@),
    {
        let n = self.entries.len();
        let mut out: Vec<TreeEntry> = Vec::new();
        let mut k: usize = 0;
        while k < n
            invariant
                *self == *old(self),
                n == self@.len(),
                k <= n,
                out@.map_values(|e: TreeEntry| e@) == spec_remove_descendants(
                    self@.take(k as int),
                    p@,
                ),
            decreases n - k,
        {
            let keep = !is_ancestor(p, &self.entries[k].path);
            proof {
                assert(self@.take(k + 1).drop_last() =~= self@.take(k as int));
                assert(self@.take(k + 1).last() == self@[k as int]);
            }
            if keep {
                let c = clone_entry(&self.entries[k]);
                out.push(c);
                proof {
                    assert(out@.map_values(|e: TreeEntry| e@) =~= spec_remove_descendants(
                        self@.take(k + 1),
                        p@,
                    ));
                }
            }
            k = k + 1;
        }
        proof {
            assert(self@.take(n as int) =~= self@);
        }
        self.entries = out;
    }

    /// Overlay one entry: a whiteout deletes the shadowed subtree; a
    /// directory replaces the entry at its path; a file replaces the entry
    /// at its path and shadows former descendants.
    pub fn apply_entry(&mut self, e: TreeEntry)
        ensures
            final(self)@ == spec_apply_entry(old(self)@, e@),
    {
        match &e.node {
            Inode::Whiteout => {
                self.remove_subtree(&e.path);
            },
            Inode::Directory => {
                self.set_entry(e);
            },
            Inode::File { .. } => {
                self.remove_descendants(&e.path);
                self.set_entry(e);
            },
        }
    }
}

} // verus!
