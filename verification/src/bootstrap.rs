//! A bootstrap: one filesystem snapshot, coupling a directory tree with its
//! blob table and format configuration, together with the well-formedness
//! invariant every operation of this crate preserves.

use vstd::prelude::*;
use crate::model::{
    BlobDesc, BlobTable, Compressor, FormatConfig, FsVersion, BLOB_FEATURE_SEPARATE_META,
    homogeneous, unique_ids,
};
use crate::tree::{bytes_eq, EntryV, Inode, InodeV, paths_unique, Tree};

verus! {

/// Spec-level form of a bootstrap.
pub struct BootstrapV {
    pub config: FormatConfig,
    pub tree: Seq<EntryV>,
    pub table: Seq<BlobDesc>,
}

/// One filesystem snapshot: a directory tree plus the blob table its chunks
/// index into, plus the format configuration it was built with.  A bootstrap
/// is exclusively owned by the operation that loaded it.
pub struct Bootstrap {
    pub config: FormatConfig,
    pub tree: Tree,
    pub table: BlobTable,
}

impl View for Bootstrap {
    type V = BootstrapV;

    open spec fn view(&self) -> BootstrapV {
        BootstrapV { config: self.config, tree: self.tree@, table: self.table@ }
    }
}

/// Every chunk of inode `n` indexes a present blob-table entry.
pub open spec fn node_chunks_valid(n: InodeV, len: int) -> bool {
    match n {
        InodeV::File { chunks } => forall|j: int|
            0 <= j < chunks.len() ==> (#[trigger] chunks[j]).blob_index < len,
        _ => true,
    }
}

/// Every chunk of tree `t` indexes a present entry of a table of length
/// `len`.
pub open spec fn chunks_valid(t: Seq<EntryV>, len: int) -> bool {
    forall|i: int| 0 <= i < t.len() ==> node_chunks_valid((#[trigger] t[i]).node, len)
}

/// Structural well-formedness of a bootstrap: blob ids unique, blobs
/// homogeneous in the declared chunk size, paths unique, and every chunk
/// reference inside the table.
pub open spec fn wf_v(b: BootstrapV) -> bool {
    &&& unique_ids(b.table)
    &&& homogeneous(b.table, b.config.chunk_size)
    &&& paths_unique(b.tree)
    &&& chunks_valid(b.tree, b.table.len() as int)
}

/// A bootstrap already fully flattened: no whiteout entries are left and no
/// entry lies below a file.  Merge outputs with whiteout-free inputs and
/// freshly built single-image bootstraps have this shape.
pub open spec fn flattened(t: Seq<EntryV>) -> bool {
    &&& forall|i: int| 0 <= i < t.len() ==> !((#[trigger] t[i]).node is Whiteout)
    &&& forall|i: int, j: int|
        0 <= i < t.len() && 0 <= j < t.len() && (#[trigger] t[i]).node is File
            ==> !crate::tree::is_ancestor_path(t[i].path, (#[trigger] t[j]).path)
}

/// Chunk validity is monotone in the table length.
pub proof fn lemma_chunks_valid_mono(t: Seq<EntryV>, n1: int, n2: int)
    requires
        chunks_valid(t, n1),
        n1 <= n2,
    ensures
        chunks_valid(t, n2),
{
    assert forall|i: int| 0 <= i < t.len() implies node_chunks_valid(
        (#[trigger] t[i]).node,
        n2,
    ) by {
        assert(node_chunks_valid(t[i].node, n1));
        match t[i].node {
            InodeV::File { chunks } => {
                assert(forall|j: int|
                    0 <= j < chunks.len() ==> (#[trigger] chunks[j]).blob_index < n1);
            },
            _ => {},
        }
    }
}

/// Applying one overlay entry whose own chunks are valid keeps the tree's
/// chunks valid.
pub proof fn lemma_apply_entry_valid(t: Seq<EntryV>, e: EntryV, n: int)
    requires
        chunks_valid(t, n),
        node_chunks_valid(e.node, n),
    ensures
        chunks_valid(crate::tree::spec_apply_entry(t, e), n),
{
    match e.node {
        InodeV::Whiteout => {
            crate::tree::lemma_remove_subtree_contains(t, e.path);
            let r = crate::tree::spec_remove_subtree(t, e.path);
            assert forall|i: int| 0 <= i < r.len() implies node_chunks_valid(
                (#[trigger] r[i]).node,
                n,
            ) by {
                assert(t.contains(r[i]));
                let j = choose|j: int| 0 <= j < t.len() && t[j] == r[i];
                assert(node_chunks_valid(t[j].node, n));
            }
        },
        InodeV::Directory => {
            lemma_set_valid(t, e, n);
        },
        InodeV::File { .. } => {
            crate::tree::lemma_remove_descendants_contains(t, e.path);
            let r = crate::tree::spec_remove_descendants(t, e.path);
            assert forall|i: int| 0 <= i < r.len() implies node_chunks_valid(
                (#[trigger] r[i]).node,
                n,
            ) by {
                assert(t.contains(r[i]));
                let j = choose|j: int| 0 <= j < t.len() && t[j] == r[i];
                assert(node_chunks_valid(t[j].node, n));
            }
            lemma_set_valid(r, e, n);
        },
    }
}

/// Setting an entry whose own chunks are valid keeps the tree's chunks
/// valid.
pub proof fn lemma_set_valid(t: Seq<EntryV>, e: EntryV, n: int)
    requires
        chunks_valid(t, n),
        node_chunks_valid(e.node, n),
    ensures
        chunks_valid(crate::tree::spec_tree_set(t, e), n),
{
    crate::tree::lemma_tree_find_props(t, e.path);
    let r = crate::tree::spec_tree_set(t, e);
    match crate::tree::spec_tree_find(t, e.path) {
        Some(i) => {
            assert forall|a: int| 0 <= a < r.len() implies node_chunks_valid(
                (#[trigger] r[a]).node,
                n,
            ) by {
                if a != i {
                    assert(r[a] == t[a]);
                    assert(node_chunks_valid(t[a].node, n));
                }
            }
        },
        None => {
            assert forall|a: int| 0 <= a < r.len() implies node_chunks_valid(
                (#[trigger] r[a]).node,
                n,
            ) by {
                if a < t.len() {
                    assert(r[a] == t[a]);
                    assert(node_chunks_valid(t[a].node, n));
                }
            }
        },
    }
}

impl Bootstrap {
    /// Well-formedness, including the table's fixed chunk size agreeing with
    /// the format configuration.
    pub open spec fn wf(&self) -> bool {
        &&& self.table.chunk_size == self.config.chunk_size
        &&& wf_v(self@)
    }

    /// Runtime check of `wf`, for callers that received a bootstrap from an
    /// untrusted loader.
    pub fn check_wf(&self) -> (r: bool)
        ensures
            r == self.wf(),
    {
        if self.table.chunk_size != self.config.chunk_size {
            return false;
        }
        let nb = self.table.entries.len();
        let mut i: usize = 0;
        while i < nb
            invariant
                nb == self.table@.len(),
                i <= nb,
                forall|a: int, b: int|
                    0 <= a < b < nb && a < i ==> #[trigger] self.table@[a].blob_id
                        != #[trigger] self.table@[b].blob_id,
                forall|a: int| 0 <= a < i ==> #[trigger] self.table@[a].chunk_size
                    == self.config.chunk_size,
            decreases nb - i,
        {
            if self.table.entries[i].chunk_size != self.config.chunk_size {
                return false;
            }
            let mut j: usize = i + 1;
            while j < nb
                invariant
                    nb == self.table@.len(),
                    i < j <= nb,
                    forall|b: int| i < b < j ==> #[trigger] self.table@[b].blob_id
                        != self.table@[i as int].blob_id,
                decreases nb - j,
            {
                if self.table.entries[j].blob_id == self.table.entries[i].blob_id {
                    assert(!unique_ids(self.table@));
                    return false;
                }
                j = j + 1;
            }
            i = i + 1;
        }
        let nt = self.tree.entries.len();
        let mut i: usize = 0;
        while i < nt
            invariant
                nt == self@.tree.len(),
                nb == self.table@.len(),
                i <= nt,
                forall|a: int, b: int|
                    0 <= a < b < nt && a < i ==> #[trigger] self@.tree[a].path
                        != #[trigger] self@.tree[b].path,
            decreases nt - i,
        {
            let mut j: usize = i + 1;
            while j < nt
                invariant
                    nt == self@.tree.len(),
                    i < j <= nt,
                    forall|b: int| i < b < j ==> #[trigger] self@.tree[b].path
                        != self@.tree[i as int].path,
                decreases nt - j,
            {
                if bytes_eq(&self.tree.entries[j].path, &self.tree.entries[i].path) {
                    proof {
                        assert(self@.tree[j as int].path == self@.tree[i as int].path);
                        assert(!paths_unique(self@.tree));
                    }
                    return false;
                }
                j = j + 1;
            }
            i = i + 1;
        }
        let mut i: usize = 0;
        while i < nt
            invariant
                nt == self@.tree.len(),
                nb == self.table@.len(),
                i <= nt,
                forall|a: int| 0 <= a < i ==> node_chunks_valid(
                    (#[trigger] self@.tree[a]).node,
                    nb as int,
                ),
            decreases nt - i,
        {
            match &self.tree.entries[i].node {
                Inode::File { chunks } => {
                    proof {
                        assert(self@.tree[i as int].node == (InodeV::File { chunks: chunks@ }));
                    }
                    let nc = chunks.len();
                    let mut j: usize = 0;
                    while j < nc
                        invariant
                            nc == chunks@.len(),
                            nb == self.table@.len(),
                            i < nt,
                            nt == self@.tree.len(),
                            self@.tree[i as int].node == (InodeV::File { chunks: chunks@ }),
                            j <= nc,
                            forall|c: int| 0 <= c < j ==> (#[trigger] chunks@[c]).blob_index < nb,
                        decreases nc - j,
                    {
                        if chunks[j].blob_index >= nb {
                            proof {
                                assert(!node_chunks_valid(self@.tree[i as int].node, nb as int));
                            }
                            return false;
                        }
                        j = j + 1;
                    }
                    proof {
                        assert(node_chunks_valid(self@.tree[i as int].node, nb as int));
                    }
                },
                _ => {
                    proof {
                        assert(node_chunks_valid(self@.tree[i as int].node, nb as int));
                    }
                },
            }
            i = i + 1;
        }
        true
    }
}

/// The operation result record reported to the surrounding program: the
/// blobs the produced bootstrap references, the external (separate-metadata)
/// blobs among them, and the format the output was written with.
pub struct OperationOutput {
    /// All blob ids of the output's table, in table order.
    pub blob_ids: Vec<u64>,
    /// Ids of blobs flagged as separate-metadata blobs, in table order.
    pub external_blob_ids: Vec<u64>,
    pub version: FsVersion,
    pub compressor: Compressor,
}

/// Ids of the separate-metadata blobs of `t`, in table order.
pub open spec fn spec_external_ids(t: Seq<BlobDesc>) -> Seq<u64>
    decreases t.len(),
{
    if t.len() == 0 {
        Seq::empty()
    } else {
        let r = spec_external_ids(t.drop_last());
        if t.last().features & BLOB_FEATURE_SEPARATE_META != 0 {
            r.push(t.last().blob_id)
        } else {
            r
        }
    }
}

/// Derive the result record of an operation that produced bootstrap `b`.
pub fn summarize(b: &Bootstrap) -> (r: OperationOutput)
    ensures
        r.blob_ids@ == b@.table.map_values(|d: BlobDesc| d.blob_id),
        r.external_blob_ids@ == spec_external_ids(b@.table),
        r.version == b.config.version,
        r.compressor == b.config.compressor,
{
    let n = b.table.entries.len();
    let mut ids: Vec<u64> = Vec::new();
    let mut ext: Vec<u64> = Vec::new();
    let mut k: usize = 0;
    while k < n
        invariant
            n == b.table@.len(),
            k <= n,
            ids@ == b.table@.take(k as int).map_values(|d: BlobDesc| d.blob_id),
            ext@ == spec_external_ids(b.table@.take(k as int)),
        decreases n - k,
    {
        let d = &b.table.entries[k];
        ids.push(d.blob_id);
        if d.features & BLOB_FEATURE_SEPARATE_META != 0 {
            ext.push(d.blob_id);
        }
        proof {
            assert(b.table@.take(k + 1).drop_last() =~= b.table@.take(k as int));
            assert(b.table@.take(k + 1).last() == b.table@[k as int]);
            assert(ids@ =~= b.table@.take(k + 1).map_values(|d: BlobDesc| d.blob_id));
        }
        k = k + 1;
    }
    proof {
        assert(b.table@.take(n as int) =~= b.table@);
    }
    OperationOutput {
        blob_ids: ids,
        external_blob_ids: ext,
        version: b.config.version,
        compressor: b.config.compressor,
    }
}

} // verus!
