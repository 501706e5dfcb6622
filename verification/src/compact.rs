//! Blob compaction: compute per-blob utilization from the live chunks of
//! one bootstrap, repack the live chunks of underused and small blobs into
//! fresh bounded blobs, and rewrite the blob table and every relocated
//! chunk reference.  Blobs serving a chunk dictionary are never evicted.

use vstd::prelude::*;
use crate::model::{BlobDesc, BlobTable, Chunk, homogeneous, spec_find_blob, unique_ids};
use crate::tree::{EntryV, Inode, InodeV, Tree, TreeEntry, clone_bytes, paths_unique};
use crate::bootstrap::{Bootstrap, BootstrapV, chunks_valid, node_chunks_valid};
use crate::dict::{ChunkDict, DictV};

verus! {

/// Configuration of one compaction run.
#[derive(Clone, Copy, Debug, PartialEq, Eq, Structural)]
pub struct CompactConfig {
    /// Percentage (0 to 100): blobs whose live bytes fall below this share
    /// of their declared size are candidates for elimination.
    pub min_used_ratio: u32,
    /// Blobs at most this (declared, uncompressed) size are candidates for
    /// merging even when well used.
    pub compact_blob_size: u64,
    /// Upper bound on the compressed size of one packed output blob; a
    /// single chunk larger than the bound still gets a blob of its own.
    pub max_compact_size: u64,
    /// Skip compaction entirely while the table has fewer blobs than this;
    /// zero means always compact.
    pub layers_to_compact: u32,
}

/// Why a compaction was rejected.
#[derive(Clone, Copy, Debug, PartialEq, Eq, Structural)]
pub enum CompactError {
    /// `min_used_ratio` exceeds 100 percent.
    InvalidRatio { value: u32 },
    /// No unused blob id, blob-table position or representable per-blob
    /// chunk count was left to describe a packed output blob.
    OutputSpaceExhausted,
}

/// Exact number of live bytes chunks of `cks` store in blob `i`.
pub open spec fn used_in_chunks(cks: Seq<Chunk>, i: int) -> int
    decreases cks.len(),
{
    if cks.len() == 0 {
        0
    } else {
        let r = used_in_chunks(cks.drop_last(), i);
        if cks.last().blob_index == i {
            r + cks.last().uncompressed_size
        } else {
            r
        }
    }
}

/// Exact number of live bytes the tree stores in blob `i`.
pub open spec fn used_in_tree(t: Seq<EntryV>, i: int) -> int
    decreases t.len(),
{
    if t.len() == 0 {
        0
    } else {
        let r = used_in_tree(t.drop_last(), i);
        match t.last().node {
            InodeV::File { chunks } => r + used_in_chunks(chunks, i),
            _ => r,
        }
    }
}

/// Value capped at the largest representable 64-bit count.
pub open spec fn cap64(x: int) -> int {
    if x > u64::MAX {
        u64::MAX as int
    } else {
        x
    }
}

/// Live bytes of blob `i`, as the 64-bit saturating counter measures them.
pub open spec fn spec_used(t: Seq<EntryV>, i: int) -> int {
    cap64(used_in_tree(t, i))
}

/// The dictionary protects blob `id` from eviction.
pub open spec fn protected_by_dict(dict: Option<DictV>, id: u64) -> bool {
    match dict {
        Some(d) => spec_find_blob(d.blobs, id) is Some,
        None => false,
    }
}

/// Blob `i` is a compaction candidate: not dictionary-protected, and either
/// used below `min_used_ratio` percent of its declared size or small enough
/// for merging.
pub open spec fn spec_candidate(b: BootstrapV, dict: Option<DictV>, cfg: CompactConfig, i: int) -> bool {
    &&& !protected_by_dict(dict, b.table[i].blob_id)
    &&& (spec_used(b.tree, i) * 100 < cfg.min_used_ratio * b.table[i].uncompressed_size
        || b.table[i].uncompressed_size <= cfg.compact_blob_size)
}

/// Number of kept (non-candidate) blobs among the first `n`.
pub open spec fn spec_kept_count(b: BootstrapV, dict: Option<DictV>, cfg: CompactConfig, n: int) -> int
    decreases n,
{
    if n <= 0 {
        0
    } else {
        spec_kept_count(b, dict, cfg, n - 1) + if spec_candidate(b, dict, cfg, n - 1) {
            0int
        } else {
            1int
        }
    }
}

/// The kept blobs among the first `n`, in table order.
pub open spec fn spec_kept_table(b: BootstrapV, dict: Option<DictV>, cfg: CompactConfig, n: int) -> Seq<
    BlobDesc,
>
    decreases n,
{
    if n <= 0 {
        Seq::empty()
    } else {
        let r = spec_kept_table(b, dict, cfg, n - 1);
        if spec_candidate(b, dict, cfg, n - 1) {
            r
        } else {
            r.push(b.table[n - 1])
        }
    }
}

/// The kept table is the filtered input table: its length is the kept
/// count, every kept blob keeps its descriptor at its new position, and
/// uniqueness and homogeneity carry over.
pub proof fn lemma_kept_props(b: BootstrapV, dict: Option<DictV>, cfg: CompactConfig, n: int)
    requires
        0 <= n <= b.table.len(),
    ensures
        spec_kept_table(b, dict, cfg, n).len() == spec_kept_count(b, dict, cfg, n),
        spec_kept_count(b, dict, cfg, n) <= n,
        forall|k: int|
            0 <= k < spec_kept_table(b, dict, cfg, n).len() ==> exists|i: int|
                0 <= i < n && b.table[i] == #[trigger] spec_kept_table(b, dict, cfg, n)[k]
                    && !spec_candidate(b, dict, cfg, i),
        forall|i: int|
            0 <= i < n && !spec_candidate(b, dict, cfg, i) ==> {
                &&& #[trigger] spec_kept_count(b, dict, cfg, i) < spec_kept_count(b, dict, cfg, n)
                &&& spec_kept_table(b, dict, cfg, n)[spec_kept_count(b, dict, cfg, i)]
                    == b.table[i]
            },
    decreases n,
{
    if n > 0 {
        lemma_kept_props(b, dict, cfg, n - 1);
        let r = spec_kept_table(b, dict, cfg, n - 1);
        if !spec_candidate(b, dict, cfg, n - 1) {
            assert(forall|k: int| 0 <= k < r.len() ==> r.push(b.table[n - 1])[k] == r[k]);
        }
        assert forall|i: int| 0 <= i < n && !spec_candidate(b, dict, cfg, i) implies {
            &&& #[trigger] spec_kept_count(b, dict, cfg, i) < spec_kept_count(b, dict, cfg, n)
            &&& spec_kept_table(b, dict, cfg, n)[spec_kept_count(b, dict, cfg, i)] == b.table[i]
        } by {
            lemma_kept_count_mono(b, dict, cfg, 0, i);
            if i < n - 1 {
                assert(spec_kept_count(b, dict, cfg, i) < spec_kept_count(b, dict, cfg, n - 1));
                assert(r[spec_kept_count(b, dict, cfg, i)] == b.table[i]);
                assert(r.len() == spec_kept_count(b, dict, cfg, n - 1));
                if spec_candidate(b, dict, cfg, n - 1) {
                    assert(spec_kept_table(b, dict, cfg, n) == r);
                } else {
                    assert(spec_kept_table(b, dict, cfg, n) == r.push(b.table[n - 1]));
                    assert(r.push(b.table[n - 1])[spec_kept_count(b, dict, cfg, i)] == r[
                        spec_kept_count(b, dict, cfg, i)
                    ]);
                }
            } else {
                assert(!spec_candidate(b, dict, cfg, n - 1));
                assert(spec_kept_count(b, dict, cfg, i) == r.len());
                assert(spec_kept_table(b, dict, cfg, n) == r.push(b.table[n - 1]));
                assert(r.push(b.table[n - 1])[r.len() as int] == b.table[n - 1]);
            }
        }
    }
}

/// The kept counts are monotone in the prefix length.
pub proof fn lemma_kept_count_mono(
    b: BootstrapV,
    dict: Option<DictV>,
    cfg: CompactConfig,
    m: int,
    n: int,
)
    requires
        0 <= m <= n,
    ensures
        spec_kept_count(b, dict, cfg, m) <= spec_kept_count(b, dict, cfg, n),
    decreases n - m,
{
    if m < n {
        lemma_kept_count_mono(b, dict, cfg, m, n - 1);
    }
}

/// Kept blobs of a table with unique ids form a table with unique ids; the
/// same for homogeneity.
pub proof fn lemma_kept_invariants(b: BootstrapV, dict: Option<DictV>, cfg: CompactConfig, n: int, cs: u32)
    requires
        0 <= n <= b.table.len(),
        unique_ids(b.table),
        homogeneous(b.table, cs),
    ensures
        unique_ids(spec_kept_table(b, dict, cfg, n)),
        homogeneous(spec_kept_table(b, dict, cfg, n), cs),
        forall|k: int, i2: int|
            0 <= k < spec_kept_table(b, dict, cfg, n).len() && n <= i2 < b.table.len()
                ==> (#[trigger] spec_kept_table(b, dict, cfg, n)[k]).blob_id
                != (#[trigger] b.table[i2]).blob_id,
    decreases n,
{
    if n > 0 {
        lemma_kept_invariants(b, dict, cfg, n - 1, cs);
        lemma_kept_props(b, dict, cfg, n - 1);
        let r = spec_kept_table(b, dict, cfg, n - 1);
        if !spec_candidate(b, dict, cfg, n - 1) {
            let r2 = r.push(b.table[n - 1]);
            assert(forall|k: int| 0 <= k < r.len() ==> r2[k] == r[k]);
            assert(r2[r.len() as int] == b.table[n - 1]);
            assert forall|a: int, c: int|
                0 <= a < c < r2.len() implies #[trigger] r2[a].blob_id
                != #[trigger] r2[c].blob_id by {
                if c == r.len() {
                    let i = choose|i: int|
                        0 <= i < n - 1 && b.table[i] == r[a] && !spec_candidate(b, dict, cfg, i);
                    assert(b.table[i].blob_id != b.table[n - 1].blob_id);
                }
            }
        }
    }
}

/// Chunk identity up to relocation: everything but the blob reference and
/// the intra-blob offset agrees.
pub open spec fn chunk_moved_eq(a: Chunk, b: Chunk) -> bool {
    &&& a.digest == b.digest
    &&& a.uncompressed_size == b.uncompressed_size
    &&& a.compressed_size == b.compressed_size
    &&& a.file_offset == b.file_offset
    &&& a.compressed == b.compressed
    &&& a.format_version == b.format_version
}

/// How one chunk may be rewritten by compaction: content and sizes are
/// untouched; a chunk of a kept blob follows its blob to the blob's new
/// position with its offset unchanged; a chunk of a candidate blob moves
/// into the packed region and fits inside its new blob.
pub open spec fn spec_chunk_rewritten(
    b: BootstrapV,
    dict: Option<DictV>,
    cfg: CompactConfig,
    o: BootstrapV,
    kc: int,
    c1: Chunk,
    c2: Chunk,
) -> bool {
    &&& chunk_moved_eq(c2, c1)
    &&& if spec_candidate(b, dict, cfg, c1.blob_index as int) {
        &&& kc <= c2.blob_index < o.table.len()
        &&& c2.offset + c2.compressed_size <= o.table[c2.blob_index as int].compressed_size
    } else {
        &&& c2.blob_index == spec_kept_count(b, dict, cfg, c1.blob_index as int)
        &&& c2.offset == c1.offset
        &&& c2.blob_index < o.table.len()
        &&& o.table[c2.blob_index as int] == b.table[c1.blob_index as int]
    }
}

/// How one tree entry may be rewritten by compaction: same path, same
/// inode kind, chunks rewritten one for one.
pub open spec fn spec_entry_rewritten(
    b: BootstrapV,
    dict: Option<DictV>,
    cfg: CompactConfig,
    o: BootstrapV,
    kc: int,
    ei: int,
) -> bool {
    let e1 = b.tree[ei];
    let e2 = o.tree[ei];
    &&& e2.path == e1.path
    &&& match e1.node {
        InodeV::Directory => e2.node is Directory,
        InodeV::Whiteout => e2.node is Whiteout,
        InodeV::File { chunks: c1 } => match e2.node {
            InodeV::File { chunks: c2 } => c1.len() == c2.len() && (forall|m: int|
                0 <= m < c1.len() ==> spec_chunk_rewritten(
                    b,
                    dict,
                    cfg,
                    o,
                    kc,
                    #[trigger] c1[m],
                    c2[m],
                )),
            _ => false,
        },
    }
}

/// Everything a successful compaction promises of its output bootstrap.
pub open spec fn spec_compact_post(
    b: BootstrapV,
    dict: Option<DictV>,
    cfg: CompactConfig,
    o: BootstrapV,
) -> bool {
    let n = b.table.len() as int;
    let kc = spec_kept_count(b, dict, cfg, n);
    &&& o.config == b.config
    // The kept blobs open the new table, in order, unchanged.
    &&& kc <= o.table.len()
    &&& o.table.take(kc) == spec_kept_table(b, dict, cfg, n)
    // Packed blobs respect the size bound (single oversized chunks get a
    // blob of their own) and carry fresh ids.
    &&& forall|pi: int|
        kc <= pi < o.table.len() ==> (#[trigger] o.table[pi]).compressed_size
            <= cfg.max_compact_size || o.table[pi].chunk_count == 1
    &&& forall|pi: int|
        kc <= pi < o.table.len() ==> spec_find_blob(b.table, (#[trigger] o.table[pi]).blob_id)
            is None
    // Every candidate blob's id is gone from the output table.
    &&& forall|i: int|
        0 <= i < n && spec_candidate(b, dict, cfg, i) ==> spec_find_blob(
            o.table,
            (#[trigger] b.table[i]).blob_id,
        ) is None
    // Packed blobs hold exactly the bytes, and exactly the count, of the
    // chunks routed to them, so the single-chunk escape of the size bound
    // really means a single routed chunk.
    &&& forall|pi: int|
        kc <= pi < o.table.len() ==> (#[trigger] o.table[pi]).compressed_size as int
            == fill_in_tree(o.tree, pi)
    &&& forall|pi: int|
        kc <= pi < o.table.len() ==> (#[trigger] o.table[pi]).chunk_count as int
            == routed_in_tree(o.tree, pi)
    // The tree keeps its shape; only blob references move.
    &&& o.tree.len() == b.tree.len()
    &&& forall|ei: int|
        0 <= ei < b.tree.len() ==> #[trigger] spec_entry_rewritten(b, dict, cfg, o, kc, ei)
    // Relocated chunks are placed densely: each one starts where the
    // previous chunks of its packed blob end.
    &&& forall|ei: int|
        0 <= ei < b.tree.len() ==> #[trigger] entry_placement_ok(b, dict, cfg, o.tree, ei)
    // Packing is greedy: a packed blob is opened only for a chunk its
    // predecessor could not take, so two half-filled packed blobs never
    // stand where one would do.
    &&& forall|ei: int|
        0 <= ei < o.tree.len() ==> entry_greedy_ok(cfg, kc, o.table.skip(kc), #[trigger] o.tree[ei])
}

/// Compressed bytes the chunks of `cks` place into blob `bi`.
pub open spec fn fill_in_chunks(cks: Seq<Chunk>, bi: int) -> int
    decreases cks.len(),
{
    if cks.len() == 0 {
        0
    } else {
        fill_in_chunks(cks.drop_last(), bi) + if cks.last().blob_index == bi {
            cks.last().compressed_size as int
        } else {
            0int
        }
    }
}

/// Compressed bytes the tree's chunks place into blob `bi`.
pub open spec fn fill_in_tree(t: Seq<EntryV>, bi: int) -> int
    decreases t.len(),
{
    if t.len() == 0 {
        0
    } else {
        fill_in_tree(t.drop_last(), bi) + match t.last().node {
            InodeV::File { chunks } => fill_in_chunks(chunks, bi),
            _ => 0int,
        }
    }
}

/// No chunk of the inode references blob `bi`.
pub open spec fn node_fill_avoids(n: InodeV, bi: int) -> bool {
    match n {
        InodeV::File { chunks } => forall|m: int|
            0 <= m < chunks.len() ==> (#[trigger] chunks[m]).blob_index != bi,
        _ => true,
    }
}

/// A chunk list that never references blob `bi` contributes no fill to it.
pub proof fn lemma_fill_chunks_zero(cks: Seq<Chunk>, bi: int)
    requires
        forall|m: int| 0 <= m < cks.len() ==> (#[trigger] cks[m]).blob_index != bi,
    ensures
        fill_in_chunks(cks, bi) == 0,
    decreases cks.len(),
{
    if cks.len() > 0 {
        assert(forall|m: int| 0 <= m < cks.len() - 1 ==> cks.drop_last()[m] == cks[m]);
        lemma_fill_chunks_zero(cks.drop_last(), bi);
    }
}

/// A tree that never references blob `bi` contributes no fill to it.
pub proof fn lemma_fill_tree_zero(t: Seq<EntryV>, bi: int)
    requires
        forall|e: int| 0 <= e < t.len() ==> node_fill_avoids((#[trigger] t[e]).node, bi),
    ensures
        fill_in_tree(t, bi) == 0,
    decreases t.len(),
{
    if t.len() > 0 {
        assert(forall|e: int| 0 <= e < t.len() - 1 ==> t.drop_last()[e] == t[e]);
        lemma_fill_tree_zero(t.drop_last(), bi);
        match t.last().node {
            InodeV::File { chunks } => {
                lemma_fill_chunks_zero(chunks, bi);
            },
            _ => {},
        }
    }
}

/// Exact placement of relocated chunks: every candidate chunk of output
/// entry `e` starts where the chunks previously routed to the same packed
/// blob end, so packed blobs are laid out densely and without overlap.
pub open spec fn entry_placement_ok(
    bv: BootstrapV,
    dictv: Option<DictV>,
    cfg: CompactConfig,
    outv: Seq<EntryV>,
    e: int,
) -> bool {
    match bv.tree[e].node {
        InodeV::File { chunks: c1 } => match outv[e].node {
            InodeV::File { chunks: c2 } => c1.len() == c2.len() && (forall|m: int|
                0 <= m < c1.len() && spec_candidate(bv, dictv, cfg, c1[m].blob_index as int)
                    ==> (#[trigger] c2[m]).offset as int == fill_in_tree(
                    outv.take(e),
                    c2[m].blob_index as int,
                ) + fill_in_chunks(c2.take(m), c2[m].blob_index as int)),
            _ => false,
        },
        _ => true,
    }
}

/// A correctly rewritten entry sends no chunk to a blob at or beyond the
/// packed region's current end.
pub proof fn lemma_entry_avoids(
    bv: BootstrapV,
    dictv: Option<DictV>,
    cfg: CompactConfig,
    kl: int,
    ptbl: Seq<BlobDesc>,
    e1: EntryV,
    e2: EntryV,
    bi: int,
)
    requires
        entry_packed_ok(bv, dictv, cfg, kl, ptbl, e1, e2),
        node_chunks_valid(e1.node, bv.table.len() as int),
        forall|i: int|
            0 <= i < bv.table.len() && !spec_candidate(bv, dictv, cfg, i)
                ==> #[trigger] spec_kept_count(bv, dictv, cfg, i) < kl,
        bi >= kl + ptbl.len(),
    ensures
        node_fill_avoids(e2.node, bi),
{
    match e1.node {
        InodeV::File { chunks: c1 } => {
            match e2.node {
                InodeV::File { chunks: c2 } => {
                    assert forall|m: int|
                        0 <= m < c2.len() implies (#[trigger] c2[m]).blob_index != bi by {
                        assert(chunk_packed_ok(bv, dictv, cfg, kl, ptbl, c1[m], c2[m]));
                        assert(c1[m].blob_index < bv.table.len());
                    }
                },
                _ => {},
            }
        },
        _ => {},
    }
}

/// Largest blob id of the table (zero for an empty table).
pub open spec fn spec_max_blob_id(t: Seq<BlobDesc>) -> int
    decreases t.len(),
{
    if t.len() == 0 {
        0
    } else {
        let r = spec_max_blob_id(t.drop_last());
        if t.last().blob_id > r {
            t.last().blob_id as int
        } else {
            r
        }
    }
}

/// The largest blob id is never negative.
pub proof fn lemma_max_id_nonneg(t: Seq<BlobDesc>)
    ensures
        spec_max_blob_id(t) >= 0,
    decreases t.len(),
{
    if t.len() > 0 {
        lemma_max_id_nonneg(t.drop_last());
    }
}

/// Number of chunks of `cks` owned by candidate blobs.
pub open spec fn cand_in_chunks(
    b: BootstrapV,
    dict: Option<DictV>,
    cfg: CompactConfig,
    cks: Seq<Chunk>,
) -> int
    decreases cks.len(),
{
    if cks.len() == 0 {
        0
    } else {
        cand_in_chunks(b, dict, cfg, cks.drop_last()) + if spec_candidate(
            b,
            dict,
            cfg,
            cks.last().blob_index as int,
        ) {
            1int
        } else {
            0int
        }
    }
}

/// Number of live chunks of the tree owned by candidate blobs: the chunks
/// a compaction has to relocate.
pub open spec fn cand_in_tree(
    b: BootstrapV,
    dict: Option<DictV>,
    cfg: CompactConfig,
    t: Seq<EntryV>,
) -> int
    decreases t.len(),
{
    if t.len() == 0 {
        0
    } else {
        cand_in_tree(b, dict, cfg, t.drop_last()) + match t.last().node {
            InodeV::File { chunks } => cand_in_chunks(b, dict, cfg, chunks),
            _ => 0int,
        }
    }
}

/// All chunks a compaction of `b` has to relocate.
pub open spec fn spec_candidate_chunks(b: BootstrapV, dict: Option<DictV>, cfg: CompactConfig) -> int {
    cand_in_tree(b, dict, cfg, b.tree)
}

/// The relocation count of a chunk-list prefix never exceeds the whole
/// list's.
pub proof fn lemma_cand_chunks_mono(
    b: BootstrapV,
    dict: Option<DictV>,
    cfg: CompactConfig,
    cks: Seq<Chunk>,
    m: int,
)
    requires
        0 <= m <= cks.len(),
    ensures
        cand_in_chunks(b, dict, cfg, cks.take(m)) <= cand_in_chunks(b, dict, cfg, cks),
    decreases cks.len() - m,
{
    if m < cks.len() {
        assert(cks.take(m + 1).drop_last() =~= cks.take(m));
        lemma_cand_chunks_mono(b, dict, cfg, cks, m + 1);
    } else {
        assert(cks.take(m) =~= cks);
    }
}

/// The relocation count of a tree prefix never exceeds the whole tree's.
pub proof fn lemma_cand_tree_mono(
    b: BootstrapV,
    dict: Option<DictV>,
    cfg: CompactConfig,
    t: Seq<EntryV>,
    k: int,
)
    requires
        0 <= k <= t.len(),
    ensures
        cand_in_tree(b, dict, cfg, t.take(k)) <= cand_in_tree(b, dict, cfg, t),
    decreases t.len() - k,
{
    if k < t.len() {
        assert(t.take(k + 1).drop_last() =~= t.take(k));
        assert(cand_in_chunks(b, dict, cfg, Seq::<Chunk>::empty()) == 0);
        match t[k].node {
            InodeV::File { chunks } => {
                lemma_cand_chunks_mono(b, dict, cfg, chunks, 0);
                assert(chunks.take(0) =~= Seq::<Chunk>::empty());
            },
            _ => {},
        }
        lemma_cand_tree_mono(b, dict, cfg, t, k + 1);
    } else {
        assert(t.take(k) =~= t);
    }
}

/// Number of chunks of `cks` routed to blob `bi`.
pub open spec fn routed_in_chunks(cks: Seq<Chunk>, bi: int) -> int
    decreases cks.len(),
{
    if cks.len() == 0 {
        0
    } else {
        routed_in_chunks(cks.drop_last(), bi) + if cks.last().blob_index == bi {
            1int
        } else {
            0int
        }
    }
}

/// Number of chunks of the tree routed to blob `bi`.
pub open spec fn routed_in_tree(t: Seq<EntryV>, bi: int) -> int
    decreases t.len(),
{
    if t.len() == 0 {
        0
    } else {
        routed_in_tree(t.drop_last(), bi) + match t.last().node {
            InodeV::File { chunks } => routed_in_chunks(chunks, bi),
            _ => 0int,
        }
    }
}

/// A chunk list that never references blob `bi` routes nothing to it.
pub proof fn lemma_routed_chunks_zero(cks: Seq<Chunk>, bi: int)
    requires
        forall|m: int| 0 <= m < cks.len() ==> (#[trigger] cks[m]).blob_index != bi,
    ensures
        routed_in_chunks(cks, bi) == 0,
    decreases cks.len(),
{
    if cks.len() > 0 {
        assert(forall|m: int| 0 <= m < cks.len() - 1 ==> cks.drop_last()[m] == cks[m]);
        lemma_routed_chunks_zero(cks.drop_last(), bi);
    }
}

/// A tree that never references blob `bi` routes nothing to it.
pub proof fn lemma_routed_tree_zero(t: Seq<EntryV>, bi: int)
    requires
        forall|e: int| 0 <= e < t.len() ==> node_fill_avoids((#[trigger] t[e]).node, bi),
    ensures
        routed_in_tree(t, bi) == 0,
    decreases t.len(),
{
    if t.len() > 0 {
        assert(forall|e: int| 0 <= e < t.len() - 1 ==> t.drop_last()[e] == t[e]);
        lemma_routed_tree_zero(t.drop_last(), bi);
        match t.last().node {
            InodeV::File { chunks } => {
                lemma_routed_chunks_zero(chunks, bi);
            },
            _ => {},
        }
    }
}

/// Greedy packing, seen on one rewritten chunk: a chunk that opens a packed
/// blob (offset zero, a predecessor in the packed region `ptbl`) did not
/// fit into that predecessor.
pub open spec fn chunk_greedy_ok(cfg: CompactConfig, kl: int, ptbl: Seq<BlobDesc>, c2: Chunk) -> bool {
    ((c2.blob_index as int) > kl && c2.offset == 0) ==> {
        &&& 0 <= c2.blob_index - kl - 1 < ptbl.len()
        &&& ptbl[c2.blob_index - kl - 1].compressed_size + c2.compressed_size
            > cfg.max_compact_size
    }
}

/// Greedy packing, seen on one rewritten entry.
pub open spec fn entry_greedy_ok(cfg: CompactConfig, kl: int, ptbl: Seq<BlobDesc>, e2: EntryV) -> bool {
    match e2.node {
        InodeV::File { chunks: c2 } => forall|m: int|
            0 <= m < c2.len() ==> chunk_greedy_ok(cfg, kl, ptbl, #[trigger] c2[m]),
        _ => true,
    }
}

/// Greedy claims survive appending a packed blob.
pub proof fn lemma_greedy_push(cfg: CompactConfig, kl: int, p: Seq<BlobDesc>, d: BlobDesc, c2: Chunk)
    requires
        chunk_greedy_ok(cfg, kl, p, c2),
    ensures
        chunk_greedy_ok(cfg, kl, p.push(d), c2),
{
    if (c2.blob_index as int) > kl && c2.offset == 0 {
        assert(p.push(d)[c2.blob_index - kl - 1] == p[c2.blob_index - kl - 1]);
    }
}

/// Greedy claims of a whole entry survive appending a packed blob.
pub proof fn lemma_entry_greedy_push(
    cfg: CompactConfig,
    kl: int,
    p: Seq<BlobDesc>,
    d: BlobDesc,
    e2: EntryV,
)
    requires
        entry_greedy_ok(cfg, kl, p, e2),
    ensures
        entry_greedy_ok(cfg, kl, p.push(d), e2),
{
    match e2.node {
        InodeV::File { chunks: c2 } => {
            assert forall|m: int| 0 <= m < c2.len() implies chunk_greedy_ok(
                cfg,
                kl,
                p.push(d),
                #[trigger] c2[m],
            ) by {
                lemma_greedy_push(cfg, kl, p, d, c2[m]);
            }
        },
        _ => {},
    }
}

/// One chunk rewritten correctly with respect to a partially built packed
/// region `ptbl` (the packed descriptors, the still-open one last).
pub open spec fn chunk_packed_ok(
    bv: BootstrapV,
    dictv: Option<DictV>,
    cfg: CompactConfig,
    kl: int,
    ptbl: Seq<BlobDesc>,
    c1: Chunk,
    c2: Chunk,
) -> bool {
    &&& chunk_moved_eq(c2, c1)
    &&& if spec_candidate(bv, dictv, cfg, c1.blob_index as int) {
        &&& kl <= c2.blob_index
        &&& (c2.blob_index as int) < kl + ptbl.len()
        &&& c2.offset + c2.compressed_size <= ptbl[c2.blob_index - kl].compressed_size
    } else {
        &&& c2.blob_index == spec_kept_count(bv, dictv, cfg, c1.blob_index as int)
        &&& c2.offset == c1.offset
    }
}

/// One tree entry rewritten correctly with respect to `ptbl`.
pub open spec fn entry_packed_ok(
    bv: BootstrapV,
    dictv: Option<DictV>,
    cfg: CompactConfig,
    kl: int,
    ptbl: Seq<BlobDesc>,
    e1: EntryV,
    e2: EntryV,
) -> bool {
    &&& e2.path == e1.path
    &&& match e1.node {
        InodeV::Directory => e2.node is Directory,
        InodeV::Whiteout => e2.node is Whiteout,
        InodeV::File { chunks: c1 } => match e2.node {
            InodeV::File { chunks: c2 } => c1.len() == c2.len() && (forall|m: int|
                0 <= m < c1.len() ==> chunk_packed_ok(
                    bv,
                    dictv,
                    cfg,
                    kl,
                    ptbl,
                    #[trigger] c1[m],
                    c2[m],
                )),
            _ => false,
        },
    }
}

/// The packed region only grows: blobs are appended, and the open blob's
/// size only increases.
pub open spec fn ptbl_extends(p1: Seq<BlobDesc>, p2: Seq<BlobDesc>) -> bool {
    &&& p1.len() <= p2.len()
    &&& forall|i: int|
        0 <= i < p1.len() ==> (#[trigger] p2[i]).compressed_size >= p1[i].compressed_size
}

/// Chunk constraints survive growth of the packed region.
pub proof fn lemma_entry_packed_mono(
    bv: BootstrapV,
    dictv: Option<DictV>,
    cfg: CompactConfig,
    kl: int,
    p1: Seq<BlobDesc>,
    p2: Seq<BlobDesc>,
    e1: EntryV,
    e2: EntryV,
)
    requires
        ptbl_extends(p1, p2),
        entry_packed_ok(bv, dictv, cfg, kl, p1, e1, e2),
    ensures
        entry_packed_ok(bv, dictv, cfg, kl, p2, e1, e2),
{
    match e1.node {
        InodeV::File { chunks: c1 } => {
            match e2.node {
                InodeV::File { chunks: c2 } => {
                    assert forall|m: int| 0 <= m < c1.len() implies chunk_packed_ok(
                        bv,
                        dictv,
                        cfg,
                        kl,
                        p2,
                        #[trigger] c1[m],
                        c2[m],
                    ) by {
                        assert(chunk_packed_ok(bv, dictv, cfg, kl, p1, c1[m], c2[m]));
                    }
                },
                _ => {},
            }
        },
        _ => {},
    }
}

/// Total live bytes of a chunk list.
pub open spec fn chunks_bytes(cks: Seq<Chunk>) -> int
    decreases cks.len(),
{
    if cks.len() == 0 {
        0
    } else {
        chunks_bytes(cks.drop_last()) + cks.last().uncompressed_size
    }
}

/// Total live bytes of a tree.
pub open spec fn live_bytes(t: Seq<EntryV>) -> int
    decreases t.len(),
{
    if t.len() == 0 {
        0
    } else {
        live_bytes(t.drop_last()) + match t.last().node {
            InodeV::File { chunks } => chunks_bytes(chunks),
            _ => 0,
        }
    }
}

/// Compaction conservation: a tree rewrite that keeps every chunk's content
/// and sizes keeps the total number of live bytes.
pub proof fn lemma_compact_conservation(
    b: BootstrapV,
    dict: Option<DictV>,
    cfg: CompactConfig,
    o: BootstrapV,
    n1: int,
)
    requires
        o.tree.len() == b.tree.len(),
        forall|ei: int|
            0 <= ei < b.tree.len() ==> #[trigger] spec_entry_rewritten(b, dict, cfg, o, n1, ei),
    ensures
        live_bytes(o.tree) == live_bytes(b.tree),
{
    lemma_live_bytes_prefix(b, dict, cfg, o, n1, b.tree.len() as int);
    assert(b.tree.take(b.tree.len() as int) =~= b.tree);
    assert(o.tree.take(o.tree.len() as int) =~= o.tree);
}

/// Chunk lists equal in length and sizes have equal totals.
pub proof fn lemma_chunks_bytes_eq(c1: Seq<Chunk>, c2: Seq<Chunk>)
    requires
        c1.len() == c2.len(),
        forall|m: int|
            0 <= m < c1.len() ==> (#[trigger] c1[m]).uncompressed_size
                == (#[trigger] c2[m]).uncompressed_size,
    ensures
        chunks_bytes(c1) == chunks_bytes(c2),
    decreases c1.len(),
{
    if c1.len() > 0 {
        assert(forall|j: int| 0 <= j < c1.len() - 1 ==> c1.drop_last()[j] == c1[j]);
        assert(forall|j: int| 0 <= j < c2.len() - 1 ==> c2.drop_last()[j] == c2[j]);
        lemma_chunks_bytes_eq(c1.drop_last(), c2.drop_last());
    }
}

/// Prefix version of the conservation argument.
proof fn lemma_live_bytes_prefix(
    b: BootstrapV,
    dict: Option<DictV>,
    cfg: CompactConfig,
    o: BootstrapV,
    n1: int,
    m: int,
)
    requires
        o.tree.len() == b.tree.len(),
        0 <= m <= b.tree.len(),
        forall|ei: int|
            0 <= ei < b.tree.len() ==> #[trigger] spec_entry_rewritten(b, dict, cfg, o, n1, ei),
    ensures
        live_bytes(o.tree.take(m)) == live_bytes(b.tree.take(m)),
    decreases m,
{
    if m > 0 {
        lemma_live_bytes_prefix(b, dict, cfg, o, n1, m - 1);
        assert(b.tree.take(m).drop_last() =~= b.tree.take(m - 1));
        assert(o.tree.take(m).drop_last() =~= o.tree.take(m - 1));
        assert(b.tree.take(m).last() == b.tree[m - 1]);
        assert(o.tree.take(m).last() == o.tree[m - 1]);
        assert(spec_entry_rewritten(b, dict, cfg, o, n1, m - 1));
        match b.tree[m - 1].node {
            InodeV::File { chunks: c1 } => {
                match o.tree[m - 1].node {
                    InodeV::File { chunks: c2 } => {
                        assert(forall|j: int|
                            0 <= j < c1.len() ==> chunk_moved_eq(#[trigger] c2[j], c1[j]));
                        lemma_chunks_bytes_eq(c1, c2);
                    },
                    _ => {},
                }
            },
            _ => {},
        }
    }
}


/// Everything `spec_compact_post` and output well-formedness need once
/// the packing pass is done: proved apart to keep the main function's
/// verification conditions small.
proof fn lemma_compact_assemble(
    bv: BootstrapV,
    dictv: Option<DictV>,
    cfg: CompactConfig,
    o: BootstrapV,
    packedv: Seq<BlobDesc>,
    max_id: u64,
)
    requires
        unique_ids(bv.table),
        homogeneous(bv.table, bv.config.chunk_size),
        paths_unique(bv.tree),
        chunks_valid(bv.tree, bv.table.len() as int),
        forall|j: int| 0 <= j < bv.table.len() ==> (#[trigger] bv.table[j]).blob_id <= max_id,
        o.config == bv.config,
        o.table == spec_kept_table(bv, dictv, cfg, bv.table.len() as int) + packedv,
        o.tree.len() == bv.tree.len(),
        forall|pi: int|
            0 <= pi < packedv.len() ==> (#[trigger] packedv[pi]).blob_id == max_id + 1 + pi,
        forall|pi: int|
            0 <= pi < packedv.len() ==> (#[trigger] packedv[pi]).compressed_size
                <= cfg.max_compact_size || packedv[pi].chunk_count == 1,
        forall|pi: int|
            0 <= pi < packedv.len() ==> (#[trigger] packedv[pi]).chunk_size
                == bv.config.chunk_size,
        forall|pi: int|
            0 <= pi < packedv.len() ==> (#[trigger] packedv[pi]).compressed_size as int
                == fill_in_tree(
                o.tree,
                spec_kept_count(bv, dictv, cfg, bv.table.len() as int) + pi,
            ),
        forall|pi: int|
            0 <= pi < packedv.len() ==> (#[trigger] packedv[pi]).chunk_count as int
                == routed_in_tree(
                o.tree,
                spec_kept_count(bv, dictv, cfg, bv.table.len() as int) + pi,
            ),
        forall|e: int|
            0 <= e < bv.tree.len() ==> entry_packed_ok(
                bv,
                dictv,
                cfg,
                spec_kept_count(bv, dictv, cfg, bv.table.len() as int),
                packedv,
                #[trigger] bv.tree[e],
                o.tree[e],
            ),
        forall|e: int|
            0 <= e < bv.tree.len() ==> #[trigger] entry_placement_ok(bv, dictv, cfg, o.tree, e),
        forall|e: int|
            0 <= e < o.tree.len() ==> entry_greedy_ok(
                cfg,
                spec_kept_count(bv, dictv, cfg, bv.table.len() as int),
                packedv,
                #[trigger] o.tree[e],
            ),
    ensures
        spec_compact_post(bv, dictv, cfg, o),
        crate::bootstrap::wf_v(o),
{
    let n = bv.table.len() as int;
    let kc = spec_kept_count(bv, dictv, cfg, n);
    let ov = o.tree;
    lemma_kept_props(bv, dictv, cfg, n);
    lemma_kept_invariants(bv, dictv, cfg, n, bv.config.chunk_size);
    assert(o.table.take(kc) =~= spec_kept_table(bv, dictv, cfg, n));
        // Kept ids stay at or below `max_id`; packed ids lie above it.
        assert forall|k: int|
            0 <= k < kc implies (#[trigger] o.table[k]).blob_id <= max_id by {
            let i = choose|i: int|
                0 <= i < n && bv.table[i] == #[trigger] spec_kept_table(bv, dictv, cfg, n)[k]
                    && !spec_candidate(bv, dictv, cfg, i);
            assert(bv.table[i].blob_id <= max_id);
        }
        // Packed blobs carry ids unknown to the input table.
        assert forall|pi: int|
            kc <= pi < o.table.len() implies spec_find_blob(
            bv.table,
            (#[trigger] o.table[pi]).blob_id,
        ) is None by {
            crate::model::lemma_find_blob_props(bv.table, o.table[pi].blob_id);
            assert(o.table[pi].blob_id == max_id + 1 + (pi - kc));
        }
        // Candidate ids are gone from the output table.
        assert forall|i: int|
            0 <= i < n && spec_candidate(bv, dictv, cfg, i) implies spec_find_blob(
            o.table,
            (#[trigger] bv.table[i]).blob_id,
        ) is None by {
            assert forall|j: int|
                0 <= j < o.table.len() implies (#[trigger] o.table[j]).blob_id
                != bv.table[i].blob_id by {
                if j < kc {
                    let i2 = choose|i2: int|
                        0 <= i2 < n && bv.table[i2] == #[trigger] spec_kept_table(
                            bv,
                            dictv,
                            cfg,
                            n,
                        )[j] && !spec_candidate(bv, dictv, cfg, i2);
                    assert(i2 != i);
                    assert(bv.table[i2].blob_id != bv.table[i].blob_id);
                } else {
                    assert(o.table[j].blob_id == max_id + 1 + (j - kc));
                    assert(bv.table[i].blob_id <= max_id);
                }
            }
            crate::model::lemma_find_blob_props(o.table, bv.table[i].blob_id);
        }
        // The tree was rewritten entry for entry.
        assert forall|e: int|
            0 <= e < bv.tree.len() implies #[trigger] spec_entry_rewritten(
            bv,
            dictv,
            cfg,
            o,
            kc,
            e,
        ) by {
            assert(entry_packed_ok(bv, dictv, cfg, kc, packedv, bv.tree[e], ov[e]));
            assert(node_chunks_valid(bv.tree[e].node, n));
            match bv.tree[e].node {
                InodeV::File { chunks: c1 } => {
                    match ov[e].node {
                        InodeV::File { chunks: c2 } => {
                            assert forall|m: int|
                                0 <= m < c1.len() implies spec_chunk_rewritten(
                                bv,
                                dictv,
                                cfg,
                                o,
                                kc,
                                #[trigger] c1[m],
                                c2[m],
                            ) by {
                                assert(chunk_packed_ok(bv, dictv, cfg, kc, packedv, c1[m], c2[m]));
                                assert(c1[m].blob_index < n);
                                if !spec_candidate(bv, dictv, cfg, c1[m].blob_index as int) {
                                    assert(spec_kept_count(bv, dictv, cfg, c1[m].blob_index as int)
                                        < kc);
                                    assert(o.table[c2[m].blob_index as int]
                                        == spec_kept_table(bv, dictv, cfg, n)[
                                        c2[m].blob_index as int
                                    ]);
                                } else {
                                    assert(o.table[c2[m].blob_index as int] == packedv[
                                        c2[m].blob_index - kc
                                    ]);
                                }
                            }
                        },
                        _ => {},
                    }
                },
                _ => {},
            }
        }
        // The output is well formed.
        assert forall|a: int, c: int|
            0 <= a < c < o.table.len() implies (#[trigger] o.table[a]).blob_id
            != (#[trigger] o.table[c]).blob_id by {
            if c < kc {
            } else if a < kc {
                assert(o.table[a].blob_id <= max_id);
                assert(o.table[c].blob_id == max_id + 1 + (c - kc));
            } else {
                assert(o.table[a].blob_id == max_id + 1 + (a - kc));
                assert(o.table[c].blob_id == max_id + 1 + (c - kc));
            }
        }
        assert(homogeneous(o.table, bv.config.chunk_size)) by {
            assert forall|a: int|
                0 <= a < o.table.len() implies (#[trigger] o.table[a]).chunk_size
                == bv.config.chunk_size by {
                if a >= kc {
                    assert(o.table[a] == packedv[a - kc]);
                }
            }
        }
        assert(paths_unique(ov)) by {
            assert forall|a: int, c: int|
                0 <= a < c < ov.len() implies (#[trigger] ov[a]).path != (#[trigger] ov[c]).path by {
                assert(spec_entry_rewritten(bv, dictv, cfg, o, kc, a));
                assert(spec_entry_rewritten(bv, dictv, cfg, o, kc, c));
                assert(bv.tree[a].path != bv.tree[c].path);
            }
        }
        assert(chunks_valid(ov, o.table.len() as int)) by {
            assert forall|e: int|
                0 <= e < ov.len() implies node_chunks_valid((#[trigger] ov[e]).node, o.table.len() as int) by {
                assert(spec_entry_rewritten(bv, dictv, cfg, o, kc, e));
                match ov[e].node {
                    InodeV::File { chunks: c2 } => {
                        match bv.tree[e].node {
                            InodeV::File { chunks: c1 } => {
                                assert(forall|m: int|
                                    0 <= m < c2.len() ==> spec_chunk_rewritten(bv, dictv, cfg, o,
                                        kc, c1[m], #[trigger] c2[m]));
                                assert forall|m: int|
                                    0 <= m < c2.len() implies (#[trigger] c2[m]).blob_index
                                    < o.table.len() by {
                                    assert(spec_chunk_rewritten(bv, dictv, cfg, o, kc, c1[m],
                                        c2[m]));
                                }
                            },
                            _ => {},
                        }
                    },
                    _ => {},
                }
            }
        }
    assert forall|ei: int|
        0 <= ei < o.tree.len() implies entry_greedy_ok(
        cfg,
        kc,
        o.table.skip(kc),
        #[trigger] o.tree[ei],
    ) by {
        assert(o.table.skip(kc) =~= packedv);
    }
    assert forall|pi: int|
        kc <= pi < o.table.len() implies (#[trigger] o.table[pi]).compressed_size as int
        == fill_in_tree(o.tree, pi) by {
        assert(o.table[pi] == packedv[pi - kc]);
    }
    assert forall|pi: int|
        kc <= pi < o.table.len() implies (#[trigger] o.table[pi]).chunk_count as int
        == routed_in_tree(o.tree, pi) by {
        assert(o.table[pi] == packedv[pi - kc]);
    }
    assert(spec_compact_post(bv, dictv, cfg, o));
}

/// Whether the dictionary lists a blob with id `id`.
#[verifier::loop_isolation(false)]
fn dict_protects(dict: Option<&ChunkDict>, id: u64) -> (r: bool)
    ensures
        r == protected_by_dict(crate::merge::dict_view(dict), id),
{
    match dict {
        None => false,
        Some(dc) => {
            let n = dc.blobs.len();
            let mut k: usize = 0;
            while k < n
                invariant
                    n == dc.blobs@.len(),
                    k <= n,
                    spec_find_blob(dc.blobs@.take(k as int), id) is None,
                decreases n - k,
            {
                if dc.blobs[k].blob_id == id {
                    proof {
                        crate::model::lemma_find_blob_hit(dc.blobs@, k as int, id);
                        assert(dc@.blobs == dc.blobs@);
                    }
                    return true;
                }
                proof {
                    assert(dc.blobs@.take(k + 1).drop_last() =~= dc.blobs@.take(k as int));
                }
                k = k + 1;
            }
            proof {
                assert(dc.blobs@.take(n as int) =~= dc.blobs@);
            }
            false
        },
    }
}

/// Compact one bootstrap: blobs used below `min_used_ratio` percent or no
/// larger than `compact_blob_size` (and not protected by the dictionary)
/// are eliminated; their live chunks are repacked, in tree order and
/// greedily (a fresh blob is opened only when the open one cannot take the
/// next chunk), into blobs of at most `max_compact_size` compressed bytes
/// each; every relocated chunk reference and the blob table are rewritten.  Returns
/// `Ok(None)` when the blob count is below `layers_to_compact` (nonzero) or
/// nothing is eligible; the input bootstrap is never modified.
#[verifier::loop_isolation(false)]
#[verifier::rlimit(100)]
pub fn compact(b: &Bootstrap, dict: Option<&ChunkDict>, cfg: CompactConfig) -> (r: Result<
    Option<Bootstrap>,
    CompactError,
>)
    requires
        b.wf(),
    ensures
        (cfg.min_used_ratio > 100) <==> r == Err::<Option<Bootstrap>, CompactError>(
            CompactError::InvalidRatio { value: cfg.min_used_ratio },
        ),
        (cfg.min_used_ratio <= 100 && cfg.layers_to_compact > 0 && b@.table.len()
            < cfg.layers_to_compact) ==> r == Ok::<Option<Bootstrap>, CompactError>(None),
        r == Ok::<Option<Bootstrap>, CompactError>(None) ==> ((cfg.layers_to_compact > 0
            && b@.table.len() < cfg.layers_to_compact) || (forall|i: int|
            0 <= i < b@.table.len() ==> !spec_candidate(
                b@,
                crate::merge::dict_view(dict),
                cfg,
                i,
            ))),
        (cfg.min_used_ratio <= 100 && !(cfg.layers_to_compact > 0 && b@.table.len()
            < cfg.layers_to_compact) && (forall|i: int|
            0 <= i < b@.table.len() ==> !spec_candidate(b@, crate::merge::dict_view(dict), cfg, i)))
            ==> r == Ok::<Option<Bootstrap>, CompactError>(None),
        r == Err::<Option<Bootstrap>, CompactError>(CompactError::OutputSpaceExhausted) ==> (
        cfg.min_used_ratio <= 100 && !(cfg.layers_to_compact > 0 && b@.table.len()
            < cfg.layers_to_compact) && exists|i: int|
            0 <= i < b@.table.len() && #[trigger] spec_candidate(
                b@,
                crate::merge::dict_view(dict),
                cfg,
                i,
            )),
        (cfg.min_used_ratio <= 100 && !(cfg.layers_to_compact > 0 && b@.table.len()
            < cfg.layers_to_compact) && (exists|i: int|
            0 <= i < b@.table.len() && #[trigger] spec_candidate(
                b@,
                crate::merge::dict_view(dict),
                cfg,
                i,
            )) && spec_max_blob_id(b@.table) + spec_candidate_chunks(
            b@,
            crate::merge::dict_view(dict),
            cfg,
        ) + 1 <= u64::MAX && b@.table.len() + spec_candidate_chunks(
            b@,
            crate::merge::dict_view(dict),
            cfg,
        ) < usize::MAX) ==> (r matches Ok(o2) && o2 is Some),
        ({
            match r {
                Ok(o2) => match o2 {
                    Some(o) => {
                        &&& spec_compact_post(b@, crate::merge::dict_view(dict), cfg, o@)
                        &&& o.wf()
                        &&& exists|i: int|
                            0 <= i < b@.table.len() && #[trigger] spec_candidate(
                                b@,
                                crate::merge::dict_view(dict),
                                cfg,
                                i,
                            )
                    },
                    None => true,
                },
                Err(e) => e == (CompactError::InvalidRatio { value: cfg.min_used_ratio }) || e
                    == CompactError::OutputSpaceExhausted,
            }
        }),
{
    let ghost bv = b@;
    let ghost dictv = crate::merge::dict_view(dict);
    if cfg.min_used_ratio > 100 {
        return Err(CompactError::InvalidRatio { value: cfg.min_used_ratio });
    }
    let n = b.table.entries.len();
    if cfg.layers_to_compact > 0 && n < cfg.layers_to_compact as usize {
        return Ok(None);
    }
    // Count the live bytes of every blob, saturating at the counter width.
    let mut used: Vec<u64> = Vec::new();
    let mut i: usize = 0;
    while i < n
        invariant
            used@.len() == i,
            i <= n,
            forall|j: int| 0 <= j < i ==> used@[j] == 0,
        decreases n - i,
    {
        used.push(0);
        i = i + 1;
    }
    proof {
        assert(forall|j: int|
            0 <= j < n ==> used_in_tree(bv.tree.take(0), j) == 0);
    }
    let ne = b.tree.entries.len();
    let mut ei: usize = 0;
    while ei < ne
        invariant
            ei <= ne,
            used@.len() == n,
            forall|j: int|
                0 <= j < n ==> #[trigger] used@[j] == cap64(used_in_tree(bv.tree.take(ei as int), j)),
        decreases ne - ei,
    {
        proof {
            assert(bv.tree.take(ei + 1).drop_last() =~= bv.tree.take(ei as int));
            assert(bv.tree.take(ei + 1).last() == bv.tree[ei as int]);
        }
        match &b.tree.entries[ei].node {
            Inode::File { chunks } => {
                proof {
                    assert(bv.tree[ei as int].node == (InodeV::File { chunks: chunks@ }));
                    assert(node_chunks_valid(bv.tree[ei as int].node, n as int));
                }
                let nc = chunks.len();
                let mut m: usize = 0;
                while m < nc
                    invariant
                        m <= nc,
                        used@.len() == n,
                        forall|j: int|
                            0 <= j < n ==> #[trigger] used@[j] == cap64(
                                used_in_tree(bv.tree.take(ei as int), j) + used_in_chunks(
                                    chunks@.take(m as int),
                                    j,
                                ),
                            ),
                    decreases nc - m,
                {
                    proof {
                        assert(chunks@.take(m + 1).drop_last() =~= chunks@.take(m as int));
                        assert(chunks@.take(m + 1).last() == chunks@[m as int]);
                    }
                    let c = chunks[m];
                    let ci = c.blob_index;
                    assert(ci < n);
                    let cur = used[ci];
                    let add: u64 = c.uncompressed_size as u64;
                    let nv: u64 = if cur > u64::MAX - add {
                        u64::MAX
                    } else {
                        cur + add
                    };
                    used[ci] = nv;
                    proof {
                        let base = used_in_tree(bv.tree.take(ei as int), ci as int);
                        let pre = used_in_chunks(chunks@.take(m as int), ci as int);
                        assert(nv == cap64(cap64(base + pre) + add));
                        assert(used_in_chunks(chunks@.take(m + 1), ci as int) == pre + add);
                        assert(nv == cap64(base + (pre + add)));
                        assert(forall|j: int|
                            0 <= j < n && j != ci ==> used_in_chunks(chunks@.take(m + 1), j)
                                == used_in_chunks(chunks@.take(m as int), j));
                    }
                    m = m + 1;
                }
                proof {
                    assert(chunks@.take(nc as int) =~= chunks@);
                    assert(forall|j: int|
                        0 <= j < n ==> used_in_tree(bv.tree.take(ei + 1), j) == used_in_tree(
                            bv.tree.take(ei as int),
                            j,
                        ) + used_in_chunks(chunks@, j));
                }
            },
            Inode::Directory => {
                proof {
                    assert(bv.tree[ei as int].node is Directory);
                    assert(forall|j: int|
                        0 <= j < n ==> used_in_tree(bv.tree.take(ei + 1), j) == used_in_tree(
                            bv.tree.take(ei as int),
                            j,
                        ));
                }
            },
            Inode::Whiteout => {
                proof {
                    assert(bv.tree[ei as int].node is Whiteout);
                    assert(forall|j: int|
                        0 <= j < n ==> used_in_tree(bv.tree.take(ei + 1), j) == used_in_tree(
                            bv.tree.take(ei as int),
                            j,
                        ));
                }
            },
        }
        ei = ei + 1;
    }
    proof {
        assert(bv.tree.take(ne as int) =~= bv.tree);
        assert(forall|j: int| 0 <= j < n ==> #[trigger] used@[j] == spec_used(bv.tree, j));
    }
    // Classify every blob.
    let mut cand: Vec<bool> = Vec::new();
    let mut any_cand = false;
    let mut i: usize = 0;
    while i < n
        invariant
            cand@.len() == i,
            i <= n,
            forall|j: int| 0 <= j < i ==> #[trigger] cand@[j] == spec_candidate(bv, dictv, cfg, j),
            any_cand == exists|j: int| 0 <= j < i && #[trigger] spec_candidate(bv, dictv, cfg, j),
        decreases n - i,
    {
        let d = &b.table.entries[i];
        let prot = dict_protects(dict, d.blob_id);
        proof {
            let mr = cfg.min_used_ratio as int;
            let us = d.uncompressed_size as int;
            assert(mr * us <= 0xFFFF_FFFFint * 0xFFFF_FFFF_FFFF_FFFFint) by (nonlinear_arith)
                requires
                    0 <= mr <= 0xFFFF_FFFFint,
                    0 <= us <= 0xFFFF_FFFF_FFFF_FFFFint,
            ;
        }
        let under = (used[i] as u128) * 100 < (cfg.min_used_ratio as u128) * (d.uncompressed_size
            as u128);
        let small = d.uncompressed_size <= cfg.compact_blob_size;
        let c = !prot && (under || small);
        proof {
            assert(c == spec_candidate(bv, dictv, cfg, i as int));
        }
        cand.push(c);
        if c {
            any_cand = true;
        }
        i = i + 1;
    }
    if !any_cand {
        return Ok(None);
    }
    // Positions the kept blobs move to, and the kept part of the new table.
    let mut kept: Vec<BlobDesc> = Vec::new();
    let mut new_index: Vec<usize> = Vec::new();
    let mut i: usize = 0;
    while i < n
        invariant
            new_index@.len() == i,
            i <= n,
            kept@ == spec_kept_table(bv, dictv, cfg, i as int),
            kept@.len() == spec_kept_count(bv, dictv, cfg, i as int),
            forall|j: int|
                0 <= j < i && !spec_candidate(bv, dictv, cfg, j) ==> #[trigger] new_index@[j]
                    == spec_kept_count(bv, dictv, cfg, j),
        decreases n - i,
    {
        if cand[i] {
            new_index.push(0);
        } else {
            new_index.push(kept.len());
            kept.push(b.table.entries[i]);
            proof {
                assert(kept@ =~= spec_kept_table(bv, dictv, cfg, i as int).push(
                    bv.table[i as int],
                ));
            }
        }
        i = i + 1;
    }
    let kept_len = kept.len();
    let ghost kc = spec_kept_count(bv, dictv, cfg, n as int);
    proof {
        lemma_kept_props(bv, dictv, cfg, n as int);
        lemma_kept_invariants(bv, dictv, cfg, n as int, b.config.chunk_size);
    }
    // The largest id in use; packed blobs get ids above it.
    let mut max_id: u64 = 0;
    let mut i: usize = 0;
    proof {
        assert(bv.table.take(0) =~= Seq::<BlobDesc>::empty());
    }
    while i < n
        invariant
            i <= n,
            forall|j: int| 0 <= j < i ==> (#[trigger] bv.table[j]).blob_id <= max_id,
            max_id as int == spec_max_blob_id(bv.table.take(i as int)),
        decreases n - i,
    {
        proof {
            assert(bv.table.take(i + 1).drop_last() =~= bv.table.take(i as int));
            assert(bv.table.take(i + 1).last() == bv.table[i as int]);
        }
        if b.table.entries[i].blob_id > max_id {
            max_id = b.table.entries[i].blob_id;
        }
        i = i + 1;
    }
    proof {
        assert(bv.table.take(n as int) =~= bv.table);
    }
    // Repack: walk the tree once, moving candidate-blob chunks into packed
    // blobs bounded by `max_compact_size`, rewriting kept-blob chunks to
    // their blob's new position.
    let mut out_entries: Vec<TreeEntry> = Vec::new();
    let mut packed: Vec<BlobDesc> = Vec::new();
    let mut cur_open = false;
    let mut cur_id: u64 = 0;
    let mut cur_csize: u64 = 0;
    let mut cur_usize: u64 = 0;
    let mut cur_count: u64 = 0;
    let ghost mut cur_opener: int = 0;
    let ghost mut ptbl: Seq<BlobDesc> = Seq::empty();
    let mut ei: usize = 0;
    proof {
        assert(bv.tree.take(0) =~= Seq::<EntryV>::empty());
        assert(out_entries@.map_values(|x: TreeEntry| x@) =~= Seq::<EntryV>::empty());
    }
    while ei < ne
        invariant
            ei <= ne,
            out_entries@.len() == ei,
            ptbl == packed@ + if cur_open {
                seq![BlobDesc {
                    blob_id: cur_id,
                    compressed_size: cur_csize,
                    uncompressed_size: cur_usize,
                    chunk_count: cur_count,
                    chunk_size: b.config.chunk_size,
                    features: 0,
                    toc_digest: None,
                    toc_size: None,
                    original_blob_id: None,
                }]
            } else {
                Seq::<BlobDesc>::empty()
            },
            forall|pi: int|
                0 <= pi < packed@.len() ==> (#[trigger] packed@[pi]).blob_id == max_id + 1 + pi,
            forall|pi: int|
                0 <= pi < packed@.len() ==> (#[trigger] packed@[pi]).compressed_size
                    <= cfg.max_compact_size || packed@[pi].chunk_count == 1,
            forall|pi: int|
                0 <= pi < packed@.len() ==> (#[trigger] packed@[pi]).chunk_size
                    == b.config.chunk_size,
            cur_open ==> cur_id == max_id + 1 + packed@.len(),
            !cur_open ==> packed@.len() == 0,
            cur_open ==> kept_len + packed@.len() < usize::MAX,
            cur_open ==> cur_csize <= cfg.max_compact_size || cur_count == 1,
            cur_open ==> cur_csize as int == fill_in_tree(
                out_entries@.map_values(|x: TreeEntry| x@),
                kept_len as int + packed@.len() as int,
            ),
            forall|pi: int|
                0 <= pi < packed@.len() ==> (#[trigger] packed@[pi]).compressed_size as int
                    == fill_in_tree(
                    out_entries@.map_values(|x: TreeEntry| x@),
                    kept_len as int + pi,
                ),
            cur_open ==> cur_count as int == routed_in_tree(
                out_entries@.map_values(|x: TreeEntry| x@),
                kept_len as int + packed@.len() as int,
            ),
            forall|pi: int|
                0 <= pi < packed@.len() ==> (#[trigger] packed@[pi]).chunk_count as int
                    == routed_in_tree(
                    out_entries@.map_values(|x: TreeEntry| x@),
                    kept_len as int + pi,
                ),
            packed@.len() as int + (if cur_open {
                1int
            } else {
                0int
            }) <= cand_in_tree(bv, dictv, cfg, bv.tree.take(ei as int)),
            cur_open ==> cur_count as int <= cand_in_tree(bv, dictv, cfg, bv.tree.take(ei as int)),
            cur_open ==> 0 <= cur_opener <= cur_csize as int,
            cur_open && packed@.len() > 0 ==> packed@.last().compressed_size + cur_opener
                > cfg.max_compact_size,
            forall|e: int|
                0 <= e < ei ==> entry_greedy_ok(
                    cfg,
                    kept_len as int,
                    packed@,
                    (#[trigger] out_entries@[e])@,
                ),
            forall|e: int| #![trigger bv.tree[e]]
                0 <= e < ei ==> entry_placement_ok(
                    bv,
                    dictv,
                    cfg,
                    out_entries@.map_values(|x: TreeEntry| x@),
                    e,
                ),
            forall|e: int|
                0 <= e < ei ==> entry_packed_ok(
                    bv,
                    dictv,
                    cfg,
                    kept_len as int,
                    ptbl,
                    #[trigger] bv.tree[e],
                    out_entries@.map_values(|x: TreeEntry| x@)[e],
                ),
        decreases ne - ei,
    {
        let ghost ptbl0 = ptbl;
        let ghost outv0 = out_entries@.map_values(|x: TreeEntry| x@);
        let path = clone_bytes(&b.tree.entries[ei].path);
        match &b.tree.entries[ei].node {
            Inode::Directory => {
                out_entries.push(TreeEntry { path, node: Inode::Directory });
            },
            Inode::Whiteout => {
                out_entries.push(TreeEntry { path, node: Inode::Whiteout });
            },
            Inode::File { chunks } => {
                proof {
                    assert(bv.tree[ei as int].node == (InodeV::File { chunks: chunks@ }));
                    assert(node_chunks_valid(bv.tree[ei as int].node, n as int));
                }
                let nc = chunks.len();
                let mut out_chunks: Vec<Chunk> = Vec::new();
                let mut m: usize = 0;
                proof {
                    assert(chunks@.take(0) =~= Seq::<Chunk>::empty());
                }
                while m < nc
                    invariant
                        m <= nc,
                        out_chunks@.len() == m,
                        outv0 == out_entries@.map_values(|x: TreeEntry| x@),
                        ptbl == packed@ + if cur_open {
                            seq![BlobDesc {
                                blob_id: cur_id,
                                compressed_size: cur_csize,
                                uncompressed_size: cur_usize,
                                chunk_count: cur_count,
                                chunk_size: b.config.chunk_size,
                                features: 0,
                                toc_digest: None,
                                toc_size: None,
                                original_blob_id: None,
                            }]
                        } else {
                            Seq::<BlobDesc>::empty()
                        },
                        ptbl_extends(ptbl0, ptbl),
                        forall|pi: int|
                            0 <= pi < packed@.len() ==> (#[trigger] packed@[pi]).blob_id == max_id
                                + 1 + pi,
                        forall|pi: int|
                            0 <= pi < packed@.len() ==> (#[trigger] packed@[pi]).compressed_size
                                <= cfg.max_compact_size || packed@[pi].chunk_count == 1,
                        forall|pi: int|
                            0 <= pi < packed@.len() ==> (#[trigger] packed@[pi]).chunk_size
                                == b.config.chunk_size,
                        cur_open ==> cur_id == max_id + 1 + packed@.len(),
                        !cur_open ==> packed@.len() == 0,
                        cur_open ==> kept_len + packed@.len() < usize::MAX,
                        cur_open ==> cur_csize <= cfg.max_compact_size || cur_count == 1,
                        cur_open ==> cur_csize as int == fill_in_tree(
                            outv0,
                            kept_len as int + packed@.len() as int,
                        ) + fill_in_chunks(out_chunks@, kept_len as int + packed@.len() as int),
                        forall|pi: int|
                            0 <= pi < packed@.len() ==> (#[trigger] packed@[pi]).compressed_size
                                as int == fill_in_tree(outv0, kept_len as int + pi)
                                + fill_in_chunks(out_chunks@, kept_len as int + pi),
                        cur_open ==> cur_count as int == routed_in_tree(
                            outv0,
                            kept_len as int + packed@.len() as int,
                        ) + routed_in_chunks(out_chunks@, kept_len as int + packed@.len() as int),
                        forall|pi: int|
                            0 <= pi < packed@.len() ==> (#[trigger] packed@[pi]).chunk_count
                                as int == routed_in_tree(outv0, kept_len as int + pi)
                                + routed_in_chunks(out_chunks@, kept_len as int + pi),
                        packed@.len() as int + (if cur_open {
                            1int
                        } else {
                            0int
                        }) <= cand_in_tree(bv, dictv, cfg, bv.tree.take(ei as int))
                            + cand_in_chunks(bv, dictv, cfg, chunks@.take(m as int)),
                        cur_open ==> cur_count as int <= cand_in_tree(
                            bv,
                            dictv,
                            cfg,
                            bv.tree.take(ei as int),
                        ) + cand_in_chunks(bv, dictv, cfg, chunks@.take(m as int)),
                        cur_open ==> 0 <= cur_opener <= cur_csize as int,
                        cur_open && packed@.len() > 0 ==> packed@.last().compressed_size
                            + cur_opener > cfg.max_compact_size,
                        forall|e: int|
                            0 <= e < ei ==> entry_greedy_ok(cfg, kept_len as int, packed@,
                                (#[trigger] out_entries@[e])@),
                        forall|m2: int|
                            0 <= m2 < m ==> chunk_greedy_ok(
                                cfg,
                                kept_len as int,
                                packed@,
                                #[trigger] out_chunks@[m2],
                            ),
                        forall|m2: int|
                            0 <= m2 < m && spec_candidate(
                                bv,
                                dictv,
                                cfg,
                                chunks@[m2].blob_index as int,
                            ) ==> (#[trigger] out_chunks@[m2]).offset as int == fill_in_tree(
                                outv0,
                                out_chunks@[m2].blob_index as int,
                            ) + fill_in_chunks(
                                out_chunks@.take(m2),
                                out_chunks@[m2].blob_index as int,
                            ),
                        forall|m2: int|
                            0 <= m2 < m ==> chunk_packed_ok(
                                bv,
                                dictv,
                                cfg,
                                kept_len as int,
                                ptbl,
                                #[trigger] chunks@[m2],
                                out_chunks@[m2],
                            ),
                    decreases nc - m,
                {
                    proof {
                        assert(chunks@.take(m + 1).drop_last() =~= chunks@.take(m as int));
                        assert(chunks@.take(m + 1).last() == chunks@[m as int]);
                    }
                    let ghost ptbl_m = ptbl;
                    let c = chunks[m];
                    let ci = c.blob_index;
                    assert(ci < n);
                    if cand[ci] {
                        let x: u64 = c.compressed_size as u64;
                        if cur_open && (cur_csize as u128 + x as u128 > cfg.max_compact_size
                            as u128) {
                            // Close the current packed blob.
                            let ghost packed_before = packed@;
                            packed.push(BlobDesc {
                                blob_id: cur_id,
                                compressed_size: cur_csize,
                                uncompressed_size: cur_usize,
                                chunk_count: cur_count,
                                chunk_size: b.config.chunk_size,
                                features: 0,
                                toc_digest: None,
                                toc_size: None,
                                original_blob_id: None,
                            });
                            cur_open = false;
                            proof {
                                assert(ptbl =~= packed@);
                                assert(packed@.last().compressed_size as int == fill_in_tree(
                                    outv0,
                                    kept_len as int + (packed@.len() - 1),
                                ) + fill_in_chunks(out_chunks@, kept_len as int + (packed@.len()
                                    - 1)));
                                assert(packed@.last().chunk_count as int == routed_in_tree(
                                    outv0,
                                    kept_len as int + (packed@.len() - 1),
                                ) + routed_in_chunks(out_chunks@, kept_len as int + (
                                packed@.len() - 1)));
                                assert(packed@ =~= packed_before.push(packed@.last()));
                                assert forall|e: int|
                                    0 <= e < ei implies entry_greedy_ok(cfg, kept_len as int,
                                    packed@, (#[trigger] out_entries@[e])@) by {
                                    assert(entry_greedy_ok(cfg, kept_len as int, packed_before,
                                        out_entries@[e]@));
                                    lemma_entry_greedy_push(cfg, kept_len as int, packed_before,
                                        packed@.last(), out_entries@[e]@);
                                }
                                assert forall|m2: int|
                                    0 <= m2 < m implies chunk_greedy_ok(cfg, kept_len as int,
                                    packed@, #[trigger] out_chunks@[m2]) by {
                                    lemma_greedy_push(cfg, kept_len as int, packed_before,
                                        packed@.last(), out_chunks@[m2]);
                                }
                            }
                        }
                        if !cur_open {
                            if packed.len() as u128 + 1 > (u64::MAX - max_id) as u128 {
                                proof {
                                    lemma_cand_chunks_mono(bv, dictv, cfg, chunks@, m as int);
                                    assert(bv.tree.take(ei + 1).drop_last() =~= bv.tree.take(
                                        ei as int));
                                    assert(bv.tree.take(ei + 1).last() == bv.tree[ei as int]);
                                    lemma_cand_tree_mono(bv, dictv, cfg, bv.tree, ei + 1);
                                    assert(bv.tree.take(bv.tree.len() as int) =~= bv.tree);
                                    assert(packed@.len() as int <= spec_candidate_chunks(bv,
                                        dictv, cfg));
                                }
                                return Err(CompactError::OutputSpaceExhausted);
                            }
                            if kept_len as u128 + packed.len() as u128 >= usize::MAX as u128 {
                                proof {
                                    lemma_cand_chunks_mono(bv, dictv, cfg, chunks@, m as int);
                                    assert(bv.tree.take(ei + 1).drop_last() =~= bv.tree.take(
                                        ei as int));
                                    assert(bv.tree.take(ei + 1).last() == bv.tree[ei as int]);
                                    lemma_cand_tree_mono(bv, dictv, cfg, bv.tree, ei + 1);
                                    assert(bv.tree.take(bv.tree.len() as int) =~= bv.tree);
                                    assert(packed@.len() as int <= spec_candidate_chunks(bv,
                                        dictv, cfg));
                                    assert(kept_len as int <= bv.table.len());
                                }
                                return Err(CompactError::OutputSpaceExhausted);
                            }
                            proof {
                                let obi = kept_len as int + packed@.len() as int;
                                assert forall|e: int|
                                    0 <= e < outv0.len() implies node_fill_avoids(
                                    (#[trigger] outv0[e]).node,
                                    obi,
                                ) by {
                                    assert(entry_packed_ok(bv, dictv, cfg, kept_len as int,
                                        ptbl0, bv.tree[e], outv0[e]));
                                    assert(node_chunks_valid(bv.tree[e].node, n as int));
                                    lemma_entry_avoids(bv, dictv, cfg, kept_len as int, ptbl0,
                                        bv.tree[e], outv0[e], obi);
                                }
                                lemma_fill_tree_zero(outv0, obi);
                                assert forall|m2: int|
                                    0 <= m2 < out_chunks@.len() implies (
                                #[trigger] out_chunks@[m2]).blob_index != obi by {
                                    assert(chunk_packed_ok(bv, dictv, cfg, kept_len as int, ptbl,
                                        chunks@[m2], out_chunks@[m2]));
                                    assert(chunks@[m2].blob_index < n);
                                }
                                lemma_fill_chunks_zero(out_chunks@, obi);
                                lemma_routed_tree_zero(outv0, obi);
                                lemma_routed_chunks_zero(out_chunks@, obi);
                            }
                            cur_id = max_id + 1 + packed.len() as u64;
                            cur_csize = 0;
                            cur_usize = 0;
                            cur_count = 0;
                            cur_open = true;
                            proof {
                                cur_opener = x as int;
                            }
                            proof {
                                ptbl = ptbl.push(BlobDesc {
                                    blob_id: cur_id,
                                    compressed_size: 0,
                                    uncompressed_size: 0,
                                    chunk_count: 0,
                                    chunk_size: b.config.chunk_size,
                                    features: 0,
                                    toc_digest: None,
                                    toc_size: None,
                                    original_blob_id: None,
                                });
                                assert(ptbl =~= packed@ + seq![ptbl.last()]);
                            }
                        }
                        proof {
                            assert(packed@.len() > 0 ==> packed@.last().compressed_size
                                + cur_opener > cfg.max_compact_size);
                            assert(cur_csize == 0 ==> cur_opener <= x as int);
                        }
                        if cur_count == u64::MAX {
                            proof {
                                lemma_cand_chunks_mono(bv, dictv, cfg, chunks@, m as int);
                                assert(bv.tree.take(ei + 1).drop_last() =~= bv.tree.take(
                                    ei as int));
                                assert(bv.tree.take(ei + 1).last() == bv.tree[ei as int]);
                                lemma_cand_tree_mono(bv, dictv, cfg, bv.tree, ei + 1);
                                assert(bv.tree.take(bv.tree.len() as int) =~= bv.tree);
                                lemma_max_id_nonneg(bv.table);
                                assert(spec_candidate_chunks(bv, dictv, cfg) >= u64::MAX);
                            }
                            return Err(CompactError::OutputSpaceExhausted);
                        }
                        let off = cur_csize;
                        let ghost out_before = out_chunks@;
                        let ghost fill_bi = kept_len as int + packed@.len() as int;
                        proof {
                            assert(cur_csize as int == fill_in_tree(outv0, fill_bi)
                                + fill_in_chunks(out_before, fill_bi));
                        }
                        let c2 = Chunk { blob_index: kept_len + packed.len(), offset: off, ..c };
                        out_chunks.push(c2);
                        cur_csize = cur_csize + x;
                        cur_usize = if cur_usize > u64::MAX - c.uncompressed_size as u64 {
                            u64::MAX
                        } else {
                            cur_usize + c.uncompressed_size as u64
                        };
                        cur_count = cur_count + 1;
                        proof {
                            ptbl = ptbl.update(
                                ptbl.len() - 1,
                                BlobDesc {
                                    blob_id: cur_id,
                                    compressed_size: cur_csize,
                                    uncompressed_size: cur_usize,
                                    chunk_count: cur_count,
                                    chunk_size: b.config.chunk_size,
                                    features: 0,
                                    toc_digest: None,
                                    toc_size: None,
                                    original_blob_id: None,
                                },
                            );
                            assert(ptbl =~= packed@ + seq![ptbl.last()]);
                            assert(ptbl_extends(ptbl_m, ptbl));
                            assert(chunk_packed_ok(bv, dictv, cfg, kept_len as int, ptbl,
                                chunks@[m as int], c2));
                            assert(out_chunks@.drop_last() =~= out_before);
                            assert(out_chunks@.last() == c2);
                            assert(fill_in_chunks(out_chunks@, fill_bi) == fill_in_chunks(
                                out_before,
                                fill_bi,
                            ) + x);
                            assert(routed_in_chunks(out_chunks@, fill_bi) == routed_in_chunks(
                                out_before,
                                fill_bi,
                            ) + 1);
                            assert(forall|pi: int|
                                0 <= pi < packed@.len() ==> #[trigger] fill_in_chunks(
                                    out_chunks@,
                                    kept_len as int + pi,
                                ) == fill_in_chunks(out_before, kept_len as int + pi));
                            assert(forall|pi: int|
                                0 <= pi < packed@.len() ==> #[trigger] routed_in_chunks(
                                    out_chunks@,
                                    kept_len as int + pi,
                                ) == routed_in_chunks(out_before, kept_len as int + pi));
                            assert(chunk_greedy_ok(cfg, kept_len as int, packed@, c2)) by {
                                if (c2.blob_index as int) > kept_len && c2.offset == 0 {
                                    assert(packed@.len() > 0);
                                    assert(off == 0);
                                    assert(cur_opener <= x as int);
                                    assert(packed@.last().compressed_size + cur_opener
                                        > cfg.max_compact_size);
                                    assert(c2.compressed_size == x);
                                }
                            }
                            assert(spec_candidate(bv, dictv, cfg, chunks@[m as int].blob_index
                                as int)) by {
                                assert(cand@[c.blob_index as int] == spec_candidate(bv, dictv,
                                    cfg, c.blob_index as int));
                            }
                            assert(cand_in_chunks(bv, dictv, cfg, chunks@.take(m + 1))
                                == cand_in_chunks(bv, dictv, cfg, chunks@.take(m as int)) + 1);
                            assert(out_chunks@.take(m as int) =~= out_before);
                            assert(out_chunks@[m as int].offset as int == fill_in_tree(
                                outv0,
                                out_chunks@[m as int].blob_index as int,
                            ) + fill_in_chunks(
                                out_chunks@.take(m as int),
                                out_chunks@[m as int].blob_index as int,
                            ));
                            assert forall|m2: int|
                                0 <= m2 < m && spec_candidate(
                                    bv,
                                    dictv,
                                    cfg,
                                    chunks@[m2].blob_index as int,
                                ) implies (#[trigger] out_chunks@[m2]).offset as int
                                == fill_in_tree(outv0, out_chunks@[m2].blob_index as int)
                                + fill_in_chunks(
                                out_chunks@.take(m2),
                                out_chunks@[m2].blob_index as int,
                            ) by {
                                assert(out_chunks@[m2] == out_before[m2]);
                                assert(out_chunks@.take(m2) =~= out_before.take(m2));
                            }
                        }
                    } else {
                        let ghost out_before = out_chunks@;
                        let c2 = Chunk { blob_index: new_index[ci], ..c };
                        out_chunks.push(c2);
                        proof {
                            assert(chunk_packed_ok(bv, dictv, cfg, kept_len as int, ptbl,
                                chunks@[m as int], c2));
                            assert(c2.blob_index < kept_len);
                            assert(out_chunks@.drop_last() =~= out_before);
                            assert(out_chunks@.last() == c2);
                            assert(forall|bi: int|
                                bi >= kept_len ==> #[trigger] fill_in_chunks(out_chunks@, bi)
                                    == fill_in_chunks(out_before, bi));
                            assert(forall|bi: int|
                                bi >= kept_len ==> #[trigger] routed_in_chunks(out_chunks@, bi)
                                    == routed_in_chunks(out_before, bi));
                            assert(chunk_greedy_ok(cfg, kept_len as int, packed@, c2));
                            assert(!spec_candidate(bv, dictv, cfg, chunks@[m as int].blob_index
                                as int)) by {
                                assert(cand@[c.blob_index as int] == spec_candidate(bv, dictv,
                                    cfg, c.blob_index as int));
                            }
                            assert(cand_in_chunks(bv, dictv, cfg, chunks@.take(m + 1))
                                == cand_in_chunks(bv, dictv, cfg, chunks@.take(m as int)));
                            assert forall|m2: int|
                                0 <= m2 < m && spec_candidate(
                                    bv,
                                    dictv,
                                    cfg,
                                    chunks@[m2].blob_index as int,
                                ) implies (#[trigger] out_chunks@[m2]).offset as int
                                == fill_in_tree(outv0, out_chunks@[m2].blob_index as int)
                                + fill_in_chunks(
                                out_chunks@.take(m2),
                                out_chunks@[m2].blob_index as int,
                            ) by {
                                assert(out_chunks@[m2] == out_before[m2]);
                                assert(out_chunks@.take(m2) =~= out_before.take(m2));
                            }
                        }
                    }
                    proof {
                        assert(ptbl_extends(ptbl_m, ptbl));
                        assert forall|m2: int|
                            0 <= m2 < m + 1 implies chunk_packed_ok(
                            bv,
                            dictv,
                            cfg,
                            kept_len as int,
                            ptbl,
                            #[trigger] chunks@[m2],
                            out_chunks@[m2],
                        ) by {
                            if m2 < m {
                                assert(chunk_packed_ok(bv, dictv, cfg, kept_len as int, ptbl_m,
                                    chunks@[m2], out_chunks@[m2]));
                                if spec_candidate(bv, dictv, cfg, chunks@[m2].blob_index as int) {
                                    assert(ptbl[out_chunks@[m2].blob_index - kept_len]
                                        .compressed_size >= ptbl_m[out_chunks@[m2].blob_index
                                        - kept_len].compressed_size);
                                }
                            }
                        }
                    }
                    m = m + 1;
                }
                let ghost ocv = out_chunks@;
                out_entries.push(TreeEntry { path, node: Inode::File { chunks: out_chunks } });
                proof {
                    let ov = out_entries@.map_values(|x: TreeEntry| x@);
                    assert(ov.drop_last() =~= outv0);
                    assert(ov.last() == (EntryV {
                        path: bv.tree[ei as int].path,
                        node: InodeV::File { chunks: ocv },
                    }));
                    assert(forall|bi: int|
                        #[trigger] fill_in_tree(ov, bi) == fill_in_tree(outv0, bi)
                            + fill_in_chunks(ocv, bi));
                    assert(forall|bi: int|
                        #[trigger] routed_in_tree(ov, bi) == routed_in_tree(outv0, bi)
                            + routed_in_chunks(ocv, bi));
                    assert(chunks@.take(nc as int) =~= chunks@);
                    assert(bv.tree.take(ei + 1).drop_last() =~= bv.tree.take(ei as int));
                    assert(bv.tree.take(ei + 1).last() == bv.tree[ei as int]);
                    assert(cand_in_tree(bv, dictv, cfg, bv.tree.take(ei + 1)) == cand_in_tree(
                        bv,
                        dictv,
                        cfg,
                        bv.tree.take(ei as int),
                    ) + cand_in_chunks(bv, dictv, cfg, chunks@));
                    assert(entry_greedy_ok(cfg, kept_len as int, packed@, ov[ei as int]));
                }
            },
        }
        proof {
            let ghost ov = out_entries@.map_values(|x: TreeEntry| x@);
            match bv.tree[ei as int].node {
                InodeV::File { .. } => {},
                _ => {
                    assert(ov.drop_last() =~= outv0);
                    assert(!(ov.last().node is File));
                    assert(forall|bi: int|
                        #[trigger] fill_in_tree(ov, bi) == fill_in_tree(outv0, bi));
                    assert(forall|bi: int|
                        #[trigger] routed_in_tree(ov, bi) == routed_in_tree(outv0, bi));
                    assert(bv.tree.take(ei + 1).drop_last() =~= bv.tree.take(ei as int));
                    assert(bv.tree.take(ei + 1).last() == bv.tree[ei as int]);
                    assert(cand_in_tree(bv, dictv, cfg, bv.tree.take(ei + 1)) == cand_in_tree(
                        bv,
                        dictv,
                        cfg,
                        bv.tree.take(ei as int),
                    ));
                    assert(entry_greedy_ok(cfg, kept_len as int, packed@, ov[ei as int]));
                },
            }
            assert forall|e: int|
                0 <= e < ei + 1 implies entry_greedy_ok(
                cfg,
                kept_len as int,
                packed@,
                (#[trigger] out_entries@[e])@,
            ) by {
                if e == ei {
                    assert(out_entries@[e]@ == ov[e]);
                    assert(entry_greedy_ok(cfg, kept_len as int, packed@, ov[ei as int]));
                }
            }
            assert forall|e: int| 0 <= e < ei + 1 implies #[trigger] entry_placement_ok(
                bv,
                dictv,
                cfg,
                ov,
                e,
            ) by {
                if e < ei {
                    assert(entry_placement_ok(bv, dictv, cfg, outv0, e));
                    assert(ov.take(e) =~= outv0.take(e));
                    assert(ov[e] == outv0[e]);
                } else {
                    assert(ov.take(e) =~= outv0);
                }
            }
            assert(ov[ei as int].path == bv.tree[ei as int].path);
            assert(entry_packed_ok(bv, dictv, cfg, kept_len as int, ptbl, bv.tree[ei as int],
                ov[ei as int]));
            assert forall|e: int| 0 <= e < ei + 1 implies entry_packed_ok(
                bv,
                dictv,
                cfg,
                kept_len as int,
                ptbl,
                #[trigger] bv.tree[e],
                out_entries@.map_values(|x: TreeEntry| x@)[e],
            ) by {
                if e < ei {
                    lemma_entry_packed_mono(bv, dictv, cfg, kept_len as int, ptbl0, ptbl,
                        bv.tree[e], out_entries@.map_values(|x: TreeEntry| x@)[e]);
                }
            }
        }
        ei = ei + 1;
    }
    // Close the still-open packed blob.
    if cur_open {
        let ghost packed_before = packed@;
        packed.push(BlobDesc {
            blob_id: cur_id,
            compressed_size: cur_csize,
            uncompressed_size: cur_usize,
            chunk_count: cur_count,
            chunk_size: b.config.chunk_size,
            features: 0,
            toc_digest: None,
            toc_size: None,
            original_blob_id: None,
        });
        proof {
            assert(ptbl =~= packed@);
            let ovf = out_entries@.map_values(|x: TreeEntry| x@);
            assert(packed@.last().chunk_count as int == routed_in_tree(ovf, kept_len as int + (
            packed@.len() - 1)));
            assert(packed@ =~= packed_before.push(packed@.last()));
            assert forall|e: int|
                0 <= e < ne implies entry_greedy_ok(
                cfg,
                kept_len as int,
                packed@,
                (#[trigger] out_entries@[e])@,
            ) by {
                assert(entry_greedy_ok(cfg, kept_len as int, packed_before, out_entries@[e]@));
                lemma_entry_greedy_push(cfg, kept_len as int, packed_before, packed@.last(),
                    out_entries@[e]@);
            }
        }
    }
    proof {
        assert(ptbl =~= packed@);
    }
    // Assemble the output bootstrap.
    let mut out_table: Vec<BlobDesc> = kept;
    let np = packed.len();
    let mut pi: usize = 0;
    while pi < np
        invariant
            pi <= np,
            np == packed@.len(),
            out_table@ == spec_kept_table(bv, dictv, cfg, n as int) + packed@.take(pi as int),
        decreases np - pi,
    {
        out_table.push(packed[pi]);
        proof {
            assert(out_table@ =~= spec_kept_table(bv, dictv, cfg, n as int) + packed@.take(
                pi + 1));
        }
        pi = pi + 1;
    }
    proof {
        assert(packed@.take(np as int) =~= packed@);
    }
    let out = Bootstrap {
        config: b.config,
        tree: Tree { entries: out_entries },
        table: BlobTable { chunk_size: b.config.chunk_size, entries: out_table },
    };
    proof {
        let o = out@;
        assert(o.table =~= spec_kept_table(bv, dictv, cfg, n as int) + packed@);
        assert(kept_len as int == kc);
        assert forall|e: int|
            0 <= e < bv.tree.len() implies entry_packed_ok(
            bv,
            dictv,
            cfg,
            kc,
            packed@,
            #[trigger] bv.tree[e],
            o.tree[e],
        ) by {
            assert(entry_packed_ok(bv, dictv, cfg, kept_len as int, ptbl, bv.tree[e],
                out_entries@.map_values(|x: TreeEntry| x@)[e]));
            assert(ptbl =~= packed@);
        }
        assert forall|e: int|
            0 <= e < bv.tree.len() implies #[trigger] entry_placement_ok(
            bv,
            dictv,
            cfg,
            o.tree,
            e,
        ) by {
            assert(entry_placement_ok(bv, dictv, cfg, out_entries@.map_values(
                |x: TreeEntry| x@), e));
        }
        assert forall|e: int|
            0 <= e < o.tree.len() implies entry_greedy_ok(
            cfg,
            kc,
            packed@,
            #[trigger] o.tree[e],
        ) by {
            assert(entry_greedy_ok(cfg, kept_len as int, packed@, out_entries@[e]@));
            assert(o.tree[e] == out_entries@[e]@);
        }
        lemma_compact_assemble(bv, dictv, cfg, o, packed@, max_id);
        assert(out.wf());
    }
    Ok(Some(out))
}

} // verus!
