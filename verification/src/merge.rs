//! Bootstrap merging: overlay an ordered list of source bootstraps
//! (optionally on a parent) into one unified tree and blob table, remapping
//! every chunk's blob reference to the unified table and applying
//! out-of-band per-blob override metadata.
//!
//! The executable entry point is [`merge`]; its whole behaviour is pinned to
//! the spec-level fold [`spec_merge`], about which the merge laws
//! ([`lemma_merge_wf`], [`lemma_merge_single_identity`],
//! [`lemma_merge_last_writer_wins`]) are proved.

use vstd::prelude::*;
use crate::model::{
    BlobDesc, BlobTable, Chunk, lemma_add_blob_props, lemma_find_blob_props,
    lemma_find_blob_unique, spec_add_blob, spec_find_blob,
};
use crate::tree::{
    EntryV, Inode, InodeV, Tree, TreeEntry, clone_bytes, lemma_apply_entry_paths,
    lemma_remove_descendants_noop, lemma_set_fresh, paths_unique, spec_apply_entry,
};
use crate::bootstrap::{Bootstrap, BootstrapV, chunks_valid, flattened, node_chunks_valid, wf_v};
use crate::dict::{ChunkDict, DictV, spec_dict_lookup};

verus! {

/// Why a merge was aborted.  No partial output exists in any of these cases.
#[derive(Clone, Copy, Debug, PartialEq, Eq, Structural)]
pub enum MergeError {
    /// No bootstrap was given to merge.
    NoSource,
    /// A source declared a format configuration differing from the first
    /// input's (the parent's, when one is given).
    IncompatibleConfig { source_index: usize },
    /// A blob of a source declared a chunk size conflicting with the unified
    /// table's fixed one.
    ChunkSizeConflict { source_index: usize, blob_id: u64 },
    /// A chunk of a source referenced a blob index outside that source's own
    /// table: structural corruption.
    DanglingBlobRef { source_index: usize, blob_index: usize },
}

/// Out-of-band replacement metadata for one blob, keyed by the id the blob
/// has in the source tables.  Fields left `None` keep the source value.
#[derive(Clone, Copy, Debug, PartialEq, Eq)]
pub struct BlobOverride {
    /// Id of the blob this override applies to.
    pub blob_id: u64,
    /// Replacement id (the digest the relocated blob now has).
    pub new_blob_id: Option<u64>,
    pub compressed_size: Option<u64>,
    pub uncompressed_size: Option<u64>,
    /// Pre-relocation id to record in the descriptor.
    pub original_id: Option<u64>,
    pub toc_digest: Option<u64>,
    pub toc_size: Option<u64>,
}

/// Accumulating merge state: the unified blob table and overlaid tree.
pub struct MergeStateV {
    pub table: Seq<BlobDesc>,
    pub tree: Seq<EntryV>,
}

/// Position of the first override for blob id `id`, if any.
pub open spec fn spec_find_override(os: Seq<BlobOverride>, id: u64) -> Option<int>
    decreases os.len(),
{
    if os.len() == 0 {
        None
    } else {
        match spec_find_override(os.drop_last(), id) {
            Some(i) => Some(i),
            None => if os.last().blob_id == id {
                Some(os.len() - 1)
            } else {
                None
            },
        }
    }
}

/// What `spec_find_override` returns.
pub proof fn lemma_find_override_props(os: Seq<BlobOverride>, id: u64)
    ensures
        match spec_find_override(os, id) {
            Some(i) => 0 <= i < os.len() && os[i].blob_id == id && (forall|j: int|
                0 <= j < i ==> #[trigger] os[j].blob_id != id),
            None => forall|j: int| 0 <= j < os.len() ==> #[trigger] os[j].blob_id != id,
        },
    decreases os.len(),
{
    if os.len() > 0 {
        let d = os.drop_last();
        lemma_find_override_props(d, id);
        assert(forall|j: int| 0 <= j < d.len() ==> d[j] == os[j]);
    }
}

/// Once a prefix of `os` contains an override for `id`, the whole sequence
/// finds it at the same position.
pub proof fn lemma_find_override_extend(os: Seq<BlobOverride>, k: int, id: u64)
    requires
        0 <= k <= os.len(),
    ensures
        spec_find_override(os.take(k), id) matches Some(i) ==> spec_find_override(os, id) == Some(
            i,
        ),
    decreases os.len() - k,
{
    if k < os.len() {
        assert(os.take(k + 1).drop_last() =~= os.take(k));
        lemma_find_override_extend(os, k + 1, id);
    } else {
        assert(os.take(k) =~= os);
    }
}

/// If no prefix override matches and position `k` does, the find is `k`.
pub proof fn lemma_find_override_hit(os: Seq<BlobOverride>, k: int, id: u64)
    requires
        0 <= k < os.len(),
        spec_find_override(os.take(k), id) is None,
        os[k].blob_id == id,
    ensures
        spec_find_override(os, id) == Some(k),
{
    assert(os.take(k + 1).drop_last() =~= os.take(k));
    assert(os.take(k + 1).last() == os[k]);
    assert(spec_find_override(os.take(k + 1), id) == Some(k));
    lemma_find_override_extend(os, k + 1, id);
}

/// Descriptor `d` with its override (if any) applied.
pub open spec fn spec_override_desc(os: Seq<BlobOverride>, d: BlobDesc) -> BlobDesc {
    match spec_find_override(os, d.blob_id) {
        None => d,
        Some(i) => {
            let o = os[i];
            BlobDesc {
                blob_id: match o.new_blob_id {
                    Some(x) => x,
                    None => d.blob_id,
                },
                compressed_size: match o.compressed_size {
                    Some(x) => x,
                    None => d.compressed_size,
                },
                uncompressed_size: match o.uncompressed_size {
                    Some(x) => x,
                    None => d.uncompressed_size,
                },
                original_blob_id: match o.original_id {
                    Some(x) => Some(x),
                    None => d.original_blob_id,
                },
                toc_digest: match o.toc_digest {
                    Some(x) => Some(x),
                    None => d.toc_digest,
                },
                toc_size: match o.toc_size {
                    Some(x) => Some(x),
                    None => d.toc_size,
                },
                ..d
            }
        },
    }
}

/// The source table with overrides applied, in source order.
pub open spec fn spec_source_table(src: BootstrapV, os: Seq<BlobOverride>) -> Seq<BlobDesc> {
    src.table.map_values(|d: BlobDesc| spec_override_desc(os, d))
}

/// Fold the whole (overridden) source table into the unified table by
/// insert-or-find, so that every source blob keeps a stable position for
/// chunk remapping and unreferenced blobs survive a merge.
pub open spec fn spec_merge_table(
    t: Seq<BlobDesc>,
    cs: u32,
    stov: Seq<BlobDesc>,
    si: usize,
) -> Result<Seq<BlobDesc>, MergeError>
    decreases stov.len(),
{
    if stov.len() == 0 {
        Ok(t)
    } else {
        match spec_merge_table(t, cs, stov.drop_last(), si) {
            Err(e) => Err(e),
            Ok(t1) => match spec_add_blob(t1, cs, stov.last()) {
                Some(r) => Ok(r.0),
                None => Err(MergeError::ChunkSizeConflict {
                    source_index: si,
                    blob_id: stov.last().blob_id,
                }),
            },
        }
    }
}

/// Remap one chunk of a source file onto the unified table: a dictionary
/// hit redirects the chunk to the canonical blob already storing its
/// content; otherwise the chunk follows its (overridden) source blob.
pub open spec fn spec_remap_chunk(
    t: Seq<BlobDesc>,
    cs: u32,
    c: Chunk,
    stov: Seq<BlobDesc>,
    dict: Option<DictV>,
    si: usize,
) -> Result<(Seq<BlobDesc>, Chunk), MergeError> {
    if c.blob_index >= stov.len() {
        Err(MergeError::DanglingBlobRef { source_index: si, blob_index: c.blob_index })
    } else {
        let hit = match dict {
            Some(d) => spec_dict_lookup(d, c.digest),
            None => None,
        };
        match hit {
            Some(e) => {
                let bd = dict->Some_0.blobs[e.blob_index as int];
                match spec_add_blob(t, cs, bd) {
                    None => Err(MergeError::ChunkSizeConflict {
                        source_index: si,
                        blob_id: bd.blob_id,
                    }),
                    Some(r) => Ok(
                        (
                            r.0,
                            Chunk {
                                blob_index: r.1 as usize,
                                offset: e.offset,
                                compressed_size: e.compressed_size,
                                ..c
                            },
                        ),
                    ),
                }
            },
            None => {
                let bd = stov[c.blob_index as int];
                match spec_add_blob(t, cs, bd) {
                    None => Err(MergeError::ChunkSizeConflict {
                        source_index: si,
                        blob_id: bd.blob_id,
                    }),
                    Some(r) => Ok((r.0, Chunk { blob_index: r.1 as usize, ..c })),
                }
            },
        }
    }
}

/// Remap a file's chunk list left to right, threading the unified table.
pub open spec fn spec_remap_chunks(
    t: Seq<BlobDesc>,
    cs: u32,
    cks: Seq<Chunk>,
    stov: Seq<BlobDesc>,
    dict: Option<DictV>,
    si: usize,
) -> Result<(Seq<BlobDesc>, Seq<Chunk>), MergeError>
    decreases cks.len(),
{
    if cks.len() == 0 {
        Ok((t, Seq::empty()))
    } else {
        match spec_remap_chunks(t, cs, cks.drop_last(), stov, dict, si) {
            Err(e) => Err(e),
            Ok(r1) => match spec_remap_chunk(r1.0, cs, cks.last(), stov, dict, si) {
                Err(e) => Err(e),
                Ok(r2) => Ok((r2.0, r1.1.push(r2.1))),
            },
        }
    }
}

/// Merge one source entry into the accumulating state: whiteouts and
/// directories overlay the tree directly; files first have their chunks
/// remapped.
pub open spec fn spec_merge_entry(
    s: MergeStateV,
    cs: u32,
    e: EntryV,
    stov: Seq<BlobDesc>,
    dict: Option<DictV>,
    si: usize,
) -> Result<MergeStateV, MergeError> {
    match e.node {
        InodeV::File { chunks } => match spec_remap_chunks(s.table, cs, chunks, stov, dict, si) {
            Err(er) => Err(er),
            Ok(r) => Ok(
                MergeStateV {
                    table: r.0,
                    tree: spec_apply_entry(
                        s.tree,
                        EntryV { path: e.path, node: InodeV::File { chunks: r.1 } },
                    ),
                },
            ),
        },
        _ => Ok(MergeStateV { table: s.table, tree: spec_apply_entry(s.tree, e) }),
    }
}

/// Merge a source's entries in order.
pub open spec fn spec_merge_entries(
    s: MergeStateV,
    cs: u32,
    es: Seq<EntryV>,
    stov: Seq<BlobDesc>,
    dict: Option<DictV>,
    si: usize,
) -> Result<MergeStateV, MergeError>
    decreases es.len(),
{
    if es.len() == 0 {
        Ok(s)
    } else {
        match spec_merge_entries(s, cs, es.drop_last(), stov, dict, si) {
            Err(e) => Err(e),
            Ok(s1) => spec_merge_entry(s1, cs, es.last(), stov, dict, si),
        }
    }
}

/// Merge one whole source bootstrap: fold its blob table first, then its
/// entries.
pub open spec fn spec_merge_source(
    s: MergeStateV,
    cs: u32,
    src: BootstrapV,
    os: Seq<BlobOverride>,
    dict: Option<DictV>,
    si: usize,
) -> Result<MergeStateV, MergeError> {
    let stov = spec_source_table(src, os);
    match spec_merge_table(s.table, cs, stov, si) {
        Err(e) => Err(e),
        Ok(t1) => spec_merge_entries(
            MergeStateV { table: t1, tree: s.tree },
            cs,
            src.tree,
            stov,
            dict,
            si,
        ),
    }
}

/// Merge the inputs in order (the parent, when given, stands first).
pub open spec fn spec_merge_sources(
    s: MergeStateV,
    cs: u32,
    all: Seq<BootstrapV>,
    os: Seq<BlobOverride>,
    dict: Option<DictV>,
) -> Result<MergeStateV, MergeError>
    decreases all.len(),
{
    if all.len() == 0 {
        Ok(s)
    } else {
        match spec_merge_sources(s, cs, all.drop_last(), os, dict) {
            Err(e) => Err(e),
            Ok(s1) => spec_merge_source(s1, cs, all.last(), os, dict, (all.len() - 1) as usize),
        }
    }
}

/// Index of the first input whose configuration differs from the first
/// input's, if any.
pub open spec fn spec_first_config_mismatch(all: Seq<BootstrapV>) -> Option<int>
    decreases all.len(),
{
    if all.len() == 0 {
        None
    } else {
        match spec_first_config_mismatch(all.drop_last()) {
            Some(i) => Some(i),
            None => if all.last().config != all[0].config {
                Some(all.len() - 1)
            } else {
                None
            },
        }
    }
}

/// What `spec_first_config_mismatch` returns.
pub proof fn lemma_config_mismatch_props(all: Seq<BootstrapV>)
    ensures
        match spec_first_config_mismatch(all) {
            Some(i) => 0 < i < all.len() && all[i].config != all[0].config && (forall|j: int|
                0 <= j < i ==> #[trigger] all[j].config == all[0].config),
            None => forall|j: int| 0 <= j < all.len() ==> #[trigger] all[j].config
                == all[0].config,
        },
    decreases all.len(),
{
    if all.len() > 0 {
        let d = all.drop_last();
        lemma_config_mismatch_props(d);
        assert(forall|j: int| 0 <= j < d.len() ==> d[j] == all[j]);
        if all.len() > 1 {
            assert(d[0] == all[0]);
        }
    }
}

/// Once a prefix of `all` contains a mismatch, the whole sequence finds it
/// at the same position.
pub proof fn lemma_config_mismatch_extend(all: Seq<BootstrapV>, k: int)
    requires
        1 <= k <= all.len(),
    ensures
        spec_first_config_mismatch(all.take(k)) matches Some(i) ==> spec_first_config_mismatch(
            all,
        ) == Some(i),
    decreases all.len() - k,
{
    if k < all.len() {
        assert(all.take(k + 1).drop_last() =~= all.take(k));
        assert(all.take(k + 1)[0] == all.take(k)[0]);
        lemma_config_mismatch_extend(all, k + 1);
    } else {
        assert(all.take(k) =~= all);
    }
}

/// If no prefix mismatches and position `k` does, the find is `k`.
pub proof fn lemma_config_mismatch_hit(all: Seq<BootstrapV>, k: int)
    requires
        1 <= k < all.len(),
        spec_first_config_mismatch(all.take(k)) is None,
        all[k].config != all[0].config,
    ensures
        spec_first_config_mismatch(all) == Some(k),
{
    assert(all.take(k + 1).drop_last() =~= all.take(k));
    assert(all.take(k + 1).last() == all[k]);
    assert(all.take(k + 1)[0] == all[0]);
    assert(spec_first_config_mismatch(all.take(k + 1)) == Some(k));
    lemma_config_mismatch_extend(all, k + 1);
}

/// The whole merge: reject an empty input list, fail fast on a
/// configuration mismatch, then fold the inputs over the empty state.
pub open spec fn spec_merge(
    all: Seq<BootstrapV>,
    os: Seq<BlobOverride>,
    dict: Option<DictV>,
) -> Result<MergeStateV, MergeError> {
    if all.len() == 0 {
        Err(MergeError::NoSource)
    } else {
        match spec_first_config_mismatch(all) {
            Some(i) => Err(MergeError::IncompatibleConfig { source_index: i as usize }),
            None => spec_merge_sources(
                MergeStateV { table: Seq::empty(), tree: Seq::empty() },
                all[0].config.chunk_size,
                all,
                os,
                dict,
            ),
        }
    }
}

/// An error of a prefix of the table fold is the error of the whole fold.
pub proof fn lemma_merge_table_err_extend(
    t: Seq<BlobDesc>,
    cs: u32,
    stov: Seq<BlobDesc>,
    k: int,
    si: usize,
)
    requires
        0 <= k <= stov.len(),
        spec_merge_table(t, cs, stov.take(k), si) is Err,
    ensures
        spec_merge_table(t, cs, stov, si) == spec_merge_table(t, cs, stov.take(k), si),
    decreases stov.len() - k,
{
    if k < stov.len() {
        assert(stov.take(k + 1).drop_last() =~= stov.take(k));
        lemma_merge_table_err_extend(t, cs, stov, k + 1, si);
    } else {
        assert(stov.take(k) =~= stov);
    }
}

/// An error of a prefix of the chunk fold is the error of the whole fold.
pub proof fn lemma_remap_chunks_err_extend(
    t: Seq<BlobDesc>,
    cs: u32,
    cks: Seq<Chunk>,
    k: int,
    stov: Seq<BlobDesc>,
    dict: Option<DictV>,
    si: usize,
)
    requires
        0 <= k <= cks.len(),
        spec_remap_chunks(t, cs, cks.take(k), stov, dict, si) is Err,
    ensures
        spec_remap_chunks(t, cs, cks, stov, dict, si) == spec_remap_chunks(
            t,
            cs,
            cks.take(k),
            stov,
            dict,
            si,
        ),
    decreases cks.len() - k,
{
    if k < cks.len() {
        assert(cks.take(k + 1).drop_last() =~= cks.take(k));
        lemma_remap_chunks_err_extend(t, cs, cks, k + 1, stov, dict, si);
    } else {
        assert(cks.take(k) =~= cks);
    }
}

/// An error of a prefix of the entry fold is the error of the whole fold.
pub proof fn lemma_merge_entries_err_extend(
    s: MergeStateV,
    cs: u32,
    es: Seq<EntryV>,
    k: int,
    stov: Seq<BlobDesc>,
    dict: Option<DictV>,
    si: usize,
)
    requires
        0 <= k <= es.len(),
        spec_merge_entries(s, cs, es.take(k), stov, dict, si) is Err,
    ensures
        spec_merge_entries(s, cs, es, stov, dict, si) == spec_merge_entries(
            s,
            cs,
            es.take(k),
            stov,
            dict,
            si,
        ),
    decreases es.len() - k,
{
    if k < es.len() {
        assert(es.take(k + 1).drop_last() =~= es.take(k));
        lemma_merge_entries_err_extend(s, cs, es, k + 1, stov, dict, si);
    } else {
        assert(es.take(k) =~= es);
    }
}

/// A source failing after an accumulated prefix fails the whole fold.
pub proof fn lemma_source_err_bubble(
    init: MergeStateV,
    cs: u32,
    all: Seq<BootstrapV>,
    si: usize,
    os: Seq<BlobOverride>,
    dict: Option<DictV>,
    s_si: MergeStateV,
    e: MergeError,
)
    requires
        0 <= si < all.len(),
        spec_merge_sources(init, cs, all.take(si as int), os, dict) == Ok::<
            MergeStateV,
            MergeError,
        >(s_si),
        spec_merge_source(s_si, cs, all[si as int], os, dict, si) == Err::<
            MergeStateV,
            MergeError,
        >(e),
    ensures
        spec_merge_sources(init, cs, all, os, dict) == Err::<MergeStateV, MergeError>(e),
{
    assert(all.take(si + 1).drop_last() =~= all.take(si as int));
    assert(all.take(si + 1).last() == all[si as int]);
    assert(spec_merge_sources(init, cs, all.take(si + 1), os, dict) == Err::<
        MergeStateV,
        MergeError,
    >(e));
    lemma_merge_sources_err_extend(init, cs, all, si + 1, os, dict);
}

/// An entry failing after an accumulated prefix fails the whole entry fold.
pub proof fn lemma_entry_err_bubble(
    s0: MergeStateV,
    cs: u32,
    es: Seq<EntryV>,
    j: int,
    stov: Seq<BlobDesc>,
    dict: Option<DictV>,
    si: usize,
    s_j: MergeStateV,
    e: MergeError,
)
    requires
        0 <= j < es.len(),
        spec_merge_entries(s0, cs, es.take(j), stov, dict, si) == Ok::<MergeStateV, MergeError>(
            s_j,
        ),
        spec_merge_entry(s_j, cs, es[j], stov, dict, si) == Err::<MergeStateV, MergeError>(e),
    ensures
        spec_merge_entries(s0, cs, es, stov, dict, si) == Err::<MergeStateV, MergeError>(e),
{
    assert(es.take(j + 1).drop_last() =~= es.take(j));
    assert(es.take(j + 1).last() == es[j]);
    assert(spec_merge_entries(s0, cs, es.take(j + 1), stov, dict, si) == Err::<
        MergeStateV,
        MergeError,
    >(e));
    lemma_merge_entries_err_extend(s0, cs, es, j + 1, stov, dict, si);
}

/// A chunk failing after an accumulated prefix fails the whole chunk fold.
pub proof fn lemma_chunk_err_bubble(
    t0: Seq<BlobDesc>,
    cs: u32,
    cks: Seq<Chunk>,
    m: int,
    stov: Seq<BlobDesc>,
    dict: Option<DictV>,
    si: usize,
    t_m: Seq<BlobDesc>,
    out: Seq<Chunk>,
    e: MergeError,
)
    requires
        0 <= m < cks.len(),
        spec_remap_chunks(t0, cs, cks.take(m), stov, dict, si) == Ok::<
            (Seq<BlobDesc>, Seq<Chunk>),
            MergeError,
        >((t_m, out)),
        spec_remap_chunk(t_m, cs, cks[m], stov, dict, si) == Err::<
            (Seq<BlobDesc>, Chunk),
            MergeError,
        >(e),
    ensures
        spec_remap_chunks(t0, cs, cks, stov, dict, si) == Err::<
            (Seq<BlobDesc>, Seq<Chunk>),
            MergeError,
        >(e),
{
    assert(cks.take(m + 1).drop_last() =~= cks.take(m));
    assert(cks.take(m + 1).last() == cks[m]);
    assert(spec_remap_chunks(t0, cs, cks.take(m + 1), stov, dict, si) == Err::<
        (Seq<BlobDesc>, Seq<Chunk>),
        MergeError,
    >(e));
    lemma_remap_chunks_err_extend(t0, cs, cks, m + 1, stov, dict, si);
}

/// An error of a prefix of the source fold is the error of the whole fold.
pub proof fn lemma_merge_sources_err_extend(
    s: MergeStateV,
    cs: u32,
    all: Seq<BootstrapV>,
    k: int,
    os: Seq<BlobOverride>,
    dict: Option<DictV>,
)
    requires
        0 <= k <= all.len(),
        spec_merge_sources(s, cs, all.take(k), os, dict) is Err,
    ensures
        spec_merge_sources(s, cs, all, os, dict) == spec_merge_sources(
            s,
            cs,
            all.take(k),
            os,
            dict,
        ),
    decreases all.len() - k,
{
    if k < all.len() {
        assert(all.take(k + 1).drop_last() =~= all.take(k));
        lemma_merge_sources_err_extend(s, cs, all, k + 1, os, dict);
    } else {
        assert(all.take(k) =~= all);
    }
}

/// Invariant carried by the merge state through every step: unique blob
/// ids, chunk-size homogeneity, unique paths, valid chunk references.
pub open spec fn state_inv(s: MergeStateV, cs: u32) -> bool {
    &&& crate::model::unique_ids(s.table)
    &&& crate::model::homogeneous(s.table, cs)
    &&& paths_unique(s.tree)
    &&& chunks_valid(s.tree, s.table.len() as int)
}

/// The table fold preserves uniqueness and homogeneity and only grows the
/// table.
pub proof fn lemma_merge_table_inv(t: Seq<BlobDesc>, cs: u32, stov: Seq<BlobDesc>, si: usize)
    requires
        crate::model::unique_ids(t),
        crate::model::homogeneous(t, cs),
    ensures
        spec_merge_table(t, cs, stov, si) matches Ok(t1) ==> {
            &&& crate::model::unique_ids(t1)
            &&& crate::model::homogeneous(t1, cs)
            &&& t.len() <= t1.len()
        },
    decreases stov.len(),
{
    if stov.len() > 0 {
        lemma_merge_table_inv(t, cs, stov.drop_last(), si);
        match spec_merge_table(t, cs, stov.drop_last(), si) {
            Ok(t1) => {
                if spec_add_blob(t1, cs, stov.last()) is Some {
                    lemma_add_blob_props(t1, cs, stov.last());
                }
            },
            Err(_) => {},
        }
    }
}

/// Remapping one chunk preserves table invariants, only grows the table,
/// and stores a valid blob index.
pub proof fn lemma_remap_chunk_inv(
    t: Seq<BlobDesc>,
    cs: u32,
    c: Chunk,
    stov: Seq<BlobDesc>,
    dict: Option<DictV>,
    si: usize,
)
    requires
        crate::model::unique_ids(t),
        crate::model::homogeneous(t, cs),
    ensures
        spec_remap_chunk(t, cs, c, stov, dict, si) matches Ok(r) ==> {
            &&& crate::model::unique_ids(r.0)
            &&& crate::model::homogeneous(r.0, cs)
            &&& t.len() <= r.0.len()
            &&& (r.1.blob_index as int) < r.0.len()
        },
{
    match spec_remap_chunk(t, cs, c, stov, dict, si) {
        Ok(r) => {
            if c.blob_index < stov.len() {
                let hit = match dict {
                    Some(d) => spec_dict_lookup(d, c.digest),
                    None => None,
                };
                let bd = match hit {
                    Some(e) => dict->Some_0.blobs[e.blob_index as int],
                    None => stov[c.blob_index as int],
                };
                lemma_add_blob_props(t, cs, bd);
                let a = spec_add_blob(t, cs, bd)->Some_0;
                assert(0 <= a.1 < a.0.len());
                if a.1 <= usize::MAX as int {
                    assert((a.1 as usize) as int == a.1);
                } else {
                    assert(a.0.len() > usize::MAX as int);
                    assert((a.1 as usize) as int <= usize::MAX as int);
                }
            }
        },
        Err(_) => {},
    }
}

/// Remapping a chunk list preserves table invariants, only grows the table,
/// and yields chunks whose blob indices are all valid for the final table.
pub proof fn lemma_remap_chunks_inv(
    t: Seq<BlobDesc>,
    cs: u32,
    cks: Seq<Chunk>,
    stov: Seq<BlobDesc>,
    dict: Option<DictV>,
    si: usize,
)
    requires
        crate::model::unique_ids(t),
        crate::model::homogeneous(t, cs),
    ensures
        spec_remap_chunks(t, cs, cks, stov, dict, si) matches Ok(r) ==> {
            &&& crate::model::unique_ids(r.0)
            &&& crate::model::homogeneous(r.0, cs)
            &&& t.len() <= r.0.len()
            &&& r.1.len() == cks.len()
            &&& forall|k: int|
                0 <= k < r.1.len() ==> ((#[trigger] r.1[k]).blob_index as int) < r.0.len()
        },
    decreases cks.len(),
{
    if cks.len() > 0 {
        lemma_remap_chunks_inv(t, cs, cks.drop_last(), stov, dict, si);
        match spec_remap_chunks(t, cs, cks.drop_last(), stov, dict, si) {
            Ok(r1) => {
                lemma_remap_chunk_inv(r1.0, cs, cks.last(), stov, dict, si);
                match spec_remap_chunk(r1.0, cs, cks.last(), stov, dict, si) {
                    Ok(r2) => {
                        assert(forall|k: int|
                            0 <= k < r1.1.len() ==> r1.1.push(r2.1)[k] == #[trigger] r1.1[k]);
                    },
                    Err(_) => {},
                }
            },
            Err(_) => {},
        }
    }
}

/// One merged entry preserves the whole state invariant.
pub proof fn lemma_merge_entry_inv(
    s: MergeStateV,
    cs: u32,
    e: EntryV,
    stov: Seq<BlobDesc>,
    dict: Option<DictV>,
    si: usize,
)
    requires
        state_inv(s, cs),
    ensures
        spec_merge_entry(s, cs, e, stov, dict, si) matches Ok(s1) ==> state_inv(s1, cs)
            && s.table.len() <= s1.table.len(),
{
    match e.node {
        InodeV::File { chunks } => {
            lemma_remap_chunks_inv(s.table, cs, chunks, stov, dict, si);
            match spec_remap_chunks(s.table, cs, chunks, stov, dict, si) {
                Ok(r) => {
                    let e2 = EntryV { path: e.path, node: InodeV::File { chunks: r.1 } };
                    lemma_apply_entry_paths(s.tree, e2);
                    crate::bootstrap::lemma_chunks_valid_mono(
                        s.tree,
                        s.table.len() as int,
                        r.0.len() as int,
                    );
                    assert(node_chunks_valid(e2.node, r.0.len() as int));
                    crate::bootstrap::lemma_apply_entry_valid(s.tree, e2, r.0.len() as int);
                },
                Err(_) => {},
            }
        },
        _ => {
            lemma_apply_entry_paths(s.tree, e);
            assert(node_chunks_valid(e.node, s.table.len() as int));
            crate::bootstrap::lemma_apply_entry_valid(s.tree, e, s.table.len() as int);
        },
    }
}

/// The entry fold preserves the whole state invariant.
pub proof fn lemma_merge_entries_inv(
    s: MergeStateV,
    cs: u32,
    es: Seq<EntryV>,
    stov: Seq<BlobDesc>,
    dict: Option<DictV>,
    si: usize,
)
    requires
        state_inv(s, cs),
    ensures
        spec_merge_entries(s, cs, es, stov, dict, si) matches Ok(s1) ==> state_inv(s1, cs)
            && s.table.len() <= s1.table.len(),
    decreases es.len(),
{
    if es.len() > 0 {
        lemma_merge_entries_inv(s, cs, es.drop_last(), stov, dict, si);
        match spec_merge_entries(s, cs, es.drop_last(), stov, dict, si) {
            Ok(s1) => {
                lemma_merge_entry_inv(s1, cs, es.last(), stov, dict, si);
            },
            Err(_) => {},
        }
    }
}

/// Merging one whole source preserves the state invariant.
pub proof fn lemma_merge_source_inv(
    s: MergeStateV,
    cs: u32,
    src: BootstrapV,
    os: Seq<BlobOverride>,
    dict: Option<DictV>,
    si: usize,
)
    requires
        state_inv(s, cs),
    ensures
        spec_merge_source(s, cs, src, os, dict, si) matches Ok(s1) ==> state_inv(s1, cs)
            && s.table.len() <= s1.table.len(),
{
    let stov = spec_source_table(src, os);
    lemma_merge_table_inv(s.table, cs, stov, si);
    match spec_merge_table(s.table, cs, stov, si) {
        Ok(t1) => {
            let s_mid = MergeStateV { table: t1, tree: s.tree };
            crate::bootstrap::lemma_chunks_valid_mono(
                s.tree,
                s.table.len() as int,
                t1.len() as int,
            );
            lemma_merge_entries_inv(s_mid, cs, src.tree, stov, dict, si);
        },
        Err(_) => {},
    }
}

/// The source fold preserves the state invariant.
pub proof fn lemma_merge_sources_inv(
    s: MergeStateV,
    cs: u32,
    all: Seq<BootstrapV>,
    os: Seq<BlobOverride>,
    dict: Option<DictV>,
)
    requires
        state_inv(s, cs),
    ensures
        spec_merge_sources(s, cs, all, os, dict) matches Ok(s1) ==> state_inv(s1, cs),
    decreases all.len(),
{
    if all.len() > 0 {
        lemma_merge_sources_inv(s, cs, all.drop_last(), os, dict);
        match spec_merge_sources(s, cs, all.drop_last(), os, dict) {
            Ok(s1) => {
                lemma_merge_source_inv(s1, cs, all.last(), os, dict, (all.len() - 1) as usize);
            },
            Err(_) => {},
        }
    }
}

/// Every successful merge output has a blob table without duplicate ids,
/// homogeneous in the first input's chunk size, a tree without duplicate
/// paths, and no chunk referencing a blob outside the output's own table.
pub proof fn lemma_merge_wf(all: Seq<BootstrapV>, os: Seq<BlobOverride>, dict: Option<DictV>)
    requires
        spec_merge(all, os, dict) is Ok,
    ensures
        ({
            let st = spec_merge(all, os, dict)->Ok_0;
            &&& crate::model::unique_ids(st.table)
            &&& crate::model::homogeneous(st.table, all[0].config.chunk_size)
            &&& paths_unique(st.tree)
            &&& chunks_valid(st.tree, st.table.len() as int)
        }),
{
    let init = MergeStateV { table: Seq::empty(), tree: Seq::empty() };
    let cs = all[0].config.chunk_size;
    assert(state_inv(init, cs));
    lemma_merge_sources_inv(init, cs, all, os, dict);
}

/// Folding a table with unique ids and homogeneous chunk size into the
/// empty table rebuilds it unchanged.
pub proof fn lemma_table_identity(cs: u32, st: Seq<BlobDesc>, si: usize)
    requires
        crate::model::unique_ids(st),
        crate::model::homogeneous(st, cs),
    ensures
        spec_merge_table(Seq::empty(), cs, st, si) == Ok::<Seq<BlobDesc>, MergeError>(st),
    decreases st.len(),
{
    if st.len() == 0 {
        assert(st =~= Seq::<BlobDesc>::empty());
    } else {
        let d = st.drop_last();
        assert(forall|j: int| 0 <= j < d.len() ==> d[j] == st[j]);
        lemma_table_identity(cs, d, si);
        lemma_find_blob_props(d, st.last().blob_id);
        match spec_find_blob(d, st.last().blob_id) {
            Some(j) => {
                assert(st[j].blob_id == st[st.len() - 1].blob_id);
            },
            None => {},
        }
        assert(d.push(st.last()) =~= st);
    }
}

/// Remapping chunks of a table against itself, without dictionary or
/// overrides, changes nothing.
pub proof fn lemma_chunks_identity(tbl: Seq<BlobDesc>, cs: u32, cks: Seq<Chunk>, si: usize)
    requires
        crate::model::unique_ids(tbl),
        crate::model::homogeneous(tbl, cs),
        forall|k: int| 0 <= k < cks.len() ==> (#[trigger] cks[k]).blob_index < tbl.len(),
    ensures
        spec_remap_chunks(tbl, cs, cks, tbl, None, si) == Ok::<
            (Seq<BlobDesc>, Seq<Chunk>),
            MergeError,
        >((tbl, cks)),
    decreases cks.len(),
{
    if cks.len() == 0 {
        assert(cks =~= Seq::<Chunk>::empty());
    } else {
        let d = cks.drop_last();
        assert(forall|j: int| 0 <= j < d.len() ==> d[j] == cks[j]);
        lemma_chunks_identity(tbl, cs, d, si);
        let c = cks.last();
        assert(c == cks[cks.len() - 1]);
        assert(c.blob_index < tbl.len());
        lemma_find_blob_unique(tbl, c.blob_index as int);
        assert(spec_add_blob(tbl, cs, tbl[c.blob_index as int]) == Some(
            (tbl, c.blob_index as int),
        ));
        assert((Chunk { blob_index: ((c.blob_index as int) as usize), ..c }) == c);
        assert(d.push(c) =~= cks);
    }
}

/// Folding the entries of a flattened tree with unique paths onto an empty
/// tree, against their own table, rebuilds the tree unchanged.
pub proof fn lemma_entries_identity(tbl: Seq<BlobDesc>, cs: u32, es: Seq<EntryV>, si: usize)
    requires
        crate::model::unique_ids(tbl),
        crate::model::homogeneous(tbl, cs),
        paths_unique(es),
        flattened(es),
        chunks_valid(es, tbl.len() as int),
    ensures
        spec_merge_entries(
            MergeStateV { table: tbl, tree: Seq::empty() },
            cs,
            es,
            tbl,
            None,
            si,
        ) == Ok::<MergeStateV, MergeError>(MergeStateV { table: tbl, tree: es }),
    decreases es.len(),
{
    let s0 = MergeStateV { table: tbl, tree: Seq::empty() };
    if es.len() == 0 {
        assert(es =~= Seq::<EntryV>::empty());
    } else {
        let d = es.drop_last();
        let e = es.last();
        assert(forall|j: int| 0 <= j < d.len() ==> d[j] == es[j]);
        assert(e == es[es.len() - 1]);
        lemma_entries_identity(tbl, cs, d, si);
        assert(!crate::tree::has_path(d, e.path)) by {
            if crate::tree::has_path(d, e.path) {
                let j = choose|j: int| 0 <= j < d.len() && #[trigger] d[j].path == e.path;
                assert(es[j].path == es[es.len() - 1].path);
            }
        }
        match e.node {
            InodeV::Whiteout => {
                assert(!(es[es.len() - 1].node is Whiteout));
            },
            InodeV::Directory => {
                lemma_set_fresh(d, e);
                assert(d.push(e) =~= es);
            },
            InodeV::File { chunks } => {
                assert(node_chunks_valid(e.node, tbl.len() as int));
                assert(forall|k: int|
                    0 <= k < chunks.len() ==> (#[trigger] chunks[k]).blob_index < tbl.len());
                lemma_chunks_identity(tbl, cs, chunks, si);
                assert(forall|j: int|
                    0 <= j < d.len() ==> !crate::tree::is_ancestor_path(
                        e.path,
                        (#[trigger] d[j]).path,
                    )) by {
                    assert(forall|j: int|
                        0 <= j < es.len() ==> !crate::tree::is_ancestor_path(
                            es[es.len() - 1].path,
                            (#[trigger] es[j]).path,
                        ));
                }
                lemma_remove_descendants_noop(d, e.path);
                lemma_set_fresh(d, e);
                assert((EntryV { path: e.path, node: InodeV::File { chunks } }) == e);
                assert(d.push(e) =~= es);
            },
        }
    }
}

/// Merge idempotence on identity: merging a single well-formed, flattened
/// bootstrap with no parent, no overrides and no dictionary yields its own
/// blob table and tree unchanged.
pub proof fn lemma_merge_single_identity(b: BootstrapV)
    requires
        wf_v(b),
        flattened(b.tree),
    ensures
        spec_merge(seq![b], Seq::empty(), None) == Ok::<MergeStateV, MergeError>(
            MergeStateV { table: b.table, tree: b.tree },
        ),
{
    let all = seq![b];
    let os = Seq::<BlobOverride>::empty();
    let cs = b.config.chunk_size;
    assert(all.drop_last() =~= Seq::<BootstrapV>::empty());
    assert(all.last() == b);
    assert(all[0] == b);
    assert(spec_first_config_mismatch(Seq::<BootstrapV>::empty()) is None);
    assert(spec_first_config_mismatch(all) is None);
    let init = MergeStateV { table: Seq::empty(), tree: Seq::empty() };
    assert(spec_merge_sources(init, cs, Seq::<BootstrapV>::empty(), os, None) == Ok::<
        MergeStateV,
        MergeError,
    >(init));
    let stov = spec_source_table(b, os);
    assert(stov =~= b.table) by {
        assert(forall|j: int|
            0 <= j < b.table.len() ==> spec_override_desc(os, #[trigger] b.table[j])
                == b.table[j]);
    }
    lemma_table_identity(cs, b.table, 0);
    assert(spec_merge_table(init.table, cs, stov, 0) == Ok::<Seq<BlobDesc>, MergeError>(b.table));
    lemma_entries_identity(b.table, cs, b.tree, 0);
    assert(spec_merge_source(init, cs, b, os, None, 0) == Ok::<MergeStateV, MergeError>(
        MergeStateV { table: b.table, tree: b.tree },
    ));
}

/// Chunk identity up to blob relocation: the content digest, the
/// uncompressed size and the position in the owning file agree; only the
/// blob reference may have been rewritten.
pub open spec fn chunk_content_eq(a: Chunk, b: Chunk) -> bool {
    &&& a.digest == b.digest
    &&& a.uncompressed_size == b.uncompressed_size
    &&& a.file_offset == b.file_offset
}

/// Inode identity up to chunk blob relocation.
pub open spec fn node_content_eq(a: InodeV, b: InodeV) -> bool {
    match a {
        InodeV::Directory => b is Directory,
        InodeV::Whiteout => b is Whiteout,
        InodeV::File { chunks: ca } => match b {
            InodeV::File { chunks: cb } => ca.len() == cb.len() && (forall|k: int|
                0 <= k < ca.len() ==> chunk_content_eq(#[trigger] ca[k], cb[k])),
            _ => false,
        },
    }
}

/// Chunk remapping rewrites only blob references, never content.
pub proof fn lemma_remap_chunks_content(
    t: Seq<BlobDesc>,
    cs: u32,
    cks: Seq<Chunk>,
    stov: Seq<BlobDesc>,
    dict: Option<DictV>,
    si: usize,
)
    ensures
        spec_remap_chunks(t, cs, cks, stov, dict, si) matches Ok(r) ==> r.1.len() == cks.len()
            && (forall|k: int| 0 <= k < cks.len() ==> chunk_content_eq(#[trigger] r.1[k], cks[k])),
    decreases cks.len(),
{
    if cks.len() > 0 {
        lemma_remap_chunks_content(t, cs, cks.drop_last(), stov, dict, si);
        assert(forall|j: int| 0 <= j < cks.len() - 1 ==> cks.drop_last()[j] == cks[j]);
    }
}

/// If the whole source fold succeeds, so does every prefix of it.
pub proof fn lemma_sources_prefix_ok(
    s: MergeStateV,
    cs: u32,
    all: Seq<BootstrapV>,
    m: int,
    os: Seq<BlobOverride>,
    dict: Option<DictV>,
)
    requires
        0 <= m <= all.len(),
        spec_merge_sources(s, cs, all, os, dict) is Ok,
    ensures
        spec_merge_sources(s, cs, all.take(m), os, dict) is Ok,
{
    if spec_merge_sources(s, cs, all.take(m), os, dict) is Err {
        lemma_merge_sources_err_extend(s, cs, all, m, os, dict);
    }
}

/// If the whole entry fold succeeds, so does every prefix of it.
pub proof fn lemma_entries_prefix_ok(
    s: MergeStateV,
    cs: u32,
    es: Seq<EntryV>,
    m: int,
    stov: Seq<BlobDesc>,
    dict: Option<DictV>,
    si: usize,
)
    requires
        0 <= m <= es.len(),
        spec_merge_entries(s, cs, es, stov, dict, si) is Ok,
    ensures
        spec_merge_entries(s, cs, es.take(m), stov, dict, si) is Ok,
{
    if spec_merge_entries(s, cs, es.take(m), stov, dict, si) is Err {
        lemma_merge_entries_err_extend(s, cs, es, m, stov, dict, si);
    }
}

/// Merging an entry that does not touch path `p` leaves the lookup of `p`
/// unchanged.
pub proof fn lemma_merge_entry_preserve(
    s: MergeStateV,
    cs: u32,
    e: EntryV,
    stov: Seq<BlobDesc>,
    dict: Option<DictV>,
    si: usize,
    p: Seq<u8>,
)
    requires
        !crate::tree::entry_touches(e, p),
        spec_merge_entry(s, cs, e, stov, dict, si) is Ok,
    ensures
        crate::tree::spec_tree_lookup(
            spec_merge_entry(s, cs, e, stov, dict, si)->Ok_0.tree,
            p,
        ) == crate::tree::spec_tree_lookup(s.tree, p),
{
    match e.node {
        InodeV::File { chunks } => {
            let r = spec_remap_chunks(s.table, cs, chunks, stov, dict, si)->Ok_0;
            let e2 = EntryV { path: e.path, node: InodeV::File { chunks: r.1 } };
            assert(!crate::tree::entry_touches(e2, p));
            crate::tree::lemma_lookup_apply(s.tree, e2, p);
        },
        _ => {
            crate::tree::lemma_lookup_apply(s.tree, e, p);
        },
    }
}

/// Merging a non-whiteout entry defines its own path, up to chunk blob
/// relocation.
pub proof fn lemma_merge_entry_defines(
    s: MergeStateV,
    cs: u32,
    e: EntryV,
    stov: Seq<BlobDesc>,
    dict: Option<DictV>,
    si: usize,
)
    requires
        !(e.node is Whiteout),
        spec_merge_entry(s, cs, e, stov, dict, si) is Ok,
    ensures
        ({
            let l = crate::tree::spec_tree_lookup(
                spec_merge_entry(s, cs, e, stov, dict, si)->Ok_0.tree,
                e.path,
            );
            l matches Some(n) && node_content_eq(n, e.node)
        }),
{
    match e.node {
        InodeV::File { chunks } => {
            lemma_remap_chunks_content(s.table, cs, chunks, stov, dict, si);
            let r = spec_remap_chunks(s.table, cs, chunks, stov, dict, si)->Ok_0;
            let e2 = EntryV { path: e.path, node: InodeV::File { chunks: r.1 } };
            crate::tree::lemma_lookup_apply(s.tree, e2, e.path);
        },
        _ => {
            crate::tree::lemma_lookup_apply(s.tree, e, e.path);
        },
    }
}

/// An entry-fold suffix none of whose entries touches `p` leaves the lookup
/// of `p` where the prefix left it.
pub proof fn lemma_entries_suffix_preserve(
    s: MergeStateV,
    cs: u32,
    es: Seq<EntryV>,
    m: int,
    stov: Seq<BlobDesc>,
    dict: Option<DictV>,
    si: usize,
    p: Seq<u8>,
)
    requires
        0 <= m <= es.len(),
        spec_merge_entries(s, cs, es, stov, dict, si) is Ok,
        forall|k: int| m <= k < es.len() ==> !crate::tree::entry_touches(#[trigger] es[k], p),
    ensures
        crate::tree::spec_tree_lookup(
            spec_merge_entries(s, cs, es, stov, dict, si)->Ok_0.tree,
            p,
        ) == crate::tree::spec_tree_lookup(
            spec_merge_entries(s, cs, es.take(m), stov, dict, si)->Ok_0.tree,
            p,
        ),
    decreases es.len() - m,
{
    if m == es.len() {
        assert(es.take(m) =~= es);
    } else {
        let d = es.drop_last();
        assert(forall|j: int| 0 <= j < d.len() ==> d[j] == es[j]);
        lemma_entries_prefix_ok(s, cs, es, es.len() - 1, stov, dict, si);
        assert(es.take(es.len() - 1) =~= d);
        let s1 = spec_merge_entries(s, cs, d, stov, dict, si)->Ok_0;
        lemma_merge_entry_preserve(s1, cs, es.last(), stov, dict, si, p);
        assert(d.take(m) =~= es.take(m));
        lemma_entries_suffix_preserve(s, cs, d, m, stov, dict, si, p);
    }
}

/// A source none of whose entries touches `p` leaves the lookup of `p`
/// unchanged.
pub proof fn lemma_merge_source_preserve(
    s: MergeStateV,
    cs: u32,
    src: BootstrapV,
    os: Seq<BlobOverride>,
    dict: Option<DictV>,
    si: usize,
    p: Seq<u8>,
)
    requires
        spec_merge_source(s, cs, src, os, dict, si) is Ok,
        forall|k: int|
            0 <= k < src.tree.len() ==> !crate::tree::entry_touches(#[trigger] src.tree[k], p),
    ensures
        crate::tree::spec_tree_lookup(
            spec_merge_source(s, cs, src, os, dict, si)->Ok_0.tree,
            p,
        ) == crate::tree::spec_tree_lookup(s.tree, p),
{
    let stov = spec_source_table(src, os);
    let t1 = spec_merge_table(s.table, cs, stov, si)->Ok_0;
    let s_mid = MergeStateV { table: t1, tree: s.tree };
    lemma_entries_suffix_preserve(s_mid, cs, src.tree, 0, stov, dict, si, p);
    assert(src.tree.take(0) =~= Seq::<EntryV>::empty());
}

/// A source-fold suffix none of whose entries touches `p` leaves the lookup
/// of `p` where the prefix left it.
pub proof fn lemma_sources_suffix_preserve(
    s: MergeStateV,
    cs: u32,
    all: Seq<BootstrapV>,
    m: int,
    os: Seq<BlobOverride>,
    dict: Option<DictV>,
    p: Seq<u8>,
)
    requires
        0 <= m <= all.len(),
        spec_merge_sources(s, cs, all, os, dict) is Ok,
        forall|s2: int, k: int|
            m <= s2 < all.len() && 0 <= k < all[s2].tree.len() ==> !crate::tree::entry_touches(
                #[trigger] all[s2].tree[k],
                p,
            ),
    ensures
        crate::tree::spec_tree_lookup(spec_merge_sources(s, cs, all, os, dict)->Ok_0.tree, p)
            == crate::tree::spec_tree_lookup(
            spec_merge_sources(s, cs, all.take(m), os, dict)->Ok_0.tree,
            p,
        ),
    decreases all.len() - m,
{
    if m == all.len() {
        assert(all.take(m) =~= all);
    } else {
        let d = all.drop_last();
        assert(forall|j: int| 0 <= j < d.len() ==> d[j] == all[j]);
        lemma_sources_prefix_ok(s, cs, all, all.len() - 1, os, dict);
        assert(all.take(all.len() - 1) =~= d);
        let s1 = spec_merge_sources(s, cs, d, os, dict)->Ok_0;
        assert(all[all.len() - 1] == all.last());
        lemma_merge_source_preserve(
            s1,
            cs,
            all.last(),
            os,
            dict,
            (all.len() - 1) as usize,
            p,
        );
        assert(d.take(m) =~= all.take(m));
        lemma_sources_suffix_preserve(s, cs, d, m, os, dict, p);
    }
}

/// Merge override invariant (last writer wins): if input `si` holds a
/// non-whiteout entry at path `p`, no later entry of that input touches
/// `p`, and no later input touches `p` at all, then the merged tree holds
/// exactly that entry's inode at `p`, up to chunk blob relocation — never a
/// field-wise combination of earlier entries.
pub proof fn lemma_merge_last_writer_wins(
    all: Seq<BootstrapV>,
    os: Seq<BlobOverride>,
    dict: Option<DictV>,
    si: int,
    k: int,
    p: Seq<u8>,
)
    requires
        spec_merge(all, os, dict) is Ok,
        0 <= si < all.len(),
        0 <= k < all[si].tree.len(),
        all[si].tree[k].path == p,
        !(all[si].tree[k].node is Whiteout),
        forall|k2: int|
            k < k2 < all[si].tree.len() ==> !crate::tree::entry_touches(
                #[trigger] all[si].tree[k2],
                p,
            ),
        forall|s2: int, k2: int|
            si < s2 < all.len() && 0 <= k2 < all[s2].tree.len() ==> !crate::tree::entry_touches(
                #[trigger] all[s2].tree[k2],
                p,
            ),
    ensures
        ({
            let st = spec_merge(all, os, dict)->Ok_0;
            let l = crate::tree::spec_tree_lookup(st.tree, p);
            l matches Some(n) && node_content_eq(n, all[si].tree[k].node)
        }),
{
    let init = MergeStateV { table: Seq::empty(), tree: Seq::empty() };
    let cs = all[0].config.chunk_size;
    // The merge result is the source fold.
    assert(spec_merge_sources(init, cs, all, os, dict) == spec_merge(all, os, dict));
    // Decompose the fold at source `si`.
    lemma_sources_prefix_ok(init, cs, all, si + 1, os, dict);
    lemma_sources_prefix_ok(init, cs, all, si, os, dict);
    assert(all.take(si + 1).drop_last() =~= all.take(si));
    assert(all.take(si + 1).last() == all[si]);
    let s_b = spec_merge_sources(init, cs, all.take(si), os, dict)->Ok_0;
    let siu = (si + 1 - 1) as usize;
    assert(spec_merge_sources(init, cs, all.take(si + 1), os, dict) == spec_merge_source(
        s_b,
        cs,
        all[si],
        os,
        dict,
        siu,
    ));
    let s_a = spec_merge_sources(init, cs, all.take(si + 1), os, dict)->Ok_0;
    // Decompose source `si` at entry `k`.
    let src = all[si];
    let stov = spec_source_table(src, os);
    let t1 = spec_merge_table(s_b.table, cs, stov, siu)->Ok_0;
    let s_mid = MergeStateV { table: t1, tree: s_b.tree };
    assert(spec_merge_entries(s_mid, cs, src.tree, stov, dict, siu) is Ok);
    lemma_entries_prefix_ok(s_mid, cs, src.tree, k + 1, stov, dict, siu);
    lemma_entries_prefix_ok(s_mid, cs, src.tree, k, stov, dict, siu);
    assert(src.tree.take(k + 1).drop_last() =~= src.tree.take(k));
    assert(src.tree.take(k + 1).last() == src.tree[k]);
    let s_k = spec_merge_entries(s_mid, cs, src.tree.take(k), stov, dict, siu)->Ok_0;
    assert(spec_merge_entries(s_mid, cs, src.tree.take(k + 1), stov, dict, siu)
        == spec_merge_entry(s_k, cs, src.tree[k], stov, dict, siu));
    // Entry `k` defines `p`.
    lemma_merge_entry_defines(s_k, cs, src.tree[k], stov, dict, siu);
    // The rest of source `si` leaves `p` alone.
    lemma_entries_suffix_preserve(s_mid, cs, src.tree, k + 1, stov, dict, siu, p);
    // The later sources leave `p` alone.
    lemma_sources_suffix_preserve(init, cs, all, si + 1, os, dict, p);
}

/// Spec view of the merge input list: the parent (when given) stands first,
/// followed by the sources in input order.
pub open spec fn merge_input_views(parent: Option<Bootstrap>, sources: Seq<Bootstrap>) -> Seq<
    BootstrapV,
> {
    let srcs = sources.map_values(|b: Bootstrap| b@);
    match parent {
        Some(p) => seq![p@] + srcs,
        None => srcs,
    }
}

/// Spec view of an optional dictionary argument.
pub open spec fn dict_view(dict: Option<&ChunkDict>) -> Option<DictV> {
    match dict {
        Some(d) => Some(d@),
        None => None,
    }
}

/// Descriptor `d` with its override (if any) applied.
pub fn apply_override(os: &Vec<BlobOverride>, d: &BlobDesc) -> (r: BlobDesc)
    ensures
        r == spec_override_desc(os@, *d),
{
    let n = os.len();
    let mut k: usize = 0;
    while k < n
        invariant
            n == os@.len(),
            k <= n,
            spec_find_override(os@.take(k as int), d.blob_id) is None,
        decreases n - k,
    {
        if os[k].blob_id == d.blob_id {
            proof {
                lemma_find_override_hit(os@, k as int, d.blob_id);
            }
            let o = os[k];
            return BlobDesc {
                blob_id: match o.new_blob_id {
                    Some(x) => x,
                    None => d.blob_id,
                },
                compressed_size: match o.compressed_size {
                    Some(x) => x,
                    None => d.compressed_size,
                },
                uncompressed_size: match o.uncompressed_size {
                    Some(x) => x,
                    None => d.uncompressed_size,
                },
                chunk_count: d.chunk_count,
                chunk_size: d.chunk_size,
                features: d.features,
                toc_digest: match o.toc_digest {
                    Some(x) => Some(x),
                    None => d.toc_digest,
                },
                toc_size: match o.toc_size {
                    Some(x) => Some(x),
                    None => d.toc_size,
                },
                original_blob_id: match o.original_id {
                    Some(x) => Some(x),
                    None => d.original_blob_id,
                },
            };
        }
        proof {
            assert(os@.take(k + 1).drop_last() =~= os@.take(k as int));
        }
        k = k + 1;
    }
    proof {
        assert(os@.take(n as int) =~= os@);
    }
    *d
}


/// Remap one file's chunk list onto the unified table, inserting dictionary
/// or source blobs as needed.
#[verifier::loop_isolation(false)]
fn remap_file_chunks(
    table: &mut BlobTable,
    chunks: &Vec<Chunk>,
    stov: &Vec<BlobDesc>,
    dict: Option<&ChunkDict>,
    si: usize,
) -> (r: Result<Vec<Chunk>, MergeError>)
    requires
        dict matches Some(d) ==> d.wf(),
    ensures
        final(table).chunk_size == old(table).chunk_size,
        match r {
            Ok(out) => spec_remap_chunks(
                old(table)@,
                old(table).chunk_size,
                chunks@,
                stov@,
                dict_view(dict),
                si,
            ) == Ok::<(Seq<BlobDesc>, Seq<Chunk>), MergeError>((final(table)@, out@)),
            Err(e) => spec_remap_chunks(
                old(table)@,
                old(table).chunk_size,
                chunks@,
                stov@,
                dict_view(dict),
                si,
            ) == Err::<(Seq<BlobDesc>, Seq<Chunk>), MergeError>(e),
        },
{
    let ghost cs = table.chunk_size;
    let ghost t_e = table@;
    let ghost cksv = chunks@;
    let ghost dictv = dict_view(dict);
    let nc = chunks.len();
    let mut out: Vec<Chunk> = Vec::new();
    let mut m: usize = 0;
    while m < nc
        invariant
            m <= nc,
            table.chunk_size == cs,
            spec_remap_chunks(t_e, cs, cksv.take(m as int), stov@, dictv, si) == Ok::<
                (Seq<BlobDesc>, Seq<Chunk>),
                MergeError,
            >((table@, out@)),
        decreases nc - m,
    {
        proof {
            assert(cksv.take(m + 1).drop_last() =~= cksv.take(m as int));
            assert(cksv.take(m + 1).last() == cksv[m as int]);
        }
        let ghost t_m = table@;
        let ghost out_m = out@;
        let c = chunks[m];
        if c.blob_index >= stov.len() {
            let e = MergeError::DanglingBlobRef { source_index: si, blob_index: c.blob_index };
            proof {
                lemma_chunk_err_bubble(t_e, cs, cksv, m as int, stov@, dictv, si, t_m, out_m, e);
            }
            return Err(e);
        }
        let hit = match dict {
            Some(dc) => dc.lookup(c.digest),
            None => None,
        };
        let bd = match hit {
            Some(en) => {
                proof {
                    crate::dict::lemma_dict_find_props(dictv->Some_0.entries, c.digest);
                }
                match dict {
                    Some(dc) => dc.blobs[en.blob_index],
                    None => stov[c.blob_index],
                }
            },
            None => stov[c.blob_index],
        };
        match table.append_or_find(bd) {
            Ok(ji) => {
                let c2 = match hit {
                    Some(en) => Chunk {
                        blob_index: ji,
                        offset: en.offset,
                        compressed_size: en.compressed_size,
                        ..c
                    },
                    None => Chunk { blob_index: ji, ..c },
                };
                out.push(c2);
                proof {
                    assert(spec_remap_chunk(t_m, cs, cksv[m as int], stov@, dictv, si) == Ok::<
                        (Seq<BlobDesc>, Chunk),
                        MergeError,
                    >((table@, c2)));
                    assert(out@ =~= out_m.push(c2));
                    assert(spec_remap_chunks(t_e, cs, cksv.take(m + 1), stov@, dictv, si) == Ok::<
                        (Seq<BlobDesc>, Seq<Chunk>),
                        MergeError,
                    >((table@, out@)));
                }
            },
            Err(_) => {
                let e = MergeError::ChunkSizeConflict { source_index: si, blob_id: bd.blob_id };
                proof {
                    assert(spec_remap_chunk(t_m, cs, cksv[m as int], stov@, dictv, si) == Err::<
                        (Seq<BlobDesc>, Chunk),
                        MergeError,
                    >(e));
                    lemma_chunk_err_bubble(t_e, cs, cksv, m as int, stov@, dictv, si, t_m, out_m, e);
                }
                return Err(e);
            },
        }
        m = m + 1;
    }
    proof {
        assert(cksv.take(nc as int) =~= cksv);
    }
    Ok(out)
}

/// Merge one source bootstrap into the accumulating table and tree: fold
/// its (overridden) blob table in first, then overlay its entries in order.
#[verifier::loop_isolation(false)]
fn merge_one_source(
    table: &mut BlobTable,
    tree: &mut Tree,
    src: &Bootstrap,
    overrides: &Vec<BlobOverride>,
    dict: Option<&ChunkDict>,
    si: usize,
) -> (r: Result<(), MergeError>)
    requires
        dict matches Some(d) ==> d.wf(),
    ensures
        final(table).chunk_size == old(table).chunk_size,
        match r {
            Ok(u) => spec_merge_source(
                MergeStateV { table: old(table)@, tree: old(tree)@ },
                old(table).chunk_size,
                src@,
                overrides@,
                dict_view(dict),
                si,
            ) == Ok::<MergeStateV, MergeError>(
                MergeStateV { table: final(table)@, tree: final(tree)@ },
            ),
            Err(e) => spec_merge_source(
                MergeStateV { table: old(table)@, tree: old(tree)@ },
                old(table).chunk_size,
                src@,
                overrides@,
                dict_view(dict),
                si,
            ) == Err::<MergeStateV, MergeError>(e),
        },
{
    let ghost cs = table.chunk_size;
    let ghost s_start = MergeStateV { table: table@, tree: tree@ };
    let ghost srcv = src@;
    let ghost dictv = dict_view(dict);
    let ghost stovv = spec_source_table(srcv, overrides@);
    // Apply overrides to the source table.
    let src_nb = src.table.entries.len();
    let mut stov: Vec<BlobDesc> = Vec::new();
    let mut k: usize = 0;
    while k < src_nb
        invariant
            k <= src_nb,
            stov@ == stovv.take(k as int),
        decreases src_nb - k,
    {
        let d = apply_override(overrides, &src.table.entries[k]);
        stov.push(d);
        proof {
            assert(stov@ =~= stovv.take(k + 1));
        }
        k = k + 1;
    }
    proof {
        assert(stov@ =~= stovv);
    }
    // Fold the overridden table into the unified one.
    let mut k: usize = 0;
    while k < src_nb
        invariant
            k <= src_nb,
            table.chunk_size == cs,
            spec_merge_table(s_start.table, cs, stovv.take(k as int), si) == Ok::<
                Seq<BlobDesc>,
                MergeError,
            >(table@),
        decreases src_nb - k,
    {
        proof {
            assert(stovv.take(k + 1).drop_last() =~= stovv.take(k as int));
            assert(stovv.take(k + 1).last() == stovv[k as int]);
        }
        let d = stov[k];
        match table.append_or_find(d) {
            Ok(_) => {},
            Err(_) => {
                let e = MergeError::ChunkSizeConflict { source_index: si, blob_id: d.blob_id };
                proof {
                    assert(spec_merge_table(s_start.table, cs, stovv.take(k + 1), si) == Err::<
                        Seq<BlobDesc>,
                        MergeError,
                    >(e));
                    lemma_merge_table_err_extend(s_start.table, cs, stovv, k + 1, si);
                }
                return Err(e);
            },
        }
        k = k + 1;
    }
    proof {
        assert(stovv.take(src_nb as int) =~= stovv);
    }
    let ghost s_entries = MergeStateV { table: table@, tree: tree@ };
    // Overlay the source's entries in order.
    let src_ne = src.tree.entries.len();
    let mut j: usize = 0;
    while j < src_ne
        invariant
            j <= src_ne,
            table.chunk_size == cs,
            spec_merge_entries(s_entries, cs, srcv.tree.take(j as int), stovv, dictv, si) == Ok::<
                MergeStateV,
                MergeError,
            >(MergeStateV { table: table@, tree: tree@ }),
        decreases src_ne - j,
    {
        let ghost s_j = MergeStateV { table: table@, tree: tree@ };
        proof {
            assert(srcv.tree.take(j + 1).drop_last() =~= srcv.tree.take(j as int));
            assert(srcv.tree.take(j + 1).last() == srcv.tree[j as int]);
        }
        let path = clone_bytes(&src.tree.entries[j].path);
        match &src.tree.entries[j].node {
            Inode::Whiteout => {
                tree.apply_entry(TreeEntry { path, node: Inode::Whiteout });
            },
            Inode::Directory => {
                tree.apply_entry(TreeEntry { path, node: Inode::Directory });
            },
            Inode::File { chunks } => {
                proof {
                    assert(srcv.tree[j as int].node == (InodeV::File { chunks: chunks@ }));
                }
                match remap_file_chunks(table, chunks, &stov, dict, si) {
                    Ok(out) => {
                        tree.apply_entry(TreeEntry { path, node: Inode::File { chunks: out } });
                    },
                    Err(e) => {
                        proof {
                            assert(spec_merge_entry(s_j, cs, srcv.tree[j as int], stovv, dictv, si)
                                == Err::<MergeStateV, MergeError>(e));
                            lemma_entry_err_bubble(
                                s_entries, cs, srcv.tree, j as int, stovv, dictv, si, s_j, e,
                            );
                        }
                        return Err(e);
                    },
                }
            },
        }
        proof {
            assert(spec_merge_entries(s_entries, cs, srcv.tree.take(j + 1), stovv, dictv, si)
                == Ok::<MergeStateV, MergeError>(MergeStateV { table: table@, tree: tree@ }));
        }
        j = j + 1;
    }
    proof {
        assert(srcv.tree.take(src_ne as int) =~= srcv.tree);
    }
    Ok(())
}

/// Merge the given source bootstraps, in order, optionally atop `parent`:
/// later sources override earlier ones path by path, whiteouts delete the
/// shadowed subtree, every chunk reference is rewritten to the unified blob
/// table, overrides are applied to source descriptors before insertion, and
/// chunks whose digest the dictionary knows are redirected to their
/// canonical blob.  On any failure no output exists at all; the result is
/// exactly what the fold `spec_merge` says.
#[verifier::loop_isolation(false)]
pub fn merge(
    parent: Option<Bootstrap>,
    sources: Vec<Bootstrap>,
    overrides: &Vec<BlobOverride>,
    dict: Option<&ChunkDict>,
) -> (r: Result<Bootstrap, MergeError>)
    requires
        dict matches Some(d) ==> d.wf(),
    ensures
        ({
            let inputs = merge_input_views(parent, sources@);
            match r {
                Ok(b) => {
                    &&& spec_merge(inputs, overrides@, dict_view(dict)) == Ok::<
                        MergeStateV,
                        MergeError,
                    >(MergeStateV { table: b@.table, tree: b@.tree })
                    &&& inputs.len() > 0
                    &&& b.config == inputs[0].config
                    &&& b.table.chunk_size == b.config.chunk_size
                },
                Err(e) => spec_merge(inputs, overrides@, dict_view(dict)) == Err::<
                    MergeStateV,
                    MergeError,
                >(e),
            }
        }),
{
    let ghost inputs = merge_input_views(parent, sources@);
    let ghost dictv = dict_view(dict);
    let mut all: Vec<Bootstrap> = Vec::new();
    match parent {
        Some(p) => {
            all.push(p);
        },
        None => {},
    }
    let mut rest = sources;
    while rest.len() > 0
        invariant
            all@.map_values(|b: Bootstrap| b@) + rest@.map_values(|b: Bootstrap| b@) =~= inputs,
        decreases rest@.len(),
    {
        let b = rest.remove(0);
        all.push(b);
        proof {
            assert(all@.map_values(|b: Bootstrap| b@) + rest@.map_values(|b: Bootstrap| b@)
                =~= inputs);
        }
    }
    let ghost allv = all@.map_values(|b: Bootstrap| b@);
    proof {
        assert(allv =~= inputs);
    }
    let n_all = all.len();
    if n_all == 0 {
        return Err(MergeError::NoSource);
    }
    let cfg = all[0].config;
    let cs = cfg.chunk_size;
    let mut i: usize = 1;
    proof {
        assert(spec_first_config_mismatch(Seq::<BootstrapV>::empty()) is None);
        assert(allv.take(1).drop_last() =~= Seq::<BootstrapV>::empty());
        assert(allv.take(1).last() == allv[0]);
        assert(allv.take(1)[0] == allv[0]);
        assert(spec_first_config_mismatch(allv.take(1)) is None);
    }
    while i < n_all
        invariant
            1 <= i <= n_all,
            spec_first_config_mismatch(allv.take(i as int)) is None,
        decreases n_all - i,
    {
        if all[i].config != cfg {
            proof {
                lemma_config_mismatch_hit(allv, i as int);
                assert(spec_merge(inputs, overrides@, dict_view(dict)) == Err::<
                    MergeStateV,
                    MergeError,
                >(MergeError::IncompatibleConfig { source_index: i }));
            }
            return Err(MergeError::IncompatibleConfig { source_index: i });
        }
        proof {
            assert(allv.take(i + 1).drop_last() =~= allv.take(i as int));
            assert(allv.take(i + 1).last() == allv[i as int]);
            assert(allv.take(i + 1)[0] == allv[0]);
            assert(spec_first_config_mismatch(allv.take(i + 1)) is None);
        }
        i = i + 1;
    }
    proof {
        assert(allv.take(n_all as int) =~= allv);
    }
    let ghost init = MergeStateV { table: Seq::empty(), tree: Seq::empty() };
    let mut table = BlobTable::new(cs);
    let mut tree = Tree::new();
    proof {
        assert(spec_merge_sources(init, cs, allv.take(0), overrides@, dictv) == Ok::<
            MergeStateV,
            MergeError,
        >(init));
        assert(MergeStateV { table: table@, tree: tree@ } == init);
    }
    let mut si: usize = 0;
    while si < n_all
        invariant
            si <= n_all,
            table.chunk_size == cs,
            spec_merge_sources(init, cs, allv.take(si as int), overrides@, dictv) == Ok::<
                MergeStateV,
                MergeError,
            >(MergeStateV { table: table@, tree: tree@ }),
        decreases n_all - si,
    {
        let ghost s_start = MergeStateV { table: table@, tree: tree@ };
        proof {
            assert(allv.take(si + 1).drop_last() =~= allv.take(si as int));
            assert(allv.take(si + 1).last() == allv[si as int]);
        }
        match merge_one_source(&mut table, &mut tree, &all[si], overrides, dict, si) {
            Ok(_) => {
                proof {
                    assert(spec_merge_sources(init, cs, allv.take(si + 1), overrides@, dictv)
                        == Ok::<MergeStateV, MergeError>(
                        MergeStateV { table: table@, tree: tree@ },
                    ));
                }
            },
            Err(e) => {
                proof {
                    lemma_source_err_bubble(init, cs, allv, si, overrides@, dictv, s_start, e);
                }
                return Err(e);
            },
        }
        si = si + 1;
    }
    proof {
        assert(allv.take(n_all as int) =~= allv);
    }
    Ok(Bootstrap { config: cfg, tree, table })
}

} // verus!
