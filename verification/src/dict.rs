//! Chunk dictionary: a read-only lookup from chunk digest to the canonical
//! blob location already storing that content.  Produced by the
//! deduplication pipeline and consumed by merging and compaction to avoid
//! re-storing known chunks.

use vstd::prelude::*;
use crate::model::{BlobDesc, unique_ids};

verus! {

/// One dictionary entry: where the chunk with `digest` canonically lives.
#[derive(Clone, Copy, Debug, PartialEq, Eq)]
pub struct DictEntry {
    pub digest: u64,
    /// Index of the owning blob in the dictionary's own blob list.
    pub blob_index: usize,
    /// Byte offset of the chunk within that blob.
    pub offset: u64,
    pub uncompressed_size: u32,
    pub compressed_size: u32,
}

/// A chunk dictionary: entries keyed by digest plus the descriptors of the
/// blobs they point into.
pub struct ChunkDict {
    pub entries: Vec<DictEntry>,
    pub blobs: Vec<BlobDesc>,
}

/// Spec-level form of a chunk dictionary.
pub struct DictV {
    pub entries: Seq<DictEntry>,
    pub blobs: Seq<BlobDesc>,
}

impl View for ChunkDict {
    type V = DictV;

    open spec fn view(&self) -> DictV {
        DictV { entries: self.entries@, blobs: self.blobs@ }
    }
}

/// No two dictionary entries share a digest.
pub open spec fn unique_digests(es: Seq<DictEntry>) -> bool {
    forall|i: int, j: int|
        0 <= i < j < es.len() ==> #[trigger] es[i].digest != #[trigger] es[j].digest
}

/// Well-formedness of a dictionary: digests unique, blob ids unique, every
/// entry pointing at a present blob.
pub open spec fn dict_wf(d: DictV) -> bool {
    &&& unique_digests(d.entries)
    &&& unique_ids(d.blobs)
    &&& forall|i: int|
        0 <= i < d.entries.len() ==> (#[trigger] d.entries[i]).blob_index < d.blobs.len()
}

/// Position of the first entry with digest `g`, if any.
pub open spec fn spec_dict_find(es: Seq<DictEntry>, g: u64) -> Option<int>
    decreases es.len(),
{
    if es.len() == 0 {
        None
    } else {
        match spec_dict_find(es.drop_last(), g) {
            Some(i) => Some(i),
            None => if es.last().digest == g {
                Some(es.len() - 1)
            } else {
                None
            },
        }
    }
}

/// The canonical location of the chunk with digest `g`, if known.
pub open spec fn spec_dict_lookup(d: DictV, g: u64) -> Option<DictEntry> {
    match spec_dict_find(d.entries, g) {
        Some(i) => Some(d.entries[i]),
        None => None,
    }
}

/// What `spec_dict_find` returns: the first matching position, or proof that
/// none matches.
pub proof fn lemma_dict_find_props(es: Seq<DictEntry>, g: u64)
    ensures
        match spec_dict_find(es, g) {
            Some(i) => 0 <= i < es.len() && es[i].digest == g && (forall|j: int|
                0 <= j < i ==> #[trigger] es[j].digest != g),
            None => forall|j: int| 0 <= j < es.len() ==> #[trigger] es[j].digest != g,
        },
    decreases es.len(),
{
    if es.len() > 0 {
        let d = es.drop_last();
        lemma_dict_find_props(d, g);
        assert(forall|j: int| 0 <= j < d.len() ==> d[j] == es[j]);
    }
}

/// Once a prefix of `es` contains `g`, the whole sequence finds it at the
/// same position.
pub proof fn lemma_dict_find_extend(es: Seq<DictEntry>, k: int, g: u64)
    requires
        0 <= k <= es.len(),
    ensures
        spec_dict_find(es.take(k), g) matches Some(i) ==> spec_dict_find(es, g) == Some(i),
    decreases es.len() - k,
{
    if k < es.len() {
        assert(es.take(k + 1).drop_last() =~= es.take(k));
        lemma_dict_find_extend(es, k + 1, g);
    } else {
        assert(es.take(k) =~= es);
    }
}

/// If no prefix entry matches and position `k` does, the find is `k`.
pub proof fn lemma_dict_find_hit(es: Seq<DictEntry>, k: int, g: u64)
    requires
        0 <= k < es.len(),
        spec_dict_find(es.take(k), g) is None,
        es[k].digest == g,
    ensures
        spec_dict_find(es, g) == Some(k),
{
    assert(es.take(k + 1).drop_last() =~= es.take(k));
    assert(es.take(k + 1).last() == es[k]);
    assert(spec_dict_find(es.take(k + 1), g) == Some(k));
    lemma_dict_find_extend(es, k + 1, g);
}

impl ChunkDict {
    /// Well-formedness of the dictionary.
    pub open spec fn wf(&self) -> bool {
        dict_wf(self@)
    }

    /// An empty dictionary.
    pub fn new() -> (r: ChunkDict)
        ensures
            r@.entries =~= Seq::<DictEntry>::empty(),
            r@.blobs =~= Seq::<BlobDesc>::empty(),
            r.wf(),
    {
        ChunkDict { entries: Vec::new(), blobs: Vec::new() }
    }

    /// Runtime check of `wf`, for callers that received a dictionary from
    /// an untrusted loader.
    #[verifier::loop_isolation(false)]
    pub fn check_wf(&self) -> (r: bool)
        ensures
            r == self.wf(),
    {
        let ne = self.entries.len();
        let nb = self.blobs.len();
        let mut i: usize = 0;
        while i < ne
            invariant
                i <= ne,
                forall|a: int, b: int|
                    0 <= a < b < ne && a < i ==> #[trigger] self@.entries[a].digest
                        != #[trigger] self@.entries[b].digest,
                forall|a: int| 0 <= a < i ==> (#[trigger] self@.entries[a]).blob_index < nb,
            decreases ne - i,
        {
            if self.entries[i].blob_index >= nb {
                return false;
            }
            let mut j: usize = i + 1;
            while j < ne
                invariant
                    i < j <= ne,
                    forall|b: int| i < b < j ==> #[trigger] self@.entries[b].digest
                        != self@.entries[i as int].digest,
                decreases ne - j,
            {
                if self.entries[j].digest == self.entries[i].digest {
                    proof {
                        assert(!unique_digests(self@.entries));
                    }
                    return false;
                }
                j = j + 1;
            }
            i = i + 1;
        }
        let mut i: usize = 0;
        while i < nb
            invariant
                i <= nb,
                forall|a: int, b: int|
                    0 <= a < b < nb && a < i ==> #[trigger] self@.blobs[a].blob_id
                        != #[trigger] self@.blobs[b].blob_id,
            decreases nb - i,
        {
            let mut j: usize = i + 1;
            while j < nb
                invariant
                    i < j <= nb,
                    forall|b: int| i < b < j ==> #[trigger] self@.blobs[b].blob_id
                        != self@.blobs[i as int].blob_id,
                decreases nb - j,
            {
                if self.blobs[j].blob_id == self.blobs[i].blob_id {
                    proof {
                        assert(!unique_ids(self@.blobs));
                    }
                    return false;
                }
                j = j + 1;
            }
            i = i + 1;
        }
        true
    }

    /// Canonical location of the chunk with digest `g`, if the dictionary
    /// knows it.
    pub fn lookup(&self, g: u64) -> (r: Option<DictEntry>)
        ensures
            r == spec_dict_lookup(self@, g),
    {
        let n = self.entries.len();
        let mut k: usize = 0;
        while k < n
            invariant
                n == self@.entries.len(),
                k <= n,
                spec_dict_find(self@.entries.take(k as int), g) is None,
            decreases n - k,
        {
            if self.entries[k].digest == g {
                proof {
                    lemma_dict_find_hit(self@.entries, k as int, g);
                }
                return Some(self.entries[k]);
            }
            proof {
                assert(self@.entries.take(k + 1).drop_last() =~= self@.entries.take(k as int));
            }
            k = k + 1;
        }
        proof {
            assert(self@.entries.take(n as int) =~= self@.entries);
        }
        None
    }
}

} // verus!
