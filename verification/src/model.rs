//! Shared chunk/blob data model: chunk descriptors, blob descriptors, and the
//! insertion-ordered blob table that gives every chunk its `blob_index`.

use vstd::prelude::*;

verus! {

/// Metadata format version of a bootstrap.
#[derive(Clone, Copy, Debug, PartialEq, Eq, Structural)]
pub enum FsVersion {
    V5,
    V6,
}

/// Compression algorithm applied to chunk data inside blobs.
#[derive(Clone, Copy, Debug, PartialEq, Eq, Structural)]
pub enum Compressor {
    Uncompressed,
    Lz4Block,
    Gzip,
    Zstd,
}

/// Digest algorithm used for chunk and blob identifiers.
#[derive(Clone, Copy, Debug, PartialEq, Eq, Structural)]
pub enum Digester {
    Blake3,
    Sha256,
}

/// Format configuration a bootstrap was built with.  Every bootstrap taking
/// part in one merge must declare the same configuration.
#[derive(Clone, Copy, Debug, PartialEq, Eq, Structural)]
pub struct FormatConfig {
    pub version: FsVersion,
    pub compressor: Compressor,
    pub digester: Digester,
    /// Nominal chunk size; every blob of the bootstrap's table must agree.
    pub chunk_size: u32,
    pub explicit_uidgid: bool,
    pub tarfs_mode: bool,
}

/// Blob feature flag: blob metadata is stored in a separate blob.
pub const BLOB_FEATURE_SEPARATE_META: u32 = 0x1;
/// Blob feature flag: chunks are batch-packed.
pub const BLOB_FEATURE_BATCH: u32 = 0x2;
/// Blob feature flag: blob data is encrypted.
pub const BLOB_FEATURE_ENCRYPTED: u32 = 0x4;
/// Blob feature flag: the blob carries a table of contents.
pub const BLOB_FEATURE_HAS_TOC: u32 = 0x8;
/// Blob feature flag: chunk descriptors use the extended format.
pub const BLOB_FEATURE_CHUNK_INFO_V2: u32 = 0x10;
/// Blob feature flag: the blob belongs to a generated chunk dictionary.
pub const BLOB_FEATURE_CHUNKDICT: u32 = 0x20;

/// One content-addressed slice of file data, the unit of deduplication.
///
/// `blob_index` is a position in the blob table attached to the same
/// bootstrap; keeping it valid is the central invariant of this crate.
#[derive(Clone, Copy, Debug, PartialEq, Eq)]
pub struct Chunk {
    /// Content digest of the uncompressed chunk data.
    pub digest: u64,
    /// Offset of this chunk within its owning file.
    pub file_offset: u64,
    pub uncompressed_size: u32,
    pub compressed_size: u32,
    /// Byte offset of the (compressed) chunk data within its blob.
    pub offset: u64,
    /// Whether the stored bytes are compressed.
    pub compressed: bool,
    /// Index of the owning blob in the bootstrap's blob table.
    pub blob_index: usize,
    /// Optional chunk-format version tag.
    pub format_version: Option<u32>,
}

/// Descriptor of one physical or logical data blob.
#[derive(Clone, Copy, Debug, PartialEq, Eq)]
pub struct BlobDesc {
    /// Stable content identifier of the blob; unique within a table.
    pub blob_id: u64,
    pub compressed_size: u64,
    pub uncompressed_size: u64,
    /// Number of chunks stored in the blob.
    pub chunk_count: u64,
    /// Nominal chunk size the blob was built with.
    pub chunk_size: u32,
    /// Bitwise union of the `BLOB_FEATURE_*` flags.
    pub features: u32,
    pub toc_digest: Option<u64>,
    pub toc_size: Option<u64>,
    /// Identifier the blob had before it was rewritten by compaction, if any.
    pub original_blob_id: Option<u64>,
}

/// Error of the blob-table model itself.
#[derive(Clone, Copy, Debug, PartialEq, Eq)]
pub enum ModelError {
    /// A descriptor declared a chunk size other than the table's fixed one.
    ChunkSizeConflict { blob_id: u64, expected: u32, found: u32 },
}

/// Insertion-ordered sequence of blob descriptors, scoped to one bootstrap.
/// Table order defines the `blob_index` used by chunks.
pub struct BlobTable {
    /// The chunk size every inserted descriptor must declare.
    pub chunk_size: u32,
    pub entries: Vec<BlobDesc>,
}

impl View for BlobTable {
    type V = Seq<BlobDesc>;

    open spec fn view(&self) -> Seq<BlobDesc> {
        self.entries@
    }
}

/// No two descriptors of `t` share a blob id.
pub open spec fn unique_ids(t: Seq<BlobDesc>) -> bool {
    forall|i: int, j: int|
        0 <= i < j < t.len() ==> #[trigger] t[i].blob_id != #[trigger] t[j].blob_id
}

/// Every descriptor of `t` declares chunk size `cs`.
pub open spec fn homogeneous(t: Seq<BlobDesc>, cs: u32) -> bool {
    forall|i: int| 0 <= i < t.len() ==> #[trigger] t[i].chunk_size == cs
}

/// Position of the first descriptor of `t` whose id is `id`, if any.
pub open spec fn spec_find_blob(t: Seq<BlobDesc>, id: u64) -> Option<int>
    decreases t.len(),
{
    if t.len() == 0 {
        None
    } else {
        match spec_find_blob(t.drop_last(), id) {
            Some(i) => Some(i),
            None => if t.last().blob_id == id {
                Some(t.len() - 1)
            } else {
                None
            },
        }
    }
}

/// What `spec_find_blob` returns: the first matching position, or proof that
/// none matches.
pub proof fn lemma_find_blob_props(t: Seq<BlobDesc>, id: u64)
    ensures
        match spec_find_blob(t, id) {
            Some(i) => 0 <= i < t.len() && t[i].blob_id == id && (forall|j: int|
                0 <= j < i ==> #[trigger] t[j].blob_id != id),
            None => forall|j: int| 0 <= j < t.len() ==> #[trigger] t[j].blob_id != id,
        },
    decreases t.len(),
{
    if t.len() > 0 {
        let p = t.drop_last();
        lemma_find_blob_props(p, id);
        assert(forall|j: int| 0 <= j < p.len() ==> p[j] == t[j]);
    }
}

/// In a table with unique ids, finding the id of position `i` yields `i`.
pub proof fn lemma_find_blob_unique(t: Seq<BlobDesc>, i: int)
    requires
        unique_ids(t),
        0 <= i < t.len(),
    ensures
        spec_find_blob(t, t[i].blob_id) == Some(i),
{
    lemma_find_blob_props(t, t[i].blob_id);
    match spec_find_blob(t, t[i].blob_id) {
        Some(j) => {
            if j < i {
                assert(t[j].blob_id != t[i].blob_id);
            }
        },
        None => {
            assert(t[i].blob_id == t[i].blob_id);
        },
    }
}

/// Once a prefix of `t` contains `id`, the whole sequence finds it at the
/// same position.
pub proof fn lemma_find_blob_extend(t: Seq<BlobDesc>, k: int, id: u64)
    requires
        0 <= k <= t.len(),
    ensures
        spec_find_blob(t.take(k), id) matches Some(i) ==> spec_find_blob(t, id) == Some(i),
    decreases t.len() - k,
{
    if k < t.len() {
        assert(t.take(k + 1).drop_last() =~= t.take(k));
        lemma_find_blob_extend(t, k + 1, id);
    } else {
        assert(t.take(k) =~= t);
    }
}

/// If no prefix entry matches and position `k` does, the find is `k`.
pub proof fn lemma_find_blob_hit(t: Seq<BlobDesc>, k: int, id: u64)
    requires
        0 <= k < t.len(),
        spec_find_blob(t.take(k), id) is None,
        t[k].blob_id == id,
    ensures
        spec_find_blob(t, id) == Some(k),
{
    assert(t.take(k + 1).drop_last() =~= t.take(k));
    assert(t.take(k + 1).last() == t[k]);
    assert(spec_find_blob(t.take(k + 1), id) == Some(k));
    lemma_find_blob_extend(t, k + 1, id);
}

/// Insert-or-find of `d` in table contents `t` with fixed chunk size `cs`:
/// a descriptor whose id is already present merges with the existing entry;
/// a new descriptor must declare `cs` or the insertion is refused (`None`).
pub open spec fn spec_add_blob(t: Seq<BlobDesc>, cs: u32, d: BlobDesc) -> Option<
    (Seq<BlobDesc>, int),
> {
    match spec_find_blob(t, d.blob_id) {
        Some(i) => Some((t, i)),
        None => if d.chunk_size == cs {
            Some((t.push(d), t.len() as int))
        } else {
            None
        },
    }
}

/// Inserting preserves the table's invariants, only appends, and yields a
/// valid index carrying the inserted id.
pub proof fn lemma_add_blob_props(t: Seq<BlobDesc>, cs: u32, d: BlobDesc)
    requires
        spec_add_blob(t, cs, d) is Some,
    ensures
        ({
            let (t2, i) = spec_add_blob(t, cs, d)->Some_0;
            &&& t.len() <= t2.len()
            &&& t2.take(t.len() as int) == t
            &&& 0 <= i < t2.len()
            &&& t2[i].blob_id == d.blob_id
            &&& (unique_ids(t) ==> unique_ids(t2))
            &&& (homogeneous(t, cs) ==> homogeneous(t2, cs))
        }),
{
    lemma_find_blob_props(t, d.blob_id);
    let (t2, i) = spec_add_blob(t, cs, d)->Some_0;
    assert(t2.take(t.len() as int) =~= t);
}

impl BlobTable {
    /// A table that satisfies its own invariants.
    pub open spec fn wf(&self) -> bool {
        unique_ids(self@) && homogeneous(self@, self.chunk_size)
    }

    /// An empty table fixed to chunk size `cs`.
    pub fn new(cs: u32) -> (r: BlobTable)
        ensures
            r@ =~= Seq::<BlobDesc>::empty(),
            r.chunk_size == cs,
            r.wf(),
    {
        BlobTable { chunk_size: cs, entries: Vec::new() }
    }

    /// Number of descriptors in the table.
    pub fn len(&self) -> (r: usize)
        ensures
            r == self@.len(),
    {
        self.entries.len()
    }

    /// Descriptor lookup by index.
    pub fn get(&self, i: usize) -> (r: &BlobDesc)
        requires
            i < self@.len(),
        ensures
            *r == self@[i as int],
    {
        &self.entries[i]
    }

    /// Position of the first descriptor with id `id`, if any.
    pub fn find(&self, id: u64) -> (r: Option<usize>)
        ensures
            match r {
                Some(i) => spec_find_blob(self@, id) == Some(i as int),
                None => spec_find_blob(self@, id) is None,
            },
    {
        let n = self.entries.len();
        let mut k: usize = 0;
        while k < n
            invariant
                n == self@.len(),
                0 <= k <= n,
                spec_find_blob(self@.take(k as int), id) is None,
            decreases n - k,
        {
            if self.entries[k].blob_id == id {
                proof {
                    lemma_find_blob_hit(self@, k as int, id);
                }
                return Some(k);
            }
            proof {
                assert(self@.take(k + 1).drop_last() =~= self@.take(k as int));
            }
            k = k + 1;
        }
        proof {
            assert(self@.take(n as int) =~= self@);
        }
        None
    }

    /// Insert-or-find by identity: appending a descriptor whose id is already
    /// present returns the existing index instead of inserting; a descriptor
    /// declaring a chunk size other than the table's fixed one is refused.
    pub fn append_or_find(&mut self, d: BlobDesc) -> (r: Result<usize, ModelError>)
        ensures
            final(self).chunk_size == old(self).chunk_size,
            match r {
                Ok(i) => spec_add_blob(old(self)@, old(self).chunk_size, d) == Some(
                    (final(self)@, i as int),
                ),
                Err(e) => {
                    &&& spec_add_blob(old(self)@, old(self).chunk_size, d) is None
                    &&& final(self)@ == old(self)@
                    &&& e == (ModelError::ChunkSizeConflict {
                        blob_id: d.blob_id,
                        expected: old(self).chunk_size,
                        found: d.chunk_size,
                    })
                },
            },
    {
        match self.find(d.blob_id) {
            Some(i) => Ok(i),
            None => {
                if d.chunk_size == self.chunk_size {
                    let i = self.entries.len();
                    self.entries.push(d);
                    Ok(i)
                } else {
                    Err(ModelError::ChunkSizeConflict {
                        blob_id: d.blob_id,
                        expected: self.chunk_size,
                        found: d.chunk_size,
                    })
                }
            },
        }
    }
}

impl Chunk {
    /// In-place remap of the chunk's blob reference and intra-blob offset.
    pub fn set_location(&mut self, blob_index: usize, offset: u64)
        ensures
            *final(self) == (Chunk { blob_index, offset, ..*old(self) }),
    {
        self.blob_index = blob_index;
        self.offset = offset;
    }
}

} // verus!
