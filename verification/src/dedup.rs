//! Cross-image chunk deduplication: extract per-chunk and per-blob records
//! from a corpus of bootstraps into a record store, cluster images by
//! fractional chunk-digest overlap with recency-weighted scoring, and emit
//! a chunk dictionary plus the images that clustered nowhere (the noise
//! points).

use vstd::prelude::*;
use crate::model::{BlobDesc, Chunk, FormatConfig, spec_find_blob};
use crate::tree::{bytes_eq, EntryV, Inode, InodeV};
use crate::bootstrap::{Bootstrap, BootstrapV, node_chunks_valid};
use crate::dict::{ChunkDict, DictEntry, DictV, dict_wf, spec_dict_find, unique_digests};

verus! {

/// One persisted chunk record: the digest, sizes and location of one live
/// chunk of one scanned image.
#[derive(Clone, Copy, Debug, PartialEq, Eq)]
pub struct ChunkRecord {
    pub digest: u64,
    pub uncompressed_size: u32,
    pub compressed_size: u32,
    /// Byte offset of the chunk within its owning blob.
    pub offset: u64,
    /// Id of the owning blob.
    pub blob_id: u64,
}

/// All records of one scanned image: its name and tag, the scan epoch used
/// for recency weighting, and one record per live chunk.
pub struct ImageEntry {
    pub name: Vec<u8>,
    pub tag: Vec<u8>,
    pub epoch: u64,
    pub chunks: Vec<ChunkRecord>,
}

/// Spec-level form of an image's records.
pub struct ImageV {
    pub name: Seq<u8>,
    pub tag: Seq<u8>,
    pub epoch: u64,
    pub chunks: Seq<ChunkRecord>,
}

impl View for ImageEntry {
    type V = ImageV;

    open spec fn view(&self) -> ImageV {
        ImageV { name: self.name@, tag: self.tag@, epoch: self.epoch, chunks: self.chunks@ }
    }
}

/// The accumulated record store: rows are appended per scanned image and
/// never deleted; the clustering stage reads the whole set.
pub struct RecordStore {
    pub images: Vec<ImageEntry>,
    pub blobs: Vec<BlobDesc>,
}

/// Spec-level form of the record store.
pub struct StoreV {
    pub images: Seq<ImageV>,
    pub blobs: Seq<BlobDesc>,
}

impl View for RecordStore {
    type V = StoreV;

    open spec fn view(&self) -> StoreV {
        StoreV { images: self.images@.map_values(|i: ImageEntry| i@), blobs: self.blobs@ }
    }
}

/// Why an extraction was rejected.  The store is never modified on error.
#[derive(Clone, Copy, Debug, PartialEq, Eq, Structural)]
pub enum DedupError {
    /// The same (image name, tag) key was already ingested; re-ingesting it
    /// is a caller error.
    DuplicateImage { image_index: usize },
    /// A dictionary blob declares a chunk size conflicting with the format
    /// the synthetic bootstrap is to be written with.
    InconsistentChunkSize { blob_id: u64, expected: u32, found: u32 },
}

/// Position of the first image with the given name and tag, if any.
pub open spec fn spec_find_image(imgs: Seq<ImageV>, name: Seq<u8>, tag: Seq<u8>) -> Option<int>
    decreases imgs.len(),
{
    if imgs.len() == 0 {
        None
    } else {
        match spec_find_image(imgs.drop_last(), name, tag) {
            Some(i) => Some(i),
            None => if imgs.last().name == name && imgs.last().tag == tag {
                Some(imgs.len() - 1)
            } else {
                None
            },
        }
    }
}

/// What `spec_find_image` returns.
pub proof fn lemma_find_image_props(imgs: Seq<ImageV>, name: Seq<u8>, tag: Seq<u8>)
    ensures
        match spec_find_image(imgs, name, tag) {
            Some(i) => 0 <= i < imgs.len() && imgs[i].name == name && imgs[i].tag == tag && (
            forall|j: int|
                0 <= j < i ==> !((#[trigger] imgs[j]).name == name && imgs[j].tag == tag)),
            None => forall|j: int|
                0 <= j < imgs.len() ==> !((#[trigger] imgs[j]).name == name && imgs[j].tag == tag),
        },
    decreases imgs.len(),
{
    if imgs.len() > 0 {
        let d = imgs.drop_last();
        lemma_find_image_props(d, name, tag);
        assert(forall|j: int| 0 <= j < d.len() ==> d[j] == imgs[j]);
    }
}

/// Once a prefix contains the key, the whole sequence finds it there.
pub proof fn lemma_find_image_extend(imgs: Seq<ImageV>, k: int, name: Seq<u8>, tag: Seq<u8>)
    requires
        0 <= k <= imgs.len(),
    ensures
        spec_find_image(imgs.take(k), name, tag) matches Some(i) ==> spec_find_image(
            imgs,
            name,
            tag,
        ) == Some(i),
    decreases imgs.len() - k,
{
    if k < imgs.len() {
        assert(imgs.take(k + 1).drop_last() =~= imgs.take(k));
        lemma_find_image_extend(imgs, k + 1, name, tag);
    } else {
        assert(imgs.take(k) =~= imgs);
    }
}

/// If no prefix image matches and position `k` does, the find is `k`.
pub proof fn lemma_find_image_hit(imgs: Seq<ImageV>, k: int, name: Seq<u8>, tag: Seq<u8>)
    requires
        0 <= k < imgs.len(),
        spec_find_image(imgs.take(k), name, tag) is None,
        imgs[k].name == name,
        imgs[k].tag == tag,
    ensures
        spec_find_image(imgs, name, tag) == Some(k),
{
    assert(imgs.take(k + 1).drop_last() =~= imgs.take(k));
    assert(imgs.take(k + 1).last() == imgs[k]);
    assert(spec_find_image(imgs.take(k + 1), name, tag) == Some(k));
    lemma_find_image_extend(imgs, k + 1, name, tag);
}

/// The record of one chunk, with the blob id resolved through the table.
pub open spec fn spec_chunk_record(c: Chunk, table: Seq<BlobDesc>) -> ChunkRecord {
    ChunkRecord {
        digest: c.digest,
        uncompressed_size: c.uncompressed_size,
        compressed_size: c.compressed_size,
        offset: c.offset,
        blob_id: table[c.blob_index as int].blob_id,
    }
}

/// Records of one file's chunk list, in order.
pub open spec fn spec_chunk_records(cks: Seq<Chunk>, table: Seq<BlobDesc>) -> Seq<ChunkRecord>
    decreases cks.len(),
{
    if cks.len() == 0 {
        Seq::empty()
    } else {
        spec_chunk_records(cks.drop_last(), table).push(spec_chunk_record(cks.last(), table))
    }
}

/// Records of every live chunk of the tree, in tree order.
pub open spec fn spec_scan_chunks(t: Seq<EntryV>, table: Seq<BlobDesc>) -> Seq<ChunkRecord>
    decreases t.len(),
{
    if t.len() == 0 {
        Seq::empty()
    } else {
        spec_scan_chunks(t.drop_last(), table) + match t.last().node {
            InodeV::File { chunks } => spec_chunk_records(chunks, table),
            _ => Seq::empty(),
        }
    }
}

/// Insert-or-find by id, without a chunk-size constraint: the store keeps
/// blob records of differently configured images side by side.
pub open spec fn spec_add_record(blobs: Seq<BlobDesc>, d: BlobDesc) -> Seq<BlobDesc> {
    if spec_find_blob(blobs, d.blob_id) is Some {
        blobs
    } else {
        blobs.push(d)
    }
}

/// All of a table's blob records folded into the store's blob list.
pub open spec fn spec_merge_blob_records(blobs: Seq<BlobDesc>, table: Seq<BlobDesc>) -> Seq<
    BlobDesc,
>
    decreases table.len(),
{
    if table.len() == 0 {
        blobs
    } else {
        spec_add_record(spec_merge_blob_records(blobs, table.drop_last()), table.last())
    }
}

/// Extraction of one bootstrap into the store: rejected if the (name, tag)
/// key was already ingested, else one image row with all its chunk records
/// plus the blob records are appended.
pub open spec fn spec_extract(
    s: StoreV,
    b: BootstrapV,
    name: Seq<u8>,
    tag: Seq<u8>,
    epoch: u64,
) -> Result<StoreV, DedupError> {
    match spec_find_image(s.images, name, tag) {
        Some(i) => Err(DedupError::DuplicateImage { image_index: i as usize }),
        None => Ok(
            StoreV {
                images: s.images.push(
                    ImageV { name, tag, epoch, chunks: spec_scan_chunks(b.tree, b.table) },
                ),
                blobs: spec_merge_blob_records(s.blobs, b.table),
            },
        ),
    }
}

/// Dedup extraction idempotence per key: once an (image, tag) key has been
/// extracted, extracting the same key again — whatever bootstrap or epoch
/// comes with it — is rejected as a duplicate, so the store never holds two
/// divergent record sets for one key.
pub proof fn lemma_extract_duplicate_rejected(
    s: StoreV,
    b1: BootstrapV,
    b2: BootstrapV,
    name: Seq<u8>,
    tag: Seq<u8>,
    e1: u64,
    e2: u64,
)
    requires
        spec_extract(s, b1, name, tag, e1) is Ok,
    ensures
        spec_extract(spec_extract(s, b1, name, tag, e1)->Ok_0, b2, name, tag, e2) is Err,
{
    let s2 = spec_extract(s, b1, name, tag, e1)->Ok_0;
    let k = s.images.len() as int;
    assert(s2.images[k].name == name && s2.images[k].tag == tag);
    lemma_find_image_props(s2.images, name, tag);
    match spec_find_image(s2.images, name, tag) {
        Some(_) => {},
        None => {
            assert(!(s2.images[k].name == name && s2.images[k].tag == tag));
        },
    }
}

impl RecordStore {
    /// An empty record store.
    pub fn new() -> (r: RecordStore)
        ensures
            r@.images =~= Seq::<ImageV>::empty(),
            r@.blobs =~= Seq::<BlobDesc>::empty(),
    {
        RecordStore { images: Vec::new(), blobs: Vec::new() }
    }

    /// Number of ingested images.
    pub fn image_count(&self) -> (r: usize)
        ensures
            r == self@.images.len(),
    {
        self.images.len()
    }

    /// The name and tag of image `i`, for reporting noise points.
    pub fn image_key(&self, i: usize) -> (r: (&Vec<u8>, &Vec<u8>))
        requires
            i < self@.images.len(),
        ensures
            r.0@ == self@.images[i as int].name,
            r.1@ == self@.images[i as int].tag,
    {
        (&self.images[i].name, &self.images[i].tag)
    }

    /// Position of the first ingested image with this name and tag, if any.
    #[verifier::loop_isolation(false)]
    pub fn find_image(&self, name: &Vec<u8>, tag: &Vec<u8>) -> (r: Option<usize>)
        ensures
            match r {
                Some(i) => spec_find_image(self@.images, name@, tag@) == Some(i as int),
                None => spec_find_image(self@.images, name@, tag@) is None,
            },
    {
        let n = self.images.len();
        let mut k: usize = 0;
        while k < n
            invariant
                k <= n,
                spec_find_image(self@.images.take(k as int), name@, tag@) is None,
            decreases n - k,
        {
            if bytes_eq(&self.images[k].name, name) && bytes_eq(&self.images[k].tag, tag) {
                proof {
                    lemma_find_image_hit(self@.images, k as int, name@, tag@);
                }
                return Some(k);
            }
            proof {
                assert(self@.images.take(k + 1).drop_last() =~= self@.images.take(k as int));
                assert(self@.images.take(k + 1).last() == self@.images[k as int]);
            }
            k = k + 1;
        }
        proof {
            assert(self@.images.take(n as int) =~= self@.images);
        }
        None
    }

    /// Ingest one bootstrap's records under the (name, tag) key.  A key
    /// already present is rejected and the store is left untouched: either
    /// all records of an image are committed, or none.
    #[verifier::loop_isolation(false)]
    pub fn extract(
        &mut self,
        b: &Bootstrap,
        name: Vec<u8>,
        tag: Vec<u8>,
        epoch: u64,
    ) -> (r: Result<(), DedupError>)
        requires
            b.wf(),
        ensures
            match r {
                Ok(u) => spec_extract(old(self)@, b@, name@, tag@, epoch) == Ok::<
                    StoreV,
                    DedupError,
                >(final(self)@),
                Err(e) => {
                    &&& spec_extract(old(self)@, b@, name@, tag@, epoch) == Err::<
                        StoreV,
                        DedupError,
                    >(e)
                    &&& final(self)@ == old(self)@
                },
            },
    {
        let ghost bv = b@;
        let ghost s0 = self@;
        match self.find_image(&name, &tag) {
            Some(i) => {
                return Err(DedupError::DuplicateImage { image_index: i });
            },
            None => {},
        }
        // Collect one record per live chunk, in tree order.
        let mut recs: Vec<ChunkRecord> = Vec::new();
        let ne = b.tree.entries.len();
        let mut ei: usize = 0;
        while ei < ne
            invariant
                ei <= ne,
                recs@ == spec_scan_chunks(bv.tree.take(ei as int), bv.table),
            decreases ne - ei,
        {
            proof {
                assert(bv.tree.take(ei + 1).drop_last() =~= bv.tree.take(ei as int));
                assert(bv.tree.take(ei + 1).last() == bv.tree[ei as int]);
            }
            match &b.tree.entries[ei].node {
                Inode::File { chunks } => {
                    proof {
                        assert(bv.tree[ei as int].node == (InodeV::File { chunks: chunks@ }));
                        assert(node_chunks_valid(bv.tree[ei as int].node, bv.table.len() as int));
                    }
                    let ghost base = recs@;
                    let nc = chunks.len();
                    let mut m: usize = 0;
                    while m < nc
                        invariant
                            m <= nc,
                            recs@ == base + spec_chunk_records(chunks@.take(m as int), bv.table),
                        decreases nc - m,
                    {
                        proof {
                            assert(chunks@.take(m + 1).drop_last() =~= chunks@.take(m as int));
                            assert(chunks@.take(m + 1).last() == chunks@[m as int]);
                        }
                        let c = chunks[m];
                        recs.push(ChunkRecord {
                            digest: c.digest,
                            uncompressed_size: c.uncompressed_size,
                            compressed_size: c.compressed_size,
                            offset: c.offset,
                            blob_id: b.table.entries[c.blob_index].blob_id,
                        });
                        proof {
                            assert(recs@ =~= base + spec_chunk_records(
                                chunks@.take(m + 1),
                                bv.table,
                            ));
                        }
                        m = m + 1;
                    }
                    proof {
                        assert(chunks@.take(nc as int) =~= chunks@);
                        assert(recs@ =~= spec_scan_chunks(bv.tree.take(ei + 1), bv.table));
                    }
                },
                _ => {
                    proof {
                        assert(recs@ =~= spec_scan_chunks(bv.tree.take(ei + 1), bv.table));
                    }
                },
            }
            ei = ei + 1;
        }
        proof {
            assert(bv.tree.take(ne as int) =~= bv.tree);
        }
        // Fold the bootstrap's blob records into the store.
        let nb = b.table.entries.len();
        let mut k: usize = 0;
        while k < nb
            invariant
                k <= nb,
                self@.images == s0.images,
                self@.blobs == spec_merge_blob_records(s0.blobs, bv.table.take(k as int)),
            decreases nb - k,
        {
            proof {
                assert(bv.table.take(k + 1).drop_last() =~= bv.table.take(k as int));
                assert(bv.table.take(k + 1).last() == bv.table[k as int]);
            }
            let d = b.table.entries[k];
            let mut found = false;
            let sn = self.blobs.len();
            let mut j: usize = 0;
            while j < sn
                invariant
                    j <= sn,
                    sn == self.blobs@.len(),
                    found ==> spec_find_blob(self.blobs@, d.blob_id) is Some,
                    !found ==> spec_find_blob(self.blobs@.take(j as int), d.blob_id) is None,
                decreases sn - j,
            {
                if !found && self.blobs[j].blob_id == d.blob_id {
                    proof {
                        crate::model::lemma_find_blob_hit(self.blobs@, j as int, d.blob_id);
                    }
                    found = true;
                }
                proof {
                    if !found {
                        assert(self.blobs@.take(j + 1).drop_last() =~= self.blobs@.take(j as int));
                    }
                }
                j = j + 1;
            }
            if !found {
                proof {
                    assert(self.blobs@.take(sn as int) =~= self.blobs@);
                }
                self.blobs.push(d);
            }
            k = k + 1;
        }
        proof {
            assert(bv.table.take(nb as int) =~= bv.table);
        }
        self.images.push(ImageEntry { name, tag, epoch, chunks: recs });
        proof {
            assert(self@.images =~= s0.images.push(
                ImageV { name: name@, tag: tag@, epoch, chunks: spec_scan_chunks(bv.tree, bv.table) },
            ));
        }
        Ok(())
    }
}


/// Tuning of the clustering and dictionary stages.
#[derive(Clone, Copy, Debug, PartialEq, Eq, Structural)]
pub struct ClusterParams {
    /// Percentage: two images are neighbours when their chunk-digest
    /// overlap (intersection over union) reaches this share.
    pub sim_threshold: u32,
    /// An image with fewer neighbours than this is a noise point.
    pub min_neighbors: u32,
    /// Percentage: a chunk enters the dictionary when its recency-weighted
    /// presence across its cluster reaches this share of the total weight.
    pub presence_threshold: u32,
}

/// First occurrences of `s`, in order.
pub open spec fn spec_uniq(s: Seq<u64>) -> Seq<u64>
    decreases s.len(),
{
    if s.len() == 0 {
        Seq::empty()
    } else {
        let r = spec_uniq(s.drop_last());
        if r.contains(s.last()) {
            r
        } else {
            r.push(s.last())
        }
    }
}

/// The distinct chunk digests of one image, in first-seen order.
pub open spec fn spec_digests(img: ImageV) -> Seq<u64> {
    spec_uniq(img.chunks.map_values(|c: ChunkRecord| c.digest))
}

/// How many elements of `a` occur in `b`.
pub open spec fn count_in(a: Seq<u64>, b: Seq<u64>) -> int
    decreases a.len(),
{
    if a.len() == 0 {
        0
    } else {
        count_in(a.drop_last(), b) + if b.contains(a.last()) {
            1int
        } else {
            0int
        }
    }
}

/// Overlap similarity: the images are neighbours when the intersection of
/// their digest sets is at least `t` percent of the union.
pub open spec fn spec_neighbor(a: ImageV, b: ImageV, t: u32) -> bool {
    let ua = spec_digests(a);
    let ub = spec_digests(b);
    let inter = count_in(ua, ub);
    let uni = ua.len() + ub.len() - inter;
    inter * 100 >= t * uni
}

/// Number of neighbours image `i` has among the first `m` images (itself
/// excluded).
pub open spec fn spec_neighbor_count(imgs: Seq<ImageV>, i: int, t: u32, m: int) -> int
    decreases m,
{
    if m <= 0 {
        0
    } else {
        spec_neighbor_count(imgs, i, t, m - 1) + if m - 1 != i && spec_neighbor(
            imgs[i],
            imgs[m - 1],
            t,
        ) {
            1int
        } else {
            0int
        }
    }
}

/// Image `i` is a noise point: too few similar neighbours in the corpus.
pub open spec fn spec_noise(imgs: Seq<ImageV>, i: int, p: ClusterParams) -> bool {
    spec_neighbor_count(imgs, i, p.sim_threshold, imgs.len() as int) < p.min_neighbors
}

/// First cluster whose representative (first member) is a neighbour of
/// image `i`, if any.
pub open spec fn spec_cluster_find(cls: Seq<Seq<int>>, imgs: Seq<ImageV>, i: int, t: u32) -> Option<
    int,
>
    decreases cls.len(),
{
    if cls.len() == 0 {
        None
    } else {
        match spec_cluster_find(cls.drop_last(), imgs, i, t) {
            Some(k) => Some(k),
            None => if spec_neighbor(imgs[i], imgs[cls.last()[0]], t) {
                Some(cls.len() - 1)
            } else {
                None
            },
        }
    }
}

/// Place one image: noise points are appended to the noise list; others
/// join the first cluster whose representative they neighbour, or found a
/// new cluster.
pub open spec fn spec_cluster_step(
    cls: Seq<Seq<int>>,
    noise: Seq<int>,
    imgs: Seq<ImageV>,
    p: ClusterParams,
    idx: int,
) -> (Seq<Seq<int>>, Seq<int>) {
    if spec_noise(imgs, idx, p) {
        (cls, noise.push(idx))
    } else {
        match spec_cluster_find(cls, imgs, idx, p.sim_threshold) {
            Some(k) => (cls.update(k, cls[k].push(idx)), noise),
            None => (cls.push(seq![idx]), noise),
        }
    }
}

/// Cluster the first `m` images in index order.
pub open spec fn spec_clusters(imgs: Seq<ImageV>, p: ClusterParams, m: int) -> (
    Seq<Seq<int>>,
    Seq<int>,
)
    decreases m,
{
    if m <= 0 {
        (Seq::empty(), Seq::empty())
    } else {
        let r = spec_clusters(imgs, p, m - 1);
        spec_cluster_step(r.0, r.1, imgs, p, m - 1)
    }
}

/// Every cluster is nonempty and holds image indices below `m`, and every
/// noise entry is an index below `m`.
pub proof fn lemma_clusters_range(imgs: Seq<ImageV>, p: ClusterParams, m: int)
    requires
        m >= 0,
    ensures
        forall|k: int|
            0 <= k < spec_clusters(imgs, p, m).0.len() ==> (#[trigger] spec_clusters(
                imgs,
                p,
                m,
            ).0[k]).len() > 0,
        forall|k: int, q: int|
            0 <= k < spec_clusters(imgs, p, m).0.len() && 0 <= q < spec_clusters(
                imgs,
                p,
                m,
            ).0[k].len() ==> 0 <= #[trigger] spec_clusters(imgs, p, m).0[k][q] < m,
        forall|q: int|
            0 <= q < spec_clusters(imgs, p, m).1.len() ==> 0 <= #[trigger] spec_clusters(
                imgs,
                p,
                m,
            ).1[q] < m,
    decreases m,
{
    if m > 0 {
        lemma_clusters_range(imgs, p, m - 1);
        let r = spec_clusters(imgs, p, m - 1);
        let s = spec_clusters(imgs, p, m);
        if spec_noise(imgs, m - 1, p) {
            assert(forall|q: int| 0 <= q < r.1.len() ==> s.1[q] == r.1[q]);
            assert(s.1[r.1.len() as int] == m - 1);
        } else {
            match spec_cluster_find(r.0, imgs, m - 1, p.sim_threshold) {
                Some(k) => {
                    lemma_cluster_find_props(r.0, imgs, m - 1, p.sim_threshold);
                    assert(forall|k2: int| 0 <= k2 < r.0.len() && k2 != k ==> s.0[k2] == r.0[k2]);
                    assert(s.0[k] == r.0[k].push(m - 1));
                    assert(forall|q: int| 0 <= q < r.0[k].len() ==> s.0[k][q] == r.0[k][q]);
                    assert(s.0[k][r.0[k].len() as int] == m - 1);
                },
                None => {
                    assert(forall|k2: int| 0 <= k2 < r.0.len() ==> s.0[k2] == r.0[k2]);
                    assert(s.0[r.0.len() as int] =~= seq![m - 1]);
                },
            }
        }
    }
}

/// What `spec_cluster_find` returns.
pub proof fn lemma_cluster_find_props(cls: Seq<Seq<int>>, imgs: Seq<ImageV>, i: int, t: u32)
    ensures
        match spec_cluster_find(cls, imgs, i, t) {
            Some(k) => 0 <= k < cls.len() && spec_neighbor(imgs[i], imgs[cls[k][0]], t) && (
            forall|j: int| 0 <= j < k ==> !spec_neighbor(imgs[i], imgs[(#[trigger] cls[j])[0]], t)),
            None => forall|j: int|
                0 <= j < cls.len() ==> !spec_neighbor(imgs[i], imgs[(#[trigger] cls[j])[0]], t),
        },
    decreases cls.len(),
{
    if cls.len() > 0 {
        let d = cls.drop_last();
        lemma_cluster_find_props(d, imgs, i, t);
        assert(forall|j: int| 0 <= j < d.len() ==> d[j] == cls[j]);
    }
}


/// Spec view of an executable cluster list.
pub open spec fn clusters_view(v: Seq<Vec<usize>>) -> Seq<Seq<int>> {
    v.map_values(|c: Vec<usize>| c@.map_values(|x: usize| x as int))
}

/// Spec view of an executable index list.
pub open spec fn indices_view(s: Seq<usize>) -> Seq<int> {
    s.map_values(|x: usize| x as int)
}

/// `count_in` lies between zero and the length of its first argument.
pub proof fn lemma_count_in_bounds(a: Seq<u64>, b: Seq<u64>)
    ensures
        0 <= count_in(a, b) <= a.len(),
    decreases a.len(),
{
    if a.len() > 0 {
        lemma_count_in_bounds(a.drop_last(), b);
    }
}

/// Whether `x` occurs in `v`.
#[verifier::loop_isolation(false)]
pub fn vec_contains_u64(v: &Vec<u64>, x: u64) -> (r: bool)
    ensures
        r == v@.contains(x),
{
    let n = v.len();
    let mut k: usize = 0;
    while k < n
        invariant
            k <= n,
            forall|j: int| 0 <= j < k ==> v@[j] != x,
        decreases n - k,
    {
        if v[k] == x {
            return true;
        }
        k = k + 1;
    }
    false
}

/// The distinct chunk digests of one image, in first-seen order.
#[verifier::loop_isolation(false)]
pub fn image_digests(img: &ImageEntry) -> (r: Vec<u64>)
    ensures
        r@ == spec_digests(img@),
{
    let ghost dseq = img.chunks@.map_values(|c: ChunkRecord| c.digest);
    let n = img.chunks.len();
    let mut out: Vec<u64> = Vec::new();
    let mut m: usize = 0;
    while m < n
        invariant
            m <= n,
            out@ == spec_uniq(dseq.take(m as int)),
        decreases n - m,
    {
        proof {
            assert(dseq.take(m + 1).drop_last() =~= dseq.take(m as int));
            assert(dseq.take(m + 1).last() == dseq[m as int]);
        }
        let d = img.chunks[m].digest;
        if !vec_contains_u64(&out, d) {
            out.push(d);
        }
        m = m + 1;
    }
    proof {
        assert(dseq.take(n as int) =~= dseq);
    }
    out
}

/// How many elements of `a` occur in `b`.
#[verifier::loop_isolation(false)]
pub fn count_in_vec(a: &Vec<u64>, b: &Vec<u64>) -> (r: usize)
    ensures
        r as int == count_in(a@, b@),
        r <= a@.len(),
{
    let n = a.len();
    let mut cnt: usize = 0;
    let mut k: usize = 0;
    while k < n
        invariant
            k <= n,
            cnt <= k,
            cnt as int == count_in(a@.take(k as int), b@),
        decreases n - k,
    {
        proof {
            assert(a@.take(k + 1).drop_last() =~= a@.take(k as int));
            assert(a@.take(k + 1).last() == a@[k as int]);
        }
        if vec_contains_u64(b, a[k]) {
            cnt = cnt + 1;
        }
        k = k + 1;
    }
    proof {
        assert(a@.take(n as int) =~= a@);
    }
    cnt
}

/// Whether two images are overlap neighbours at threshold `t`.
#[verifier::loop_isolation(false)]
pub fn is_neighbor(a: &ImageEntry, b: &ImageEntry, t: u32) -> (r: bool)
    ensures
        r == spec_neighbor(a@, b@, t),
{
    let ua = image_digests(a);
    let ub = image_digests(b);
    let inter = count_in_vec(&ua, &ub);
    let uni: u128 = ua.len() as u128 + ub.len() as u128 - inter as u128;
    proof {
        let tv = t as int;
        let uv = uni as int;
        assert(tv * uv <= 0xFFFF_FFFFint * 0x2_0000_0000_0000_0000int) by (nonlinear_arith)
            requires
                0 <= tv <= 0xFFFF_FFFFint,
                0 <= uv <= 0x2_0000_0000_0000_0000int,
        ;
    }
    (inter as u128) * 100 >= (t as u128) * uni
}

/// Number of neighbours image `i` has in the whole store.
#[verifier::loop_isolation(false)]
pub fn neighbor_count_at(images: &Vec<ImageEntry>, i: usize, t: u32) -> (r: usize)
    requires
        i < images@.len(),
    ensures
        r as int == spec_neighbor_count(
            images@.map_values(|x: ImageEntry| x@),
            i as int,
            t,
            images@.len() as int,
        ),
{
    let ghost imgsv = images@.map_values(|x: ImageEntry| x@);
    let n = images.len();
    let mut cnt: usize = 0;
    let mut j: usize = 0;
    while j < n
        invariant
            j <= n,
            cnt <= j,
            cnt as int == spec_neighbor_count(imgsv, i as int, t, j as int),
        decreases n - j,
    {
        if j != i && is_neighbor(&images[i], &images[j], t) {
            cnt = cnt + 1;
        }
        j = j + 1;
    }
    cnt
}

/// Cluster the store's images in index order: a noise point (too few
/// neighbours) goes to the noise list; any other image joins the first
/// cluster whose representative it neighbours, or founds a new cluster.
/// Returned cluster members and noise points are image indices; the noise
/// list preserves image order.
#[verifier::loop_isolation(false)]
pub fn cluster(store: &RecordStore, p: ClusterParams) -> (r: (Vec<Vec<usize>>, Vec<usize>))
    ensures
        clusters_view(r.0@) == spec_clusters(store@.images, p, store@.images.len() as int).0,
        indices_view(r.1@) == spec_clusters(store@.images, p, store@.images.len() as int).1,
        forall|k: int| 0 <= k < r.0@.len() ==> (#[trigger] r.0@[k])@.len() > 0,
        forall|k: int, q: int|
            0 <= k < r.0@.len() && 0 <= q < r.0@[k]@.len() ==> (#[trigger] r.0@[k]@[q])
                < store@.images.len(),
        forall|q: int| 0 <= q < r.1@.len() ==> (#[trigger] r.1@[q]) < store@.images.len(),
{
    let ghost imgsv = store@.images;
    let n = store.images.len();
    let mut clusters: Vec<Vec<usize>> = Vec::new();
    let mut noise: Vec<usize> = Vec::new();
    let mut idx: usize = 0;
    while idx < n
        invariant
            idx <= n,
            clusters_view(clusters@) == spec_clusters(imgsv, p, idx as int).0,
            indices_view(noise@) == spec_clusters(imgsv, p, idx as int).1,
            forall|k: int| 0 <= k < clusters@.len() ==> (#[trigger] clusters@[k])@.len() > 0,
            forall|k: int, q: int|
                0 <= k < clusters@.len() && 0 <= q < clusters@[k]@.len() ==> (
                #[trigger] clusters@[k]@[q]) < n,
            forall|q: int| 0 <= q < noise@.len() ==> (#[trigger] noise@[q]) < n,
        decreases n - idx,
    {
        let ghost cls0 = clusters_view(clusters@);
        let ghost noise0 = indices_view(noise@);
        let ncount = neighbor_count_at(&store.images, idx, p.sim_threshold);
        if (ncount as u64) < p.min_neighbors as u64 {
            proof {
                assert(spec_noise(imgsv, idx as int, p));
            }
            noise.push(idx);
            proof {
                assert(indices_view(noise@) =~= noise0.push(idx as int));
            }
        } else {
            proof {
                assert(!spec_noise(imgsv, idx as int, p));
            }
            let nc = clusters.len();
            let mut k: usize = 0;
            let mut placed = false;
            while k < nc && !placed
                invariant
                    k <= nc,
                    nc == clusters@.len(),
                    !placed ==> clusters_view(clusters@) == cls0,
                    !placed ==> spec_cluster_find(
                        cls0.take(k as int),
                        imgsv,
                        idx as int,
                        p.sim_threshold,
                    ) is None,
                    placed ==> spec_clusters(imgsv, p, idx as int + 1) == (
                        clusters_view(clusters@),
                        indices_view(noise@),
                    ),
                    forall|k2: int| 0 <= k2 < clusters@.len() ==> (#[trigger] clusters@[k2])@.len()
                        > 0,
                    forall|k2: int, q: int|
                        0 <= k2 < clusters@.len() && 0 <= q < clusters@[k2]@.len() ==> (
                        #[trigger] clusters@[k2]@[q]) < n,
                decreases nc - k, (if placed { 0int } else { 1int }),
            {
                let rep = clusters[k][0];
                if is_neighbor(&store.images[idx], &store.images[rep], p.sim_threshold) {
                    proof {
                        assert(cls0[k as int][0] == rep as int);
                        assert(cls0.take(k + 1).drop_last() =~= cls0.take(k as int));
                        assert(cls0.take(k + 1).last() == cls0[k as int]);
                        assert(spec_cluster_find(cls0.take(k + 1), imgsv, idx as int,
                            p.sim_threshold) == Some(k as int));
                        lemma_cluster_find_take(cls0, k + 1, imgsv, idx as int, p.sim_threshold);
                    }
                    let mut ck = clusters.remove(k);
                    ck.push(idx);
                    clusters.insert(k, ck);
                    placed = true;
                    proof {
                        assert(clusters_view(clusters@) =~~= cls0.update(
                            k as int,
                            cls0[k as int].push(idx as int),
                        ));
                        assert(spec_clusters(imgsv, p, idx as int + 1) == (
                            clusters_view(clusters@),
                            indices_view(noise@),
                        ));
                    }
                } else {
                    proof {
                        assert(cls0[k as int][0] == rep as int);
                        assert(cls0.take(k + 1).drop_last() =~= cls0.take(k as int));
                        assert(cls0.take(k + 1).last() == cls0[k as int]);
                        assert(spec_cluster_find(cls0.take(k + 1), imgsv, idx as int,
                            p.sim_threshold) is None);
                    }
                    k = k + 1;
                }
            }
            if !placed {
                proof {
                    assert(cls0.take(nc as int) =~= cls0);
                }
                let mut fresh: Vec<usize> = Vec::new();
                fresh.push(idx);
                clusters.push(fresh);
                proof {
                    assert(clusters_view(clusters@) =~~= cls0.push(seq![idx as int]));
                }
            }
        }
        idx = idx + 1;
    }
    proof {
        assert(clusters_view(clusters@) == spec_clusters(imgsv, p, n as int).0);
    }
    (clusters, noise)
}

/// Once a prefix of the cluster list matches, the whole list finds the same
/// cluster.
pub proof fn lemma_cluster_find_take(cls: Seq<Seq<int>>, k: int, imgs: Seq<ImageV>, i: int, t: u32)
    requires
        0 <= k <= cls.len(),
    ensures
        spec_cluster_find(cls.take(k), imgs, i, t) matches Some(j) ==> spec_cluster_find(
            cls,
            imgs,
            i,
            t,
        ) == Some(j),
    decreases cls.len() - k,
{
    if k < cls.len() {
        assert(cls.take(k + 1).drop_last() =~= cls.take(k));
        lemma_cluster_find_take(cls, k + 1, imgs, i, t);
    } else {
        assert(cls.take(k) =~= cls);
    }
}


/// Number of strictly newer scans of the same image name within the
/// cluster, among its first `m` members, relative to member `pos`.
pub open spec fn spec_newer_count(imgs: Seq<ImageV>, cl: Seq<int>, pos: int, m: int) -> int
    decreases m,
{
    if m <= 0 {
        0
    } else {
        spec_newer_count(imgs, cl, pos, m - 1) + if imgs[cl[m - 1]].name == imgs[cl[pos]].name
            && imgs[cl[m - 1]].epoch > imgs[cl[pos]].epoch {
            1int
        } else {
            0int
        }
    }
}

/// Exponentially decayed weight: halved once per newer rescan.
pub open spec fn spec_decay(k: int) -> int
    decreases k,
{
    if k <= 0 {
        100
    } else {
        spec_decay(k - 1) / 2
    }
}

/// Recency weight of cluster member `pos`: a scan outdated by `k` newer
/// scans of the same name counts `100 / 2^k`.
pub open spec fn spec_weight(imgs: Seq<ImageV>, cl: Seq<int>, pos: int) -> int {
    spec_decay(spec_newer_count(imgs, cl, pos, cl.len() as int))
}

/// Total recency weight of the first `m` cluster members.
pub open spec fn spec_total_weight(imgs: Seq<ImageV>, cl: Seq<int>, m: int) -> int
    decreases m,
{
    if m <= 0 {
        0
    } else {
        spec_total_weight(imgs, cl, m - 1) + spec_weight(imgs, cl, m - 1)
    }
}

/// Recency-weighted presence of digest `d` among the first `m` cluster
/// members.
pub open spec fn spec_score(imgs: Seq<ImageV>, cl: Seq<int>, d: u64, m: int) -> int
    decreases m,
{
    if m <= 0 {
        0
    } else {
        spec_score(imgs, cl, d, m - 1) + if spec_digests(imgs[cl[m - 1]]).contains(d) {
            spec_weight(imgs, cl, m - 1)
        } else {
            0int
        }
    }
}

/// Digest `d` becomes a dictionary entry of its cluster when its weighted
/// presence reaches `presence_threshold` percent of the total weight.
pub open spec fn spec_selected(imgs: Seq<ImageV>, cl: Seq<int>, p: ClusterParams, d: u64) -> bool {
    spec_score(imgs, cl, d, cl.len() as int) * 100 >= p.presence_threshold * spec_total_weight(
        imgs,
        cl,
        cl.len() as int,
    )
}

/// Insert-or-find of a blob record in the dictionary's blob list.
pub open spec fn spec_add_dict_blob(blobs: Seq<BlobDesc>, d: BlobDesc) -> (Seq<BlobDesc>, int) {
    match spec_find_blob(blobs, d.blob_id) {
        Some(i) => (blobs, i),
        None => (blobs.push(d), blobs.len() as int),
    }
}

/// Consider one chunk record for the dictionary: a digest not yet present
/// whose cluster presence passes the threshold enters, pointing at the
/// record's blob (resolved from the store; an unresolvable blob id skips
/// the record).
pub open spec fn spec_dict_add_chunk(
    st: DictV,
    sb: Seq<BlobDesc>,
    imgs: Seq<ImageV>,
    cl: Seq<int>,
    p: ClusterParams,
    cr: ChunkRecord,
) -> DictV {
    if spec_dict_find(st.entries, cr.digest) is None && spec_selected(imgs, cl, p, cr.digest) {
        match spec_find_blob(sb, cr.blob_id) {
            None => st,
            Some(bi) => {
                let a = spec_add_dict_blob(st.blobs, sb[bi]);
                DictV {
                    entries: st.entries.push(
                        DictEntry {
                            digest: cr.digest,
                            blob_index: a.1 as usize,
                            offset: cr.offset,
                            uncompressed_size: cr.uncompressed_size,
                            compressed_size: cr.compressed_size,
                        },
                    ),
                    blobs: a.0,
                }
            },
        }
    } else {
        st
    }
}

/// Fold one member's chunk records into the dictionary.
pub open spec fn spec_dict_add_chunks(
    st: DictV,
    sb: Seq<BlobDesc>,
    imgs: Seq<ImageV>,
    cl: Seq<int>,
    p: ClusterParams,
    crs: Seq<ChunkRecord>,
) -> DictV
    decreases crs.len(),
{
    if crs.len() == 0 {
        st
    } else {
        spec_dict_add_chunk(
            spec_dict_add_chunks(st, sb, imgs, cl, p, crs.drop_last()),
            sb,
            imgs,
            cl,
            p,
            crs.last(),
        )
    }
}

/// Fold the first `m` members of one cluster into the dictionary.
pub open spec fn spec_dict_add_members(
    st: DictV,
    sb: Seq<BlobDesc>,
    imgs: Seq<ImageV>,
    cl: Seq<int>,
    p: ClusterParams,
    m: int,
) -> DictV
    decreases m,
{
    if m <= 0 {
        st
    } else {
        spec_dict_add_chunks(
            spec_dict_add_members(st, sb, imgs, cl, p, m - 1),
            sb,
            imgs,
            cl,
            p,
            imgs[cl[m - 1]].chunks,
        )
    }
}

/// Fold the clusters into the dictionary, in cluster order.
pub open spec fn spec_dict_add_clusters(
    st: DictV,
    sb: Seq<BlobDesc>,
    imgs: Seq<ImageV>,
    cls: Seq<Seq<int>>,
    p: ClusterParams,
) -> DictV
    decreases cls.len(),
{
    if cls.len() == 0 {
        st
    } else {
        let cl = cls.last();
        spec_dict_add_members(
            spec_dict_add_clusters(st, sb, imgs, cls.drop_last(), p),
            sb,
            imgs,
            cl,
            p,
            cl.len() as int,
        )
    }
}

/// The whole dictionary stage: cluster the corpus, then gather each
/// cluster's above-threshold digests with their canonical blob locations;
/// the unclustered images come back as the noise list, in image order.
pub open spec fn spec_dictionary(s: StoreV, p: ClusterParams) -> (DictV, Seq<int>) {
    let r = spec_clusters(s.images, p, s.images.len() as int);
    (
        spec_dict_add_clusters(
            DictV { entries: Seq::empty(), blobs: Seq::empty() },
            s.blobs,
            s.images,
            r.0,
            p,
        ),
        r.1,
    )
}


/// Build the chunk dictionary from the accumulated records: cluster the
/// images, then collect, cluster by cluster, the digests whose
/// recency-weighted presence passes the threshold, each pointing at one
/// representative owning blob.  Returns the dictionary and the noise-point
/// image indices, in image order.  A cluster contributing no entry is
/// valid.
#[verifier::loop_isolation(false)]
#[verifier::rlimit(60)]
pub fn build_dictionary(store: &RecordStore, p: ClusterParams) -> (r: (ChunkDict, Vec<usize>))
    ensures
        r.0@ == spec_dictionary(store@, p).0,
        indices_view(r.1@) == spec_dictionary(store@, p).1,
        r.0.wf(),
{
    let ghost imgsv = store@.images;
    let ghost sb = store@.blobs;
    let (clusters, noise) = cluster(store, p);
    let ghost clsv = clusters_view(clusters@);
    let n_imgs = store.images.len();
    let mut entries: Vec<DictEntry> = Vec::new();
    let mut blobs: Vec<BlobDesc> = Vec::new();
    let ghost init = DictV { entries: Seq::<DictEntry>::empty(), blobs: Seq::<BlobDesc>::empty() };
    proof {
        assert(entries@ =~= init.entries);
        assert(blobs@ =~= init.blobs);
    }
    let ncl = clusters.len();
    let mut ci: usize = 0;
    while ci < ncl
        invariant
            ci <= ncl,
            (DictV { entries: entries@, blobs: blobs@ }) == spec_dict_add_clusters(
                init,
                sb,
                imgsv,
                clsv.take(ci as int),
                p,
            ),
            dict_wf(DictV { entries: entries@, blobs: blobs@ }),
        decreases ncl - ci,
    {
        proof {
            assert(clsv.take(ci + 1).drop_last() =~= clsv.take(ci as int));
            assert(clsv.take(ci + 1).last() == clsv[ci as int]);
        }
        let ghost st_c = DictV { entries: entries@, blobs: blobs@ };
        let ghost cl = clsv[ci as int];
        let nm = clusters[ci].len();
        proof {
            assert(nm == cl.len());
        }
        // Per-member digest sets and recency weights, and the total weight.
        let mut member_digests: Vec<Vec<u64>> = Vec::new();
        let mut weights: Vec<u64> = Vec::new();
        let mut total: u128 = 0;
        let mut pos: usize = 0;
        while pos < nm
            invariant
                pos <= nm,
                member_digests@.len() == pos,
                weights@.len() == pos,
                forall|q: int|
                    0 <= q < pos ==> (#[trigger] member_digests@[q])@ == spec_digests(
                        imgsv[cl[q]],
                    ),
                forall|q: int|
                    0 <= q < pos ==> (#[trigger] weights@[q]) as int == spec_weight(imgsv, cl, q),
                forall|q: int| 0 <= q < pos ==> (#[trigger] weights@[q]) <= 100,
                total as int == spec_total_weight(imgsv, cl, pos as int),
                total <= 100 * (pos as u128),
            decreases nm - pos,
        {
            let member = clusters[ci][pos];
            proof {
                assert(cl[pos as int] == member as int);
                assert(member < n_imgs);
            }
            member_digests.push(image_digests(&store.images[member]));
            // Count the strictly newer rescans of the same name.
            let mut newer: usize = 0;
            let mut q2: usize = 0;
            while q2 < nm
                invariant
                    q2 <= nm,
                    newer <= q2,
                    newer as int == spec_newer_count(imgsv, cl, pos as int, q2 as int),
                decreases nm - q2,
            {
                let other = clusters[ci][q2];
                proof {
                    assert(cl[q2 as int] == other as int);
                    assert(other < n_imgs);
                }
                if bytes_eq(&store.images[other].name, &store.images[member].name)
                    && store.images[other].epoch > store.images[member].epoch {
                    newer = newer + 1;
                }
                q2 = q2 + 1;
            }
            // Halve the weight once per newer rescan.
            let mut w: u64 = 100;
            let mut h: usize = 0;
            while h < newer
                invariant
                    h <= newer,
                    w as int == spec_decay(h as int),
                    w <= 100,
                decreases newer - h,
            {
                w = w / 2;
                h = h + 1;
            }
            proof {
                assert(w as int == spec_weight(imgsv, cl, pos as int));
            }
            weights.push(w);
            total = total + w as u128;
            pos = pos + 1;
        }
        // Gather this cluster's dictionary entries.
        let mut pos: usize = 0;
        while pos < nm
            invariant
                pos <= nm,
                member_digests@.len() == nm,
                weights@.len() == nm,
                forall|q: int|
                    0 <= q < nm ==> (#[trigger] member_digests@[q])@ == spec_digests(
                        imgsv[cl[q]],
                    ),
                forall|q: int|
                    0 <= q < nm ==> (#[trigger] weights@[q]) as int == spec_weight(imgsv, cl, q),
                forall|q: int| 0 <= q < nm ==> (#[trigger] weights@[q]) <= 100,
                total as int == spec_total_weight(imgsv, cl, nm as int),
                total <= 100 * (nm as u128),
                (DictV { entries: entries@, blobs: blobs@ }) == spec_dict_add_members(
                    st_c,
                    sb,
                    imgsv,
                    cl,
                    p,
                    pos as int,
                ),
                dict_wf(DictV { entries: entries@, blobs: blobs@ }),
            decreases nm - pos,
        {
            let ghost st_m = DictV { entries: entries@, blobs: blobs@ };
            let member = clusters[ci][pos];
            proof {
                assert(cl[pos as int] == member as int);
                assert(member < n_imgs);
            }
            let ghost crs = imgsv[cl[pos as int]].chunks;
            let nc = store.images[member].chunks.len();
            proof {
                assert(store.images@[member as int]@.chunks == crs);
            }
            let mut m: usize = 0;
            while m < nc
                invariant
                    m <= nc,
                    nc == crs.len(),
                    (DictV { entries: entries@, blobs: blobs@ }) == spec_dict_add_chunks(
                        st_m,
                        sb,
                        imgsv,
                        cl,
                        p,
                        crs.take(m as int),
                    ),
                    dict_wf(DictV { entries: entries@, blobs: blobs@ }),
                decreases nc - m,
            {
                proof {
                    assert(crs.take(m + 1).drop_last() =~= crs.take(m as int));
                    assert(crs.take(m + 1).last() == crs[m as int]);
                }
                let ghost st_k = DictV { entries: entries@, blobs: blobs@ };
                let cr = store.images[member].chunks[m];
                // Is the digest already in the dictionary?
                let mut present = false;
                let nde = entries.len();
                let mut j: usize = 0;
                while j < nde && !present
                    invariant
                        j <= nde,
                        nde == entries@.len(),
                        entries@ == st_k.entries,
                        present ==> spec_dict_find(entries@, cr.digest) is Some,
                        !present ==> spec_dict_find(entries@.take(j as int), cr.digest) is None,
                    decreases nde - j, (if present { 0int } else { 1int }),
                {
                    if entries[j].digest == cr.digest {
                        proof {
                            crate::dict::lemma_dict_find_hit(entries@, j as int, cr.digest);
                        }
                        present = true;
                    } else {
                        proof {
                            assert(entries@.take(j + 1).drop_last() =~= entries@.take(j as int));
                        }
                        j = j + 1;
                    }
                }
                proof {
                    if !present {
                        assert(entries@.take(nde as int) =~= entries@);
                    }
                }
                if !present {
                    // Does the digest pass the weighted presence threshold?
                    let mut score: u128 = 0;
                    let mut q3: usize = 0;
                    while q3 < nm
                        invariant
                            q3 <= nm,
                            score as int == spec_score(imgsv, cl, cr.digest, q3 as int),
                            score <= 100 * (q3 as u128),
                        decreases nm - q3,
                    {
                        if vec_contains_u64(&member_digests[q3], cr.digest) {
                            score = score + weights[q3] as u128;
                        }
                        q3 = q3 + 1;
                    }
                    proof {
                        let tv = p.presence_threshold as int;
                        let uv = total as int;
                        assert(tv * uv <= 0xFFFF_FFFFint * 0x700_0000_0000_0000_0000int)
                            by (nonlinear_arith)
                            requires
                                0 <= tv <= 0xFFFF_FFFFint,
                                0 <= uv <= 0x700_0000_0000_0000_0000int,
                        ;
                    }
                    let selected = score * 100 >= (p.presence_threshold as u128) * total;
                    proof {
                        assert(selected == spec_selected(imgsv, cl, p, cr.digest));
                    }
                    if selected {
                        // Resolve the owning blob record in the store.
                        let mut src: Option<usize> = None;
                        let nsb = store.blobs.len();
                        let mut j: usize = 0;
                        while j < nsb && src.is_none()
                            invariant
                                j <= nsb,
                                nsb == sb.len(),
                                match src {
                                    Some(bi) => spec_find_blob(sb, cr.blob_id) == Some(bi as int),
                                    None => spec_find_blob(sb.take(j as int), cr.blob_id)
                                        is None,
                                },
                            decreases nsb - j, (if src is Some { 0int } else { 1int }),
                        {
                            if store.blobs[j].blob_id == cr.blob_id {
                                proof {
                                    crate::model::lemma_find_blob_hit(sb, j as int, cr.blob_id);
                                }
                                src = Some(j);
                            } else {
                                proof {
                                    assert(sb.take(j + 1).drop_last() =~= sb.take(j as int));
                                }
                                j = j + 1;
                            }
                        }
                        match src {
                            None => {
                                proof {
                                    assert(sb.take(nsb as int) =~= sb);
                                    assert(spec_dict_add_chunk(st_k, sb, imgsv, cl, p, cr)
                                        == st_k);
                                }
                            },
                            Some(bi) => {
                                proof {
                                    crate::model::lemma_find_blob_props(sb, cr.blob_id);
                                }
                                let d = store.blobs[bi];
                                // Insert-or-find the blob in the dictionary.
                                let mut at: Option<usize> = None;
                                let ndb = blobs.len();
                                let mut j: usize = 0;
                                while j < ndb && at.is_none()
                                    invariant
                                        j <= ndb,
                                        ndb == blobs@.len(),
                                        blobs@ == st_k.blobs,
                                        match at {
                                            Some(x) => spec_find_blob(blobs@, d.blob_id) == Some(
                                                x as int,
                                            ),
                                            None => spec_find_blob(
                                                blobs@.take(j as int),
                                                d.blob_id,
                                            ) is None,
                                        },
                                    decreases ndb - j, (if at is Some { 0int } else { 1int }),
                                {
                                    if blobs[j].blob_id == d.blob_id {
                                        proof {
                                            crate::model::lemma_find_blob_hit(blobs@, j as int,
                                                d.blob_id);
                                        }
                                        at = Some(j);
                                    } else {
                                        proof {
                                            assert(blobs@.take(j + 1).drop_last() =~= blobs@.take(
                                                j as int));
                                        }
                                        j = j + 1;
                                    }
                                }
                                let target: usize = match at {
                                    Some(x) => x,
                                    None => {
                                        proof {
                                            assert(blobs@.take(ndb as int) =~= blobs@);
                                        }
                                        let t = blobs.len();
                                        blobs.push(d);
                                        t
                                    },
                                };
                                proof {
                                    crate::model::lemma_find_blob_props(st_k.blobs, d.blob_id);
                                }
                                entries.push(DictEntry {
                                    digest: cr.digest,
                                    blob_index: target,
                                    offset: cr.offset,
                                    uncompressed_size: cr.uncompressed_size,
                                    compressed_size: cr.compressed_size,
                                });
                                proof {
                                    crate::dict::lemma_dict_find_props(st_k.entries, cr.digest);
                                    assert(DictV { entries: entries@, blobs: blobs@ }
                                        == spec_dict_add_chunk(st_k, sb, imgsv, cl, p, cr));
                                    assert(unique_digests(entries@)) by {
                                        assert(forall|a: int|
                                            0 <= a < st_k.entries.len()
                                                ==> (#[trigger] st_k.entries[a]).digest
                                                != cr.digest);
                                    }
                                    assert(dict_wf(DictV { entries: entries@, blobs: blobs@ }));
                                }
                            },
                        }
                    }
                }
                proof {
                    assert(DictV { entries: entries@, blobs: blobs@ } == spec_dict_add_chunks(
                        st_m,
                        sb,
                        imgsv,
                        cl,
                        p,
                        crs.take(m + 1),
                    ));
                }
                m = m + 1;
            }
            proof {
                assert(crs.take(nc as int) =~= crs);
            }
            pos = pos + 1;
        }
        proof {
            assert(DictV { entries: entries@, blobs: blobs@ } == spec_dict_add_clusters(
                init,
                sb,
                imgsv,
                clsv.take(ci + 1),
                p,
            ));
        }
        ci = ci + 1;
    }
    proof {
        assert(clsv.take(ncl as int) =~= clsv);
    }
    (ChunkDict { entries, blobs }, noise)
}


/// Path of the synthetic file carrying the dictionary entries.
pub open spec fn spec_dict_path() -> Seq<u8> {
    seq![47u8, 99u8, 104u8, 117u8, 110u8, 107u8, 100u8, 105u8, 99u8, 116u8]
}

/// The chunk standing for one dictionary entry in the synthetic bootstrap.
/// Dictionary entries carry no file layout, so the file offset is zero.
pub open spec fn spec_dict_chunk(e: DictEntry) -> Chunk {
    Chunk {
        digest: e.digest,
        file_offset: 0,
        uncompressed_size: e.uncompressed_size,
        compressed_size: e.compressed_size,
        offset: e.offset,
        compressed: false,
        blob_index: e.blob_index,
        format_version: None,
    }
}

/// First dictionary blob declaring a chunk size other than `cs`, if any.
pub open spec fn spec_first_size_mismatch(blobs: Seq<BlobDesc>, cs: u32) -> Option<int>
    decreases blobs.len(),
{
    if blobs.len() == 0 {
        None
    } else {
        match spec_first_size_mismatch(blobs.drop_last(), cs) {
            Some(i) => Some(i),
            None => if blobs.last().chunk_size != cs {
                Some(blobs.len() - 1)
            } else {
                None
            },
        }
    }
}

/// Emit the dictionary as a synthetic bootstrap: one file entry whose
/// chunks are the dictionary entries, over the dictionary's own blob
/// table, so the merge engine and builders can consume it through the
/// normal bootstrap interface.  Rejected when a dictionary blob's chunk
/// size conflicts with the requested format.
#[verifier::loop_isolation(false)]
pub fn dictionary_bootstrap(dict: &ChunkDict, config: crate::model::FormatConfig) -> (r: Result<
    Bootstrap,
    DedupError,
>)
    requires
        dict.wf(),
    ensures
        match r {
            Ok(b) => {
                &&& spec_first_size_mismatch(dict@.blobs, config.chunk_size) is None
                &&& b.wf()
                &&& b.config == config
                &&& b@.table == dict@.blobs
                &&& b@.tree.len() == 1
                &&& b@.tree[0].path == spec_dict_path()
                &&& b@.tree[0].node == (InodeV::File {
                    chunks: dict@.entries.map_values(|e: DictEntry| spec_dict_chunk(e)),
                })
            },
            Err(e) => {
                &&& spec_first_size_mismatch(dict@.blobs, config.chunk_size) matches Some(i)
                &&& e == (DedupError::InconsistentChunkSize {
                    blob_id: dict@.blobs[spec_first_size_mismatch(
                        dict@.blobs,
                        config.chunk_size,
                    )->Some_0].blob_id,
                    expected: config.chunk_size,
                    found: dict@.blobs[spec_first_size_mismatch(
                        dict@.blobs,
                        config.chunk_size,
                    )->Some_0].chunk_size,
                })
            },
        },
{
    let nb = dict.blobs.len();
    let mut k: usize = 0;
    while k < nb
        invariant
            k <= nb,
            spec_first_size_mismatch(dict@.blobs.take(k as int), config.chunk_size) is None,
        decreases nb - k,
    {
        proof {
            assert(dict@.blobs.take(k + 1).drop_last() =~= dict@.blobs.take(k as int));
            assert(dict@.blobs.take(k + 1).last() == dict@.blobs[k as int]);
        }
        if dict.blobs[k].chunk_size != config.chunk_size {
            proof {
                assert(spec_first_size_mismatch(dict@.blobs.take(k + 1), config.chunk_size)
                    == Some(k as int));
                lemma_size_mismatch_extend(dict@.blobs, k + 1, config.chunk_size);
            }
            return Err(DedupError::InconsistentChunkSize {
                blob_id: dict.blobs[k].blob_id,
                expected: config.chunk_size,
                found: dict.blobs[k].chunk_size,
            });
        }
        k = k + 1;
    }
    proof {
        assert(dict@.blobs.take(nb as int) =~= dict@.blobs);
    }
    // One file whose chunks are the dictionary entries.
    let ne = dict.entries.len();
    let mut chunks: Vec<Chunk> = Vec::new();
    let mut m: usize = 0;
    while m < ne
        invariant
            m <= ne,
            chunks@ == dict@.entries.take(m as int).map_values(
                |e: DictEntry| spec_dict_chunk(e),
            ),
        decreases ne - m,
    {
        let e = dict.entries[m];
        chunks.push(Chunk {
            digest: e.digest,
            file_offset: 0,
            uncompressed_size: e.uncompressed_size,
            compressed_size: e.compressed_size,
            offset: e.offset,
            compressed: false,
            blob_index: e.blob_index,
            format_version: None,
        });
        proof {
            assert(chunks@ =~= dict@.entries.take(m + 1).map_values(
                |e: DictEntry| spec_dict_chunk(e),
            ));
        }
        m = m + 1;
    }
    proof {
        assert(dict@.entries.take(ne as int) =~= dict@.entries);
    }
    let mut path: Vec<u8> = Vec::new();
    path.push(47);
    path.push(99);
    path.push(104);
    path.push(117);
    path.push(110);
    path.push(107);
    path.push(100);
    path.push(105);
    path.push(99);
    path.push(116);
    proof {
        assert(path@ =~= spec_dict_path());
    }
    let mut table_entries: Vec<BlobDesc> = Vec::new();
    let mut k: usize = 0;
    while k < nb
        invariant
            k <= nb,
            table_entries@ == dict@.blobs.take(k as int),
        decreases nb - k,
    {
        table_entries.push(dict.blobs[k]);
        proof {
            assert(table_entries@ =~= dict@.blobs.take(k + 1));
        }
        k = k + 1;
    }
    proof {
        assert(dict@.blobs.take(nb as int) =~= dict@.blobs);
    }
    let mut tree_entries: Vec<crate::tree::TreeEntry> = Vec::new();
    tree_entries.push(crate::tree::TreeEntry { path, node: Inode::File { chunks } });
    let b = Bootstrap {
        config,
        tree: crate::tree::Tree { entries: tree_entries },
        table: crate::model::BlobTable { chunk_size: config.chunk_size, entries: table_entries },
    };
    proof {
        assert(b@.tree =~= seq![
            EntryV {
                path: spec_dict_path(),
                node: InodeV::File {
                    chunks: dict@.entries.map_values(|e: DictEntry| spec_dict_chunk(e)),
                },
            },
        ]);
        assert(crate::tree::paths_unique(b@.tree));
        assert(crate::bootstrap::chunks_valid(b@.tree, b@.table.len() as int)) by {
            assert(node_chunks_valid(b@.tree[0].node, b@.table.len() as int)) by {
                let cks = dict@.entries.map_values(|e: DictEntry| spec_dict_chunk(e));
                assert(forall|j: int|
                    0 <= j < cks.len() ==> (#[trigger] cks[j]).blob_index
                        == dict@.entries[j].blob_index);
            }
        }
        assert(crate::model::homogeneous(b@.table, config.chunk_size)) by {
            crate::model::lemma_find_blob_props(dict@.blobs, 0);
            assert(forall|i: int|
                0 <= i < dict@.blobs.len() ==> (#[trigger] dict@.blobs[i]).chunk_size
                    == config.chunk_size) by {
                lemma_size_mismatch_none(dict@.blobs, config.chunk_size);
            }
        }
        assert(b.wf());
    }
    Ok(b)
}

/// Once a prefix holds a size mismatch, the whole list finds it there.
pub proof fn lemma_size_mismatch_extend(blobs: Seq<BlobDesc>, k: int, cs: u32)
    requires
        0 <= k <= blobs.len(),
    ensures
        spec_first_size_mismatch(blobs.take(k), cs) matches Some(i) ==> spec_first_size_mismatch(
            blobs,
            cs,
        ) == Some(i),
    decreases blobs.len() - k,
{
    if k < blobs.len() {
        assert(blobs.take(k + 1).drop_last() =~= blobs.take(k));
        lemma_size_mismatch_extend(blobs, k + 1, cs);
    } else {
        assert(blobs.take(k) =~= blobs);
    }
}

/// With no mismatch found, every blob declares chunk size `cs`.
pub proof fn lemma_size_mismatch_none(blobs: Seq<BlobDesc>, cs: u32)
    requires
        spec_first_size_mismatch(blobs, cs) is None,
    ensures
        forall|i: int| 0 <= i < blobs.len() ==> (#[trigger] blobs[i]).chunk_size == cs,
    decreases blobs.len(),
{
    if blobs.len() > 0 {
        lemma_size_mismatch_none(blobs.drop_last(), cs);
        assert(forall|j: int| 0 <= j < blobs.len() - 1 ==> blobs.drop_last()[j] == blobs[j]);
    }
}


/// Index of the first source configuration differing from the first
/// source's, if any.
pub open spec fn spec_config_mismatch(cs: Seq<FormatConfig>) -> Option<int>
    decreases cs.len(),
{
    if cs.len() == 0 {
        None
    } else {
        match spec_config_mismatch(cs.drop_last()) {
            Some(i) => Some(i),
            None => if cs.last() != cs[0] {
                Some(cs.len() - 1)
            } else {
                None
            },
        }
    }
}

/// What `spec_config_mismatch` returns: the first differing position, or
/// proof that every configuration equals the first.
pub proof fn lemma_config_mismatch_props(cs: Seq<FormatConfig>)
    ensures
        match spec_config_mismatch(cs) {
            Some(i) => 0 < i < cs.len() && cs[i] != cs[0] && (forall|j: int|
                0 <= j < i ==> #[trigger] cs[j] == cs[0]),
            None => forall|j: int| 0 <= j < cs.len() ==> #[trigger] cs[j] == cs[0],
        },
    decreases cs.len(),
{
    if cs.len() > 0 {
        let d = cs.drop_last();
        lemma_config_mismatch_props(d);
        assert(forall|j: int| 0 <= j < d.len() ==> d[j] == cs[j]);
        if cs.len() > 1 {
            assert(d[0] == cs[0]);
        }
    }
}

/// Once a prefix contains a mismatch, the whole list finds it there.
pub proof fn lemma_config_mismatch_extend(cs: Seq<FormatConfig>, k: int)
    requires
        1 <= k <= cs.len(),
    ensures
        spec_config_mismatch(cs.take(k)) matches Some(i) ==> spec_config_mismatch(cs) == Some(i),
    decreases cs.len() - k,
{
    if k < cs.len() {
        assert(cs.take(k + 1).drop_last() =~= cs.take(k));
        assert(cs.take(k + 1)[0] == cs.take(k)[0]);
        lemma_config_mismatch_extend(cs, k + 1);
    } else {
        assert(cs.take(k) =~= cs);
    }
}

/// Fail-fast consistency check over the format configurations of the
/// source bootstraps of one extraction run: configuration inconsistency is
/// fatal before any record is persisted, so the driver calls this before
/// the first `extract`.  Returns the position of the first configuration
/// that differs from the first source's, or `None` when all agree.
#[verifier::loop_isolation(false)]
pub fn check_consistent_configs(configs: &Vec<FormatConfig>) -> (r: Option<usize>)
    ensures
        match r {
            Some(i) => spec_config_mismatch(configs@) == Some(i as int),
            None => spec_config_mismatch(configs@) is None,
        },
{
    let n = configs.len();
    if n == 0 {
        return None;
    }
    let first = configs[0];
    let mut k: usize = 1;
    proof {
        assert(spec_config_mismatch(Seq::<FormatConfig>::empty()) is None);
        assert(configs@.take(1).drop_last() =~= Seq::<FormatConfig>::empty());
        assert(configs@.take(1).last() == configs@[0]);
        assert(configs@.take(1)[0] == configs@[0]);
        assert(spec_config_mismatch(configs@.take(1)) is None);
    }
    while k < n
        invariant
            1 <= k <= n,
            first == configs@[0],
            spec_config_mismatch(configs@.take(k as int)) is None,
        decreases n - k,
    {
        proof {
            assert(configs@.take(k + 1).drop_last() =~= configs@.take(k as int));
            assert(configs@.take(k + 1).last() == configs@[k as int]);
            assert(configs@.take(k + 1)[0] == configs@[0]);
        }
        if configs[k] != first {
            proof {
                assert(spec_config_mismatch(configs@.take(k + 1)) == Some(k as int));
                lemma_config_mismatch_extend(configs@, k + 1);
            }
            return Some(k);
        }
        k = k + 1;
    }
    proof {
        assert(configs@.take(n as int) =~= configs@);
    }
    None
}

} // verus!
