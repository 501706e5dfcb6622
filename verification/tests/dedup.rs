use nydus_image::bootstrap::Bootstrap;
use nydus_image::dedup::{
    build_dictionary, check_consistent_configs, cluster, dictionary_bootstrap, ClusterParams,
    DedupError, RecordStore,
};
use nydus_image::model::{BlobDesc, BlobTable, Chunk, Compressor, Digester, FormatConfig, FsVersion};
use nydus_image::tree::{Inode, Tree, TreeEntry};

const CS: u32 = 1048576;

fn config() -> FormatConfig {
    FormatConfig {
        version: FsVersion::V6,
        compressor: Compressor::Lz4Block,
        digester: Digester::Blake3,
        chunk_size: CS,
        explicit_uidgid: false,
        tarfs_mode: false,
    }
}

fn blob(id: u64, size: u64) -> BlobDesc {
    BlobDesc {
        blob_id: id,
        compressed_size: size,
        uncompressed_size: size,
        chunk_count: 1,
        chunk_size: CS,
        features: 0,
        toc_digest: None,
        toc_size: None,
        original_blob_id: None,
    }
}

fn chunk(digest: u64, blob_index: usize, size: u32, offset: u64) -> Chunk {
    Chunk {
        digest,
        file_offset: 0,
        uncompressed_size: size,
        compressed_size: size,
        offset,
        compressed: false,
        blob_index,
        format_version: None,
    }
}

fn image_bootstrap(blob_id: u64, digests: &[u64]) -> Bootstrap {
    let chunks: Vec<Chunk> =
        digests.iter().enumerate().map(|(i, d)| chunk(*d, 0, 10, 10 * i as u64)).collect();
    Bootstrap {
        config: config(),
        tree: Tree { entries: vec![TreeEntry { path: b"/rootfs".to_vec(), node: Inode::File { chunks } }] },
        table: BlobTable { chunk_size: CS, entries: vec![blob(blob_id, 1000)] },
    }
}

fn params(sim: u32, minn: u32, presence: u32) -> ClusterParams {
    ClusterParams { sim_threshold: sim, min_neighbors: minn, presence_threshold: presence }
}

#[test]
fn test_extract_records_chunks_and_blobs() {
    let mut store = RecordStore::new();
    let b = image_bootstrap(0xaa, &[1, 2, 3]);
    store.extract(&b, b"app".to_vec(), b"v1".to_vec(), 1).unwrap();
    assert_eq!(store.image_count(), 1);
    assert_eq!(store.images[0].chunks.len(), 3);
    assert_eq!(store.images[0].chunks[0].digest, 1);
    assert_eq!(store.images[0].chunks[0].blob_id, 0xaa);
    assert_eq!(store.images[0].chunks[2].offset, 20);
    assert_eq!(store.blobs.len(), 1);
    assert_eq!(store.blobs[0].blob_id, 0xaa);
}

#[test]
fn test_extract_same_key_twice_is_rejected() {
    let mut store = RecordStore::new();
    let b1 = image_bootstrap(0xaa, &[1, 2, 3]);
    let b2 = image_bootstrap(0xbb, &[4, 5, 6]);
    store.extract(&b1, b"app".to_vec(), b"v1".to_vec(), 1).unwrap();
    // The same (name, tag) key again: rejected, store untouched, no
    // divergent duplicate records.
    let r = store.extract(&b2, b"app".to_vec(), b"v1".to_vec(), 2);
    assert_eq!(r, Err(DedupError::DuplicateImage { image_index: 0 }));
    assert_eq!(store.image_count(), 1);
    assert_eq!(store.images[0].chunks[0].blob_id, 0xaa);
    assert_eq!(store.blobs.len(), 1);
    // A different tag of the same image is a fresh key.
    store.extract(&b2, b"app".to_vec(), b"v2".to_vec(), 2).unwrap();
    assert_eq!(store.image_count(), 2);
}

#[test]
fn test_cluster_overlapping_pair_third_is_noise() {
    let mut store = RecordStore::new();
    // Two images sharing 8 of 12 distinct digests; a third sharing none.
    store
        .extract(
            &image_bootstrap(0xaa, &[1, 2, 3, 4, 5, 6, 7, 8, 9, 10]),
            b"app".to_vec(),
            b"v1".to_vec(),
            1,
        )
        .unwrap();
    store
        .extract(
            &image_bootstrap(0xbb, &[1, 2, 3, 4, 5, 6, 7, 8, 11, 12]),
            b"web".to_vec(),
            b"v1".to_vec(),
            2,
        )
        .unwrap();
    store
        .extract(
            &image_bootstrap(0xcc, &[100, 101, 102, 103, 104]),
            b"db".to_vec(),
            b"v1".to_vec(),
            3,
        )
        .unwrap();
    let (clusters, noise) = cluster(&store, params(50, 1, 60));
    assert_eq!(clusters.len(), 1);
    assert_eq!(clusters[0], vec![0, 1]);
    assert_eq!(noise, vec![2]);
}

#[test]
fn test_dictionary_from_clustered_pair_only() {
    let mut store = RecordStore::new();
    store
        .extract(
            &image_bootstrap(0xaa, &[1, 2, 3, 4, 5, 6, 7, 8, 9, 10]),
            b"app".to_vec(),
            b"v1".to_vec(),
            1,
        )
        .unwrap();
    store
        .extract(
            &image_bootstrap(0xbb, &[1, 2, 3, 4, 5, 6, 7, 8, 11, 12]),
            b"web".to_vec(),
            b"v1".to_vec(),
            2,
        )
        .unwrap();
    store
        .extract(
            &image_bootstrap(0xcc, &[100, 101, 102, 103, 104]),
            b"db".to_vec(),
            b"v1".to_vec(),
            3,
        )
        .unwrap();
    let (dict, noise) = build_dictionary(&store, params(50, 1, 60));
    // The noise point is reported, in image order, and contributes nothing.
    assert_eq!(noise, vec![2]);
    let (name, tag) = store.image_key(noise[0]);
    assert_eq!(name, &b"db".to_vec());
    assert_eq!(tag, &b"v1".to_vec());
    // Only digests present in both clustered images pass the 60% bar; each
    // entry points at the first owner's blob.
    let digests: Vec<u64> = dict.entries.iter().map(|e| e.digest).collect();
    assert_eq!(digests, vec![1, 2, 3, 4, 5, 6, 7, 8]);
    assert!(dict.entries.iter().all(|e| e.blob_index == 0));
    assert_eq!(dict.blobs.len(), 1);
    assert_eq!(dict.blobs[0].blob_id, 0xaa);
}

#[test]
fn test_dictionary_discounts_outdated_rescans() {
    let mut store = RecordStore::new();
    // Two scans of the same logical image: the newer one carries digests
    // {1, 2}, the older one {1, 3}.
    store.extract(&image_bootstrap(0xaa, &[1, 2]), b"app".to_vec(), b"new".to_vec(), 20).unwrap();
    store.extract(&image_bootstrap(0xbb, &[1, 3]), b"app".to_vec(), b"old".to_vec(), 10).unwrap();
    // Overlap 1 of 3 distinct digests = 33%, so threshold 30 clusters them.
    // Weights: newest scan 100, outdated scan 50, total 150; bar at 60%
    // needs a score of 90.
    let (dict, noise) = build_dictionary(&store, params(30, 1, 60));
    assert_eq!(noise, Vec::<usize>::new());
    let digests: Vec<u64> = dict.entries.iter().map(|e| e.digest).collect();
    // Shared digest 1 scores 150; the newest-only digest 2 scores 100; the
    // outdated-only digest 3 scores just 50 and is left out.
    assert_eq!(digests, vec![1, 2]);
}

#[test]
fn test_empty_dictionary_is_valid() {
    let mut store = RecordStore::new();
    // One clustered pair with zero overlap above the presence bar is
    // impossible here: a lone image with no neighbours is noise, and a
    // corpus of noise yields an empty (but valid) dictionary.
    store.extract(&image_bootstrap(0xaa, &[1, 2]), b"app".to_vec(), b"v1".to_vec(), 1).unwrap();
    let (dict, noise) = build_dictionary(&store, params(50, 1, 60));
    assert_eq!(dict.entries.len(), 0);
    assert_eq!(dict.blobs.len(), 0);
    assert_eq!(noise, vec![0]);
}

#[test]
fn test_dictionary_lookup() {
    let mut store = RecordStore::new();
    store.extract(&image_bootstrap(0xaa, &[1, 2]), b"app".to_vec(), b"v1".to_vec(), 1).unwrap();
    store.extract(&image_bootstrap(0xbb, &[1, 2]), b"web".to_vec(), b"v1".to_vec(), 2).unwrap();
    let (dict, _) = build_dictionary(&store, params(50, 1, 60));
    let hit = dict.lookup(1).unwrap();
    assert_eq!(hit.digest, 1);
    assert_eq!(dict.blobs[hit.blob_index].blob_id, 0xaa);
    assert!(dict.lookup(999).is_none());
}

#[test]
fn test_dictionary_bootstrap_round_trip() {
    let mut store = RecordStore::new();
    store.extract(&image_bootstrap(0xaa, &[1, 2]), b"app".to_vec(), b"v1".to_vec(), 1).unwrap();
    store.extract(&image_bootstrap(0xbb, &[1, 2]), b"web".to_vec(), b"v1".to_vec(), 2).unwrap();
    let (dict, _) = build_dictionary(&store, params(50, 1, 60));
    let b = dictionary_bootstrap(&dict, config()).unwrap();
    assert!(b.check_wf());
    assert_eq!(b.table.entries, dict.blobs);
    assert_eq!(b.tree.len(), 1);
    let e = b.tree.get(0);
    assert_eq!(e.path, b"/chunkdict".to_vec());
    match &e.node {
        Inode::File { chunks } => {
            assert_eq!(chunks.len(), dict.entries.len());
            assert_eq!(chunks[0].digest, 1);
            assert_eq!(chunks[1].digest, 2);
        }
        _ => panic!("expected a file"),
    }
}

#[test]
fn test_dictionary_bootstrap_rejects_chunk_size_conflict() {
    let mut odd = blob(0x7, 10);
    odd.chunk_size = 4096;
    let dict = nydus_image::dict::ChunkDict { entries: vec![], blobs: vec![odd] };
    let r = dictionary_bootstrap(&dict, config());
    assert_eq!(
        r.err().unwrap(),
        DedupError::InconsistentChunkSize { blob_id: 0x7, expected: CS, found: 4096 }
    );
}

#[test]
fn test_check_consistent_configs() {
    let a = config();
    let b = config();
    let mut c = config();
    c.compressor = Compressor::Zstd;
    assert_eq!(check_consistent_configs(&vec![a, b]), None);
    assert_eq!(check_consistent_configs(&vec![a, b, c]), Some(2));
    assert_eq!(check_consistent_configs(&vec![]), None);
}
