use nydus_image::bootstrap::{summarize, Bootstrap};
use nydus_image::dict::{ChunkDict, DictEntry};
use nydus_image::merge::{merge, BlobOverride, MergeError};
use nydus_image::model::{BlobDesc, BlobTable, Chunk, Compressor, Digester, FormatConfig, FsVersion};
use nydus_image::tree::{Inode, Tree, TreeEntry};

const CS: u32 = 1048576;

fn config() -> FormatConfig {
    FormatConfig {
        version: FsVersion::V6,
        compressor: Compressor::Lz4Block,
        digester: Digester::Blake3,
        chunk_size: CS,
        explicit_uidgid: false,
        tarfs_mode: false,
    }
}

fn blob(id: u64, size: u64) -> BlobDesc {
    BlobDesc {
        blob_id: id,
        compressed_size: size,
        uncompressed_size: size,
        chunk_count: 1,
        chunk_size: CS,
        features: 0,
        toc_digest: None,
        toc_size: None,
        original_blob_id: None,
    }
}

fn chunk(digest: u64, blob_index: usize, size: u32, offset: u64) -> Chunk {
    Chunk {
        digest,
        file_offset: 0,
        uncompressed_size: size,
        compressed_size: size,
        offset,
        compressed: false,
        blob_index,
        format_version: None,
    }
}

fn file(path: &str, chunks: Vec<Chunk>) -> TreeEntry {
    TreeEntry { path: path.as_bytes().to_vec(), node: Inode::File { chunks } }
}

fn dir(path: &str) -> TreeEntry {
    TreeEntry { path: path.as_bytes().to_vec(), node: Inode::Directory }
}

fn whiteout(path: &str) -> TreeEntry {
    TreeEntry { path: path.as_bytes().to_vec(), node: Inode::Whiteout }
}

fn bootstrap(blobs: Vec<BlobDesc>, entries: Vec<TreeEntry>) -> Bootstrap {
    Bootstrap {
        config: config(),
        tree: Tree { entries },
        table: BlobTable { chunk_size: CS, entries: blobs },
    }
}

fn no_overrides() -> Vec<BlobOverride> {
    Vec::new()
}

fn tree_find<'a>(t: &'a Tree, path: &str) -> Option<&'a TreeEntry> {
    t.find(&path.as_bytes().to_vec()).map(|i| t.get(i))
}

fn file_chunks<'a>(e: &'a TreeEntry) -> &'a Vec<Chunk> {
    match &e.node {
        Inode::File { chunks } => chunks,
        _ => panic!("expected a file"),
    }
}

#[test]
fn test_merge_single_bootstrap_is_identity() {
    let mk = || {
        bootstrap(
            vec![blob(0xa, 100), blob(0xb, 200)],
            vec![
                dir("/etc"),
                file("/etc/x", vec![chunk(1, 0, 10, 0), chunk(2, 1, 20, 0)]),
                file("/bin", vec![chunk(3, 1, 30, 20)]),
            ],
        )
    };
    let out = merge(None, vec![mk()], &no_overrides(), None).unwrap();
    let orig = mk();
    assert!(out.check_wf());
    assert_eq!(out.table.entries, orig.table.entries);
    assert_eq!(out.tree.len(), orig.tree.len());
    for i in 0..orig.tree.len() {
        let a = out.tree.get(i);
        let b = orig.tree.get(i);
        assert_eq!(a.path, b.path);
        match (&a.node, &b.node) {
            (Inode::Directory, Inode::Directory) => {}
            (Inode::File { chunks: ca }, Inode::File { chunks: cb }) => assert_eq!(ca, cb),
            _ => panic!("inode mismatch at {}", i),
        }
    }
}

#[test]
fn test_merge_three_layers_last_source_wins() {
    // C overlays /etc/x, which A also provides: the output holds C's
    // version; the blob table is the union of A's, B's and C's blobs by
    // identity.
    let a = bootstrap(
        vec![blob(0xa, 100)],
        vec![dir("/etc"), file("/etc/x", vec![chunk(1, 0, 10, 0)])],
    );
    let b = bootstrap(vec![blob(0xb, 100)], vec![file("/usr", vec![chunk(2, 0, 10, 0)])]);
    let c = bootstrap(
        vec![blob(0xa, 100), blob(0xc, 100)],
        vec![dir("/etc"), file("/etc/x", vec![chunk(9, 1, 10, 0)])],
    );
    let out = merge(None, vec![a, b, c], &no_overrides(), None).unwrap();
    assert!(out.check_wf());
    let ids: Vec<u64> = out.table.entries.iter().map(|d| d.blob_id).collect();
    assert_eq!(ids, vec![0xa, 0xb, 0xc]);
    let e = tree_find(&out.tree, "/etc/x").unwrap();
    let cks = file_chunks(e);
    assert_eq!(cks.len(), 1);
    assert_eq!(cks[0].digest, 9);
    // C's chunk lived in C's blob 0xc, which sits at unified position 2.
    assert_eq!(cks[0].blob_index, 2);
}

#[test]
fn test_merge_parent_seeds_base_layer() {
    let parent = bootstrap(
        vec![blob(0x1, 50)],
        vec![file("/base", vec![chunk(7, 0, 5, 0)])],
    );
    let src = bootstrap(vec![blob(0x2, 50)], vec![file("/top", vec![chunk(8, 0, 5, 0)])]);
    let out = merge(Some(parent), vec![src], &no_overrides(), None).unwrap();
    let ids: Vec<u64> = out.table.entries.iter().map(|d| d.blob_id).collect();
    assert_eq!(ids, vec![0x1, 0x2]);
    assert!(tree_find(&out.tree, "/base").is_some());
    let top = tree_find(&out.tree, "/top").unwrap();
    assert_eq!(file_chunks(top)[0].blob_index, 1);
}

#[test]
fn test_merge_whiteout_removes_subtree() {
    let lower = bootstrap(
        vec![blob(0xa, 100)],
        vec![
            dir("/etc"),
            file("/etc/x", vec![chunk(1, 0, 10, 0)]),
            file("/keep", vec![chunk(2, 0, 10, 10)]),
        ],
    );
    let upper = bootstrap(vec![], vec![whiteout("/etc")]);
    let out = merge(None, vec![lower, upper], &no_overrides(), None).unwrap();
    assert!(tree_find(&out.tree, "/etc").is_none());
    assert!(tree_find(&out.tree, "/etc/x").is_none());
    assert!(tree_find(&out.tree, "/keep").is_some());
}

#[test]
fn test_merge_file_shadows_descendants() {
    let lower = bootstrap(
        vec![blob(0xa, 100)],
        vec![dir("/data"), file("/data/log", vec![chunk(1, 0, 10, 0)])],
    );
    let upper = bootstrap(vec![blob(0xb, 100)], vec![file("/data", vec![chunk(5, 0, 10, 0)])]);
    let out = merge(None, vec![lower, upper], &no_overrides(), None).unwrap();
    let e = tree_find(&out.tree, "/data").unwrap();
    assert_eq!(file_chunks(e)[0].digest, 5);
    assert!(tree_find(&out.tree, "/data/log").is_none());
}

#[test]
fn test_merge_rejects_mismatched_config() {
    let a = bootstrap(vec![blob(0xa, 100)], vec![]);
    let mut b = bootstrap(vec![blob(0xb, 100)], vec![]);
    b.config.compressor = Compressor::Zstd;
    let r = merge(None, vec![a, b], &no_overrides(), None);
    assert_eq!(r.err().unwrap(), MergeError::IncompatibleConfig { source_index: 1 });
}

#[test]
fn test_merge_rejects_dangling_blob_reference() {
    let a = bootstrap(vec![blob(0xa, 100)], vec![file("/x", vec![chunk(1, 5, 10, 0)])]);
    let r = merge(None, vec![a], &no_overrides(), None);
    assert_eq!(
        r.err().unwrap(),
        MergeError::DanglingBlobRef { source_index: 0, blob_index: 5 }
    );
}

#[test]
fn test_merge_rejects_empty_input() {
    let r = merge(None, Vec::new(), &no_overrides(), None);
    assert_eq!(r.err().unwrap(), MergeError::NoSource);
}

#[test]
fn test_merge_applies_blob_overrides() {
    let a = bootstrap(vec![blob(0xa, 100)], vec![file("/x", vec![chunk(1, 0, 10, 0)])]);
    let ovr = vec![BlobOverride {
        blob_id: 0xa,
        new_blob_id: Some(0xff),
        compressed_size: Some(77),
        uncompressed_size: None,
        original_id: Some(0xa),
        toc_digest: Some(0x70),
        toc_size: Some(64),
    }];
    let out = merge(None, vec![a], &ovr, None).unwrap();
    assert_eq!(out.table.entries.len(), 1);
    let d = &out.table.entries[0];
    assert_eq!(d.blob_id, 0xff);
    assert_eq!(d.compressed_size, 77);
    assert_eq!(d.uncompressed_size, 100);
    assert_eq!(d.original_blob_id, Some(0xa));
    assert_eq!(d.toc_size, Some(64));
    // The chunk follows the overridden blob.
    let e = tree_find(&out.tree, "/x").unwrap();
    assert_eq!(file_chunks(e)[0].blob_index, 0);
}

#[test]
fn test_merge_dictionary_suppresses_known_chunks() {
    let dict = ChunkDict {
        entries: vec![DictEntry {
            digest: 5,
            blob_index: 0,
            offset: 4242,
            uncompressed_size: 10,
            compressed_size: 10,
        }],
        blobs: vec![blob(0xd1c7, 500)],
    };
    let a = bootstrap(
        vec![blob(0xa, 100)],
        vec![file("/x", vec![chunk(5, 0, 10, 0), chunk(6, 0, 10, 10)])],
    );
    let out = merge(None, vec![a], &no_overrides(), Some(&dict)).unwrap();
    let ids: Vec<u64> = out.table.entries.iter().map(|d| d.blob_id).collect();
    // The source blob is folded in first; the dictionary blob joins on the
    // first hit.
    assert_eq!(ids, vec![0xa, 0xd1c7]);
    let cks = file_chunks(tree_find(&out.tree, "/x").unwrap());
    assert_eq!(cks[0].blob_index, 1);
    assert_eq!(cks[0].offset, 4242);
    assert_eq!(cks[1].blob_index, 0);
}

#[test]
fn test_summarize_reports_blobs_and_format() {
    let mut flagged = blob(0xe, 10);
    flagged.features = nydus_image::model::BLOB_FEATURE_SEPARATE_META;
    let b = bootstrap(vec![blob(0xa, 100), flagged], vec![]);
    let out = summarize(&b);
    assert_eq!(out.blob_ids, vec![0xa, 0xe]);
    assert_eq!(out.external_blob_ids, vec![0xe]);
    assert_eq!(out.version, FsVersion::V6);
    assert_eq!(out.compressor, Compressor::Lz4Block);
}

#[test]
fn test_merge_rejects_conflicting_blob_chunk_size() {
    let mut odd = blob(0xa, 100);
    odd.chunk_size = 4096;
    let a = bootstrap(vec![odd], vec![]);
    let r = merge(None, vec![a], &no_overrides(), None);
    assert_eq!(
        r.err().unwrap(),
        MergeError::ChunkSizeConflict { source_index: 0, blob_id: 0xa }
    );
}
