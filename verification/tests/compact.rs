use nydus_image::bootstrap::Bootstrap;
use nydus_image::compact::{compact, CompactConfig, CompactError};
use nydus_image::dict::ChunkDict;
use nydus_image::model::{BlobDesc, BlobTable, Chunk, Compressor, Digester, FormatConfig, FsVersion};
use nydus_image::tree::{Inode, Tree, TreeEntry};

const CS: u32 = 1048576;

fn config() -> FormatConfig {
    FormatConfig {
        version: FsVersion::V6,
        compressor: Compressor::Lz4Block,
        digester: Digester::Blake3,
        chunk_size: CS,
        explicit_uidgid: false,
        tarfs_mode: false,
    }
}

fn blob(id: u64, size: u64) -> BlobDesc {
    BlobDesc {
        blob_id: id,
        compressed_size: size,
        uncompressed_size: size,
        chunk_count: 1,
        chunk_size: CS,
        features: 0,
        toc_digest: None,
        toc_size: None,
        original_blob_id: None,
    }
}

fn chunk(digest: u64, blob_index: usize, size: u32, offset: u64) -> Chunk {
    Chunk {
        digest,
        file_offset: 0,
        uncompressed_size: size,
        compressed_size: size,
        offset,
        compressed: false,
        blob_index,
        format_version: None,
    }
}

fn file(path: &str, chunks: Vec<Chunk>) -> TreeEntry {
    TreeEntry { path: path.as_bytes().to_vec(), node: Inode::File { chunks } }
}

fn bootstrap(blobs: Vec<BlobDesc>, entries: Vec<TreeEntry>) -> Bootstrap {
    Bootstrap {
        config: config(),
        tree: Tree { entries },
        table: BlobTable { chunk_size: CS, entries: blobs },
    }
}

fn cfg(min_used_ratio: u32, compact_blob_size: u64, max_compact_size: u64, layers: u32) -> CompactConfig {
    CompactConfig {
        min_used_ratio,
        compact_blob_size,
        max_compact_size,
        layers_to_compact: layers,
    }
}

fn file_chunks<'a>(e: &'a TreeEntry) -> &'a Vec<Chunk> {
    match &e.node {
        Inode::File { chunks } => chunks,
        _ => panic!("expected a file"),
    }
}

fn live_bytes(b: &Bootstrap) -> u64 {
    let mut total: u64 = 0;
    for i in 0..b.tree.len() {
        if let Inode::File { chunks } = &b.tree.get(i).node {
            for c in chunks {
                total += c.uncompressed_size as u64;
            }
        }
    }
    total
}

#[test]
fn test_compact_repacks_underused_and_small_blobs() {
    // Blob 0x10 is 10% used, blob 0x90 is 90% used; both are small enough
    // to merge.  The output drops both original entries and packs all live
    // chunks into one fresh blob.
    let b = bootstrap(
        vec![blob(0x10, 100), blob(0x90, 100)],
        vec![
            file("/a", vec![chunk(1, 0, 10, 0)]),
            file("/b", vec![chunk(2, 1, 45, 0), chunk(3, 1, 45, 45)]),
        ],
    );
    assert!(b.check_wf());
    let out = compact(&b, None, cfg(50, 1000, 1000, 0)).unwrap().unwrap();
    assert!(out.check_wf());
    assert_eq!(out.table.entries.len(), 1);
    let packed = &out.table.entries[0];
    // A fresh id above every input id.
    assert_eq!(packed.blob_id, 0x90 + 1);
    assert_eq!(packed.compressed_size, 100);
    assert_eq!(packed.chunk_count, 3);
    // Conservation: every live chunk survives with its content and sizes;
    // the total live byte count is unchanged.
    assert_eq!(live_bytes(&out), live_bytes(&b));
    let ca = file_chunks(out.tree.get(0));
    let cb = file_chunks(out.tree.get(1));
    assert_eq!(ca[0].digest, 1);
    assert_eq!((ca[0].blob_index, ca[0].offset), (0, 0));
    assert_eq!((cb[0].blob_index, cb[0].offset), (0, 10));
    assert_eq!((cb[1].blob_index, cb[1].offset), (0, 55));
}

#[test]
fn test_compact_keeps_well_used_large_blobs() {
    // The 90%-used blob is too large to merge and stays; only the underused
    // one is repacked.
    let b = bootstrap(
        vec![blob(0x10, 100), blob(0x90, 5000)],
        vec![
            file("/a", vec![chunk(1, 0, 10, 0)]),
            file("/b", vec![chunk(2, 1, 4500, 0)]),
        ],
    );
    let out = compact(&b, None, cfg(50, 1000, 1000, 0)).unwrap().unwrap();
    assert!(out.check_wf());
    let ids: Vec<u64> = out.table.entries.iter().map(|d| d.blob_id).collect();
    assert_eq!(ids, vec![0x90, 0x91]);
    // The kept blob's chunk follows it to position 0, offset unchanged.
    let cb = file_chunks(out.tree.get(1));
    assert_eq!((cb[0].blob_index, cb[0].offset), (0, 0));
    // The relocated chunk sits in the packed blob.
    let ca = file_chunks(out.tree.get(0));
    assert_eq!((ca[0].blob_index, ca[0].offset), (1, 0));
}

#[test]
fn test_compact_respects_max_compact_size() {
    // Three relocated chunks of 40 bytes with a 100-byte bound: two blobs.
    let b = bootstrap(
        vec![blob(0x10, 1000)],
        vec![file("/a", vec![chunk(1, 0, 40, 0), chunk(2, 0, 40, 40), chunk(3, 0, 40, 80)])],
    );
    let out = compact(&b, None, cfg(50, 2000, 100, 0)).unwrap().unwrap();
    assert_eq!(out.table.entries.len(), 2);
    assert_eq!(out.table.entries[0].compressed_size, 80);
    assert_eq!(out.table.entries[1].compressed_size, 40);
    // Chunk counts state exactly how many chunks each packed blob holds.
    assert_eq!(out.table.entries[0].chunk_count, 2);
    assert_eq!(out.table.entries[1].chunk_count, 1);
    let ca = file_chunks(out.tree.get(0));
    assert_eq!((ca[0].blob_index, ca[0].offset), (0, 0));
    assert_eq!((ca[1].blob_index, ca[1].offset), (0, 40));
    assert_eq!((ca[2].blob_index, ca[2].offset), (1, 0));
}

#[test]
fn test_compact_skips_below_layer_threshold() {
    let b = bootstrap(
        vec![blob(0x10, 100), blob(0x20, 100)],
        vec![file("/a", vec![chunk(1, 0, 10, 0)])],
    );
    let r = compact(&b, None, cfg(50, 1000, 1000, 3)).unwrap();
    assert!(r.is_none());
}

#[test]
fn test_compact_zero_layer_threshold_always_compacts() {
    let b = bootstrap(vec![blob(0x10, 100)], vec![file("/a", vec![chunk(1, 0, 10, 0)])]);
    let r = compact(&b, None, cfg(50, 1000, 1000, 0)).unwrap();
    assert!(r.is_some());
}

#[test]
fn test_compact_nothing_eligible_returns_no_output() {
    // Fully used, large blob with a zero small-blob bound... nothing to do.
    let b = bootstrap(
        vec![blob(0x10, 100)],
        vec![file("/a", vec![chunk(1, 0, 100, 0)])],
    );
    let r = compact(&b, None, cfg(50, 0, 1000, 0)).unwrap();
    assert!(r.is_none());
}

#[test]
fn test_compact_rejects_invalid_ratio() {
    let b = bootstrap(vec![blob(0x10, 100)], vec![]);
    let r = compact(&b, None, cfg(101, 0, 1000, 0));
    assert_eq!(r.err().unwrap(), CompactError::InvalidRatio { value: 101 });
}

#[test]
fn test_compact_spares_dictionary_blobs() {
    // The underused blob serves the chunk dictionary and must survive.
    let dict = ChunkDict { entries: vec![], blobs: vec![blob(0x10, 100)] };
    let b = bootstrap(
        vec![blob(0x10, 100)],
        vec![file("/a", vec![chunk(1, 0, 10, 0)])],
    );
    let r = compact(&b, Some(&dict), cfg(50, 1000, 1000, 0)).unwrap();
    assert!(r.is_none());
}

#[test]
fn test_compact_rejects_exhausted_output_space() {
    // With the largest possible id already taken, no fresh id is left to
    // name a packed blob.
    let b = bootstrap(
        vec![blob(u64::MAX, 100)],
        vec![file("/a", vec![chunk(1, 0, 10, 0)])],
    );
    let r = compact(&b, None, cfg(50, 1000, 1000, 0));
    assert_eq!(r.err().unwrap(), CompactError::OutputSpaceExhausted);
}
