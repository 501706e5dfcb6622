use nydus_image::model::{BlobDesc, BlobTable, Chunk, ModelError};

fn blob(id: u64, size: u64, chunk_size: u32) -> BlobDesc {
    BlobDesc {
        blob_id: id,
        compressed_size: size,
        uncompressed_size: size,
        chunk_count: 1,
        chunk_size,
        features: 0,
        toc_digest: None,
        toc_size: None,
        original_blob_id: None,
    }
}

#[test]
fn test_append_assigns_indices_in_order() {
    let mut t = BlobTable::new(4096);
    assert_eq!(t.append_or_find(blob(10, 100, 4096)), Ok(0));
    assert_eq!(t.append_or_find(blob(11, 200, 4096)), Ok(1));
    assert_eq!(t.len(), 2);
    assert_eq!(t.get(0).blob_id, 10);
    assert_eq!(t.get(1).blob_id, 11);
}

#[test]
fn test_append_duplicate_returns_existing_index() {
    let mut t = BlobTable::new(4096);
    assert_eq!(t.append_or_find(blob(10, 100, 4096)), Ok(0));
    assert_eq!(t.append_or_find(blob(11, 200, 4096)), Ok(1));
    // Same id again: merged by identity, nothing inserted.
    assert_eq!(t.append_or_find(blob(10, 999, 4096)), Ok(0));
    assert_eq!(t.len(), 2);
    // The original descriptor wins.
    assert_eq!(t.get(0).compressed_size, 100);
}

#[test]
fn test_append_chunk_size_conflict_is_fatal() {
    let mut t = BlobTable::new(4096);
    assert_eq!(t.append_or_find(blob(10, 100, 4096)), Ok(0));
    let r = t.append_or_find(blob(12, 100, 8192));
    assert_eq!(
        r,
        Err(ModelError::ChunkSizeConflict { blob_id: 12, expected: 4096, found: 8192 })
    );
    assert_eq!(t.len(), 1);
}

#[test]
fn test_conflicting_duplicate_still_merges_by_identity() {
    let mut t = BlobTable::new(4096);
    assert_eq!(t.append_or_find(blob(10, 100, 4096)), Ok(0));
    // An already-present id is found, not re-inserted, so no size check fires.
    assert_eq!(t.append_or_find(blob(10, 100, 8192)), Ok(0));
}

#[test]
fn test_find_first_match() {
    let mut t = BlobTable::new(4096);
    t.append_or_find(blob(7, 1, 4096)).unwrap();
    t.append_or_find(blob(8, 1, 4096)).unwrap();
    assert_eq!(t.find(8), Some(1));
    assert_eq!(t.find(9), None);
}

#[test]
fn test_chunk_set_location() {
    let mut c = Chunk {
        digest: 5,
        file_offset: 0,
        uncompressed_size: 10,
        compressed_size: 8,
        offset: 0,
        compressed: true,
        blob_index: 0,
        format_version: None,
    };
    c.set_location(3, 4096);
    assert_eq!(c.blob_index, 3);
    assert_eq!(c.offset, 4096);
    assert_eq!(c.digest, 5);
}
