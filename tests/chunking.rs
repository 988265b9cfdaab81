use rand::RngCore;
use skie::{collect_records, get_chunk_hashes, hash_chunk, ChunkConfig, ChunkMetadata, HashEngineError};

fn test_config() -> ChunkConfig {
    ChunkConfig {
        min_chunk_size: 1024 * 16,
        avg_chunk_size: 1024 * 32,
        max_chunk_size: 1024 * 64,
    }
}

fn small_config() -> ChunkConfig {
    ChunkConfig {
        min_chunk_size: 512,
        avg_chunk_size: 1024,
        max_chunk_size: 2048,
    }
}

#[test]
fn hash_engine_test_empty_file() {
    let res = get_chunk_hashes(&[], Some(test_config())).unwrap();
    assert!(res.is_empty());
}

#[test]
fn hash_engine_test_small_file_single_chunk() {
    let data = vec![0u8; 1024];
    let res = get_chunk_hashes(&data, Some(test_config())).unwrap();
    let first = res.first().expect("Should have one chunk");
    assert_eq!(first.hash.as_bytes(), blake3::hash(&data).as_bytes());
    assert_eq!(first.index, 0);
}

#[test]
fn hash_engine_test_determinism() {
    let mut data = vec![0u8; 1024 * 100];
    rand::rng().fill_bytes(&mut data);
    let mut res_1 = get_chunk_hashes(&data, Some(test_config())).unwrap();
    let mut res_2 = get_chunk_hashes(&data, Some(test_config())).unwrap();
    res_1.sort_by_key(|d| d.index);
    res_2.sort_by_key(|d| d.index);
    assert_eq!(res_1.len(), res_2.len());
    for (a, b) in res_1.iter().zip(res_2.iter()) {
        assert_eq!(a.hash, b.hash);
        assert_eq!(a.index, b.index);
    }
}

#[test]
fn lib_test_empty_file() {
    let results = get_chunk_hashes(&Vec::new(), Some(test_config())).unwrap();
    assert!(results.is_empty(), "Empty file should produce zero chunks");
}

#[test]
fn lib_test_small_file_single_chunk() {
    let data = vec![0u8; 1024];
    let results = get_chunk_hashes(&data.clone(), Some(test_config())).unwrap();
    let first = results.into_iter().next().expect("Should have one chunk");
    assert_eq!(first.hash.as_bytes(), blake3::hash(&data).as_bytes());
    assert_eq!(first.index, 0);
}

#[test]
fn lib_test_determinism() {
    let mut data = vec![0u8; 1024 * 100];
    rand::rng().fill_bytes(&mut data);
    let mut res_1 = get_chunk_hashes(&data, Some(test_config())).unwrap();
    let mut res_2 = get_chunk_hashes(&data, Some(test_config())).unwrap();
    res_1.sort_by_key(|d| d.index);
    res_2.sort_by_key(|d| d.index);
    assert_eq!(res_1.len(), res_2.len());
    for (a, b) in res_1.iter().zip(res_2.iter()) {
        assert_eq!(a.hash, b.hash);
        assert_eq!(a.index, b.index);
    }
}

fn patterned(n: usize) -> Vec<u8> {
    let mut x: u32 = 12345;
    (0..n)
        .map(|_| {
            x = x.wrapping_mul(1103515245).wrapping_add(12345);
            (x >> 16) as u8
        })
        .collect()
}

// Records tile the source and each digest is the digest of its bytes.
#[test]
fn records_cover_and_hash_the_source() {
    let data = patterned(50_000);
    let recs = get_chunk_hashes(&data, Some(small_config())).unwrap();
    let mut offset = 0u64;
    let mut rebuilt = Vec::new();
    for (i, r) in recs.iter().enumerate() {
        assert_eq!(r.index, i);
        assert_eq!(r.offset, offset);
        assert!(r.length > 0 && r.length <= 2048);
        let bytes = &data[r.offset as usize..r.offset as usize + r.length];
        assert_eq!(r.hash.as_bytes(), blake3::hash(bytes).as_bytes());
        rebuilt.extend_from_slice(bytes);
        offset += r.length as u64;
    }
    assert_eq!(offset as usize, data.len());
    assert_eq!(rebuilt, data);
}

// A source of exactly the minimum size is one chunk.
#[test]
fn min_size_source_is_one_chunk() {
    let data = patterned(512);
    let recs = get_chunk_hashes(&data, Some(small_config())).unwrap();
    assert_eq!(recs.len(), 1);
    assert_eq!(recs[0].length, 512);
}

// A source longer than the maximum gives at least len/max (rounded up) chunks.
#[test]
fn long_source_has_enough_chunks() {
    let data = vec![0u8; 10_000];
    let recs = get_chunk_hashes(&data, Some(small_config())).unwrap();
    assert!(recs.len() >= (10_000 + 2047) / 2048);
    assert!(recs.iter().all(|r| r.length <= 2048));
}

// The default bounds are the protocol's 2 KiB / 8 KiB / 32 KiB.
#[test]
fn default_bounds_apply() {
    let data = vec![0u8; 100_000];
    let recs = get_chunk_hashes(&data, None).unwrap();
    assert!(recs.iter().all(|r| r.length <= 32 * 1024));
    assert!(recs.len() >= 4);
    let d = ChunkConfig::default();
    assert_eq!(
        (d.min_chunk_size, d.avg_chunk_size, d.max_chunk_size),
        (2048, 8192, 32768)
    );
}

// Bounds out of order or out of the chunker's range are refused.
#[test]
fn invalid_bounds_are_refused() {
    let bad = [
        ChunkConfig { min_chunk_size: 2048, avg_chunk_size: 1024, max_chunk_size: 4096 },
        ChunkConfig { min_chunk_size: 32, avg_chunk_size: 1024, max_chunk_size: 4096 },
        ChunkConfig { min_chunk_size: 512, avg_chunk_size: 128, max_chunk_size: 4096 },
        ChunkConfig { min_chunk_size: 512, avg_chunk_size: 1024, max_chunk_size: 1000 },
    ];
    for cfg in bad {
        assert!(!cfg.is_valid());
        let r = get_chunk_hashes(&[1, 2, 3], Some(cfg));
        assert!(matches!(r, Err(HashEngineError::InvalidChunkConfig)));
    }
    assert!(small_config().is_valid());
}

// One record: the digest of the bytes at the given span.
#[test]
fn hash_chunk_digests_the_span() {
    let data = patterned(100);
    let r = hash_chunk(&data, 3, 10, 20);
    assert_eq!((r.index, r.offset, r.length), (3, 10, 20));
    assert_eq!(r.hash.as_bytes(), blake3::hash(&data[10..30]).as_bytes());
    assert_ne!(r.hash.as_bytes(), blake3::hash(&data).as_bytes());
}

// The collector restores index order from any arrival order.
#[test]
fn collector_orders_by_index() {
    let data = patterned(20_000);
    let recs = get_chunk_hashes(&data, Some(small_config())).unwrap();
    let mut shuffled: Vec<Result<ChunkMetadata, HashEngineError>> =
        recs.iter().rev().map(|r| Ok(*r)).collect();
    shuffled.swap(0, 1);
    let back = collect_records(shuffled).unwrap();
    assert_eq!(back, recs);
}

// Any failure makes the whole collection fail, carrying every failure.
#[test]
fn collector_reports_all_failures() {
    let data = patterned(100);
    let results = vec![
        Ok(hash_chunk(&data, 0, 0, 50)),
        Err(HashEngineError::IoError("read".to_string())),
        Ok(hash_chunk(&data, 1, 50, 50)),
        Err(HashEngineError::ChunkError("cut".to_string())),
    ];
    match collect_records(results) {
        Err(HashEngineError::HashError(errs)) => {
            assert_eq!(errs.len(), 2);
            assert!(matches!(&errs[0], HashEngineError::IoError(m) if m == "read"));
            assert!(matches!(&errs[1], HashEngineError::ChunkError(m) if m == "cut"));
        }
        other => panic!("unexpected {:?}", other),
    }
}

// Indices that are not exactly 0..n are reported.
#[test]
fn collector_rejects_bad_indices() {
    let data = patterned(100);
    let dup = vec![Ok(hash_chunk(&data, 0, 0, 50)), Ok(hash_chunk(&data, 0, 50, 50))];
    assert!(matches!(collect_records(dup), Err(HashEngineError::MisplacedRecord(0))));
    let gap = vec![Ok(hash_chunk(&data, 0, 0, 50)), Ok(hash_chunk(&data, 2, 50, 50))];
    assert!(matches!(collect_records(gap), Err(HashEngineError::MisplacedRecord(2))));
    assert!(collect_records(Vec::new()).unwrap().is_empty());
}

// Hashing given cuts names each span by the digest of its bytes.
#[test]
fn hash_cuts_follows_the_cuts() {
    let data = patterned(300);
    let cuts = vec![(0usize, 100usize), (100, 150), (250, 50)];
    let recs = skie::chunking::hash_cuts(&data, &cuts);
    assert_eq!(recs.len(), 3);
    for (i, (r, (o, l))) in recs.iter().zip(cuts.iter()).enumerate() {
        assert_eq!((r.index, r.offset as usize, r.length), (i, *o, *l));
        assert_eq!(r.hash.as_bytes(), blake3::hash(&data[*o..*o + *l]).as_bytes());
    }
}

// Cutting without hashing tiles the source.
#[test]
fn cut_points_tile_the_source() {
    let data = patterned(9000);
    let cuts = skie::chunking::cut_points(&data, &small_config()).unwrap();
    let mut next = 0;
    for (o, l) in &cuts {
        assert_eq!(*o, next);
        assert!(*l > 0 && *l <= 2048);
        next += l;
    }
    assert_eq!(next, data.len());
}
