use skie::{
    chunk_source, ChunkID, ChunkTableEntry, DataStore, DataStoreError, Fetch, FileID,
    FileSectionEntry, FileTableEntry, Persist,
};
use rand::RngCore;

const KB: usize = 1024;

fn setup() -> DataStore {
    DataStore::new()
}

fn seed_db(store: &mut DataStore, fid: &str, name: &str, hashes: &[Vec<u8>]) {
    store
        .store(FileTableEntry {
            file_id: fid.to_string(),
            name: name.to_string(),
            path: name.to_string(),
            hash: vec![0x99],
        })
        .unwrap();
    for h in hashes {
        store
            .store(ChunkTableEntry {
                hash: h.clone(),
                size: 1024,
            })
            .unwrap();
    }
}

#[test]
fn test_chunk_deduplication_logic() {
    let mut store = setup();
    let raw_hash = vec![0xDE, 0xAD, 0xBE, 0xEF];
    let chunk_1 = ChunkTableEntry {
        hash: raw_hash.clone(),
        size: 4096,
    };
    let chunk_2 = ChunkTableEntry {
        hash: raw_hash.clone(),
        size: 4096,
    };
    store.store(chunk_1).unwrap();
    store.store(chunk_2).unwrap();
    assert_eq!(
        store.chunk_count(),
        1,
        "3NF violation: Duplicate chunk hash found!"
    );
}

#[test]
fn test_batch_fetch_empty_set() {
    let store = setup();
    let ids = Vec::<ChunkID>::new();
    let results: Vec<ChunkTableEntry> = store.fetch_many(&ids).expect("Empty fetch failed");
    assert!(results.is_empty());
}

#[test]
fn test_store() {
    let mut store = setup();
    let file_id = FileID::new();
    let file_id_str = file_id.to_string();
    let hash = vec![0x16];

    store
        .store(FileTableEntry {
            file_id: file_id_str.clone(),
            name: "test.bin".into(),
            path: "/tmp/test.bin".into(),
            hash: vec![0x99],
        })
        .unwrap();
    store
        .store(ChunkTableEntry {
            hash: hash.clone(),
            size: 100,
        })
        .unwrap();

    let file_sections = vec![
        FileSectionEntry {
            file_id: file_id_str.clone(),
            length: 0,
            chunk_hash: hash.clone(),
            offset: 0,
        },
        FileSectionEntry {
            file_id: file_id_str.clone(),
            length: 1,
            chunk_hash: hash.clone(),
            offset: 100,
        },
    ];
    store.store_all(file_sections).unwrap();

    let fetched_sections: Vec<FileSectionEntry> = store.fetch_by(&file_id).unwrap();
    assert_eq!(fetched_sections.len(), 2);
    assert_eq!(fetched_sections[0].length, 0);
    assert_eq!(fetched_sections[1].length, 1);
}

#[test]
fn test_section_update_upsert() {
    let mut store = setup();
    let fid = FileID::new();
    let hash_v1 = vec![0x11, 0x11];
    let hash_v2 = vec![0x22, 0x22];
    seed_db(
        &mut store,
        &fid.to_string(),
        "/tmp/upsert",
        &[hash_v1.clone(), hash_v2.clone()],
    );

    let initial = FileSectionEntry {
        file_id: fid.to_string(),
        length: 0,
        chunk_hash: hash_v1.clone(),
        offset: 0,
    };
    store.store(initial).unwrap();

    let update = FileSectionEntry {
        file_id: fid.to_string(),
        length: 0,
        chunk_hash: hash_v2.clone(),
        offset: 0,
    };
    store.store(update).unwrap();

    let results: Vec<FileSectionEntry> = store.fetch_by(&fid).unwrap();
    assert_eq!(results.len(), 1);
    assert_eq!(
        results[0].chunk_hash, hash_v2,
        "The chunk hash was not updated (UPSERT failed)"
    );
}

#[test]
fn test_fetch_many_isolation_and_grouping() {
    let mut store = setup();
    let fid_a = FileID::new();
    let fid_b = FileID::new();
    let hash = vec![0xCC];
    seed_db(&mut store, &fid_a.to_string(), "/tmp/a", &[hash.clone()]);
    seed_db(&mut store, &fid_b.to_string(), "/tmp/b", &[hash.clone()]);

    let sections = vec![
        FileSectionEntry {
            file_id: fid_a.to_string(),
            length: 0,
            chunk_hash: hash.clone(),
            offset: 0,
        },
        FileSectionEntry {
            file_id: fid_a.to_string(),
            length: 1,
            chunk_hash: hash.clone(),
            offset: 100,
        },
        FileSectionEntry {
            file_id: fid_b.to_string(),
            length: 0,
            chunk_hash: hash.clone(),
            offset: 0,
        },
    ];
    store.store_all(sections).unwrap();

    let results: Vec<Vec<FileSectionEntry>> = store.fetch_many(&[fid_a, fid_b]).unwrap();
    assert_eq!(
        results.len(),
        2,
        "Should have 2 separate inner vectors (one per file)"
    );
    let file_a_results = results
        .iter()
        .find(|v| v[0].file_id == fid_a.to_string())
        .unwrap();
    let file_b_results = results
        .iter()
        .find(|v| v[0].file_id == fid_b.to_string())
        .unwrap();
    assert_eq!(file_a_results.len(), 2, "File A should have exactly 2 chunks");
    assert_eq!(file_b_results.len(), 1, "File B should have exactly 1 chunk");
}

#[test]
fn test_file_metadata_lifecycle() {
    let mut store = setup();
    let id = FileID::new();
    let entry = FileTableEntry {
        file_id: id.to_string(),
        name: "init.txt".into(),
        path: "/a/init.txt".into(),
        hash: vec![0xCC],
    };
    store.store(entry).expect("Store failed");

    let fetched: FileTableEntry = store.fetch_by(&id).expect("Fetch failed");
    assert_eq!(fetched.name, "init.txt");

    let updated = FileTableEntry {
        name: "moved.txt".into(),
        path: "/b/moved.txt".into(),
        file_id: id.to_string(),
        hash: vec![0xCC],
    };
    store.store(updated).expect("Update failed");

    let fetched_updated: FileTableEntry = store.fetch_by(&id).unwrap();
    assert_eq!(fetched_updated.name, "moved.txt");
}

#[test]
fn test_reconstruction_integrity() {
    let mut store = setup();
    let file_id = FileID::new();
    let mut buffer = vec![0u8; 8 * KB];
    rand::rng().fill_bytes(&mut buffer);
    let hash = blake3::hash(&buffer).as_bytes().to_vec();

    let (chunks, sections) = chunk_source(&file_id, &buffer, None).unwrap();
    let file_entry = FileTableEntry {
        hash,
        file_id: file_id.to_string(),
        name: "test.bin".to_uppercase(),
        path: "test.path".to_lowercase(),
    };
    store.store(file_entry).unwrap();
    store.store_all(chunks).unwrap();
    store.store_all(sections).unwrap();

    let fetched_sections: Vec<FileSectionEntry> = store.fetch_by(&file_id).unwrap();
    let mut current_offset = 0;
    for section in fetched_sections {
        assert_eq!(
            section.offset, current_offset,
            "Chunks must be perfectly contiguous"
        );
        current_offset += section.length;
    }
    assert_eq!(current_offset as usize, buffer.len());
}

#[test]
fn test_file_data_change_delta() {
    let mut store = setup();
    let file_id = FileID::new();

    let data_v1 = vec![0u8; 4 * KB];
    let hash = blake3::hash(&data_v1).as_bytes().to_vec();
    let (c1, s1) = chunk_source(&file_id, &data_v1, None).unwrap();
    store
        .store(FileTableEntry {
            file_id: file_id.to_string(),
            name: "Testfile".to_string(),
            path: "somepath".to_string(),
            hash,
        })
        .unwrap();
    store.store_all(c1).unwrap();
    store.store_all(s1).unwrap();

    let mut data_v2 = vec![0u8; 4 * KB];
    data_v2[1000..1200].fill(0xFF);
    let (c2, s2) = chunk_source(&file_id, &data_v2, None).unwrap();
    store.store_all(c2).unwrap();
    store.store_all(s2).unwrap();

    let final_sections: Vec<FileSectionEntry> = store.fetch_by(&file_id).unwrap();
    assert!(final_sections
        .iter()
        .any(|s| s.chunk_hash != blake3::hash(&[0u8; 1]).as_bytes().to_vec()));
}

#[test]
fn test_file_name_and_path_change() {
    let mut store = setup();
    let file_id = FileID::new();
    let hash = vec![0xDE, 0xAD];

    let entry_v1 = FileTableEntry {
        file_id: file_id.to_string(),
        path: "/etc/config.yaml".into(),
        name: "config.yaml".into(),
        hash: hash.clone(),
    };
    store.store(entry_v1).unwrap();

    let entry_v2 = FileTableEntry {
        file_id: file_id.to_string(),
        path: "/etc/old_config.yaml".into(),
        name: "old_config.yaml".into(),
        hash: hash.clone(),
    };
    store.store(entry_v2).unwrap();

    let fetched: Vec<FileTableEntry> = store.fetch_many(&[file_id]).unwrap();
    assert_eq!(fetched.len(), 1);
    assert!(fetched[0].path.contains("old_config"));
}

#[test]
fn test_chunking() {
    let mut store = setup();
    let mut buffer = vec![0x0; 4 * KB];
    let file_id = FileID::new();
    rand::rng().fill_bytes(&mut buffer);
    let hash = blake3::hash(&buffer);

    store
        .store(FileTableEntry {
            file_id: file_id.to_string(),
            name: "/tmp/chunking".to_string(),
            path: "/tmp/chunking".to_string(),
            hash: hash.as_bytes().to_vec(),
        })
        .unwrap();

    let config = skie::ChunkConfig {
        min_chunk_size: 512,
        avg_chunk_size: 1024,
        max_chunk_size: 2048,
    };
    let (chunk_table_entries, file_section_entries) =
        chunk_source(&file_id, &buffer, Some(config)).unwrap();
    store.store_all(chunk_table_entries).unwrap();
    store.store_all(file_section_entries).unwrap();
}

// Renaming a file keeps a single row, with the new name and path.
#[test]
fn file_upsert_keeps_one_row() {
    let mut store = setup();
    let id = FileID::from_u128(1);
    store
        .store(FileTableEntry {
            file_id: id.to_string(),
            name: "a.bin".into(),
            path: "/x/a.bin".into(),
            hash: vec![7; 32],
        })
        .unwrap();
    store
        .store(FileTableEntry {
            file_id: id.to_string(),
            name: "b.bin".into(),
            path: "/y/b.bin".into(),
            hash: vec![7; 32],
        })
        .unwrap();
    assert_eq!(store.file_count(), 1);
    let row: FileTableEntry = store.fetch_by(&id).unwrap();
    assert_eq!(row.name, "b.bin");
    assert_eq!(row.path, "/y/b.bin");
}

// A chunk stored again with another size keeps its first size.
#[test]
fn chunk_first_size_wins() {
    let mut store = setup();
    let digest = [0xAB; 32];
    let id = ChunkID::from_bytes(digest);
    for _ in 0..3 {
        store
            .store(ChunkTableEntry {
                hash: digest.to_vec(),
                size: 4096,
            })
            .unwrap();
    }
    store
        .store(ChunkTableEntry {
            hash: digest.to_vec(),
            size: 1,
        })
        .unwrap();
    assert_eq!(store.chunk_count(), 1);
    let row: ChunkTableEntry = store.fetch_by(&id).unwrap();
    assert_eq!(row.size, 4096);
}

// A reindex at offset 0 replaces that section and leaves offset 100 alone.
#[test]
fn reindex_replaces_only_touched_offsets() {
    let mut store = setup();
    let id = FileID::from_u128(2);
    let (ha, hb, hc) = (vec![0xA; 32], vec![0xB; 32], vec![0xC; 32]);
    seed_db(&mut store, &id.to_string(), "/s/f", &[ha.clone(), hb.clone(), hc.clone()]);
    let section = |h: &Vec<u8>, offset: i64| FileSectionEntry {
        file_id: id.to_string(),
        chunk_hash: h.clone(),
        length: 100,
        offset,
    };
    store
        .store_all(vec![section(&ha, 0), section(&hb, 100)])
        .unwrap();
    store.store_all(vec![section(&hc, 0)]).unwrap();
    let rows: Vec<FileSectionEntry> = store.fetch_by(&id).unwrap();
    assert_eq!(rows.len(), 2);
    assert_eq!((rows[0].offset, rows[0].chunk_hash.clone(), rows[0].length), (0, hc, 100));
    assert_eq!((rows[1].offset, rows[1].chunk_hash.clone(), rows[1].length), (100, hb, 100));
}

// Sections written out of order come back in offset order.
#[test]
fn sections_come_back_sorted() {
    let mut store = setup();
    let id = FileID::from_u128(3);
    let h = vec![1u8; 32];
    seed_db(&mut store, &id.to_string(), "/s/g", &[h.clone()]);
    for offset in [300i64, 0, 200, 100] {
        store
            .store(FileSectionEntry {
                file_id: id.to_string(),
                chunk_hash: h.clone(),
                length: 100,
                offset,
            })
            .unwrap();
    }
    let rows: Vec<FileSectionEntry> = store.fetch_by(&id).unwrap();
    let offsets: Vec<i64> = rows.iter().map(|r| r.offset).collect();
    assert_eq!(offsets, vec![0, 100, 200, 300]);
}

// A section whose chunk is not stored is refused.
#[test]
fn section_without_chunk_is_rejected() {
    let mut store = setup();
    let id = FileID::from_u128(4);
    seed_db(&mut store, &id.to_string(), "/s/h", &[]);
    let r = store.store(FileSectionEntry {
        file_id: id.to_string(),
        chunk_hash: vec![9; 32],
        length: 10,
        offset: 0,
    });
    assert!(matches!(r, Err(DataStoreError::ForeignKeyViolation)));
    assert_eq!(store.section_count(), 0);
}

// A section whose file is not stored is refused.
#[test]
fn section_without_file_is_rejected() {
    let mut store = setup();
    store
        .store(ChunkTableEntry {
            hash: vec![9; 32],
            size: 10,
        })
        .unwrap();
    let r = store.store(FileSectionEntry {
        file_id: FileID::from_u128(5).to_string(),
        chunk_hash: vec![9; 32],
        length: 10,
        offset: 0,
    });
    assert!(matches!(r, Err(DataStoreError::ForeignKeyViolation)));
}

// One bad row in a batch leaves none of the batch stored.
#[test]
fn failed_batch_writes_nothing() {
    let mut store = setup();
    let id = FileID::from_u128(6);
    let good = vec![2u8; 32];
    seed_db(&mut store, &id.to_string(), "/s/i", &[good.clone()]);
    let batch = vec![
        FileSectionEntry {
            file_id: id.to_string(),
            chunk_hash: good.clone(),
            length: 10,
            offset: 0,
        },
        FileSectionEntry {
            file_id: id.to_string(),
            chunk_hash: vec![3u8; 32],
            length: 10,
            offset: 10,
        },
    ];
    let r = store.store_all(batch);
    assert!(matches!(r, Err(DataStoreError::ForeignKeyViolation)));
    assert_eq!(store.section_count(), 0);
    let fetched: Result<Vec<FileSectionEntry>, DataStoreError> = store.fetch_by(&id);
    assert!(matches!(fetched, Err(DataStoreError::NotFound)));
}

// No keys, no groups, no error.
#[test]
fn fetch_many_sections_of_no_file() {
    let store = setup();
    let groups: Vec<Vec<FileSectionEntry>> = store.fetch_many(&[]).unwrap();
    assert!(groups.is_empty());
}

// Unknown ids are dropped by fetch_many and are NotFound for fetch_by.
#[test]
fn missing_file_ids() {
    let mut store = setup();
    let known = FileID::from_u128(7);
    seed_db(&mut store, &known.to_string(), "/s/j", &[]);
    let unknown = FileID::from_u128(8);
    let rows: Vec<FileTableEntry> = store.fetch_many(&[unknown, known, known]).unwrap();
    assert_eq!(rows.len(), 1);
    assert_eq!(rows[0].file_id, known.to_string());
    let missing: Result<FileTableEntry, DataStoreError> = store.fetch_by(&unknown);
    assert!(matches!(missing, Err(DataStoreError::NotFound)));
}

// An empty source gives no rows, and writing them stores nothing.
#[test]
fn empty_source_writes_no_rows() {
    let mut store = setup();
    let id = FileID::from_u128(9);
    seed_db(&mut store, &id.to_string(), "/s/k", &[]);
    let (chunks, sections) = chunk_source(&id, &[], None).unwrap();
    assert!(chunks.is_empty());
    assert!(sections.is_empty());
    store.store_all(chunks).unwrap();
    store.store_all(sections).unwrap();
    assert_eq!(store.chunk_count(), 0);
    assert_eq!(store.section_count(), 0);
}

// The adapter names each chunk by the digest of its bytes and ties each
// section to the file.
#[test]
fn adapter_rows_match_records() {
    let id = FileID::from_u128(10);
    let data: Vec<u8> = (0..20000u32).map(|i| (i * 7 % 251) as u8).collect();
    let config = skie::ChunkConfig {
        min_chunk_size: 512,
        avg_chunk_size: 1024,
        max_chunk_size: 2048,
    };
    let (chunks, sections) = chunk_source(&id, &data, Some(config)).unwrap();
    assert_eq!(chunks.len(), sections.len());
    assert!(chunks.len() >= 10);
    let mut offset = 0i64;
    for (c, s) in chunks.iter().zip(sections.iter()) {
        assert_eq!(s.offset, offset);
        assert_eq!(s.file_id, id.to_string());
        let bytes = &data[s.offset as usize..(s.offset + s.length) as usize];
        assert_eq!(c.hash, blake3::hash(bytes).as_bytes().to_vec());
        assert_eq!(s.chunk_hash, c.hash);
        assert_eq!(c.size, s.length);
        offset += s.length;
    }
    assert_eq!(offset as usize, data.len());
}

// A bad chunker configuration is a chunking error.
#[test]
fn adapter_rejects_bad_config() {
    let config = skie::ChunkConfig {
        min_chunk_size: 4096,
        avg_chunk_size: 1024,
        max_chunk_size: 2048,
    };
    let r = chunk_source(&FileID::from_u128(11), &[1, 2, 3], Some(config));
    assert!(matches!(
        r,
        Err(DataStoreError::ChunkingError(skie::HashEngineError::InvalidChunkConfig))
    ));
}

// Two equal chunks in one file are stored once.
#[test]
fn repeated_content_is_stored_once() {
    let mut store = setup();
    let id = FileID::from_u128(12);
    seed_db(&mut store, &id.to_string(), "/s/l", &[]);
    let config = skie::ChunkConfig {
        min_chunk_size: 64,
        avg_chunk_size: 256,
        max_chunk_size: 1024,
    };
    let data = vec![0u8; 10 * 1024];
    let (chunks, sections) = chunk_source(&id, &data, Some(config)).unwrap();
    let distinct: std::collections::HashSet<Vec<u8>> =
        chunks.iter().map(|c| c.hash.clone()).collect();
    assert!(distinct.len() < chunks.len());
    let n = sections.len();
    store.store_all(chunks).unwrap();
    store.store_all(sections).unwrap();
    assert_eq!(store.chunk_count(), distinct.len());
    assert_eq!(store.section_count(), n);
}

// Groups split rows ordered by file into one run per file.
#[test]
fn group_sections_splits_runs() {
    let row = |f: &str, offset: i64| FileSectionEntry {
        file_id: f.to_string(),
        chunk_hash: vec![1],
        length: 1,
        offset,
    };
    let flat = vec![row("a", 0), row("a", 1), row("b", 0), row("c", 0), row("c", 1)];
    let groups = skie::store::group_sections(flat);
    let shape: Vec<(String, usize)> = groups
        .iter()
        .map(|g| (g[0].file_id.clone(), g.len()))
        .collect();
    assert_eq!(
        shape,
        vec![("a".to_string(), 2), ("b".to_string(), 1), ("c".to_string(), 2)]
    );
    assert!(skie::store::group_sections(Vec::new()).is_empty());
}

// After flipping bytes 1000..1200, every section over them has a new digest.
#[test]
fn changed_bytes_change_covering_digests() {
    let mut store = setup();
    let id = FileID::from_u128(13);
    seed_db(&mut store, &id.to_string(), "/s/m", &[]);
    let v1 = vec![0u8; 4 * KB];
    let (c1, s1) = chunk_source(&id, &v1, None).unwrap();
    store.store_all(c1).unwrap();
    store.store_all(s1).unwrap();
    let before: Vec<FileSectionEntry> = store.fetch_by(&id).unwrap();

    let mut v2 = vec![0u8; 4 * KB];
    v2[1000..1200].fill(0xFF);
    let (c2, s2) = chunk_source(&id, &v2, None).unwrap();
    store.store_all(c2).unwrap();
    store.store_all(s2).unwrap();
    let after: Vec<FileSectionEntry> = store.fetch_by(&id).unwrap();

    let covering: Vec<&FileSectionEntry> = after
        .iter()
        .filter(|s| s.offset < 1200 && s.offset + s.length > 1000)
        .collect();
    assert!(!covering.is_empty());
    for s in covering {
        let old = before.iter().find(|b| b.offset == s.offset).unwrap();
        assert_ne!(old.chunk_hash, s.chunk_hash);
    }
}

// Removing a path forgets its file and sections and keeps the chunks.
#[test]
fn remove_path_forgets_file_and_sections() {
    let mut store = setup();
    let gone = FileID::from_u128(20);
    let stays = FileID::from_u128(21);
    let h = vec![4u8; 32];
    seed_db(&mut store, &gone.to_string(), "/s/old", &[h.clone()]);
    seed_db(&mut store, &stays.to_string(), "/s/keep", &[]);
    for id in [gone, stays] {
        store
            .store(FileSectionEntry {
                file_id: id.to_string(),
                chunk_hash: h.clone(),
                length: 5,
                offset: 0,
            })
            .unwrap();
    }
    assert!(store.remove_path(&"/s/old".to_string()));
    assert!(!store.remove_path(&"/s/none".to_string()));
    assert_eq!(store.file_count(), 1);
    assert_eq!(store.section_count(), 1);
    assert_eq!(store.chunk_count(), 1);
    let missing: Result<FileTableEntry, DataStoreError> = store.fetch_by(&gone);
    assert!(matches!(missing, Err(DataStoreError::NotFound)));
    let kept: Vec<FileSectionEntry> = store.fetch_by(&stays).unwrap();
    assert_eq!(kept.len(), 1);
}

#[test]
fn placeholder_lists() {
    assert_eq!(skie::store::placeholder_list(0), "");
    assert_eq!(skie::store::placeholder_list(1), "?");
    assert_eq!(skie::store::placeholder_list(3), "?,?,?");
}
