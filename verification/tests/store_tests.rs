use ptree::store::{append_record, read_record, OffsetTable};
use ptree::{DirEntry, DiskCache, PTreeError, RkyvCacheIndex, RkyvMmapCache, Slot, Timestamp};

type Wire = (String, String, i64, u32, u64, Vec<String>, Option<String>, bool, bool);

fn at(secs: i64) -> Timestamp {
    Timestamp { secs, nanos: 0 }
}

fn encode(e: &DirEntry) -> Vec<u8> {
    let wire: Wire = (
        e.path.clone(),
        e.name.clone(),
        e.modified.secs,
        e.modified.nanos,
        e.content_hash,
        e.children.clone(),
        e.symlink_target.clone(),
        e.is_hidden,
        e.is_dir,
    );
    bincode::serialize(&wire).unwrap()
}

fn decode(bytes: &[u8]) -> DirEntry {
    let w: Wire = bincode::deserialize(bytes).unwrap();
    DirEntry {
        path: w.0,
        name: w.1,
        modified: Timestamp { secs: w.2, nanos: w.3 },
        content_hash: w.4,
        children: w.5,
        symlink_target: w.6,
        is_hidden: w.7,
        is_dir: w.8,
    }
}

#[test]
fn test_rkyv_cache_open() {
    let cache = RkyvMmapCache::open(None, None, at(3));
    assert!(cache.is_empty());
    assert_eq!(cache.len(), 0);
    assert_eq!(cache.index.last_scan, at(3));
    assert!(cache.get_all().unwrap().is_empty());
}

#[test]
fn test_rkyv_dir_entry_serialization() {
    let entry = DirEntry {
        path: "C:\\test".to_string(),
        name: "test".to_string(),
        modified: at(12),
        content_hash: 12345u64,
        children: vec!["child1".to_string(), "child2".to_string()],
        symlink_target: None,
        is_hidden: false,
        is_dir: true,
    };
    let mut data = Vec::new();
    let offset = append_record(&mut data, &encode(&entry)).unwrap();
    let deserialized = decode(read_record(&data, offset).unwrap());

    assert_eq!(entry.name, deserialized.name);
    assert_eq!(entry.content_hash, deserialized.content_hash);
    assert_eq!(entry.children.len(), deserialized.children.len());
}

#[test]
fn a_record_is_its_length_and_its_payload() {
    let mut data = vec![9u8];
    assert_eq!(append_record(&mut data, &[1, 2, 3]).unwrap(), 1);
    assert_eq!(data, vec![9, 3, 0, 0, 0, 1, 2, 3]);
    assert_eq!(RkyvMmapCache::append_entry(&mut data, &[]).unwrap(), 8);
    assert_eq!(data, vec![9, 3, 0, 0, 0, 1, 2, 3, 0, 0, 0, 0]);
    assert_eq!(read_record(&data, 1), Some(&[1u8, 2, 3][..]));
    assert_eq!(read_record(&data, 8), Some(&[][..]));
    let long = vec![7u8; 300];
    let at = append_record(&mut data, &long).unwrap();
    assert_eq!(&data[at as usize..at as usize + 4], &[44, 1, 0, 0]);
    assert_eq!(read_record(&data, at), Some(&long[..]));
}

#[test]
fn a_record_that_does_not_fit_is_absent() {
    let data = vec![5u8, 0, 0, 0, 1, 2, 3];
    assert_eq!(read_record(&data, 0), None);
    assert_eq!(read_record(&data, 4), None);
    assert_eq!(read_record(&data, 7), None);
    assert_eq!(read_record(&data, 8), None);
    assert_eq!(read_record(&data, u64::MAX), None);
    assert_eq!(read_record(&[], 0), None);
    let whole = vec![3u8, 0, 0, 0, 1, 2, 3];
    assert_eq!(read_record(&whole, 0), Some(&[1u8, 2, 3][..]));
}

#[test]
fn the_reader_tells_unknown_paths_from_missing_data() {
    let mut index = RkyvCacheIndex::new(at(0));
    index.offsets.insert("/a".to_string(), 0);
    index.offsets.insert("/b".to_string(), 100);
    let data = vec![2u8, 0, 0, 0, 8, 9];
    let without = RkyvMmapCache::open(Some(RkyvCacheIndex::new(at(0))), None, at(1));
    assert_eq!(without.get_entry("/a").unwrap(), None);
    let mut known = RkyvCacheIndex::new(at(0));
    known.offsets.insert("/a".to_string(), 0);
    let no_data = RkyvMmapCache::open(Some(known), None, at(1));
    assert!(matches!(no_data.get_entry("/a"), Err(PTreeError::Cache(_))));
    assert!(matches!(no_data.get_all(), Err(PTreeError::Cache(_))));
    assert_eq!(no_data.get_entry("/zzz").unwrap(), None);
    let store = RkyvMmapCache::open(Some(index), Some(&data), at(1));
    assert_eq!(store.len(), 2);
    assert_eq!(store.get_entry("/a").unwrap(), Some(&[8u8, 9][..]));
    assert_eq!(store.get_entry("/b").unwrap(), None);
    assert_eq!(store.get_entry("/c").unwrap(), None);
    assert_eq!(store.get_all().unwrap(), vec![&[8u8, 9][..]]);
}

#[test]
fn offsets_are_kept_per_path() {
    let mut t = OffsetTable::new();
    assert!(t.is_empty());
    t.insert("/a".to_string(), 1);
    t.insert("/b".to_string(), 2);
    t.insert("/a".to_string(), 3);
    assert_eq!(t.len(), 2);
    assert_eq!(t.get("/a"), Some(3));
    assert_eq!(t.get("/b"), Some(2));
    assert_eq!(t.get("/c"), None);
    assert_eq!(t.key_at(0), "/a");
    assert_eq!(t.key_at(1), "/b");
}

#[test]
fn a_saved_cache_comes_back_entry_for_entry() {
    let mut cache = DiskCache::new_empty(at(10));
    cache.root = "/r".to_string();
    cache.last_scanned_root = "/r".to_string();
    cache.record_skip(".git");
    for i in 0..100u64 {
        let path = format!("/r/d{}", i);
        let entry = DirEntry {
            path: path.clone(),
            name: format!("d{}", i),
            modified: Timestamp { secs: 1_700_000_000 + i as i64, nanos: i as u32 },
            content_hash: i * 31,
            children: (0..(i % 4)).map(|c| format!("c{}", c)).collect(),
            symlink_target: if i % 7 == 0 { Some(format!("/t{}", i)) } else { None },
            is_hidden: i % 3 == 0,
            is_dir: i % 2 == 0,
        };
        cache.add_entry(path, entry);
    }
    cache.flush_pending_writes();
    let payloads: Vec<Vec<u8>> = (0..cache.entries.len()).map(|i| encode(cache.entries.entry_at(i))).collect();
    let (index, data) = cache.save(&payloads).unwrap();
    assert!(cache.has_persisted_snapshot);
    assert_eq!(cache.persisted_entry_count, 100);
    assert_eq!(index.offsets.len(), 100);
    assert_eq!(index.root, "/r");
    assert_eq!(index.last_scan, at(10));
    assert_eq!(index.skip_stats.count(".git"), 1);
    assert_eq!(data.len(), payloads.iter().map(|p| p.len() + 4).sum::<usize>());

    let mut reopened = DiskCache::open(Some(&index), true, at(99));
    assert!(reopened.entries.is_empty());
    assert_eq!(reopened.entry_count_hint(), 100);
    assert_eq!(reopened.root, "/r");
    assert_eq!(reopened.last_scan, at(10));
    let store = RkyvMmapCache::open(Some(index), Some(&data), at(99));
    assert_eq!(store.get_entry("/r/d42").unwrap().map(|p| p.to_vec()), Some(encode(cache.get_entry("/r/d42").unwrap())));
    let loaded: Vec<Slot> = store
        .get_all()
        .unwrap()
        .into_iter()
        .map(|p| {
            let entry = decode(p);
            Slot { key: entry.path.clone(), entry, yields: false }
        })
        .collect();
    assert_eq!(loaded.len(), 100);
    reopened.load_all_entries_lazy(loaded);
    assert_eq!(reopened.entries.len(), cache.entries.len());
    for i in 0..cache.entries.len() {
        let key = cache.entries.key_at(i);
        let before = cache.entries.entry_at(i);
        let after = reopened.get_entry(key).unwrap();
        assert_eq!(encode(before), encode(after));
    }
}

#[test]
fn saving_needs_one_payload_per_entry() {
    let mut cache = DiskCache::new_empty(at(10));
    let entry = DirEntry {
        path: "/a".to_string(),
        name: "a".to_string(),
        modified: at(1),
        content_hash: 0,
        children: Vec::new(),
        symlink_target: None,
        is_hidden: false,
        is_dir: true,
    };
    cache.add_entry("/a".to_string(), entry);
    assert!(matches!(cache.save(&Vec::new()), Err(PTreeError::Serialization(_))));
    assert_eq!(cache.entries.len(), 1);
    assert!(cache.has_persisted_snapshot);
    assert_eq!(cache.persisted_entry_count, 1);
    let (index, data) = cache.save_as_rkyv_mmap(&vec![vec![1u8, 2]]).unwrap();
    assert_eq!(index.offsets.get("/a"), Some(0));
    assert_eq!(data, vec![2, 0, 0, 0, 1, 2]);
}
