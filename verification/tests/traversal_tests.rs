use std::collections::VecDeque;

use ptree::traversal::{
    choose_mode, complete_traversal, expand_directory, is_dot_hidden, merge_skip_counts, push_work, release,
    seconds_between, take_batch, total_files, try_acquire, worker_count, Expansion, Listed, NodeKind, ScanMode,
    ScanPlan, ScanWorker,
};
use ptree::{should_skip, traverse_disk, Args, DirEntry, DiskCache, NameSet, PTreeError, SkipStats, Slot, Timestamp};

fn at(secs: i64) -> Timestamp {
    Timestamp { secs, nanos: 0 }
}

fn listed(name: &str, kind: NodeKind) -> Listed {
    Listed { name: name.to_string(), kind, target: None }
}

fn names(list: &[&str]) -> NameSet {
    let mut s = NameSet::new();
    for n in list {
        s.insert(n.to_string());
    }
    s
}

#[test]
fn test_should_skip() {
    let mut skip = NameSet::new();
    skip.insert("System32".to_string());
    skip.insert(".git".to_string());

    assert!(should_skip("System32", &skip));
    assert!(should_skip(".git", &skip));
    assert!(!should_skip("Documents", &skip));
}

#[test]
fn skipping_ignores_ascii_case_only() {
    let skip = names(&["System32", "Temp"]);
    assert!(should_skip("SYSTEM32", &skip));
    assert!(should_skip("temp", &skip));
    assert!(!should_skip("Temp2", &skip));
    assert!(!should_skip("Tem", &skip));
    assert!(!should_skip("", &skip));
    let accents = names(&["É"]);
    assert!(!should_skip("é", &accents));
    assert!(should_skip("É", &accents));
}

#[test]
fn expansion_of_an_empty_directory_is_its_own_record() {
    let e = expand_directory("/r", &Vec::new(), &names(&[]), false, at(5));
    assert_eq!(e.entries.len(), 1);
    assert_eq!(e.entries[0].key, "/r");
    assert_eq!(e.entries[0].entry.path, "/r");
    assert_eq!(e.entries[0].entry.name, "r");
    assert!(e.entries[0].entry.is_dir);
    assert!(e.entries[0].entry.children.is_empty());
    assert_eq!(e.entries[0].entry.modified, at(5));
    assert_eq!(e.entries[0].entry.content_hash, 0);
    assert!(e.queue.is_empty());
    assert!(e.skipped.is_empty());
}

#[test]
fn expansion_honours_the_skip_set() {
    let listing = vec![
        listed("keep", NodeKind::Directory),
        listed(".git", NodeKind::Directory),
        listed("node_modules", NodeKind::Directory),
    ];
    let e = expand_directory("/r", &listing, &names(&[".git", "node_modules"]), false, at(1));
    assert_eq!(e.skipped, vec![".git".to_string(), "node_modules".to_string()]);
    assert_eq!(e.queue, vec!["/r/keep".to_string()]);
    assert_eq!(e.entries.len(), 2);
    assert_eq!(e.entries[0].key, "/r/keep");
    assert!(e.entries[0].entry.is_dir);
    assert!(e.entries[0].yields);
    assert!(!e.entries[1].yields);
    assert_eq!(e.entries[1].key, "/r");
    assert_eq!(e.entries[1].entry.children, vec!["keep".to_string()]);

    let mut worker = ScanWorker::new();
    let out = worker.absorb(e);
    assert_eq!(out.to_queue, vec!["/r/keep".to_string()]);
    assert!(out.to_cache.is_empty());
    let (records, counts) = worker.finish();
    assert_eq!(records.len(), 2);
    assert_eq!(counts.count(".git"), 1);
    assert_eq!(counts.count("node_modules"), 1);
    assert_eq!(counts.len(), 2);
}

#[test]
fn expansion_records_a_symlink_and_does_not_queue_it() {
    let listing = vec![Listed { name: "link".to_string(), kind: NodeKind::Symlink, target: Some("/r".to_string()) }];
    let e = expand_directory("/r/sub", &listing, &names(&[]), false, at(1));
    assert!(e.queue.is_empty());
    assert_eq!(e.entries.len(), 2);
    assert_eq!(e.entries[0].key, "/r/sub/link");
    assert_eq!(e.entries[0].entry.symlink_target, Some("/r".to_string()));
    assert!(!e.entries[0].entry.is_dir);
    assert_eq!(e.entries[0].entry.name, "link");
    assert_eq!(e.entries[1].entry.children, vec!["link".to_string()]);
}

#[test]
fn expansion_names_a_child_of_unknown_kind_without_a_record() {
    let listing = vec![listed("odd", NodeKind::Unknown), listed("f", NodeKind::File)];
    let e = expand_directory("/r", &listing, &names(&[]), true, at(1));
    assert_eq!(e.entries.len(), 2);
    assert_eq!(e.entries[0].key, "/r/f");
    assert_eq!(e.entries[1].entry.children, vec!["odd".to_string(), "f".to_string()]);
    assert!(e.entries[1].entry.is_hidden);
    assert!(e.queue.is_empty());
}

#[test]
fn a_scan_leaves_an_entry_for_every_child() {
    let skip = names(&[".git"]);
    let mut cache = DiskCache::new_empty(at(0));
    let mut queue: VecDeque<String> = VecDeque::new();
    queue.push_back("/r".to_string());
    let mut worker = ScanWorker::new();
    loop {
        let batch = take_batch(&mut queue);
        if batch.is_empty() {
            break;
        }
        for dir in batch {
            let listing = if dir == "/r" {
                vec![listed("a", NodeKind::Directory), listed("f.txt", NodeKind::File), listed(".git", NodeKind::Directory)]
            } else if dir == "/r/a" {
                vec![listed("b", NodeKind::Directory), listed("g", NodeKind::File)]
            } else {
                Vec::new()
            };
            let out = worker.absorb(expand_directory(&dir, &listing, &skip, false, at(1)));
            push_work(&mut queue, out.to_queue);
            for slot in out.to_cache {
                cache.add_write(slot);
            }
        }
    }
    let (records, _) = worker.finish();
    for slot in records {
        cache.add_write(slot);
    }
    cache.flush_pending_writes();
    assert_eq!(cache.entries.len(), 5);
    for i in 0..cache.entries.len() {
        let key = cache.entries.key_at(i).clone();
        let entry = cache.entries.entry_at(i);
        for child in &entry.children {
            assert!(cache.entries.contains_key(&ptree::path::join(&key, child)));
        }
    }
    assert!(cache.get_entry("/r/a").unwrap().is_dir);
    assert!(!cache.get_entry("/r/f.txt").unwrap().is_dir);
    assert!(cache.get_entry("/r/.git").is_none());
}

#[test]
fn a_listed_directory_keeps_its_listing_whatever_arrives_later() {
    let none = names(&[]);
    let parent = expand_directory("/r", &vec![listed("d", NodeKind::Directory), listed("f", NodeKind::File)], &none, false, at(1));
    let child = expand_directory("/r/d", &vec![listed("x", NodeKind::File)], &none, false, at(2));
    let mut cache = DiskCache::new_empty(at(0));
    for slot in child.entries {
        cache.add_write(slot);
    }
    for slot in parent.entries {
        cache.add_write(slot);
    }
    cache.flush_pending_writes();
    let d = cache.get_entry("/r/d").unwrap();
    assert!(d.is_dir);
    assert_eq!(d.children, vec!["x".to_string()]);
    assert_eq!(d.modified, at(2));
    assert!(!cache.get_entry("/r/f").unwrap().is_dir);
    assert_eq!(cache.entries.len(), 4);
}

#[test]
fn a_directory_that_is_never_listed_is_recorded_as_one() {
    let none = names(&[]);
    let parent = expand_directory("/r", &vec![listed("locked", NodeKind::Directory)], &none, false, at(1));
    let mut cache = DiskCache::new_empty(at(0));
    for slot in parent.entries {
        cache.add_write(slot);
    }
    cache.flush_pending_writes();
    let locked = cache.get_entry("/r/locked").unwrap();
    assert!(locked.is_dir);
    assert!(locked.children.is_empty());
}

#[test]
fn a_yielding_write_replaces_what_is_no_directory() {
    let none = names(&[]);
    let mut cache = DiskCache::new_empty(at(0));
    let before = expand_directory("/r", &vec![listed("n", NodeKind::File)], &none, false, at(1));
    for slot in before.entries {
        cache.add_write(slot);
    }
    let after = expand_directory("/r", &vec![listed("n", NodeKind::Directory)], &none, false, at(2));
    for slot in after.entries {
        cache.add_write(slot);
    }
    cache.flush_pending_writes();
    assert!(cache.get_entry("/r/n").unwrap().is_dir);
    assert_eq!(cache.get_entry("/r/n").unwrap().modified, at(2));
    let back = expand_directory("/r", &vec![listed("n", NodeKind::File)], &none, false, at(3));
    for slot in back.entries {
        cache.add_write(slot);
    }
    cache.flush_pending_writes();
    assert!(!cache.get_entry("/r/n").unwrap().is_dir);
}

#[test]
fn batches_hold_at_most_ten_paths_in_queue_order() {
    let mut queue: VecDeque<String> = (0..23).map(|i| format!("/d{}", i)).collect();
    let first = take_batch(&mut queue);
    assert_eq!(first.len(), 10);
    assert_eq!(first[0], "/d0");
    assert_eq!(first[9], "/d9");
    assert_eq!(queue.len(), 13);
    let second = take_batch(&mut queue);
    assert_eq!(second[0], "/d10");
    let third = take_batch(&mut queue);
    assert_eq!(third, vec!["/d20".to_string(), "/d21".to_string(), "/d22".to_string()]);
    assert!(take_batch(&mut queue).is_empty());
    push_work(&mut queue, vec!["/x".to_string(), "/y".to_string()]);
    assert_eq!(queue, VecDeque::from(vec!["/x".to_string(), "/y".to_string()]));
}

#[test]
fn a_directory_is_claimed_by_one_worker_at_a_time() {
    let mut in_progress = NameSet::new();
    assert!(try_acquire(&mut in_progress, "/r"));
    assert!(!try_acquire(&mut in_progress, "/r"));
    assert!(try_acquire(&mut in_progress, "/r/a"));
    release(&mut in_progress, "/r");
    assert!(!in_progress.contains("/r"));
    assert!(in_progress.contains("/r/a"));
    assert!(try_acquire(&mut in_progress, "/r"));
}

#[test]
fn the_worker_hands_on_full_buffers_only() {
    let mut worker = ScanWorker::new();
    let mut listing = Vec::new();
    for i in 0..748 {
        listing.push(listed(&format!("f{}", i), NodeKind::File));
    }
    let out = worker.absorb(expand_directory("/r", &listing, &names(&[]), false, at(1)));
    assert_eq!(out.to_cache.len(), 500);
    assert_eq!(out.to_cache[0].key, "/r/f0");
    assert_eq!(out.to_cache[499].key, "/r/f499");
    assert_eq!(worker.entry_buffer.len(), 249);
    assert_eq!(worker.entry_buffer[248].key, "/r");
    let out = worker.absorb(expand_directory("/s", &listing[..250].iter().map(|l| listed(&l.name, NodeKind::File)).collect(), &names(&[]), false, at(1)));
    assert_eq!(out.to_cache.len(), 500);
    assert_eq!(out.to_cache[0].key, "/r/f500");
    assert_eq!(out.to_cache[249].key, "/s/f0");
    assert_eq!(worker.entry_buffer.len(), 0);
}

#[test]
fn counts_of_workers_add_up() {
    let mut total = SkipStats::new();
    total.add(".git", 2);
    let mut part = SkipStats::new();
    part.add("Temp", 1);
    part.add(".git", 3);
    merge_skip_counts(&mut total, &part);
    assert_eq!(total.count(".git"), 5);
    assert_eq!(total.count("Temp"), 1);
    assert_eq!(total.len(), 2);
    total.add(".git", usize::MAX);
    assert_eq!(total.count(".git"), usize::MAX);
}

#[test]
fn the_mode_follows_the_flags_and_the_age() {
    let last = Timestamp { secs: 1000, nanos: 500 };
    let soon = Timestamp { secs: 4600, nanos: 499 };
    let late = Timestamp { secs: 4600, nanos: 500 };
    assert_eq!(choose_mode(true, false, false, None, soon, last), ScanMode::CacheHit);
    assert_eq!(choose_mode(true, false, false, None, late, last), ScanMode::PartialRescan);
    assert_eq!(choose_mode(true, false, false, Some(3601), late, last), ScanMode::CacheHit);
    assert_eq!(choose_mode(true, false, false, Some(0), last, last), ScanMode::PartialRescan);
    assert_eq!(choose_mode(false, false, false, None, soon, last), ScanMode::PartialRescan);
    assert_eq!(choose_mode(true, true, false, None, soon, last), ScanMode::PartialRescan);
    assert_eq!(choose_mode(true, false, true, None, soon, last), ScanMode::ForcedFull);
    assert_eq!(choose_mode(true, true, true, None, soon, last), ScanMode::ForcedFull);
    assert_eq!(seconds_between(soon, last), 3599);
    assert_eq!(seconds_between(late, last), 3600);
    assert_eq!(seconds_between(last, soon), -3599);
    assert_eq!(seconds_between(last, late), -3600);
}

#[test]
fn a_filter_of_changed_names_narrows_the_scan() {
    let changed = names(&["src", "docs"]);
    assert!(ptree::traversal::should_process(None, "/r/any", "/r"));
    assert!(ptree::traversal::should_process(Some(&changed), "/r/src", "/r"));
    assert!(ptree::traversal::should_process(Some(&changed), "/r", "/r"));
    assert!(!ptree::traversal::should_process(Some(&changed), "/r/target", "/r"));
    assert!(!ptree::traversal::should_process(Some(&changed), "/r/src/deep", "/r"));
}

#[test]
fn a_forced_scan_starts_at_the_root() {
    assert_eq!(ptree::traversal::scan_root_for(true, "/home/u/proj"), "/");
    assert_eq!(ptree::traversal::scan_root_for(false, "/home/u/proj"), "/home/u/proj");
}

#[test]
fn the_worker_count_defaults_to_the_cores() {
    assert_eq!(worker_count(Some(7), false, 2), 7);
    assert_eq!(worker_count(None, false, 16), 4);
    assert_eq!(worker_count(None, false, 2), 2);
    assert_eq!(worker_count(None, true, 16), 16);
    assert_eq!(worker_count(None, true, 0), 1);
    assert_eq!(worker_count(None, false, 0), 1);
}

#[test]
fn a_run_refuses_a_root_that_is_no_directory() {
    let mut cache = DiskCache::new_empty(at(0));
    let args = Args::new();
    let r = traverse_disk(&mut cache, &args, "/gone", false, false, at(1), 4);
    assert!(matches!(r, Err(PTreeError::Traversal(_))));
    if let Err(e) = r {
        assert_eq!(e.message(), "Traversal error: Scan root does not exist: /gone");
    }
    let r = traverse_disk(&mut cache, &args, "/file", true, false, at(1), 4);
    if let Err(e) = r {
        assert_eq!(e.message(), "Traversal error: Scan root is not a directory: /file");
    } else {
        panic!("a file was taken as a root");
    }
    assert!(cache.entries.is_empty());
    assert_eq!(cache.root, "");
}

#[test]
fn a_first_run_seeds_the_root_and_scans() {
    let mut cache = DiskCache::new_empty(at(0));
    let args = Args::new();
    match traverse_disk(&mut cache, &args, "/r/proj", true, true, at(9), 8) {
        Ok(ScanPlan::Scan { threads, is_first_run }) => {
            assert_eq!(threads, 4);
            assert!(is_first_run);
        }
        _ => panic!("a first run has to scan"),
    }
    assert_eq!(cache.root, "/r/proj");
    let root = cache.get_entry("/r/proj").unwrap();
    assert_eq!(root.name, "proj");
    assert!(root.is_dir);
    assert_eq!(root.modified, at(9));
}

#[test]
fn a_fresh_snapshot_is_used() {
    let mut index = ptree::RkyvCacheIndex::new(at(100));
    index.offsets.insert("/r".to_string(), 0);
    index.offsets.insert("/r/a".to_string(), 40);
    let mut cache = DiskCache::open(Some(&index), true, at(0));
    assert!(cache.has_cache_snapshot());
    assert_eq!(cache.last_scan, at(100));
    let args = Args::new();
    match traverse_disk(&mut cache, &args, "/r", true, true, at(200), 8) {
        Ok(ScanPlan::UseCache(info)) => {
            assert!(info.cache_used);
            assert!(!info.is_first_run);
            assert_eq!(info.total_dirs, 2);
            assert_eq!(info.total_files, 0);
            assert_eq!(info.threads_used, 0);
            assert_eq!(info.scan_root, "/r");
        }
        _ => panic!("a fresh snapshot has to be used"),
    }
    assert!(cache.entries.is_empty());
    let mut stale = DiskCache::open(Some(&index), true, at(0));
    assert!(matches!(
        traverse_disk(&mut stale, &args, "/r", true, true, at(3700), 2),
        Ok(ScanPlan::Scan { threads: 2, is_first_run: false })
    ));
}

#[test]
fn closing_a_scan_dates_the_cache_and_counts() {
    let mut cache = DiskCache::new_empty(at(0));
    cache.root = "/r".to_string();
    let e = expand_directory(
        "/r",
        &vec![listed("a", NodeKind::File), listed("b", NodeKind::File)],
        &names(&[]),
        false,
        at(1),
    );
    let Expansion { entries, .. } = e;
    for Slot { key, entry, .. } in entries {
        cache.add_entry(key, entry);
    }
    let mut skipped = SkipStats::new();
    skipped.add(".git", 1);
    let info = complete_traversal(&mut cache, skipped, at(77), true, 3, 1000, 10);
    assert_eq!(cache.last_scan, at(77));
    assert!(cache.pending_writes.is_empty());
    assert_eq!(cache.skip_stats.count(".git"), 1);
    assert_eq!(info.total_dirs, 3);
    assert_eq!(info.total_files, 2);
    assert_eq!(total_files(&cache), 2);
    assert_eq!(info.threads_used, 3);
    assert_eq!(info.traversal_time, 1000);
    assert_eq!(info.cache_index_time, 10);
    assert_eq!(info.save_time, 0);
    assert!(info.is_first_run);
    assert!(!info.cache_used);
    assert_eq!(info.scan_root, "/r");
}

#[test]
fn hidden_by_name_means_a_leading_dot() {
    assert!(is_dot_hidden("/home/u/.config"));
    assert!(!is_dot_hidden("/home/u/config"));
    assert!(!is_dot_hidden("/"));
    assert!(is_dot_hidden(".x"));
    let _unused: Option<DirEntry> = None;
}
