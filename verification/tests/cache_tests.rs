use ptree::cache::DEFAULT_FLUSH_THRESHOLD;
use ptree::{get_cache_path, get_cache_path_custom, has_directory_changed, parse_absolute_dir};
use ptree::{DirEntry, DiskCache, PTreeError, Slot, Timestamp};

fn now() -> Timestamp {
    let n = chrono::Utc::now();
    Timestamp { secs: n.timestamp(), nanos: n.timestamp_subsec_nanos() }
}

fn mk_entry(path: &str) -> DirEntry {
    DirEntry {
        path: path.to_string(),
        name: ptree::path::file_name(path).unwrap_or_default(),
        modified: now(),
        content_hash: 0,
        children: Vec::new(),
        symlink_target: None,
        is_hidden: false,
        is_dir: true,
    }
}

#[test]
fn test_cache_creation() {
    let cache = DiskCache::open(None, false, now());
    assert!(cache.entries.is_empty());
    assert!(!cache.has_cache_snapshot());
    assert_eq!(cache.flush_threshold, 5000);
    assert_eq!(DEFAULT_FLUSH_THRESHOLD, 5000);
}

#[test]
fn a_snapshot_needs_its_index_and_its_data() {
    let mut index = ptree::RkyvCacheIndex::new(Timestamp { secs: 50, nanos: 0 });
    index.offsets.insert("/r".to_string(), 0);
    index.root = "/r".to_string();
    let without_data = DiskCache::open(Some(&index), false, now());
    assert!(!without_data.has_cache_snapshot());
    assert_eq!(without_data.persisted_entry_count, 0);
    assert_eq!(without_data.root, "");
    let with_data = DiskCache::open(Some(&index), true, now());
    assert!(with_data.has_cache_snapshot());
    assert_eq!(with_data.persisted_entry_count, 1);
    assert_eq!(with_data.root, "/r");
    assert_eq!(with_data.last_scan, Timestamp { secs: 50, nanos: 0 });
    assert!(!DiskCache::open(None, true, now()).has_cache_snapshot());
}

#[test]
fn entries_are_equal_when_all_they_hold_is_equal() {
    let a = mk_entry("/a");
    let mut b = a.clone();
    assert!(a == b);
    b.children.push("x".to_string());
    assert!(a != b);
    let mut c = a.clone();
    c.symlink_target = Some("/t".to_string());
    assert!(a != c);
    assert!(c == c.clone());
    let mut d = a.clone();
    d.modified = Timestamp { secs: a.modified.secs, nanos: a.modified.nanos.wrapping_add(1) };
    assert!(a != d);
}

#[test]
fn test_xdg_absolute_dir_validation() {
    assert_eq!(parse_absolute_dir("/tmp/ptree-cache"), Some("/tmp/ptree-cache".to_string()));
    assert!(parse_absolute_dir("relative/path").is_none());
    assert!(parse_absolute_dir("").is_none());
}

#[test]
fn absolute_dir_is_trimmed() {
    assert_eq!(parse_absolute_dir("  /tmp/x \n"), Some("/tmp/x".to_string()));
    assert!(parse_absolute_dir("   ").is_none());
}

#[test]
fn test_has_directory_changed() {
    let path = "C:\\test";
    let old_entry = DirEntry {
        path: path.to_string(),
        name: "test".to_string(),
        modified: now(),
        content_hash: 12345u64,
        children: vec!["file.txt".to_string()],
        symlink_target: None,
        is_hidden: false,
        is_dir: true,
    };
    let new_entry_unchanged = DirEntry {
        path: path.to_string(),
        name: "test".to_string(),
        modified: now(),
        content_hash: 12345u64,
        children: vec!["file.txt".to_string()],
        symlink_target: None,
        is_hidden: false,
        is_dir: true,
    };
    let new_entry_changed = DirEntry {
        path: path.to_string(),
        name: "test".to_string(),
        modified: now(),
        content_hash: 54321u64,
        children: vec!["file.txt".to_string(), "newfile.txt".to_string()],
        symlink_target: None,
        is_hidden: false,
        is_dir: true,
    };
    assert!(!has_directory_changed(&old_entry, &new_entry_unchanged), "Same hash should not indicate change");
    assert!(has_directory_changed(&old_entry, &new_entry_changed), "Different hash should indicate change");
}

#[test]
fn test_remove_entry_uses_path_components() {
    let mut cache = DiskCache::new_empty(now());
    let base = "/foo";
    let child = "/foo/bar";
    let sibling_prefix = "/foobar";

    cache.entries.insert(base.to_string(), mk_entry(base));
    cache.entries.insert(child.to_string(), mk_entry(child));
    cache.entries.insert(sibling_prefix.to_string(), mk_entry(sibling_prefix));

    cache.remove_entry(base);

    assert!(!cache.entries.contains_key(base));
    assert!(!cache.entries.contains_key(child));
    assert!(cache.entries.contains_key(sibling_prefix));
}

#[test]
fn remove_entry_keeps_the_entry_of_what_stays() {
    let mut cache = DiskCache::new_empty(now());
    let mut kept = mk_entry("/foobar");
    kept.content_hash = 7;
    cache.entries.insert("/foobar".to_string(), kept);
    cache.entries.insert("/foo/a/b".to_string(), mk_entry("/foo/a/b"));
    cache.remove_entry("/foo");
    assert_eq!(cache.entries.len(), 1);
    assert_eq!(cache.get_entry("/foobar").map(|e| e.content_hash), Some(7));
}

#[test]
fn remove_entry_leaves_no_waiting_write_for_what_it_removed() {
    let mut cache = DiskCache::new_empty(now());
    cache.entries.insert("/foo".to_string(), mk_entry("/foo"));
    cache.add_entry("/foo/bar".to_string(), mk_entry("/foo/bar"));
    cache.add_entry("/other".to_string(), mk_entry("/other"));
    cache.add_entry("/foobar".to_string(), mk_entry("/foobar"));
    cache.add_entry("/foo".to_string(), mk_entry("/foo"));
    cache.remove_entry("/foo");
    assert!(cache.entries.is_empty());
    assert_eq!(cache.pending_writes.len(), 2);
    assert_eq!(cache.pending_writes[0].key, "/other");
    assert_eq!(cache.pending_writes[1].key, "/foobar");
    cache.flush_pending_writes();
    assert!(!cache.entries.contains_key("/foo"));
    assert!(!cache.entries.contains_key("/foo/bar"));
    assert!(cache.entries.contains_key("/other"));
    assert!(cache.entries.contains_key("/foobar"));
}

#[test]
fn added_entries_wait_until_the_threshold() {
    let mut cache = DiskCache::new_empty(now());
    cache.flush_threshold = 3;
    cache.add_entry("/a".to_string(), mk_entry("/a"));
    cache.add_entry("/b".to_string(), mk_entry("/b"));
    assert!(cache.get_entry("/a").is_none());
    assert_eq!(cache.pending_writes.len(), 2);
    cache.add_entry("/c".to_string(), mk_entry("/c"));
    assert_eq!(cache.pending_writes.len(), 0);
    assert_eq!(cache.entries.len(), 3);
    assert!(cache.get_entry("/a").is_some());
}

#[test]
fn flush_applies_writes_in_order() {
    let mut cache = DiskCache::new_empty(now());
    let mut first = mk_entry("/a");
    first.content_hash = 1;
    let mut second = mk_entry("/a");
    second.content_hash = 2;
    cache.buffer_entry("/a".to_string(), first);
    cache.buffer_entry("/a".to_string(), second);
    cache.flush_pending_writes();
    assert_eq!(cache.entries.len(), 1);
    assert_eq!(cache.get_entry("/a").map(|e| e.content_hash), Some(2));
    assert!(cache.pending_writes.is_empty());
}

#[test]
fn lazy_loads_never_replace() {
    let mut cache = DiskCache::new_empty(now());
    let mut held = mk_entry("/a");
    held.content_hash = 1;
    cache.entries.insert("/a".to_string(), held);
    let mut stored = mk_entry("/a");
    stored.content_hash = 9;
    cache.load_entries_lazy(vec![
        Slot { key: "/a".to_string(), entry: stored, yields: false },
        Slot { key: "/b".to_string(), entry: mk_entry("/b"), yields: false },
    ]);
    assert_eq!(cache.get_entry("/a").map(|e| e.content_hash), Some(1));
    assert!(cache.get_entry("/b").is_some());
    let wanted = vec!["/a".to_string(), "/c".to_string(), "/b".to_string(), "/d".to_string()];
    assert_eq!(cache.paths_to_load(&wanted), vec!["/c".to_string(), "/d".to_string()]);
}

#[test]
fn names_are_marked_hidden_only_on_request() {
    let mut cache = DiskCache::new_empty(now());
    let mut hidden = mk_entry("/r/.cfg");
    hidden.is_hidden = true;
    cache.entries.insert("/r/.cfg".to_string(), hidden);
    cache.entries.insert("/r/x".to_string(), mk_entry("/r/x"));
    assert_eq!(cache.format_name(".cfg", "/r/.cfg", true), ".cfg [H]");
    assert_eq!(cache.format_name(".cfg", "/r/.cfg", false), ".cfg");
    assert_eq!(cache.format_name("x", "/r/x", true), "x");
    assert_eq!(cache.format_name("y", "/r/y", true), "y");
}

#[test]
fn skip_report_orders_by_falling_count() {
    let mut cache = DiskCache::new_empty(now());
    assert_eq!(cache.get_skip_report(), "(no directories skipped)");
    cache.record_skip(".git");
    cache.record_skip("node_modules");
    cache.record_skip("node_modules");
    cache.record_skip("target");
    assert_eq!(
        cache.get_skip_report(),
        "Skip Statistics:\n  2 × node_modules\n  1 × .git\n  1 × target\n"
    );
    assert_eq!(cache.skip_stats.count("node_modules"), 2);
    assert_eq!(cache.skip_stats.count("absent"), 0);
}

#[test]
fn entry_count_hint_prefers_loaded_entries() {
    let mut cache = DiskCache::new_empty(now());
    cache.persisted_entry_count = 42;
    assert_eq!(cache.entry_count_hint(), 42);
    cache.entries.insert("/a".to_string(), mk_entry("/a"));
    assert_eq!(cache.entry_count_hint(), 1);
}

#[test]
fn cache_path_follows_the_environment() {
    assert_eq!(get_cache_path_custom(Some("/var/cache"), None, None).unwrap(), "/var/cache/ptree.dat");
    assert_eq!(get_cache_path(Some("/x/cache"), Some("/home/u")).unwrap(), "/x/cache/ptree/ptree.dat");
    assert_eq!(get_cache_path(Some("relative"), Some("/home/u")).unwrap(), "/home/u/.cache/ptree/ptree.dat");
    assert_eq!(get_cache_path(None, Some("/home/u")).unwrap(), "/home/u/.cache/ptree/ptree.dat");
    assert!(matches!(get_cache_path(None, Some("home")), Err(PTreeError::Cache(_))));
    assert!(matches!(get_cache_path_custom(None, None, None), Err(PTreeError::Cache(_))));
}

#[test]
fn errors_read_as_heading_and_detail() {
    assert_eq!(PTreeError::Io("gone".to_string()).message(), "IO error: gone");
    assert_eq!(PTreeError::Cache("bad".to_string()).message(), "Cache error: bad");
    assert_eq!(PTreeError::Serialization("x".to_string()).message(), "Serialization error: x");
    assert_eq!(PTreeError::InvalidDrive("Q".to_string()).message(), "Invalid drive: Q");
    assert_eq!(PTreeError::LockTimeout("t".to_string()).message(), "Lock timeout: t");
    assert_eq!(PTreeError::Traversal("r".to_string()).message(), "Traversal error: r");
}
