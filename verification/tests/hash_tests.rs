use std::hash::{Hash, Hasher};

use ptree::{compute_content_hash, Timestamp};

fn now() -> Timestamp {
    let n = chrono::Utc::now();
    Timestamp { secs: n.timestamp(), nanos: n.timestamp_subsec_nanos() }
}

#[test]
fn test_content_hash_stability() {
    let path = "C:\\test";
    let modified = now();
    let children = vec!["file1.txt".to_string(), "file2.txt".to_string()];
    let child_hashes: Vec<(String, u64)> = Vec::new();

    let hash1 = compute_content_hash(path, modified, &children, &child_hashes);
    let hash2 = compute_content_hash(path, modified, &children, &child_hashes);

    assert_eq!(hash1, hash2, "Identical inputs should produce identical hashes");
}

#[test]
fn test_content_hash_sensitivity() {
    let path = "C:\\test";
    let modified = now();

    let children = vec!["file1.txt".to_string()];
    let child_hashes: Vec<(String, u64)> = Vec::new();
    let base_hash = compute_content_hash(path, modified, &children, &child_hashes);

    let children_added = vec!["file1.txt".to_string(), "file2.txt".to_string()];
    let hash_added = compute_content_hash(path, modified, &children_added, &child_hashes);
    assert_ne!(base_hash, hash_added, "Adding a file should change hash");

    let children_removed: Vec<String> = vec![];
    let hash_removed = compute_content_hash(path, modified, &children_removed, &child_hashes);
    assert_ne!(base_hash, hash_removed, "Removing a file should change hash");

    let children_renamed = vec!["renamed_file.txt".to_string()];
    let hash_renamed = compute_content_hash(path, modified, &children_renamed, &child_hashes);
    assert_ne!(base_hash, hash_renamed, "Renaming a file should change hash");
}

#[test]
fn test_merkle_propagation() {
    let parent_path = "/parent";
    let child_path = "/parent/child";
    let modified = now();

    let parent_children = vec!["child".to_string()];
    let mut child_hashes: Vec<(String, u64)> = Vec::new();
    child_hashes.push((child_path.to_string(), 12345u64));

    let parent_hash1 = compute_content_hash(parent_path, modified, &parent_children, &child_hashes);

    child_hashes[0] = (child_path.to_string(), 54321u64);
    let parent_hash2 = compute_content_hash(parent_path, modified, &parent_children, &child_hashes);

    assert_ne!(parent_hash1, parent_hash2, "Child hash change should affect parent hash");
}

#[test]
fn hash_ignores_the_order_of_children_and_of_hashes() {
    let t = Timestamp { secs: 1_700_000_000, nanos: 5 };
    let a = vec!["b".to_string(), "a".to_string(), "c".to_string()];
    let b = vec!["c".to_string(), "b".to_string(), "a".to_string()];
    let h1 = vec![("/p/x".to_string(), 1u64), ("/p/y".to_string(), 2u64)];
    let h2 = vec![("/p/y".to_string(), 2u64), ("/p/x".to_string(), 1u64)];
    assert_eq!(compute_content_hash("/p", t, &a, &h1), compute_content_hash("/p", t, &b, &h2));
}

#[test]
fn hash_ignores_hashes_of_other_directories_and_sub_second_time() {
    let t1 = Timestamp { secs: 10, nanos: 0 };
    let t2 = Timestamp { secs: 10, nanos: 999 };
    let c = vec!["a".to_string()];
    let none: Vec<(String, u64)> = Vec::new();
    let far = vec![("/q/a".to_string(), 9u64), ("/p/a/b".to_string(), 8u64), ("/p".to_string(), 7u64)];
    assert_eq!(compute_content_hash("/p", t1, &c, &none), compute_content_hash("/p", t2, &c, &far));
}

#[test]
fn hash_sees_path_case_only_through_lower_case() {
    let t = Timestamp { secs: 10, nanos: 0 };
    let c: Vec<String> = Vec::new();
    let none: Vec<(String, u64)> = Vec::new();
    assert_eq!(compute_content_hash("/Proj", t, &c, &none), compute_content_hash("/proj", t, &c, &none));
    assert_ne!(compute_content_hash("/proj", t, &c, &none), compute_content_hash("/proj2", t, &c, &none));
    let later = Timestamp { secs: 11, nanos: 0 };
    assert_ne!(compute_content_hash("/proj", t, &c, &none), compute_content_hash("/proj", later, &c, &none));
}

#[test]
fn hash_has_the_value_of_the_standard_hasher() {
    let t = Timestamp { secs: -3, nanos: 0 };
    let children = vec!["b".to_string(), "a".to_string()];
    let hashes = vec![("/P/z".to_string(), 5u64), ("/P/y".to_string(), 6u64)];
    let mut h = std::collections::hash_map::DefaultHasher::new();
    "/p".to_string().hash(&mut h);
    (-3i64).hash(&mut h);
    2usize.hash(&mut h);
    "a".to_string().hash(&mut h);
    "b".to_string().hash(&mut h);
    6u64.hash(&mut h);
    5u64.hash(&mut h);
    assert_eq!(compute_content_hash("/P", t, &children, &hashes), h.finish());
}
