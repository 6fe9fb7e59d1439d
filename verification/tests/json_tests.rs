use ptree::traversal::{expand_directory, Listed, NodeKind};
use ptree::{DiskCache, NameSet, Timestamp};

fn listed(name: &str, kind: NodeKind) -> Listed {
    Listed { name: name.to_string(), kind, target: None }
}

fn scan(cache: &mut DiskCache, dir: &str, listing: Vec<Listed>) {
    let e = expand_directory(dir, &listing, &NameSet::new(), false, Timestamp { secs: 1, nanos: 0 });
    for slot in e.entries {
        cache.add_write(slot);
    }
    cache.flush_pending_writes();
}

fn small_tree() -> DiskCache {
    let mut cache = DiskCache::new_empty(Timestamp { secs: 0, nanos: 0 });
    cache.root = "/r".to_string();
    scan(&mut cache, "/r", vec![listed("b", NodeKind::Directory), listed("a \"x\"", NodeKind::File)]);
    scan(&mut cache, "/r/b", vec![listed("c", NodeKind::File)]);
    cache
}

#[test]
fn the_document_nests_the_children_in_ascending_order() {
    let cache = small_tree();
    let expected = "{\n  \"children\": [\n    {\n      \"children\": [],\n      \"name\": \"a \\\"x\\\"\",\n      \"path\": \"/r/a \\\"x\\\"\"\n    },\n    {\n      \"children\": [\n        {\n          \"children\": [],\n          \"name\": \"c\",\n          \"path\": \"/r/b/c\"\n        }\n      ],\n      \"name\": \"b\",\n      \"path\": \"/r/b\"\n    }\n  ],\n  \"path\": \"/r\"\n}";
    assert_eq!(cache.build_json_output().unwrap(), expected);
}

#[test]
fn the_document_stops_at_the_depth_limit() {
    let cache = small_tree();
    let expected = "{\n  \"children\": [\n    {\n      \"children\": [],\n      \"name\": \"a \\\"x\\\"\",\n      \"path\": \"/r/a \\\"x\\\"\"\n    },\n    {\n      \"children\": [],\n      \"name\": \"b\",\n      \"path\": \"/r/b\"\n    }\n  ],\n  \"path\": \"/r\"\n}";
    assert_eq!(cache.build_json_output_with_depth(Some(1)).unwrap(), expected);
    assert_eq!(
        cache.build_json_output_with_depth(Some(0)).unwrap(),
        "{\n  \"children\": [],\n  \"path\": \"/r\"\n}"
    );
}

#[test]
fn the_document_parses_back_to_the_tree() {
    let cache = small_tree();
    let text = cache.build_json_output().unwrap();
    let value: serde_json::Value = serde_json::from_str(&text).unwrap();
    assert_eq!(value["path"], "/r");
    assert!(value.get("name").is_none());
    assert_eq!(value["children"][1]["name"], "b");
    assert_eq!(value["children"][1]["children"][0]["path"], "/r/b/c");
}
