use ptree::traversal::{expand_directory, Listed, NodeKind};
use ptree::{DiskCache, NameSet, Timestamp};

#[test]
fn without_colours_the_coloured_drawing_is_the_plain_one() {
    colored::control::set_override(false);
    let mut cache = DiskCache::new_empty(Timestamp { secs: 0, nanos: 0 });
    cache.root = "/r".to_string();
    let listing = vec![
        Listed { name: "b".to_string(), kind: NodeKind::Directory, target: None },
        Listed { name: "a".to_string(), kind: NodeKind::File, target: None },
    ];
    let e = expand_directory("/r", &listing, &NameSet::new(), false, Timestamp { secs: 1, nanos: 0 });
    for slot in e.entries {
        cache.add_write(slot);
    }
    cache.flush_pending_writes();
    assert_eq!(cache.build_colored_tree_output(), cache.build_tree_output());
    assert_eq!(cache.build_colored_tree_output_with_depth(Some(1)), "/r\n├── a\n└── b\n");
}
