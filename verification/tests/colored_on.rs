use ptree::traversal::{expand_directory, Listed, NodeKind};
use ptree::{DiskCache, NameSet, Timestamp};

#[test]
fn the_coloured_drawing_styles_root_branches_and_names() {
    colored::control::set_override(true);
    let mut cache = DiskCache::new_empty(Timestamp { secs: 0, nanos: 0 });
    cache.root = "/r".to_string();
    let listing = vec![
        Listed { name: "b".to_string(), kind: NodeKind::File, target: None },
        Listed { name: "a".to_string(), kind: NodeKind::File, target: None },
    ];
    let e = expand_directory("/r", &listing, &NameSet::new(), false, Timestamp { secs: 1, nanos: 0 });
    for slot in e.entries {
        cache.add_write(slot);
    }
    cache.flush_pending_writes();
    assert_eq!(
        cache.build_colored_tree_output(),
        "\u{1b}[1;34m/r\u{1b}[0m\n\u{1b}[36m├── \u{1b}[0m\u{1b}[94ma\u{1b}[0m\n\u{1b}[36m└── \u{1b}[0m\u{1b}[94mb\u{1b}[0m\n"
    );
}
