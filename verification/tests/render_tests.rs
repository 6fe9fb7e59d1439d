use ptree::render::{assemble_colored, paint_rows, rows_to_text, PaintedRow};
use ptree::traversal::{expand_directory, Listed, NodeKind};
use ptree::{format_number, DiskCache, NameSet, Timestamp};

fn at(secs: i64) -> Timestamp {
    Timestamp { secs, nanos: 0 }
}

fn listed(name: &str, kind: NodeKind) -> Listed {
    Listed { name: name.to_string(), kind, target: None }
}

fn scan(cache: &mut DiskCache, dir: &str, listing: Vec<Listed>, skip: &NameSet) {
    let e = expand_directory(dir, &listing, skip, false, at(1));
    for slot in e.entries {
        cache.add_write(slot);
    }
    for name in e.skipped {
        cache.record_skip(&name);
    }
    cache.flush_pending_writes();
}

fn cache_at(root: &str) -> DiskCache {
    let mut cache = DiskCache::new_empty(at(0));
    cache.root = root.to_string();
    cache
}

#[test]
fn a_cache_without_entries_draws_as_empty() {
    let cache = cache_at("/r");
    assert_eq!(cache.build_tree_output(), "(empty)\n");
    assert_eq!(cache.build_colored_tree_output(), "(empty)\n");
    assert_eq!(cache.build_json_output().unwrap(), "{\"children\":[],\"path\":\"/r\"}");
}

#[test]
fn an_empty_tree_draws_as_its_root() {
    let mut cache = cache_at("/r");
    scan(&mut cache, "/r", Vec::new(), &NameSet::new());
    assert_eq!(cache.entries.len(), 1);
    assert!(cache.get_entry("/r").unwrap().children.is_empty());
    assert_eq!(cache.build_tree_output(), "/r\n");
}

#[test]
fn a_single_file_child_is_drawn_with_a_corner() {
    let mut cache = cache_at("/r");
    scan(&mut cache, "/r", vec![listed("a.txt", NodeKind::File)], &NameSet::new());
    assert_eq!(cache.entries.len(), 2);
    assert_eq!(cache.build_tree_output(), "/r\n└── a.txt\n");
}

#[test]
fn children_are_drawn_in_ascending_order() {
    let mut cache = cache_at("/r");
    scan(
        &mut cache,
        "/r",
        vec![listed("b", NodeKind::File), listed("a", NodeKind::File), listed("c", NodeKind::File)],
        &NameSet::new(),
    );
    assert_eq!(
        cache.get_entry("/r").unwrap().children,
        vec!["b".to_string(), "a".to_string(), "c".to_string()]
    );
    assert_eq!(cache.build_tree_output(), "/r\n├── a\n├── b\n└── c\n");
}

#[test]
fn names_are_ordered_by_code_point() {
    let mut cache = cache_at("/r");
    scan(
        &mut cache,
        "/r",
        vec![
            listed("b", NodeKind::File),
            listed("B", NodeKind::File),
            listed("ab", NodeKind::File),
            listed("a", NodeKind::File),
            listed("é", NodeKind::File),
            listed("z", NodeKind::File),
            listed("10", NodeKind::File),
            listed("9", NodeKind::File),
        ],
        &NameSet::new(),
    );
    assert_eq!(
        cache.build_tree_output(),
        "/r\n├── 10\n├── 9\n├── B\n├── a\n├── ab\n├── b\n├── z\n└── é\n"
    );
}

#[test]
fn skipped_names_are_not_drawn_and_are_counted() {
    let mut skip = NameSet::new();
    skip.insert(".git".to_string());
    skip.insert("node_modules".to_string());
    let mut cache = cache_at("/r");
    scan(
        &mut cache,
        "/r",
        vec![
            listed("keep", NodeKind::Directory),
            listed(".git", NodeKind::Directory),
            listed("node_modules", NodeKind::Directory),
        ],
        &skip,
    );
    assert_eq!(cache.build_tree_output(), "/r\n└── keep\n");
    assert_eq!(cache.get_skip_report(), "Skip Statistics:\n  1 × .git\n  1 × node_modules\n");
}

#[test]
fn a_symlink_is_drawn_with_its_target() {
    let mut cache = cache_at("/parent");
    let link = Listed { name: "link".to_string(), kind: NodeKind::Symlink, target: Some("/parent".to_string()) };
    scan(&mut cache, "/parent", vec![link], &NameSet::new());
    let entry = cache.get_entry("/parent/link").unwrap();
    assert_eq!(entry.symlink_target, Some("/parent".to_string()));
    assert_eq!(cache.entries.len(), 2);
    assert_eq!(cache.build_tree_output(), "/parent\n└── link (→ /parent)\n");
}

fn deep_cache() -> DiskCache {
    let mut cache = cache_at("/r");
    let none = NameSet::new();
    scan(&mut cache, "/r", vec![listed("a", NodeKind::Directory), listed("z", NodeKind::File)], &none);
    scan(&mut cache, "/r/a", vec![listed("b", NodeKind::Directory), listed("y", NodeKind::File)], &none);
    scan(&mut cache, "/r/a/b", vec![listed("c", NodeKind::Directory)], &none);
    scan(&mut cache, "/r/a/b/c", vec![listed("d", NodeKind::Directory)], &none);
    scan(&mut cache, "/r/a/b/c/d", Vec::new(), &none);
    cache
}

#[test]
fn the_whole_tree_is_drawn_with_continuations() {
    let cache = deep_cache();
    assert_eq!(
        cache.build_tree_output(),
        "/r\n├── a\n│   ├── b\n│   │   └── c\n│   │       └── d\n│   └── y\n└── z\n"
    );
}

#[test]
fn what_stands_below_a_child_continues_its_branch() {
    let mut cache = cache_at("/r");
    let none = NameSet::new();
    scan(&mut cache, "/r", vec![listed("a", NodeKind::Directory), listed("b", NodeKind::Directory)], &none);
    scan(&mut cache, "/r/a", vec![listed("x", NodeKind::File)], &none);
    scan(&mut cache, "/r/b", vec![listed("y", NodeKind::File)], &none);
    assert_eq!(cache.build_tree_output(), "/r\n├── a\n│   └── x\n└── b\n    └── y\n");
}

#[test]
fn nothing_is_drawn_below_the_depth_limit() {
    let cache = deep_cache();
    assert_eq!(cache.build_tree_output_with_depth(Some(2)), "/r\n├── a\n│   ├── b\n│   └── y\n└── z\n");
    assert_eq!(cache.build_tree_output_with_depth(Some(1)), "/r\n├── a\n└── z\n");
    assert_eq!(cache.build_tree_output_with_depth(Some(0)), "/r\n");
    let rows = cache.build_tree_rows(Some(2), false);
    assert_eq!(rows.len(), 4);
    assert!(rows.iter().all(|r| r.depth <= 2));
    let all = cache.build_tree_rows(None, false);
    assert_eq!(all.iter().map(|r| r.depth).max(), Some(4));
    assert_eq!(rows_to_text(&all), cache.build_tree_output()["/r\n".len()..]);
}

#[test]
fn hidden_entries_are_marked_when_asked() {
    let mut cache = cache_at("/r");
    let none = NameSet::new();
    scan(&mut cache, "/r", vec![listed(".cfg", NodeKind::Directory)], &none);
    let e = expand_directory("/r/.cfg", &Vec::new(), &none, true, at(1));
    for slot in e.entries {
        cache.add_write(slot);
    }
    cache.flush_pending_writes();
    assert_eq!(cache.build_tree_output(), "/r\n└── .cfg\n");
    cache.show_hidden = true;
    assert_eq!(cache.build_tree_output(), "/r\n└── .cfg [H]\n");
}

#[test]
fn a_cache_that_loops_is_drawn_and_ends() {
    let mut cache = cache_at("/");
    scan(&mut cache, "/", vec![listed("/", NodeKind::Directory)], &NameSet::new());
    let text = cache.build_tree_output();
    assert!(text.starts_with("/\n└── /\n"));
    assert!(cache.build_json_output().is_ok());
}

#[test]
fn a_large_directory_is_sorted_the_same_way() {
    let mut cache = cache_at("/r");
    let mut listing = Vec::new();
    for i in (0..600).rev() {
        listing.push(listed(&format!("n{:03}", i), NodeKind::File));
    }
    scan(&mut cache, "/r", listing, &NameSet::new());
    let plain = cache.build_tree_rows(None, false);
    let parallel = cache.build_tree_rows(None, true);
    assert_eq!(plain.len(), 600);
    for i in 0..600 {
        assert_eq!(plain[i].label, format!("n{:03}", i));
        assert_eq!(parallel[i].label, plain[i].label);
        assert_eq!(plain[i].is_last, i == 599);
    }
}

#[test]
fn the_coloured_drawing_is_put_together_from_its_parts() {
    let painted = vec![
        PaintedRow { prefix: "".to_string(), branch: "<+>".to_string(), label: "[a]".to_string() },
        PaintedRow { prefix: "    ".to_string(), branch: "<L>".to_string(), label: "[b]".to_string() },
    ];
    assert_eq!(assemble_colored("ROOT", &painted), "ROOT\n<+>[a]\n    <L>[b]\n");
    assert_eq!(assemble_colored("ROOT", &Vec::new()), "ROOT\n");
}

#[test]
fn painting_keeps_the_prefixes_and_the_number_of_rows() {
    let cache = deep_cache();
    let rows = cache.build_tree_rows(None, true);
    let painted = paint_rows(&rows);
    assert_eq!(painted.len(), rows.len());
    for i in 0..rows.len() {
        assert_eq!(painted[i].prefix, rows[i].prefix);
        assert!(painted[i].label.contains(&rows[i].label));
    }
}

#[test]
fn numbers_are_grouped_by_thousands() {
    assert_eq!(format_number(0), "0");
    assert_eq!(format_number(999), "999");
    assert_eq!(format_number(1000), "1,000");
    assert_eq!(format_number(1234567), "1,234,567");
    assert_eq!(format_number(1000000), "1,000,000");
    assert_eq!(format_number(10020), "10,020");
}
