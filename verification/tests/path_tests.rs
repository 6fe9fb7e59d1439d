use ptree::path::{child_name, components, file_name, is_absolute, join, starts_with};

#[test]
fn components_drop_empty_pieces_and_inner_dots() {
    assert_eq!(components("/a//b/./c/"), vec!["/", "a", "b", "c"]);
    assert_eq!(components("./a/."), vec![".", "a"]);
    assert_eq!(components(""), Vec::<String>::new());
    assert_eq!(components("/"), vec!["/"]);
    assert_eq!(components("a/../b"), vec!["a", "..", "b"]);
    assert_eq!(components("C:\\test"), vec!["C:\\test"]);
}

#[test]
fn join_puts_one_separator() {
    assert_eq!(join("/a", "b"), "/a/b");
    assert_eq!(join("/a/", "b"), "/a/b");
    assert_eq!(join("/", "b"), "/b");
    assert_eq!(join("", "b"), "b");
    assert_eq!(join("/a", "/b"), "/b");
    assert_eq!(join("/a", ""), "/a/");
}

#[test]
fn starts_with_goes_by_components() {
    assert!(starts_with("/foo/bar", "/foo"));
    assert!(!starts_with("/foobar", "/foo"));
    assert!(starts_with("/foo", "/foo"));
    assert!(starts_with("/foo/", "/foo"));
    assert!(!starts_with("/foo", "/foo/bar"));
    assert!(!starts_with("foo/bar", "/foo"));
    assert!(starts_with("/anything", ""));
}

#[test]
fn file_name_is_the_last_normal_component() {
    assert_eq!(file_name("/a/b.txt"), Some("b.txt".to_string()));
    assert_eq!(file_name("/a/b/"), Some("b".to_string()));
    assert_eq!(file_name("/"), None);
    assert_eq!(file_name(""), None);
    assert_eq!(file_name("/a/.."), None);
    assert_eq!(file_name("."), None);
}

#[test]
fn child_name_needs_a_direct_parent() {
    assert_eq!(child_name("/parent/child", "/parent"), Some("child".to_string()));
    assert_eq!(child_name("/parent/child/deep", "/parent"), None);
    assert_eq!(child_name("/parentchild", "/parent"), None);
    assert_eq!(child_name("/parent", "/parent"), None);
    assert_eq!(child_name("/parent/..", "/parent"), None);
    assert_eq!(child_name("child", ""), Some("child".to_string()));
}

#[test]
fn absolute_paths_start_at_the_root() {
    assert!(is_absolute("/tmp"));
    assert!(!is_absolute("tmp"));
    assert!(!is_absolute(""));
}

fn samples() -> Vec<&'static str> {
    vec![
        "", "/", "//", "a", "/a", "a/", "/a/", "a/b", "/a/b", "/a//b", "/a/./b", "./a", "a/.", ".", "..", "/..",
        "a/..", "../a", "/foo", "/foobar", "/foo/bar", "/foo/bar/baz", "foo", "foo/bar", "C:\\test", "/a b/c",
        "/é/ü", "/a/b/.", "/./a", ".//a", "/a/../b",
    ]
}

fn std_components(s: &str) -> Vec<String> {
    std::path::Path::new(s).components().map(|c| c.as_os_str().to_string_lossy().to_string()).collect()
}

#[test]
fn components_agree_with_the_system_on_its_own_separator() {
    for s in samples() {
        assert_eq!(components(s), std_components(s), "components of {:?}", s);
    }
}

#[test]
fn ancestry_agrees_with_the_system() {
    for k in samples() {
        for p in samples() {
            assert_eq!(
                starts_with(k, p),
                std::path::Path::new(k).starts_with(std::path::Path::new(p)),
                "{:?} starts with {:?}",
                k,
                p
            );
        }
    }
}

#[test]
fn joining_agrees_with_the_system() {
    for base in samples() {
        for name in samples() {
            assert_eq!(
                join(base, name),
                std::path::Path::new(base).join(name).to_string_lossy(),
                "{:?} joined with {:?}",
                base,
                name
            );
        }
    }
}

#[test]
fn names_and_parents_agree_with_the_system() {
    for k in samples() {
        let path = std::path::Path::new(k);
        assert_eq!(
            file_name(k),
            path.file_name().map(|n| n.to_string_lossy().to_string()),
            "file name of {:?}",
            k
        );
        assert_eq!(is_absolute(k), path.is_absolute(), "absoluteness of {:?}", k);
        for p in samples() {
            let expected = if path.parent() == Some(std::path::Path::new(p)) {
                path.file_name().map(|n| n.to_string_lossy().to_string())
            } else {
                None
            };
            assert_eq!(child_name(k, p), expected, "{:?} as a child of {:?}", k, p);
        }
    }
}
