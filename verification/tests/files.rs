use sqlx_inline_fmt::paths::{
    compare_paths, gather_files, is_rust_file, scan_roots, Order, PathComponent, SourcePath,
};

fn path(s: &str) -> SourcePath {
    let mut components = Vec::new();
    if s.starts_with('/') {
        components.push(PathComponent::RootDir);
    }
    for (i, part) in s.split('/').enumerate() {
        match part {
            "" => {}
            "." if i == 0 => components.push(PathComponent::CurDir),
            "." => {}
            ".." => components.push(PathComponent::ParentDir),
            name => components.push(PathComponent::Normal(name.as_bytes().to_vec())),
        }
    }
    SourcePath { components }
}

fn show(p: &SourcePath) -> String {
    p.components
        .iter()
        .map(|c| match c {
            PathComponent::RootDir => String::new(),
            PathComponent::CurDir => ".".to_string(),
            PathComponent::ParentDir => "..".to_string(),
            PathComponent::Normal(n) => String::from_utf8(n.clone()).unwrap(),
        })
        .collect::<Vec<_>>()
        .join("/")
}

#[test]
fn rust_file_extension() {
    assert!(is_rust_file(&path("src/main.rs")));
    assert!(is_rust_file(&path("a.b.rs")));
    assert!(is_rust_file(&path("..rs")));
    assert!(!is_rust_file(&path(".rs")));
    assert!(!is_rust_file(&path("src/main.rsx")));
    assert!(!is_rust_file(&path("src")));
    assert!(!is_rust_file(&path("src/..")));
    assert!(!is_rust_file(&path("")));
}

#[test]
fn paths_compare_by_components() {
    assert_eq!(compare_paths(&path("a/b"), &path("a-b")), Order::Less);
    assert_eq!(compare_paths(&path("a//b"), &path("a/b")), Order::Same);
    assert_eq!(compare_paths(&path("a"), &path("a/b")), Order::Less);
    assert_eq!(compare_paths(&path("/z"), &path("a")), Order::Less);
    assert_eq!(compare_paths(&path("b"), &path("a/c")), Order::Greater);
}

#[test]
fn gather_sorts_dedups_and_filters() {
    let candidates = vec![
        path("tests/x.rs"),
        path("src/main.rs"),
        path("src/lib.rs"),
        path("README.md"),
        path("src/main.rs"),
        path("a-b.rs"),
        path("a/b.rs"),
    ];
    let files = gather_files(&candidates);
    let shown: Vec<String> = files.iter().map(show).collect();
    assert_eq!(shown, vec!["a/b.rs", "a-b.rs", "src/lib.rs", "src/main.rs", "tests/x.rs"]);
}

#[test]
fn gather_is_idempotent() {
    let files = gather_files(&[path("b.rs"), path("a.rs"), path("b.rs")]);
    let again = gather_files(&files);
    assert_eq!(files.iter().map(show).collect::<Vec<_>>(), again.iter().map(show).collect::<Vec<_>>());
}

#[test]
fn default_roots_are_src_and_tests() {
    let roots = scan_roots(vec![]);
    assert_eq!(roots.iter().map(show).collect::<Vec<_>>(), vec!["src", "tests"]);
    let given = scan_roots(vec![path("x")]);
    assert_eq!(given.iter().map(show).collect::<Vec<_>>(), vec!["x"]);
}
