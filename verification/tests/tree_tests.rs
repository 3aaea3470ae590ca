use gitdesk::tree::{keep_entry, scan_entries, FileNode};

fn file(name: &str) -> FileNode {
    FileNode {
        name: name.to_string(),
        path: format!("/project/{}", name),
        is_dir: false,
        children: None,
    }
}

fn dir(name: &str, children: Vec<FileNode>) -> FileNode {
    FileNode {
        name: name.to_string(),
        path: format!("/project/{}", name),
        is_dir: true,
        children: Some(children),
    }
}

fn names(nodes: &[FileNode]) -> Vec<String> {
    nodes.iter().map(|n| n.name.clone()).collect()
}

#[test]
fn scan_of_empty_listing_is_empty() {
    let out = scan_entries(Vec::new());
    assert!(out.is_empty());
}

#[test]
fn node_modules_is_dropped_readme_stays() {
    let out = scan_entries(vec![
        dir("node_modules", vec![file("x.txt")]),
        file("README.md"),
    ]);
    assert_eq!(out.len(), 1);
    assert_eq!(out[0].name, "README.md");
    assert!(!out[0].is_dir);
    assert!(out[0].children.is_none());
}

#[test]
fn all_denied_names_are_dropped_at_top_level() {
    let out = scan_entries(vec![
        dir(".git", vec![file("HEAD")]),
        dir("node_modules", vec![]),
        dir(".temp", vec![]),
        dir(".cache", vec![]),
        file("kept.txt"),
    ]);
    assert_eq!(names(&out), vec!["kept.txt"]);
}

#[test]
fn denied_names_are_dropped_at_any_depth() {
    let out = scan_entries(vec![dir(
        "src",
        vec![dir("inner", vec![dir(".git", vec![file("config")]), file("mod.rs")])],
    )]);
    assert_eq!(out.len(), 1);
    let inner = &out[0].children.as_ref().unwrap()[0];
    assert_eq!(inner.name, "inner");
    let inner_children = inner.children.as_ref().unwrap();
    assert_eq!(names(inner_children), vec!["mod.rs"]);
}

#[test]
fn directories_come_before_files_names_case_insensitive() {
    let out = scan_entries(vec![
        file("b.txt"),
        dir("Zeta", vec![]),
        file("Alpha.txt"),
        dir("alpha", vec![]),
    ]);
    assert_eq!(names(&out), vec!["alpha", "Zeta", "Alpha.txt", "b.txt"]);
    assert!(out[0].is_dir && out[1].is_dir);
    assert!(!out[2].is_dir && !out[3].is_dir);
}

#[test]
fn lowercase_name_sorts_before_later_uppercase_name() {
    let out = scan_entries(vec![file("B"), file("a")]);
    assert_eq!(names(&out), vec!["a", "B"]);
}

#[test]
fn children_are_sorted_and_filtered_too() {
    let out = scan_entries(vec![dir(
        "src",
        vec![file("z.rs"), file("A.rs"), dir(".git", vec![file("x")])],
    )]);
    assert_eq!(out.len(), 1);
    let children = out[0].children.as_ref().unwrap();
    assert_eq!(names(children), vec!["A.rs", "z.rs"]);
}

#[test]
fn directory_always_has_children_file_never_does() {
    let bare_dir = FileNode {
        name: "d".to_string(),
        path: "/project/d".to_string(),
        is_dir: true,
        children: None,
    };
    let out = scan_entries(vec![bare_dir, file("f.txt")]);
    assert_eq!(out.len(), 2);
    assert!(out[0].is_dir);
    assert_eq!(out[0].children, Some(Vec::new()));
    assert!(!out[1].is_dir);
    assert!(out[1].children.is_none());
}

#[test]
fn paths_and_names_are_kept_verbatim() {
    let out = scan_entries(vec![file("kept.txt")]);
    assert_eq!(out[0].name, "kept.txt");
    assert_eq!(out[0].path, "/project/kept.txt");
}

#[test]
fn keep_entry_matches_exact_names_only() {
    assert!(!keep_entry(".git"));
    assert!(!keep_entry("node_modules"));
    assert!(!keep_entry(".temp"));
    assert!(!keep_entry(".cache"));
    assert!(keep_entry(".gitignore"));
    assert!(keep_entry("git"));
    assert!(keep_entry("temp"));
    assert!(keep_entry("cache"));
    assert!(keep_entry("NODE_MODULES"));
    assert!(keep_entry(""));
}
