use std::collections::HashMap;

use nocap::{build_directory_tree, build_tree, EntryKind, ListedChild, PathStatus, TreeEntry, TreeError};

fn child(parent: &str, name: &str, kind: EntryKind) -> ListedChild {
    ListedChild { path: format!("{}/{}", parent, name), name: name.to_string(), kind: Some(kind) }
}

fn sample_fs() -> HashMap<String, Vec<ListedChild>> {
    let mut fs = HashMap::new();
    fs.insert(
        "/root".to_string(),
        vec![child("/root", "y.png", EntryKind::File), child("/root", "sub", EntryKind::Directory)],
    );
    fs.insert("/root/sub".to_string(), vec![child("/root/sub", "x.png", EntryKind::File)]);
    fs
}

fn names(t: &TreeEntry) -> Vec<&str> {
    t.children.iter().map(|c| c.name.as_str()).collect()
}

#[test]
fn depth_one_lists_subdirectory_unexpanded() {
    let fs = sample_fs();
    let list = |p: &str| fs.get(p).cloned();
    let t = build_tree("/root", PathStatus::Directory, 1, &list).unwrap();
    assert_eq!(t.name, "root");
    assert_eq!(t.kind, EntryKind::Directory);
    assert_eq!(names(&t), vec!["sub", "y.png"]);
    assert_eq!(t.children[0].kind, EntryKind::Directory);
    assert!(t.children[0].children.is_empty());
    assert_eq!(t.children[1].kind, EntryKind::File);
}

#[test]
fn depth_two_expands_subdirectory() {
    let fs = sample_fs();
    let list = |p: &str| fs.get(p).cloned();
    let t = build_tree("/root", PathStatus::Directory, 2, &list).unwrap();
    assert_eq!(names(&t), vec!["sub", "y.png"]);
    assert_eq!(names(&t.children[0]), vec!["x.png"]);
    assert_eq!(t.children[0].children[0].path, "/root/sub/x.png");
}

#[test]
fn depth_zero_does_not_expand_the_root() {
    let fs = sample_fs();
    let list = |p: &str| fs.get(p).cloned();
    let t = build_tree("/root", PathStatus::Directory, 0, &list).unwrap();
    assert_eq!(t.kind, EntryKind::Directory);
    assert!(t.children.is_empty());
}

#[test]
fn missing_root_is_not_found() {
    let list = |_: &str| None;
    assert_eq!(build_tree("/nope", PathStatus::Missing, 3, &list), Err(TreeError::NotFound));
    assert_eq!(build_directory_tree("/nope", PathStatus::Missing, 3, &list), Err(TreeError::NotFound));
}

#[test]
fn file_root_is_invalid_for_the_caller_facing_form() {
    let list = |_: &str| None;
    assert_eq!(
        build_directory_tree("/root/y.png", PathStatus::NotDirectory, 3, &list),
        Err(TreeError::InvalidArgument)
    );
    let leaf = build_tree("/root/y.png", PathStatus::NotDirectory, 3, &list).unwrap();
    assert_eq!(leaf.kind, EntryKind::File);
    assert_eq!(leaf.name, "y.png");
    assert!(leaf.children.is_empty());
}

#[test]
fn unreadable_root_is_an_io_error() {
    let list = |_: &str| None;
    assert_eq!(build_tree("/locked", PathStatus::Directory, 1, &list), Err(TreeError::IoError));
}

#[test]
fn unreadable_children_are_skipped() {
    let mut fs = HashMap::new();
    fs.insert(
        "/r".to_string(),
        vec![
            child("/r", "locked", EntryKind::Directory),
            child("/r", "open", EntryKind::Directory),
            ListedChild { path: "/r/gone".to_string(), name: "gone".to_string(), kind: None },
            child("/r", "a.png", EntryKind::File),
        ],
    );
    fs.insert("/r/open".to_string(), vec![]);
    let list = |p: &str| fs.get(p).cloned();
    let t = build_tree("/r", PathStatus::Directory, 2, &list).unwrap();
    assert_eq!(names(&t), vec!["open", "a.png"]);
}

#[test]
fn directories_first_then_names_ignoring_case() {
    let mut fs = HashMap::new();
    fs.insert(
        "/m".to_string(),
        vec![
            child("/m", "b.png", EntryKind::File),
            child("/m", "Zoo", EntryKind::Directory),
            child("/m", "A.jpg", EntryKind::File),
            child("/m", "apple", EntryKind::Directory),
            child("/m", "c.gif", EntryKind::File),
        ],
    );
    let list = |p: &str| fs.get(p).cloned();
    let t = build_tree("/m", PathStatus::Directory, 1, &list).unwrap();
    assert_eq!(names(&t), vec!["apple", "Zoo", "A.jpg", "b.png", "c.gif"]);
}

#[test]
fn deep_tree_stops_at_the_budget() {
    let mut fs = HashMap::new();
    fs.insert("/d".to_string(), vec![child("/d", "l1", EntryKind::Directory)]);
    fs.insert("/d/l1".to_string(), vec![child("/d/l1", "l2", EntryKind::Directory)]);
    fs.insert("/d/l1/l2".to_string(), vec![child("/d/l1/l2", "l3", EntryKind::Directory)]);
    fs.insert("/d/l1/l2/l3".to_string(), vec![child("/d/l1/l2/l3", "f.png", EntryKind::File)]);
    let list = |p: &str| fs.get(p).cloned();
    let t = build_tree("/d", PathStatus::Directory, 2, &list).unwrap();
    let l2 = &t.children[0].children[0];
    assert_eq!(l2.name, "l2");
    assert!(l2.children.is_empty());
}

#[test]
fn self_referencing_listing_is_contained_by_depth() {
    let mut fs = HashMap::new();
    fs.insert("/loop".to_string(), vec![child("/loop", "again", EntryKind::Directory)]);
    let list = |_: &str| fs.get("/loop").cloned();
    let t = build_tree("/loop", PathStatus::Directory, 3, &list).unwrap();
    let mut node = &t;
    let mut levels = 0;
    while !node.children.is_empty() {
        node = &node.children[0];
        levels += 1;
    }
    assert_eq!(levels, 3);
}

fn leaf(name: &str, kind: EntryKind) -> TreeEntry {
    TreeEntry { path: format!("/s/{}", name), name: name.to_string(), kind, children: Vec::new() }
}

#[test]
fn sort_entries_puts_directories_first_and_ignores_case() {
    let input = vec![
        leaf("b.png", EntryKind::File),
        leaf("Docs", EntryKind::Directory),
        leaf("a.PNG", EntryKind::File),
        leaf("B.jpg", EntryKind::File),
        leaf("archive", EntryKind::Directory),
    ];
    let out = nocap::sort_entries(input);
    let got: Vec<&str> = out.iter().map(|e| e.name.as_str()).collect();
    assert_eq!(got, vec!["archive", "Docs", "a.PNG", "B.jpg", "b.png"]);
}

#[test]
fn sort_entries_keeps_order_of_names_equal_but_for_case() {
    let out = nocap::sort_entries(vec![leaf("X.png", EntryKind::File), leaf("x.png", EntryKind::File)]);
    assert_eq!(out[0].name, "X.png");
    assert_eq!(out[1].name, "x.png");
    assert!(nocap::sort_entries(Vec::new()).is_empty());
}
