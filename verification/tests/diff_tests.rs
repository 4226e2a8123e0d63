use rush::diff::{diff, Diff};
use rush::digest::{Digest, HashMethod};
use rush::errors::RushError;
use rush::merkle::build_from_digests;
use rush::node::{BuildConfig, NodeTree};
use rush::provider::hash_content;
use rush::tree::FsTree;

fn file(name: &str) -> FsTree {
    FsTree::file(name.as_bytes().to_vec()).unwrap()
}

fn dir(name: &str, entries: Vec<FsTree>) -> FsTree {
    FsTree::dir(name.as_bytes().to_vec(), entries).unwrap()
}

fn build(t: &FsTree, contents: &[&[u8]], method: HashMethod, limit: u64) -> NodeTree {
    let ds: Vec<Digest> = contents
        .iter()
        .map(|c| hash_content(&method, c, limit).unwrap())
        .collect();
    let cfg = BuildConfig { hash_method: method, bytes_to_hash: limit, store: false };
    build_from_digests(t, &ds, &cfg).unwrap()
}

fn names(v: &Vec<Vec<u8>>) -> Vec<String> {
    v.iter().map(|n| String::from_utf8(n.clone()).unwrap()).collect()
}

#[test]
fn identical_trees_diff_as_empty() {
    let t = dir("data", vec![file("a.txt"), dir("sub", vec![file("b.txt")])]);
    let contents: [&[u8]; 2] = [b"aaa", b"bbb"];
    let l = build(&t, &contents, HashMethod::Md5, 0);
    let r = build(&t, &contents, HashMethod::Md5, 0);
    assert!(l.check() && r.check());
    let d = diff(&l, &r).unwrap();
    assert!(d.is_none());
}

#[test]
fn one_changed_file_is_reported_alone() {
    let t = dir("data", vec![file("a.txt"), file("b.txt")]);
    let before: [&[u8]; 2] = [b"hello", b"world"];
    let after: [&[u8]; 2] = [b"hello", b"world2"];
    let l = build(&t, &before, HashMethod::Md5, 0);
    let r = build(&t, &after, HashMethod::Md5, 0);
    let d = diff(&l, &r).unwrap().unwrap();
    assert_eq!(names(&d.changed), vec!["b.txt"]);
    assert!(d.added.is_empty());
    assert!(d.removed.is_empty());
}

#[test]
fn whole_new_subdirectory_is_one_added_entry() {
    let l_tree = dir("data", vec![file("a.txt")]);
    let r_tree = dir(
        "data",
        vec![file("a.txt"), dir("D", vec![file("deep.txt"), dir("deeper", vec![file("x")])])],
    );
    let l = build(&l_tree, &[b"base"], HashMethod::Md5, 0);
    // Collection order is depth first over sorted entries: D sorts
    // before a.txt, so D's files come first.
    let r_contents: [&[u8]; 3] = [b"deep", b"x", b"base"];
    let r = build(&r_tree, &r_contents, HashMethod::Md5, 0);
    let d = diff(&l, &r).unwrap().unwrap();
    // One entry for D itself; its contents are never entered.
    assert_eq!(names(&d.added), vec!["D"]);
    assert!(d.removed.is_empty());
    assert!(d.changed.is_empty());
}

#[test]
fn removed_entries_are_reported_from_the_left() {
    let l_tree = dir("data", vec![file("a.txt"), file("old.txt")]);
    let r_tree = dir("data", vec![file("a.txt")]);
    let l_contents: [&[u8]; 2] = [b"keep", b"gone"];
    let l = build(&l_tree, &l_contents, HashMethod::Md5, 0);
    let r = build(&r_tree, &[b"keep"], HashMethod::Md5, 0);
    let d = diff(&l, &r).unwrap().unwrap();
    assert_eq!(names(&d.removed), vec!["old.txt"]);
    assert!(d.added.is_empty());
    assert!(d.changed.is_empty());
}

#[test]
fn change_inside_subdirectory_is_reported_by_its_full_path() {
    let t = dir(
        "data",
        vec![dir("keep", vec![file("same.txt")]), dir("sub", vec![file("b.txt"), file("c.txt")])],
    );
    let before: [&[u8]; 3] = [b"same", b"one", b"two"];
    let after: [&[u8]; 3] = [b"same", b"one", b"two-changed"];
    let l = build(&t, &before, HashMethod::Md5, 0);
    let r = build(&t, &after, HashMethod::Md5, 0);
    let d = diff(&l, &r).unwrap().unwrap();
    assert_eq!(names(&d.changed), vec!["sub/c.txt"]);
    assert!(d.added.is_empty());
    assert!(d.removed.is_empty());
}

#[test]
fn different_methods_fail_with_config_mismatch() {
    let t = dir("data", vec![file("a.txt")]);
    let l = build(&t, &[b"x"], HashMethod::Md5, 0);
    let r = build(&t, &[b"x"], HashMethod::Blake3, 0);
    assert_eq!(diff(&l, &r).unwrap_err(), RushError::ConfigMismatch);
}

#[test]
fn different_byte_limits_fail_with_config_mismatch() {
    let t = dir("data", vec![file("a.txt")]);
    let l = build(&t, &[b"hello world"], HashMethod::Md5, 0);
    let r = build(&t, &[b"hello world"], HashMethod::Md5, 4);
    assert_eq!(diff(&l, &r).unwrap_err(), RushError::ConfigMismatch);
}

#[test]
fn full_scenario_hello_world() {
    // a.txt = "hello", b.txt = "world"; rewrite b.txt to "world2".
    let t = dir("data", vec![file("a.txt"), file("b.txt")]);
    let before: [&[u8]; 2] = [b"hello", b"world"];
    let after: [&[u8]; 2] = [b"hello", b"world2"];
    let first = build(&t, &before, HashMethod::Md5, 0);
    let second = build(&t, &after, HashMethod::Md5, 0);
    assert!(!(first.node.root_hash == second.node.root_hash));
    let d = diff(&first, &second).unwrap().unwrap();
    assert_eq!(names(&d.changed), vec!["b.txt"]);
    assert!(d.added.is_empty());
    assert!(d.removed.is_empty());
}

#[test]
fn is_empty_reflects_the_three_lists() {
    let d = Diff::new();
    assert!(d.is_empty());
    let mut d2 = Diff::new();
    d2.changed.push(b"x".to_vec());
    assert!(!d2.is_empty());
}

#[test]
fn a_name_that_is_a_file_on_one_side_is_changed_not_entered() {
    // On the left, "x" is a file; on the right, a directory. Only one
    // side has a persisted node for it, so it is recorded as changed.
    let l_tree = dir("data", vec![file("x")]);
    let r_tree = dir("data", vec![dir("x", vec![file("inner.txt")])]);
    let l = build(&l_tree, &[b"file content"], HashMethod::Md5, 0);
    let r = build(&r_tree, &[b"inner"], HashMethod::Md5, 0);
    let d = diff(&l, &r).unwrap().unwrap();
    assert_eq!(names(&d.changed), vec!["x"]);
    assert!(d.added.is_empty());
    assert!(d.removed.is_empty());
}

#[test]
fn pruned_equal_subtrees_are_not_reported() {
    // Two snapshots differing only at the top level: the untouched
    // subtree has an equal digest and contributes nothing.
    let t1 = dir("data", vec![dir("same", vec![file("s.txt")]), file("top.txt")]);
    let t2 = dir("data", vec![dir("same", vec![file("s.txt")]), file("top.txt")]);
    let before: [&[u8]; 2] = [b"stable", b"old"];
    let after: [&[u8]; 2] = [b"stable", b"new"];
    let l = build(&t1, &before, HashMethod::Md5, 0);
    let r = build(&t2, &after, HashMethod::Md5, 0);
    let d = diff(&l, &r).unwrap().unwrap();
    assert_eq!(names(&d.changed), vec!["top.txt"]);
    assert!(d.added.is_empty());
    assert!(d.removed.is_empty());
}

#[test]
fn blake3_snapshots_compare_the_same_way() {
    let t = dir("data", vec![file("a.txt"), file("b.txt")]);
    let before: [&[u8]; 2] = [b"hello", b"world"];
    let after: [&[u8]; 2] = [b"hello", b"world2"];
    let l = build(&t, &before, HashMethod::Blake3, 0);
    let r = build(&t, &after, HashMethod::Blake3, 0);
    let d = diff(&l, &r).unwrap().unwrap();
    assert_eq!(names(&d.changed), vec!["b.txt"]);
}
