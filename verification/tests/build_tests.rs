use rush::combine::combine;
use rush::digest::{Digest, HashMethod};
use rush::errors::RushError;
use rush::merkle::build_from_digests;
use rush::node::{BuildConfig, NodeTree};
use rush::provider::{hash_bytes, hash_content};
use rush::tree::{collect_files, FsTree};

fn file(name: &str) -> FsTree {
    FsTree::file(name.as_bytes().to_vec()).unwrap()
}

fn dir(name: &str, entries: Vec<FsTree>) -> FsTree {
    FsTree::dir(name.as_bytes().to_vec(), entries).unwrap()
}

fn digests_for(contents: &[&[u8]], method: &HashMethod, limit: u64) -> Vec<Digest> {
    contents
        .iter()
        .map(|c| hash_content(method, c, limit).unwrap())
        .collect()
}

fn cfg(method: HashMethod, limit: u64) -> BuildConfig {
    BuildConfig { hash_method: method, bytes_to_hash: limit, store: true }
}

fn build(t: &FsTree, contents: &[&[u8]], method: HashMethod, limit: u64) -> NodeTree {
    let ds = digests_for(contents, &method, limit);
    build_from_digests(t, &ds, &cfg(method, limit)).unwrap()
}

fn hex(d: &Digest) -> String {
    String::from_utf8(d.to_hex()).unwrap()
}

#[test]
fn combine_of_no_children_is_zero() {
    let root = combine(&HashMethod::Md5, Vec::new()).unwrap();
    assert_eq!(hex(&root), "00000000000000000000000000000000");
}

#[test]
fn combine_of_one_child_is_that_child() {
    let d = hash_bytes(&HashMethod::Md5, b"only").unwrap();
    let root = combine(&HashMethod::Md5, vec![d.duplicate()]).unwrap();
    assert!(root == d);
}

#[test]
fn combine_of_two_hashes_their_concatenation() {
    let d0 = hash_bytes(&HashMethod::Md5, b"left").unwrap();
    let d1 = hash_bytes(&HashMethod::Md5, b"right").unwrap();
    let mut cat = d0.bytes().clone();
    cat.extend_from_slice(d1.bytes());
    let expect = hash_bytes(&HashMethod::Md5, &cat).unwrap();
    let root = combine(&HashMethod::Md5, vec![d0, d1]).unwrap();
    assert!(root == expect);
}

#[test]
fn combine_of_three_carries_the_odd_one_forward() {
    // Reference vector: root == hash(hash(d0 || d1) || d2), the odd d2
    // carried unhashed to the final level.
    let d0 = hash_bytes(&HashMethod::Md5, b"a").unwrap();
    let d1 = hash_bytes(&HashMethod::Md5, b"b").unwrap();
    let d2 = hash_bytes(&HashMethod::Md5, b"c").unwrap();
    let mut cat01 = d0.bytes().clone();
    cat01.extend_from_slice(d1.bytes());
    let h01 = hash_bytes(&HashMethod::Md5, &cat01).unwrap();
    let mut cat = h01.bytes().clone();
    cat.extend_from_slice(d2.bytes());
    let expect = hash_bytes(&HashMethod::Md5, &cat).unwrap();
    let root = combine(&HashMethod::Md5, vec![d0, d1, d2]).unwrap();
    assert!(root == expect);
}

#[test]
fn empty_directory_root_is_zero_digest() {
    let t = dir("data", Vec::new());
    let nt = build(&t, &[], HashMethod::Md5, 0);
    assert_eq!(hex(&nt.node.root_hash), "00000000000000000000000000000000");
    let nt32 = build(&t, &[], HashMethod::Blake3, 0);
    assert!(hex(&nt32.node.root_hash).chars().all(|c| c == '0'));
}

#[test]
fn build_is_deterministic() {
    let t = dir(
        "data",
        vec![file("b.txt"), file("a.txt"), dir("sub", vec![file("inner.txt")])],
    );
    // Sorted entry order is a.txt, b.txt, sub; collection order follows it.
    let contents: [&[u8]; 3] = [b"alpha", b"beta", b"inner"];
    let one = build(&t, &contents, HashMethod::Md5, 0);
    let two = build(&t, &contents, HashMethod::Md5, 0);
    assert!(one.node.root_hash == two.node.root_hash);
    assert_eq!(one.node.children.len(), two.node.children.len());
}

#[test]
fn entry_order_given_to_the_constructor_does_not_matter() {
    let t1 = dir("data", vec![file("b.txt"), file("a.txt")]);
    let t2 = dir("data", vec![file("a.txt"), file("b.txt")]);
    let contents: [&[u8]; 2] = [b"one", b"two"];
    let n1 = build(&t1, &contents, HashMethod::Md5, 0);
    let n2 = build(&t2, &contents, HashMethod::Md5, 0);
    assert!(n1.node.root_hash == n2.node.root_hash);
}

#[test]
fn collect_files_is_depth_first_in_sorted_order() {
    let t = dir(
        "data",
        vec![
            file("z.txt"),
            dir("m", vec![file("q.txt"), file("p.txt")]),
            file("a.txt"),
        ],
    );
    let files = collect_files(&t);
    let names: Vec<String> = files
        .iter()
        .map(|f| String::from_utf8(f.clone()).unwrap())
        .collect();
    assert_eq!(names, vec!["a.txt", "m/p.txt", "m/q.txt", "z.txt"]);
}

#[test]
fn control_directory_is_excluded_from_a_listing() {
    let t = dir("data", vec![file("a.txt"), dir(".rush", vec![file("merkle.json")])]);
    let files = collect_files(&t);
    assert_eq!(files.len(), 1);
    assert_eq!(files[0], b"a.txt".to_vec());
}

#[test]
fn duplicate_entry_names_are_rejected() {
    let e = FsTree::dir(
        b"data".to_vec(),
        vec![file("same"), file("same")],
    )
    .unwrap_err();
    assert_eq!(e, RushError::Structure);
}

#[test]
fn empty_names_are_rejected() {
    assert_eq!(FsTree::file(Vec::new()).unwrap_err(), RushError::Structure);
    assert_eq!(
        FsTree::dir(Vec::new(), Vec::new()).unwrap_err(),
        RushError::Structure
    );
}

#[test]
fn node_records_configuration_and_children() {
    let t = dir("data", vec![file("a.txt"), file("b.txt")]);
    let contents: [&[u8]; 2] = [b"hello", b"world"];
    let nt = build(&t, &contents, HashMethod::Md5, 7);
    assert_eq!(nt.node.name, b"data".to_vec());
    assert_eq!(nt.node.hash_method, HashMethod::Md5);
    assert_eq!(nt.node.bytes_to_hash, 7);
    assert_eq!(nt.node.children.len(), 2);
    assert_eq!(nt.node.children[0].name, b"a.txt".to_vec());
    assert_eq!(nt.node.children[1].name, b"b.txt".to_vec());
    assert!(nt.subdirs.is_empty());
    assert!(nt.check());
}

#[test]
fn nested_leaf_names_are_root_relative() {
    let t = dir("data", vec![dir("sub", vec![file("x.txt")])]);
    let contents: [&[u8]; 1] = [b"x"];
    let nt = build(&t, &contents, HashMethod::Md5, 0);
    assert_eq!(nt.node.children[0].name, b"sub".to_vec());
    assert_eq!(nt.subdirs.len(), 1);
    assert_eq!(nt.subdirs[0].node.name, b"sub".to_vec());
    assert_eq!(nt.subdirs[0].node.children[0].name, b"sub/x.txt".to_vec());
}

#[test]
fn avalanche_changes_root_but_not_sibling_digests() {
    let t = dir(
        "data",
        vec![dir("left", vec![file("a.txt")]), dir("right", vec![file("b.txt")])],
    );
    let before: [&[u8]; 2] = [b"unchanged", b"original"];
    let after: [&[u8]; 2] = [b"unchanged", b"modified"];
    let n1 = build(&t, &before, HashMethod::Md5, 0);
    let n2 = build(&t, &after, HashMethod::Md5, 0);
    // The changed file's digest changes, and so does every ancestor's.
    assert!(!(n1.node.root_hash == n2.node.root_hash));
    assert!(!(n1.node.children[1].hash == n2.node.children[1].hash));
    // The untouched sibling subtree keeps its digest.
    assert!(n1.node.children[0].hash == n2.node.children[0].hash);
    assert!(n1.subdirs[0].node.root_hash == n2.subdirs[0].node.root_hash);
}

#[test]
fn different_byte_limits_give_different_roots() {
    let t = dir("data", vec![file("a.txt")]);
    let contents: [&[u8]; 1] = [b"hello world"];
    let full = build(&t, &contents, HashMethod::Md5, 0);
    let capped = build(&t, &contents, HashMethod::Md5, 3);
    assert!(!(full.node.root_hash == capped.node.root_hash));
}
