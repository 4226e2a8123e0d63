use rush::bytes::{path_join, rel_path_str};
use rush::errors::RushError;
use rush::node::NodeTree;
use rush::digest::{Digest, HashMethod};
use rush::merkle::build_from_digests;
use rush::node::BuildConfig;
use rush::provider::hash_content;
use rush::tree::FsTree;

#[test]
fn path_join_at_top_level_is_the_name() {
    let p = path_join(&Vec::new(), &b"a.txt".to_vec());
    assert_eq!(p, b"a.txt".to_vec());
}

#[test]
fn path_join_inserts_one_slash() {
    let p = path_join(&b"sub/dir".to_vec(), &b"a.txt".to_vec());
    assert_eq!(p, b"sub/dir/a.txt".to_vec());
}

#[test]
fn rel_path_of_the_root_is_its_base_name() {
    let r = rel_path_str(&b"/tmp/data".to_vec(), &b"/tmp/data".to_vec());
    assert_eq!(r, b"data".to_vec());
}

#[test]
fn rel_path_of_a_bare_name_is_itself() {
    let r = rel_path_str(&b"data".to_vec(), &b"data".to_vec());
    assert_eq!(r, b"data".to_vec());
}

#[test]
fn rel_path_strips_the_root_prefix() {
    let r = rel_path_str(&b"/tmp/data".to_vec(), &b"/tmp/data/sub/a.txt".to_vec());
    assert_eq!(r, b"sub/a.txt".to_vec());
}

#[test]
fn rel_path_of_an_unrelated_path_is_unchanged() {
    let r = rel_path_str(&b"/tmp/data".to_vec(), &b"/var/other".to_vec());
    assert_eq!(r, b"/var/other".to_vec());
}

fn build_simple() -> NodeTree {
    let t = FsTree::dir(
        b"data".to_vec(),
        vec![FsTree::file(b"a.txt".to_vec()).unwrap()],
    )
    .unwrap();
    let ds: Vec<Digest> = vec![hash_content(&HashMethod::Md5, b"abc", 0).unwrap()];
    let cfg = BuildConfig { hash_method: HashMethod::Md5, bytes_to_hash: 0, store: false };
    build_from_digests(&t, &ds, &cfg).unwrap()
}

#[test]
fn checker_accepts_a_built_mirror() {
    let nt = build_simple();
    assert!(nt.check());
    assert!(nt.node.check());
}

#[test]
fn checker_rejects_unsorted_children() {
    let mut nt = build_simple();
    let extra = rush::node::Leaf {
        name: b"0-first".to_vec(),
        hash: Digest::zero(&HashMethod::Md5),
    };
    // Appending a name that sorts before the existing one breaks the order.
    nt.node.children.push(extra);
    assert!(!nt.node.check());
}

#[test]
fn checker_rejects_a_foreign_digest_family() {
    let mut nt = build_simple();
    nt.node.children[0].hash = Digest::zero(&HashMethod::Blake3);
    assert!(!nt.node.check());
}

#[test]
fn error_descriptions_are_distinct() {
    let all = [
        RushError::Format,
        RushError::ConfigMismatch,
        RushError::Structure,
        RushError::Hash,
    ];
    for (i, a) in all.iter().enumerate() {
        for (j, b) in all.iter().enumerate() {
            if i != j {
                assert_ne!(a.describe(), b.describe());
            }
        }
    }
}

#[test]
fn rel_path_ignores_a_trailing_slash_on_the_root() {
    let r = rel_path_str(&b"/a/".to_vec(), &b"/a/b".to_vec());
    assert_eq!(r, b"b".to_vec());
    let r2 = rel_path_str(&b"/tmp/data/".to_vec(), &b"/tmp/data/sub/a.txt".to_vec());
    assert_eq!(r2, b"sub/a.txt".to_vec());
    let r3 = rel_path_str(&b"/a//".to_vec(), &b"/a/b".to_vec());
    assert_eq!(r3, b"b".to_vec());
}

#[test]
fn rel_path_of_the_root_ignores_trailing_slashes() {
    let r = rel_path_str(&b"/tmp/data/".to_vec(), &b"/tmp/data/".to_vec());
    assert_eq!(r, b"data".to_vec());
    let r2 = rel_path_str(&b"/tmp/data".to_vec(), &b"/tmp/data/".to_vec());
    assert_eq!(r2, b"data".to_vec());
    let r3 = rel_path_str(&b"/tmp/data/".to_vec(), &b"/tmp/data".to_vec());
    assert_eq!(r3, b"data".to_vec());
}

#[test]
fn rel_path_under_the_filesystem_root() {
    let r = rel_path_str(&b"/".to_vec(), &b"/x".to_vec());
    assert_eq!(r, b"x".to_vec());
}

#[test]
fn checker_rejects_unsorted_subdirectories() {
    let inner = dir_tree();
    let mut nt = inner;
    // Duplicate the single subdirectory mirror: equal names are not
    // strictly sorted, so the mirror is rejected.
    let copy = NodeTree {
        node: rush::node::Node {
            name: nt.subdirs[0].node.name.clone(),
            hash_method: nt.subdirs[0].node.hash_method,
            root_hash: nt.subdirs[0].node.root_hash.duplicate(),
            children: Vec::new(),
            bytes_to_hash: nt.subdirs[0].node.bytes_to_hash,
        },
        subdirs: Vec::new(),
    };
    nt.subdirs.push(copy);
    assert!(!nt.check());
}

fn dir_tree() -> NodeTree {
    let sub = FsTree::dir(
        b"sub".to_vec(),
        vec![FsTree::file(b"x.txt".to_vec()).unwrap()],
    )
    .unwrap();
    let t = FsTree::dir(b"data".to_vec(), vec![sub]).unwrap();
    let ds: Vec<Digest> = vec![hash_content(&HashMethod::Md5, b"x", 0).unwrap()];
    let cfg = BuildConfig { hash_method: HashMethod::Md5, bytes_to_hash: 0, store: false };
    build_from_digests(&t, &ds, &cfg).unwrap()
}
