//! The tree builder: one node per directory, each file consuming its
//! positional digest, each directory combining its children's digests.

use vstd::prelude::*;

use crate::bytes::{joined, lemma_joined_order, path_join};
use crate::combine::{combine, combine_spec, digest_views};
use crate::digest::{Digest, HashMethod};
use crate::errors::RushError;
use crate::node::{BuildConfig, Leaf, Node, NodeTree};
use crate::tree::{file_count, file_count_seq, lemma_file_count_take, wf_entries, FsTree};

verus! {

/// The digest one entry contributes to its parent, the per-file
/// digests being `d` in collection order: a file takes the digest at
/// its position; a directory takes the combination of its children's.
pub open spec fn entry_digest(t: FsTree, m: HashMethod, d: Seq<Seq<u8>>, start: int) -> Seq<u8>
    decreases t,
{
    match t {
        FsTree::File { .. } => d[start],
        FsTree::Dir { entries, .. } => combine_spec(m, children_digests(entries@, m, d, start)),
    }
}

/// The ordered digests of an entry list, the files beneath it holding
/// the positions `start ..` of `d` in collection order.
pub open spec fn children_digests(es: Seq<FsTree>, m: HashMethod, d: Seq<Seq<u8>>, start: int) -> Seq<
    Seq<u8>,
>
    decreases es,
{
    if es.len() == 0 {
        Seq::empty()
    } else {
        children_digests(es.drop_last(), m, d, start).push(
            entry_digest(es.last(), m, d, start + file_count_seq(es.drop_last())),
        )
    }
}

/// The root digest of a whole tree under per-file digests `d`.
pub open spec fn root_digest_spec(t: FsTree, m: HashMethod, d: Seq<Seq<u8>>) -> Seq<u8> {
    combine_spec(m, children_digests(t->Dir_entries@, m, d, 0))
}

/// Child digests split over a prefix of the entry list.
pub proof fn lemma_children_digests_take(es: Seq<FsTree>, m: HashMethod, d: Seq<Seq<u8>>, start: int, i: int)
    requires
        0 <= i < es.len(),
    ensures
        children_digests(es.take(i + 1), m, d, start) == children_digests(
            es.take(i),
            m,
            d,
            start,
        ).push(entry_digest(es[i], m, d, start + file_count_seq(es.take(i)))),
{
    assert(es.take(i + 1).drop_last() =~= es.take(i));
    assert(es.take(i + 1).last() == es[i]);
}

/// A prefix of an entry list holds no more files than the whole.
pub proof fn lemma_file_count_take_le(es: Seq<FsTree>, j: int)
    requires
        0 <= j <= es.len(),
    ensures
        file_count_seq(es.take(j)) <= file_count_seq(es),
    decreases es.len() - j,
{
    if j == es.len() {
        assert(es.take(j) =~= es);
    } else {
        lemma_file_count_take(es, j);
        lemma_file_count_take_le(es, j + 1);
    }
}

/// The node tree `nt` is exactly what a build of the directory entries
/// `es` produces: one leaf per entry in order, named by joining the
/// directory's path, carrying the entry's digest; one subtree per
/// directory entry in order; the node's own digest combined from the
/// children's.
pub open spec fn rep_children(
    leaves: Seq<Leaf>,
    subs: Seq<NodeTree>,
    es: Seq<FsTree>,
    dirpath: Seq<u8>,
    m: HashMethod,
    limit: u64,
    d: Seq<Seq<u8>>,
    start: int,
) -> bool
    decreases es,
{
    if es.len() == 0 {
        leaves.len() == 0 && subs.len() == 0
    } else {
        let e = es.last();
        let fcpre = file_count_seq(es.drop_last());
        &&& leaves.len() == es.len()
        &&& leaves.last().name@ == joined(dirpath, e.name_spec())
        &&& leaves.last().hash@ == entry_digest(e, m, d, start + fcpre)
        &&& match e {
            FsTree::File { .. } => rep_children(
                leaves.drop_last(),
                subs,
                es.drop_last(),
                dirpath,
                m,
                limit,
                d,
                start,
            ),
            FsTree::Dir { .. } => subs.len() > 0 && rep_node(
                subs.last(),
                e,
                joined(dirpath, e.name_spec()),
                joined(dirpath, e.name_spec()),
                m,
                limit,
                d,
                start + fcpre,
            ) && rep_children(
                leaves.drop_last(),
                subs.drop_last(),
                es.drop_last(),
                dirpath,
                m,
                limit,
                d,
                start,
            ),
        }
    }
}

/// The node tree `nt` is exactly what a build of the directory `t`
/// produces, `t`'s files holding positions `start ..` of `d`.
pub open spec fn rep_node(
    nt: NodeTree,
    t: FsTree,
    dirpath: Seq<u8>,
    nodename: Seq<u8>,
    m: HashMethod,
    limit: u64,
    d: Seq<Seq<u8>>,
    start: int,
) -> bool
    decreases t,
{
    &&& t is Dir
    &&& nt.node.name@ == nodename
    &&& nt.node.hash_method == m
    &&& nt.node.bytes_to_hash == limit
    &&& nt.node.root_hash@ == combine_spec(m, children_digests(t->Dir_entries@, m, d, start))
    &&& rep_children(nt.node.children@, nt.subdirs@, t->Dir_entries@, dirpath, m, limit, d, start)
}

/// Builds the node of one directory level and, recursively, of the
/// directories beneath it, consuming one digest per file through the
/// cursor, in listing order.
#[verifier::loop_isolation(false)]
#[verifier::rlimit(100)]
fn build_dir(
    entries: &Vec<FsTree>,
    dirpath: &Vec<u8>,
    nodename: &Vec<u8>,
    digests: &Vec<Digest>,
    cursor: &mut usize,
    cfg: &BuildConfig,
) -> (r: Result<NodeTree, RushError>)
    requires
        wf_entries(entries@),
        *old(cursor) + file_count_seq(entries@) <= digests@.len(),
        forall|k: int|
            0 <= k < digests@.len() ==> (#[trigger] digests@[k]).of_method(cfg.hash_method),
    ensures
        r matches Ok(nt) ==> {
            &&& nt.node.name@ == nodename@
            &&& nt.node.hash_method == cfg.hash_method
            &&& nt.node.bytes_to_hash == cfg.bytes_to_hash
            &&& nt.node.root_hash@ == combine_spec(
                cfg.hash_method,
                children_digests(
                    entries@,
                    cfg.hash_method,
                    digest_views(digests@),
                    *old(cursor) as int,
                ),
            )
            &&& rep_children(
                nt.node.children@,
                nt.subdirs@,
                entries@,
                dirpath@,
                cfg.hash_method,
                cfg.bytes_to_hash,
                digest_views(digests@),
                *old(cursor) as int,
            )
            &&& nt.wf()
            &&& *final(cursor) == *old(cursor) + file_count_seq(entries@)
        },
        cfg.hash_method is Blake3 ==> r is Ok,
        entries@.len() == 0 ==> r is Ok,
        r matches Err(e) ==> e == RushError::Hash,
    decreases entries@,
{
    let ghost m = cfg.hash_method;
    let ghost dv = digest_views(digests@);
    let ghost start = *cursor as int;
    let mut leaves: Vec<Leaf> = Vec::new();
    let mut subs: Vec<NodeTree> = Vec::new();
    let mut child_digests: Vec<Digest> = Vec::new();
    let mut i: usize = 0;
    while i < entries.len()
        invariant
            i <= entries@.len(),
            *cursor as int == start + file_count_seq(entries@.take(i as int)),
            *cursor <= digests@.len(),
            rep_children(
                leaves@,
                subs@,
                entries@.take(i as int),
                dirpath@,
                m,
                cfg.bytes_to_hash,
                dv,
                start,
            ),
            digest_views(child_digests@) == children_digests(entries@.take(i as int), m, dv, start),
            forall|k: int|
                0 <= k < child_digests@.len() ==> (#[trigger] child_digests@[k]).of_method(m),
            forall|k: int| 0 <= k < leaves@.len() ==> (#[trigger] leaves@[k]).hash.of_method(m),
            leaves@.len() == i,
            forall|k: int|
                0 <= k < leaves@.len() ==> (#[trigger] leaves@[k]).name@ == joined(
                    dirpath@,
                    entries@[k].name_spec(),
                ),
            forall|k: int| 0 <= k < subs@.len() ==> (#[trigger] subs@[k]).wf(),
            forall|a: int, b: int|
                #![trigger subs@[a], subs@[b]]
                0 <= a < b < subs@.len() ==> crate::bytes::bytes_lt(
                    subs@[a].node.name@,
                    subs@[b].node.name@,
                ),
            forall|k: int|
                0 <= k < subs@.len() ==> exists|j: int|
                    0 <= j < i && (#[trigger] subs@[k]).node.name@ == joined(
                        dirpath@,
                        entries@[j].name_spec(),
                    ),
        decreases entries@.len() - i,
    {
        proof {
            lemma_file_count_take(entries@, i as int);
            lemma_file_count_take_le(entries@, i as int + 1);
            lemma_children_digests_take(entries@, m, dv, start, i as int);
        }
        let ghost leaves_pre = leaves@;
        let ghost subs_pre = subs@;
        let name_here = entries[i].name();
        let leaf_name = path_join(dirpath, name_here);
        let d_here: Digest;
        match &entries[i] {
            FsTree::File { .. } => {
                proof {
                    assert(file_count(entries@[i as int]) == 1);
                    assert(*cursor < digests@.len());
                }
                let c = *cursor;
                let dn = digests.len();
                assert(c < dn);
                d_here = digests[c].duplicate();
                *cursor = c + 1;
                proof {
                    assert(digest_views(digests@)[c as int] == digests@[c as int]@);
                    assert(d_here@ == entry_digest(
                        entries@[i as int],
                        m,
                        dv,
                        start + file_count_seq(entries@.take(i as int)),
                    ));
                }
            },
            FsTree::Dir { name, entries: sub_entries } => {
                proof {
                    assert(decreases_to!(entries@ => entries@[i as int]));
                    assert(decreases_to!(entries@ => sub_entries@));
                }
                let sub_path = path_join(dirpath, name);
                let sub_nt = match build_dir(sub_entries, &sub_path, &sub_path, digests, cursor, cfg) {
                    Ok(nt) => nt,
                    Err(e) => {
                        return Err(e);
                    },
                };
                d_here = sub_nt.node.root_hash.duplicate();
                subs.push(sub_nt);
                proof {
                    assert(file_count(entries@[i as int]) == file_count_seq(sub_entries@));
                    assert(d_here@ == entry_digest(
                        entries@[i as int],
                        m,
                        dv,
                        start + file_count_seq(entries@.take(i as int)),
                    ));
                    assert(rep_node(
                        subs@.last(),
                        entries@[i as int],
                        joined(dirpath@, entries@[i as int].name_spec()),
                        joined(dirpath@, entries@[i as int].name_spec()),
                        m,
                        cfg.bytes_to_hash,
                        dv,
                        start + file_count_seq(entries@.take(i as int)),
                    ));
                }
            },
        }
        let leaf_digest = d_here.duplicate();
        leaves.push(Leaf { name: leaf_name, hash: leaf_digest });
        child_digests.push(d_here);
        proof {
            let iv = i as int;
            let e = entries@[iv];
            assert(entries@.take(iv + 1).last() == e);
            assert(entries@.take(iv + 1).drop_last() =~= entries@.take(iv));
            assert(leaves@.drop_last() =~= leaves_pre);
            assert(leaves@.last().name@ == joined(dirpath@, e.name_spec()));
            if e is Dir {
                assert(subs@.drop_last() =~= subs_pre);
            }
            assert(leaves@.last().hash@ == entry_digest(
                e,
                m,
                dv,
                start + file_count_seq(entries@.take(iv)),
            ));
            assert(rep_children(
                leaves@,
                subs@,
                entries@.take(iv + 1),
                dirpath@,
                m,
                cfg.bytes_to_hash,
                dv,
                start,
            ));
            assert(digest_views(child_digests@) =~= children_digests(
                entries@.take(iv + 1),
                m,
                dv,
                start,
            ));
            assert forall|k: int| 0 <= k < subs@.len() implies exists|j: int|
                0 <= j < iv + 1 && (#[trigger] subs@[k]).node.name@ == joined(
                    dirpath@,
                    entries@[j].name_spec(),
                ) by {
                if k < subs_pre.len() {
                    let j0 = choose|j: int|
                        0 <= j < iv && subs_pre[k].node.name@ == joined(
                            dirpath@,
                            entries@[j].name_spec(),
                        );
                    assert(subs@[k].node.name@ == joined(dirpath@, entries@[j0].name_spec()));
                } else {
                    assert(subs@[k].node.name@ == joined(dirpath@, e.name_spec()));
                }
            }
            assert forall|a: int, b: int|
                #![trigger subs@[a], subs@[b]]
                0 <= a < b < subs@.len() implies crate::bytes::bytes_lt(
                subs@[a].node.name@,
                subs@[b].node.name@,
            ) by {
                if b == subs@.len() - 1 && b >= subs_pre.len() {
                    let j0 = choose|j: int|
                        0 <= j < iv && subs_pre[a].node.name@ == joined(
                            dirpath@,
                            entries@[j].name_spec(),
                        );
                    lemma_joined_order(dirpath@, entries@[j0].name_spec(), e.name_spec());
                }
            }
        }
        i = i + 1;
    }
    proof {
        assert(entries@.take(entries@.len() as int) =~= entries@);
    }
    let root_hash = match combine(&cfg.hash_method, child_digests) {
        Ok(d) => d,
        Err(e) => {
            return Err(e);
        },
    };
    let mut node_name: Vec<u8> = Vec::new();
    let mut j: usize = 0;
    while j < nodename.len()
        invariant
            j <= nodename@.len(),
            node_name@ =~= nodename@.take(j as int),
        decreases nodename@.len() - j,
    {
        node_name.push(nodename[j]);
        j = j + 1;
    }
    proof {
        assert(node_name@ =~= nodename@);
    }
    let node = Node {
        name: node_name,
        hash_method: cfg.hash_method,
        root_hash,
        children: leaves,
        bytes_to_hash: cfg.bytes_to_hash,
    };
    let nt = NodeTree { node, subdirs: subs };
    proof {
        assert forall|a: int, b: int|
            #![trigger nt.node.children@[a], nt.node.children@[b]]
            0 <= a < b < nt.node.children@.len() implies crate::bytes::bytes_lt(
            nt.node.children@[a].name@,
            nt.node.children@[b].name@,
        ) by {
            lemma_joined_order(dirpath@, entries@[a].name_spec(), entries@[b].name_spec());
        }
        assert(nt.wf());
    }
    Ok(nt)
}

/// Builds the whole node tree of a well-formed directory tree from the
/// per-file digests in collection order: the returned mirror is pinned
/// — names, per-child digests, and every directory's combined digest —
/// as a function of the tree and the digests alone. Only the 16-byte
/// digest provider can make this fail.
pub fn build_from_digests(t: &FsTree, digests: &Vec<Digest>, cfg: &BuildConfig) -> (r: Result<
    NodeTree,
    RushError,
>)
    requires
        t.wf(),
        *t is Dir,
        digests@.len() == file_count(*t),
        forall|k: int|
            0 <= k < digests@.len() ==> (#[trigger] digests@[k]).of_method(cfg.hash_method),
    ensures
        r matches Ok(nt) ==> rep_node(
            nt,
            *t,
            Seq::empty(),
            t.name_spec(),
            cfg.hash_method,
            cfg.bytes_to_hash,
            digest_views(digests@),
            0,
        ) && nt.wf() && nt.node.root_hash@ == root_digest_spec(
            *t,
            cfg.hash_method,
            digest_views(digests@),
        ),
        cfg.hash_method is Blake3 ==> r is Ok,
        t->Dir_entries@.len() == 0 ==> r is Ok,
        r matches Err(e) ==> e == RushError::Hash,
{
    match t {
        FsTree::Dir { name, entries } => {
            let empty_path: Vec<u8> = Vec::new();
            let mut cursor: usize = 0;
            build_dir(entries, &empty_path, name, digests, &mut cursor, cfg)
        },
        // A file root is excluded by the precondition.
        FsTree::File { .. } => Err(RushError::Hash),
    }
}

/// Two builds of the same entries record the same children: the same
/// names and the same digests, leaf by leaf, with the same number of
/// subdirectory mirrors.
proof fn lemma_rep_children_unique(
    l1: Seq<Leaf>,
    s1: Seq<NodeTree>,
    l2: Seq<Leaf>,
    s2: Seq<NodeTree>,
    es: Seq<FsTree>,
    dirpath: Seq<u8>,
    m: HashMethod,
    limit: u64,
    d: Seq<Seq<u8>>,
    start: int,
)
    requires
        rep_children(l1, s1, es, dirpath, m, limit, d, start),
        rep_children(l2, s2, es, dirpath, m, limit, d, start),
    ensures
        l1.len() == l2.len(),
        forall|i: int|
            0 <= i < l1.len() ==> (#[trigger] l1[i]).name@ == l2[i].name@ && l1[i].hash@ == l2[
                i
            ].hash@,
        s1.len() == s2.len(),
    decreases es,
{
    if es.len() > 0 {
        match es.last() {
            FsTree::File { .. } => {
                lemma_rep_children_unique(
                    l1.drop_last(),
                    s1,
                    l2.drop_last(),
                    s2,
                    es.drop_last(),
                    dirpath,
                    m,
                    limit,
                    d,
                    start,
                );
            },
            FsTree::Dir { .. } => {
                lemma_rep_children_unique(
                    l1.drop_last(),
                    s1.drop_last(),
                    l2.drop_last(),
                    s2.drop_last(),
                    es.drop_last(),
                    dirpath,
                    m,
                    limit,
                    d,
                    start,
                );
            },
        }
        assert forall|i: int| 0 <= i < l1.len() implies (#[trigger] l1[i]).name@ == l2[i].name@
            && l1[i].hash@ == l2[i].hash@ by {
            if i < l1.len() - 1 {
                assert(l1.drop_last()[i] == l1[i]);
                assert(l2.drop_last()[i] == l2[i]);
            }
        }
    }
}

/// Determinism: any two builds of the same tree from the same per-file
/// digests record the same mirror — the same root digest and the same
/// children, name by name and digest by digest — whatever produced
/// them and in whatever order the digests were computed.
pub proof fn lemma_build_deterministic(
    nt1: NodeTree,
    nt2: NodeTree,
    t: FsTree,
    nodename: Seq<u8>,
    m: HashMethod,
    limit: u64,
    d: Seq<Seq<u8>>,
)
    requires
        rep_node(nt1, t, Seq::empty(), nodename, m, limit, d, 0),
        rep_node(nt2, t, Seq::empty(), nodename, m, limit, d, 0),
    ensures
        nt1.node.root_hash@ == nt2.node.root_hash@,
        nt1.node.name@ == nt2.node.name@,
        nt1.node.children@.len() == nt2.node.children@.len(),
        forall|i: int|
            0 <= i < nt1.node.children@.len() ==> (#[trigger] nt1.node.children@[i]).name@
                == nt2.node.children@[i].name@ && nt1.node.children@[i].hash@
                == nt2.node.children@[i].hash@,
{
    lemma_rep_children_unique(
        nt1.node.children@,
        nt1.subdirs@,
        nt2.node.children@,
        nt2.subdirs@,
        t->Dir_entries@,
        Seq::empty(),
        m,
        limit,
        d,
        0,
    );
}


/// An entry's digest depends only on the digest positions of the files
/// beneath it: digest lists that agree there give the same digest. In
/// particular, changing one file's digest leaves every subtree that
/// does not contain that file — every unrelated sibling — unaffected.
pub proof fn lemma_entry_digest_local(
    t: FsTree,
    m: HashMethod,
    d1: Seq<Seq<u8>>,
    d2: Seq<Seq<u8>>,
    start: int,
)
    requires
        forall|k: int| start <= k < start + file_count(t) ==> #[trigger] d1[k] == d2[k],
    ensures
        entry_digest(t, m, d1, start) == entry_digest(t, m, d2, start),
    decreases t,
{
    match t {
        FsTree::File { .. } => {
            assert(d1[start] == d2[start]);
        },
        FsTree::Dir { entries, .. } => {
            lemma_children_digests_local(entries@, m, d1, d2, start);
        },
    }
}

/// The digests of an entry list depend only on the digest positions of
/// the files beneath it.
pub proof fn lemma_children_digests_local(
    es: Seq<FsTree>,
    m: HashMethod,
    d1: Seq<Seq<u8>>,
    d2: Seq<Seq<u8>>,
    start: int,
)
    requires
        forall|k: int| start <= k < start + file_count_seq(es) ==> #[trigger] d1[k] == d2[k],
    ensures
        children_digests(es, m, d1, start) == children_digests(es, m, d2, start),
    decreases es,
{
    if es.len() > 0 {
        lemma_children_digests_local(es.drop_last(), m, d1, d2, start);
        lemma_entry_digest_local(es.last(), m, d1, d2, start + file_count_seq(es.drop_last()));
    }
}

/// A directory with no entries has the family's zero digest for its
/// root, whatever the per-file digests are.
pub proof fn lemma_empty_dir_zero(t: FsTree, m: HashMethod, d: Seq<Seq<u8>>)
    requires
        t is Dir,
        t->Dir_entries@.len() == 0,
    ensures
        root_digest_spec(t, m, d) == crate::digest::zero_bytes(m),
{
    assert(children_digests(t->Dir_entries@, m, d, 0) =~= Seq::<Seq<u8>>::empty());
}

} // verus!
