//! The persisted per-directory node and the in-memory mirror tree.

use vstd::prelude::*;

use crate::bytes::bytes_lt;
use crate::digest::{Digest, HashMethod};

verus! {

/// One child entry of a persisted node: the child's path relative to
/// the dataset root, and its digest.
#[derive(Debug)]
pub struct Leaf {
    pub name: Vec<u8>,
    pub hash: Digest,
}

/// The persisted summary of one directory: its own path relative to the
/// dataset root (the root's node carries the root directory's own
/// name), the method and byte limit the build ran under, the ordered
/// children, and the digest combined from them.
#[derive(Debug)]
pub struct Node {
    pub name: Vec<u8>,
    pub hash_method: HashMethod,
    pub root_hash: Digest,
    pub children: Vec<Leaf>,
    pub bytes_to_hash: u64,
}

/// Child entries strictly ascending by name: the deterministic listing
/// order, which also makes names unique.
pub open spec fn children_sorted(cs: Seq<Leaf>) -> bool {
    forall|i: int, j: int|
        #![trigger cs[i], cs[j]]
        0 <= i < j < cs.len() ==> bytes_lt(cs[i].name@, cs[j].name@)
}

impl Node {
    /// Children strictly sorted by name — the deterministic listing
    /// order — and every digest of the node's own family.
    pub open spec fn wf(self) -> bool {
        self.root_hash.of_method(self.hash_method) && (forall|i: int|
            0 <= i < self.children@.len() ==> (#[trigger] self.children@[i]).hash.of_method(
                self.hash_method,
            )) && children_sorted(self.children@)
    }
}

/// A whole persisted mirror held in memory: a directory's node together
/// with the mirrors of its subdirectories, sorted by node name.
#[derive(Debug)]
pub struct NodeTree {
    pub node: Node,
    pub subdirs: Vec<NodeTree>,
}

/// Subdirectory nodes strictly ascending by node name.
pub open spec fn subs_sorted(subs: Seq<NodeTree>) -> bool {
    forall|i: int, j: int|
        #![trigger subs[i], subs[j]]
        0 <= i < j < subs.len() ==> bytes_lt(subs[i].node.name@, subs[j].node.name@)
}

impl NodeTree {
    /// The node itself is well formed, the subdirectory mirrors are,
    /// and they stand sorted by name.
    pub open spec fn wf(self) -> bool
        decreases self,
    {
        self.node.wf() && (forall|i: int|
            0 <= i < self.subdirs@.len() ==> (#[trigger] self.subdirs@[i]).wf()) && subs_sorted(
            self.subdirs@,
        )
    }
}

/// The settings one build runs under, uniform across the whole tree.
/// The caller decides separately whether the nodes are persisted.
#[derive(Debug)]
pub struct BuildConfig {
    pub hash_method: HashMethod,
    pub bytes_to_hash: u64,
    pub store: bool,
}


/// A chain of adjacent comparisons orders any pair.
proof fn lemma_children_chain(cs: Seq<Leaf>, i: int, j: int)
    requires
        forall|k: int| 0 <= k < cs.len() - 1 ==> bytes_lt((#[trigger] cs[k]).name@, cs[k + 1].name@),
        0 <= i < j < cs.len(),
    ensures
        bytes_lt(cs[i].name@, cs[j].name@),
    decreases j - i,
{
    if j == i + 1 {
    } else {
        lemma_children_chain(cs, i, j - 1);
        crate::bytes::lemma_bytes_lt_trans(cs[i].name@, cs[j - 1].name@, cs[j].name@, 0);
    }
}

proof fn lemma_subs_chain(subs: Seq<NodeTree>, i: int, j: int)
    requires
        forall|k: int|
            0 <= k < subs.len() - 1 ==> bytes_lt(
                (#[trigger] subs[k]).node.name@,
                subs[k + 1].node.name@,
            ),
        0 <= i < j < subs.len(),
    ensures
        bytes_lt(subs[i].node.name@, subs[j].node.name@),
    decreases j - i,
{
    if j == i + 1 {
    } else {
        lemma_subs_chain(subs, i, j - 1);
        crate::bytes::lemma_bytes_lt_trans(subs[i].node.name@, subs[j - 1].node.name@, subs[j].node.name@, 0);
    }
}

impl Node {
    /// Decides well-formedness of a loaded node: a structurally invalid
    /// descriptor is recognized here.
    #[verifier::loop_isolation(false)]
    pub fn check(&self) -> (r: bool)
        ensures
            r == self.wf(),
    {
        if !self.root_hash.is_wf() {
            return false;
        }
        let width = self.hash_method.width();
        if self.root_hash.len() != width {
            return false;
        }
        let n = self.children.len();
        let mut i: usize = 0;
        while i < n
            invariant
                i <= n,
                n == self.children@.len(),
                forall|k: int|
                    0 <= k < i ==> (#[trigger] self.children@[k]).hash.of_method(self.hash_method),
                forall|k: int|
                    0 <= k < i - 1 ==> bytes_lt(
                        (#[trigger] self.children@[k]).name@,
                        self.children@[k + 1].name@,
                    ),
            decreases n - i,
        {
            let c = &self.children[i];
            if !c.hash.is_wf() {
                return false;
            }
            if c.hash.len() != width {
                return false;
            }
            if i > 0 {
                if !crate::bytes::bytes_lt_exec(&self.children[i - 1].name, &c.name) {
                    return false;
                }
            }
            i = i + 1;
        }
        proof {
            if n >= 2 {
                assert forall|a: int, b: int|
                    #![trigger self.children@[a], self.children@[b]]
                    0 <= a < b < n implies bytes_lt(
                    self.children@[a].name@,
                    self.children@[b].name@,
                ) by {
                    lemma_children_chain(self.children@, a, b);
                }
            }
            assert(children_sorted(self.children@));
        }
        true
    }
}

impl NodeTree {
    /// Decides well-formedness of a whole loaded mirror, so an
    /// unverified loader can both establish it and recognize a
    /// malformed one.
    pub fn check(&self) -> (r: bool)
        ensures
            r == self.wf(),
        decreases *self,
    {
        if !self.node.check() {
            return false;
        }
        if !subs_names_sorted(&self.subdirs) {
            return false;
        }
        let n = self.subdirs.len();
        let mut j: usize = 0;
        while j < n
            invariant
                j <= n,
                n == self.subdirs@.len(),
                forall|k: int| 0 <= k < j ==> (#[trigger] self.subdirs@[k]).wf(),
            decreases n - j,
        {
            proof {
                assert(decreases_to!(*self => self.subdirs@[j as int]));
            }
            if !self.subdirs[j].check() {
                proof {
                    assert(!self.subdirs@[j as int].wf());
                }
                return false;
            }
            j = j + 1;
        }
        true
    }
}

/// An adjacent pair out of order refutes sortedness.
proof fn lemma_subs_unsorted_witness(subs: Seq<NodeTree>, i: int)
    requires
        1 <= i < subs.len(),
        !bytes_lt(subs[i - 1].node.name@, subs[i].node.name@),
    ensures
        !subs_sorted(subs),
{
    if subs_sorted(subs) {
        assert(bytes_lt(subs[i - 1].node.name@, subs[i].node.name@));
    }
}

/// Decides whether subdirectory mirrors stand strictly sorted by name.
#[verifier::rlimit(100)]
fn subs_names_sorted(subs: &Vec<NodeTree>) -> (r: bool)
    ensures
        r == subs_sorted(subs@),
{
    let n = subs.len();
    if n < 2 {
        proof {
            assert(subs_sorted(subs@));
        }
        return true;
    }
    let mut i: usize = 1;
    while i < n
        invariant
            1 <= i <= n,
            n == subs@.len(),
            forall|k: int|
                0 <= k < i - 1 ==> bytes_lt(
                    (#[trigger] subs@[k]).node.name@,
                    subs@[k + 1].node.name@,
                ),
        decreases n - i,
    {
        if !crate::bytes::bytes_lt_exec(&subs[i - 1].node.name, &subs[i].node.name) {
            proof {
                lemma_subs_unsorted_witness(subs@, i as int);
            }
            return false;
        }
        i = i + 1;
    }
    proof {
        assert forall|a: int, b: int|
            #![trigger subs@[a], subs@[b]]
            0 <= a < b < n implies bytes_lt(subs@[a].node.name@, subs@[b].node.name@) by {
            lemma_subs_chain(subs@, a, b);
        }
    }
    true
}

} // verus!
