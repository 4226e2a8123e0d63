//! The tree differ: two persisted mirrors compared recursively, whole
//! subtrees with equal digests pruned, the differing relative paths
//! reported as added, removed, or changed.

use vstd::prelude::*;

use crate::bytes::copy_bytes;
use crate::node::{children_sorted, Leaf, NodeTree};
use crate::errors::RushError;

verus! {

/// The outcome of comparing two snapshots: relative paths present only
/// in the right snapshot, only in the left, and present in both with
/// differing content.
#[derive(Debug)]
pub struct Diff {
    pub added: Vec<Vec<u8>>,
    pub removed: Vec<Vec<u8>>,
    pub changed: Vec<Vec<u8>>,
}

impl Diff {
    /// An empty result: the snapshots agree.
    pub fn new() -> (d: Diff)
        ensures
            d.added.deep_view() == Seq::<Seq<u8>>::empty(),
            d.removed.deep_view() == Seq::<Seq<u8>>::empty(),
            d.changed.deep_view() == Seq::<Seq<u8>>::empty(),
    {
        let d = Diff { added: Vec::new(), removed: Vec::new(), changed: Vec::new() };
        proof {
            assert(d.added.deep_view() =~~= Seq::<Seq<u8>>::empty());
            assert(d.removed.deep_view() =~~= Seq::<Seq<u8>>::empty());
            assert(d.changed.deep_view() =~~= Seq::<Seq<u8>>::empty());
        }
        d
    }

    /// No path was added, removed or changed.
    pub fn is_empty(&self) -> (r: bool)
        ensures
            r == (self.added@.len() == 0 && self.removed@.len() == 0 && self.changed@.len() == 0),
    {
        self.added.len() == 0 && self.removed.len() == 0 && self.changed.len() == 0
    }
}

/// A child of this name exists.
pub open spec fn child_in(cs: Seq<Leaf>, name: Seq<u8>) -> bool {
    exists|i: int| 0 <= i < cs.len() && cs[i].name@ == name
}

/// The digest recorded for the child of this name.
pub open spec fn child_hash(cs: Seq<Leaf>, name: Seq<u8>) -> Seq<u8> {
    cs[choose|i: int| 0 <= i < cs.len() && cs[i].name@ == name].hash@
}

/// A subdirectory node of this name exists.
pub open spec fn sub_in(subs: Seq<NodeTree>, name: Seq<u8>) -> bool {
    exists|i: int| 0 <= i < subs.len() && subs[i].node.name@ == name
}

/// The subdirectory node of this name.
pub open spec fn sub_at(subs: Seq<NodeTree>, name: Seq<u8>) -> NodeTree {
    subs[choose|i: int| 0 <= i < subs.len() && subs[i].node.name@ == name]
}

/// The names among `cs`, in order, that have no counterpart in `other`.
pub open spec fn only_in(cs: Seq<Leaf>, other: Seq<Leaf>) -> Seq<Seq<u8>>
    decreases cs,
{
    if cs.len() == 0 {
        Seq::empty()
    } else {
        let pre = only_in(cs.drop_last(), other);
        if !child_in(other, cs.last().name@) {
            pre.push(cs.last().name@)
        } else {
            pre
        }
    }
}

/// Split of `only_in` over a prefix.
pub proof fn lemma_only_in_take(cs: Seq<Leaf>, other: Seq<Leaf>, i: int)
    requires
        0 <= i < cs.len(),
    ensures
        only_in(cs.take(i + 1), other) == if !child_in(other, cs[i].name@) {
            only_in(cs.take(i), other).push(cs[i].name@)
        } else {
            only_in(cs.take(i), other)
        },
{
    assert(cs.take(i + 1).drop_last() =~= cs.take(i));
    assert(cs.take(i + 1).last() == cs[i]);
}

/// What comparing the children of `l` and `r` from position `i` on
/// contributes, as (added, removed, changed): a name present in both
/// whose digests differ is inspected further — into the subdirectory
/// nodes when both sides have one, else recorded as changed — and a
/// failure beneath propagates.
pub open spec fn diff_kids(l: NodeTree, r: NodeTree, i: int) -> Result<
    (Seq<Seq<u8>>, Seq<Seq<u8>>, Seq<Seq<u8>>),
    (),
>
    decreases l, 0int, l.node.children@.len() - i,
{
    if i < 0 || i >= l.node.children@.len() {
        Ok((Seq::empty(), Seq::empty(), Seq::empty()))
    } else {
        let c = l.node.children@[i];
        let n = c.name@;
        let rest = diff_kids(l, r, i + 1);
        if !child_in(r.node.children@, n) || child_hash(r.node.children@, n) == c.hash@ {
            rest
        } else if sub_in(l.subdirs@, n) && sub_in(r.subdirs@, n) {
            let sub = diff_spec(sub_at(l.subdirs@, n), sub_at(r.subdirs@, n));
            if sub is Err || rest is Err {
                Err(())
            } else {
                let s = sub->Ok_0;
                let t = rest->Ok_0;
                Ok((s.0 + t.0, s.1 + t.1, s.2 + t.2))
            }
        } else {
            match rest {
                Ok(t) => Ok((t.0, t.1, seq![n] + t.2)),
                Err(e) => Err(e),
            }
        }
    }
}

/// The full comparison of two persisted snapshots, as
/// (added, removed, changed): a failure when the two were built under
/// different methods or byte limits; nothing when the root digests
/// agree — a subtree of equal digest is pruned entirely; otherwise the
/// names present on one side only, and the outcome of inspecting each
/// name present in both with differing digests.
pub open spec fn diff_spec(l: NodeTree, r: NodeTree) -> Result<
    (Seq<Seq<u8>>, Seq<Seq<u8>>, Seq<Seq<u8>>),
    (),
>
    decreases l, 1int, 0int,
{
    if l.node.hash_method != r.node.hash_method || l.node.bytes_to_hash != r.node.bytes_to_hash {
        Err(())
    } else if l.node.root_hash@ == r.node.root_hash@ {
        Ok((Seq::empty(), Seq::empty(), Seq::empty()))
    } else {
        match diff_kids(l, r, 0) {
            Ok(t) => Ok(
                (
                    only_in(r.node.children@, l.node.children@) + t.0,
                    only_in(l.node.children@, r.node.children@) + t.1,
                    t.2,
                ),
            ),
            Err(e) => Err(e),
        }
    }
}

/// Index of the child with this name, if any.
fn find_child(cs: &Vec<Leaf>, name: &Vec<u8>) -> (r: Option<usize>)
    ensures
        r matches Some(i) ==> i < cs@.len() && cs@[i as int].name@ == name@,
        r is None <==> !child_in(cs@, name@),
{
    let mut i: usize = 0;
    loop
        invariant
            i <= cs@.len(),
            forall|k: int| 0 <= k < i ==> (#[trigger] cs@[k]).name@ != name@,
        decreases cs@.len() - i,
    {
        if i >= cs.len() {
            return None;
        }
        if crate::digest::bytes_eq(&cs[i].name, name) {
            return Some(i);
        }
        i = i + 1;
    }
}

/// Index of the subdirectory node with this name, if any.
fn find_sub(subs: &Vec<NodeTree>, name: &Vec<u8>) -> (r: Option<usize>)
    ensures
        r matches Some(i) ==> i < subs@.len() && subs@[i as int].node.name@ == name@,
        r is None <==> !sub_in(subs@, name@),
{
    let mut i: usize = 0;
    loop
        invariant
            i <= subs@.len(),
            forall|k: int| 0 <= k < i ==> (#[trigger] subs@[k]).node.name@ != name@,
        decreases subs@.len() - i,
    {
        if i >= subs.len() {
            return None;
        }
        if crate::digest::bytes_eq(&subs[i].node.name, name) {
            return Some(i);
        }
        i = i + 1;
    }
}

/// In a strictly sorted child list, at most one child bears a name.
proof fn lemma_child_unique(cs: Seq<Leaf>, a: int, b: int)
    requires
        children_sorted(cs),
        0 <= a < cs.len(),
        0 <= b < cs.len(),
        cs[a].name@ == cs[b].name@,
    ensures
        a == b,
{
    if a < b {
        crate::bytes::lemma_bytes_lt_asym(cs[a].name@, cs[b].name@, 0);
    }
    if b < a {
        crate::bytes::lemma_bytes_lt_asym(cs[b].name@, cs[a].name@, 0);
    }
}


/// In a strictly sorted subdirectory list, at most one node bears a name.
proof fn lemma_sub_unique(subs: Seq<NodeTree>, a: int, b: int)
    requires
        crate::node::subs_sorted(subs),
        0 <= a < subs.len(),
        0 <= b < subs.len(),
        subs[a].node.name@ == subs[b].node.name@,
    ensures
        a == b,
{
    if a < b {
        crate::bytes::lemma_bytes_lt_asym(subs[a].node.name@, subs[b].node.name@, 0);
    }
    if b < a {
        crate::bytes::lemma_bytes_lt_asym(subs[b].node.name@, subs[a].node.name@, 0);
    }
}

/// Compares two mirrors level by level, appending what differs to
/// `out`. On a configuration mismatch `out` is abandoned by the caller.
#[verifier::loop_isolation(false)]
#[verifier::rlimit(100)]
fn diff_into(l: &NodeTree, r: &NodeTree, out: &mut Diff) -> (res: Result<(), RushError>)
    requires
        l.wf(),
        r.wf(),
    ensures
        res matches Ok(()) ==> diff_spec(*l, *r) matches Ok(t) && final(out).added.deep_view()
            == old(out).added.deep_view() + t.0 && final(out).removed.deep_view() == old(
            out,
        ).removed.deep_view() + t.1 && final(out).changed.deep_view() == old(
            out,
        ).changed.deep_view() + t.2,
        res is Err <==> diff_spec(*l, *r) is Err,
        res matches Err(e) ==> e == RushError::ConfigMismatch,
    decreases *l,
{
    let ghost a0 = old(out).added.deep_view();
    let ghost r0 = old(out).removed.deep_view();
    let ghost c0 = old(out).changed.deep_view();
    if l.node.hash_method != r.node.hash_method {
        return Err(RushError::ConfigMismatch);
    }
    if l.node.bytes_to_hash != r.node.bytes_to_hash {
        return Err(RushError::ConfigMismatch);
    }
    if l.node.root_hash == r.node.root_hash {
        proof {
            assert(out.added.deep_view() =~~= a0 + Seq::<Seq<u8>>::empty());
            assert(out.removed.deep_view() =~~= r0 + Seq::<Seq<u8>>::empty());
            assert(out.changed.deep_view() =~~= c0 + Seq::<Seq<u8>>::empty());
        }
        return Ok(());
    }
    proof {
        assert(l.node.root_hash@ != r.node.root_hash@) by {
            if l.node.root_hash@ == r.node.root_hash@ {
                assert(l.node.root_hash is D16 <==> r.node.root_hash is D16);
            }
        }
    }
    let lcs = &l.node.children;
    let rcs = &r.node.children;
    // Phase one: names present only on the left.
    let mut i: usize = 0;
    while i < lcs.len()
        invariant
            i <= lcs@.len(),
            out.added.deep_view() == a0,
            out.changed.deep_view() == c0,
            out.removed.deep_view() == r0 + only_in(lcs@.take(i as int), rcs@),
        decreases lcs@.len() - i,
    {
        proof {
            lemma_only_in_take(lcs@, rcs@, i as int);
        }
        let ghost pre = out.removed.deep_view();
        match find_child(rcs, &lcs[i].name) {
            None => {
                let nm = copy_bytes(&lcs[i].name);
                out.removed.push(nm);
                proof {
                    assert(out.removed.deep_view() =~~= pre.push(lcs@[i as int].name@));
                }
            },
            Some(_) => {},
        }
        i = i + 1;
    }
    proof {
        assert(lcs@.take(lcs@.len() as int) =~= lcs@);
    }
    // Phase two: names present only on the right.
    let mut j: usize = 0;
    while j < rcs.len()
        invariant
            j <= rcs@.len(),
            out.added.deep_view() == a0 + only_in(rcs@.take(j as int), lcs@),
            out.changed.deep_view() == c0,
            out.removed.deep_view() == r0 + only_in(lcs@, rcs@),
        decreases rcs@.len() - j,
    {
        proof {
            lemma_only_in_take(rcs@, lcs@, j as int);
        }
        let ghost pre = out.added.deep_view();
        match find_child(lcs, &rcs[j].name) {
            None => {
                let nm = copy_bytes(&rcs[j].name);
                out.added.push(nm);
                proof {
                    assert(out.added.deep_view() =~~= pre.push(rcs@[j as int].name@));
                }
            },
            Some(_) => {},
        }
        j = j + 1;
    }
    proof {
        assert(rcs@.take(rcs@.len() as int) =~= rcs@);
    }
    let ghost a1 = a0 + only_in(rcs@, lcs@);
    let ghost r1 = r0 + only_in(lcs@, rcs@);
    // Phase three: names present on both sides with differing digests.
    let mut k: usize = 0;
    while k < lcs.len()
        invariant
            k <= lcs@.len(),
            diff_kids(*l, *r, 0) is Ok <==> diff_kids(*l, *r, k as int) is Ok,
            diff_kids(*l, *r, k as int) matches Ok(tk) ==> (diff_kids(*l, *r, 0) matches Ok(t0)
                && out.added.deep_view() + tk.0 == a1 + t0.0 && out.removed.deep_view() + tk.1
                == r1 + t0.1 && out.changed.deep_view() + tk.2 == c0 + t0.2),
        decreases lcs@.len() - k,
    {
        let ghost n = lcs@[k as int].name@;
        let ghost ka = out.added.deep_view();
        let ghost kr = out.removed.deep_view();
        let ghost kc = out.changed.deep_view();
        match find_child(rcs, &lcs[k].name) {
            None => {},
            Some(rj) => {
                proof {
                    assert forall|a: int, b: int|
                        (0 <= a < rcs@.len() && (#[trigger] rcs@[a]).name@ == n && 0 <= b
                            < rcs@.len() && (#[trigger] rcs@[b]).name@ == n) implies a == b by {
                        lemma_child_unique(rcs@, a, b);
                    }
                    assert(child_in(rcs@, n));
                    assert(rcs@[rj as int].hash@ == child_hash(rcs@, n));
                    assert(lcs@[k as int].hash.of_method(l.node.hash_method));
                    assert(rcs@[rj as int].hash.of_method(r.node.hash_method));
                }
                if !(lcs[k].hash == rcs[rj].hash) {
                    proof {
                        assert(child_hash(rcs@, n) != lcs@[k as int].hash@) by {
                            if lcs@[k as int].hash@ == rcs@[rj as int].hash@ {
                                assert(lcs@[k as int].hash is D16 <==> rcs@[rj as int].hash
                                    is D16);
                            }
                        }
                    }
                    let ls = find_sub(&l.subdirs, &lcs[k].name);
                    let rs = find_sub(&r.subdirs, &lcs[k].name);
                    match (ls, rs) {
                        (Some(li), Some(ri)) => {
                            proof {
                                assert forall|a: int, b: int|
                                    (0 <= a < l.subdirs@.len() && (#[trigger] l.subdirs@[a]).node.name@
                                        == n && 0 <= b < l.subdirs@.len() && (
                                    #[trigger] l.subdirs@[b]).node.name@ == n) implies a == b by {
                                    lemma_sub_unique(l.subdirs@, a, b);
                                }
                                assert(sub_in(l.subdirs@, n));
                                assert(l.subdirs@[li as int] == sub_at(l.subdirs@, n));
                                assert forall|a: int, b: int|
                                    (0 <= a < r.subdirs@.len() && (#[trigger] r.subdirs@[a]).node.name@
                                        == n && 0 <= b < r.subdirs@.len() && (
                                    #[trigger] r.subdirs@[b]).node.name@ == n) implies a == b by {
                                    lemma_sub_unique(r.subdirs@, a, b);
                                }
                                assert(sub_in(r.subdirs@, n));
                                assert(r.subdirs@[ri as int] == sub_at(r.subdirs@, n));
                                assert(decreases_to!(*l => l.subdirs@[li as int]));
                            }
                            let res = diff_into(&l.subdirs[li], &r.subdirs[ri], out);
                            match res {
                                Ok(()) => {},
                                Err(e) => {
                                    proof {
                                        assert(diff_spec(sub_at(l.subdirs@, n), sub_at(r.subdirs@, n)) is Err);
                                        assert(diff_kids(*l, *r, k as int) is Err);
                                    }
                                    return Err(e);
                                },
                            }
                        },
                        (Some(_), None) => {
                            let nm = copy_bytes(&lcs[k].name);
                            out.changed.push(nm);
                            proof {
                                assert(out.changed.deep_view() =~~= kc.push(n));
                            }
                        },
                        (None, Some(_)) => {
                            let nm = copy_bytes(&lcs[k].name);
                            out.changed.push(nm);
                            proof {
                                assert(out.changed.deep_view() =~~= kc.push(n));
                            }
                        },
                        (None, None) => {
                            let nm = copy_bytes(&lcs[k].name);
                            out.changed.push(nm);
                            proof {
                                assert(out.changed.deep_view() =~~= kc.push(n));
                            }
                        },
                    }
                }
            },
        }
        proof {
            let kv = k as int;
            assert(diff_kids(*l, *r, 0) is Ok <==> diff_kids(*l, *r, kv + 1) is Ok);
            assert(diff_kids(*l, *r, kv + 1) matches Ok(tn) ==> (diff_kids(*l, *r, 0) matches Ok(
                t0,
            ) && out.added.deep_view() + tn.0 == a1 + t0.0 && out.removed.deep_view() + tn.1 == r1
                + t0.1 && out.changed.deep_view() + tn.2 == c0 + t0.2));
        }
        k = k + 1;
    }
    proof {
        assert(diff_kids(*l, *r, lcs@.len() as int) matches Ok(te) && te.0.len() == 0 && te.1.len()
            == 0 && te.2.len() == 0);
        let t0 = diff_kids(*l, *r, 0)->Ok_0;
        assert(out.added.deep_view() =~~= a1 + t0.0);
        assert(out.removed.deep_view() =~~= r1 + t0.1);
        assert(out.changed.deep_view() =~~= c0 + t0.2);
        assert(diff_spec(*l, *r) matches Ok(t) && t.0 == only_in(rcs@, lcs@) + t0.0 && t.1
            == only_in(lcs@, rcs@) + t0.1 && t.2 == t0.2);
        assert(out.added.deep_view() =~~= a0 + (only_in(rcs@, lcs@) + t0.0));
        assert(out.removed.deep_view() =~~= r0 + (only_in(lcs@, rcs@) + t0.1));
    }
    Ok(())
}

/// Compares two loaded mirrors. Fails exactly when they were built
/// under different hash methods or byte limits; returns nothing when
/// they agree, else the added, removed and changed relative paths.
pub fn diff(lhs: &NodeTree, rhs: &NodeTree) -> (r: Result<Option<Diff>, RushError>)
    requires
        lhs.wf(),
        rhs.wf(),
    ensures
        r is Err <==> diff_spec(*lhs, *rhs) is Err,
        r matches Err(e) ==> e == RushError::ConfigMismatch,
        r matches Ok(Some(d)) ==> diff_spec(*lhs, *rhs) matches Ok(t) && d.added.deep_view() == t.0
            && d.removed.deep_view() == t.1 && d.changed.deep_view() == t.2 && (t.0.len() > 0
            || t.1.len() > 0 || t.2.len() > 0),
        r matches Ok(None) ==> diff_spec(*lhs, *rhs) matches Ok(t) && t.0.len() == 0 && t.1.len()
            == 0 && t.2.len() == 0,
{
    let mut out = Diff::new();
    match diff_into(lhs, rhs, &mut out) {
        Err(e) => Err(e),
        Ok(()) => {
            if out.is_empty() {
                Ok(None)
            } else {
                Ok(Some(out))
            }
        },
    }
}

/// Comparing a snapshot with itself reports nothing: equal root
/// digests prune the whole tree.
pub proof fn lemma_diff_identical(x: NodeTree)
    ensures
        diff_spec(x, x) == Ok::<_, ()>(
            (Seq::<Seq<u8>>::empty(), Seq::<Seq<u8>>::empty(), Seq::<Seq<u8>>::empty()),
        ),
{
}

/// Mirrors built under different hash methods or byte limits cannot be
/// compared: the comparison fails rather than reporting a misleading
/// result.
pub proof fn lemma_diff_config_mismatch(l: NodeTree, r: NodeTree)
    requires
        l.node.hash_method != r.node.hash_method || l.node.bytes_to_hash != r.node.bytes_to_hash,
    ensures
        diff_spec(l, r) is Err,
{
}


/// Two mirrors built from the same tree under the same settings and the
/// same per-file digests compare as identical: their root digests
/// agree, so the whole comparison is pruned and reports nothing.
pub proof fn lemma_diff_of_two_builds(
    nt1: NodeTree,
    nt2: NodeTree,
    t: crate::tree::FsTree,
    nodename: Seq<u8>,
    m: crate::digest::HashMethod,
    limit: u64,
    d: Seq<Seq<u8>>,
)
    requires
        crate::merkle::rep_node(nt1, t, Seq::empty(), nodename, m, limit, d, 0),
        crate::merkle::rep_node(nt2, t, Seq::empty(), nodename, m, limit, d, 0),
    ensures
        diff_spec(nt1, nt2) == Ok::<_, ()>(
            (Seq::<Seq<u8>>::empty(), Seq::<Seq<u8>>::empty(), Seq::<Seq<u8>>::empty()),
        ),
{
}

/// A name with no counterpart on the other side is reported.
proof fn lemma_only_in_contains(cs: Seq<Leaf>, other: Seq<Leaf>, i: int)
    requires
        0 <= i < cs.len(),
        !child_in(other, cs[i].name@),
    ensures
        only_in(cs, other).contains(cs[i].name@),
    decreases cs,
{
    if i == cs.len() - 1 {
        let pre = only_in(cs.drop_last(), other);
        assert(only_in(cs, other)[pre.len() as int] == cs[i].name@);
    } else {
        lemma_only_in_contains(cs.drop_last(), other, i);
        let pre = only_in(cs.drop_last(), other);
        let w = choose|k: int| 0 <= k < pre.len() && pre[k] == cs[i].name@;
        assert(only_in(cs, other)[w] == cs[i].name@);
    }
}

/// A whole subtree present only on the right is reported as added, by
/// its own name alone: the per-name inspection only ever enters names
/// present on both sides, so nothing beneath it is visited.
pub proof fn lemma_added_is_reported(l: NodeTree, r: NodeTree, j: int)
    requires
        l.node.hash_method == r.node.hash_method,
        l.node.bytes_to_hash == r.node.bytes_to_hash,
        l.node.root_hash@ != r.node.root_hash@,
        0 <= j < r.node.children@.len(),
        !child_in(l.node.children@, r.node.children@[j].name@),
        diff_kids(l, r, 0) is Ok,
    ensures
        diff_spec(l, r) matches Ok(t) && t.0.contains(r.node.children@[j].name@),
{
    let n = r.node.children@[j].name@;
    lemma_only_in_contains(r.node.children@, l.node.children@, j);
    let a = only_in(r.node.children@, l.node.children@);
    let w = choose|k: int| 0 <= k < a.len() && a[k] == n;
    let t = diff_spec(l, r)->Ok_0;
    assert(t.0[w] == n);
}


/// A child list whose every name has a counterpart contributes no
/// one-sided entries.
proof fn lemma_only_in_all_present(cs: Seq<Leaf>, other: Seq<Leaf>)
    requires
        forall|i: int| 0 <= i < cs.len() ==> child_in(other, (#[trigger] cs[i]).name@),
    ensures
        only_in(cs, other) == Seq::<Seq<u8>>::empty(),
    decreases cs,
{
    if cs.len() > 0 {
        assert forall|i: int| 0 <= i < cs.drop_last().len() implies child_in(
            other,
            (#[trigger] cs.drop_last()[i]).name@,
        ) by {
            assert(cs.drop_last()[i] == cs[i]);
        }
        lemma_only_in_all_present(cs.drop_last(), other);
    }
}

/// The per-name walk over identically named children, where exactly
/// the digest at position `j` differs and that name is not a
/// directory on both sides, contributes that one name as changed and
/// nothing else.
proof fn lemma_kids_single_change(l: NodeTree, r: NodeTree, j: int, i: int)
    requires
        l.wf(),
        r.wf(),
        l.node.children@.len() == r.node.children@.len(),
        forall|k: int|
            0 <= k < l.node.children@.len() ==> (#[trigger] l.node.children@[k]).name@
                == r.node.children@[k].name@,
        0 <= j < l.node.children@.len(),
        forall|k: int|
            0 <= k < l.node.children@.len() && k != j ==> (#[trigger] l.node.children@[k]).hash@
                == r.node.children@[k].hash@,
        l.node.children@[j].hash@ != r.node.children@[j].hash@,
        !(sub_in(l.subdirs@, l.node.children@[j].name@) && sub_in(
            r.subdirs@,
            l.node.children@[j].name@,
        )),
        0 <= i,
    ensures
        diff_kids(l, r, i) == Ok::<_, ()>(
            (
                Seq::<Seq<u8>>::empty(),
                Seq::<Seq<u8>>::empty(),
                if i <= j {
                    seq![l.node.children@[j].name@]
                } else {
                    Seq::<Seq<u8>>::empty()
                },
            ),
        ),
    decreases l.node.children@.len() - i,
{
    let cs = l.node.children@;
    let rcs = r.node.children@;
    if i >= cs.len() {
    } else {
        lemma_kids_single_change(l, r, j, i + 1);
        let c = cs[i];
        let n = c.name@;
        assert(child_in(rcs, n)) by {
            assert(rcs[i].name@ == n);
        }
        assert forall|a: int, b: int|
            (0 <= a < rcs.len() && (#[trigger] rcs[a]).name@ == n && 0 <= b < rcs.len() && (
            #[trigger] rcs[b]).name@ == n) implies a == b by {
            lemma_child_unique(rcs, a, b);
        }
        assert(child_hash(rcs, n) == rcs[i].hash@);
        if i == j {
            assert(seq![n] + Seq::<Seq<u8>>::empty() =~= seq![n]);
        }
    }
}

/// With the same configuration and identically named children, where
/// exactly one child's digest differs and that name is not a
/// directory on both sides, a comparison whose root digests differ
/// reports exactly that one name as changed, nothing added and
/// nothing removed. The premise that the root digests differ cannot
/// be dropped: combined digests are opaque provider results, and a
/// comparison finding them equal prunes the whole tree.
pub proof fn lemma_single_changed_leaf(l: NodeTree, r: NodeTree, j: int)
    requires
        l.wf(),
        r.wf(),
        l.node.hash_method == r.node.hash_method,
        l.node.bytes_to_hash == r.node.bytes_to_hash,
        l.node.root_hash@ != r.node.root_hash@,
        l.node.children@.len() == r.node.children@.len(),
        forall|k: int|
            0 <= k < l.node.children@.len() ==> (#[trigger] l.node.children@[k]).name@
                == r.node.children@[k].name@,
        0 <= j < l.node.children@.len(),
        forall|k: int|
            0 <= k < l.node.children@.len() && k != j ==> (#[trigger] l.node.children@[k]).hash@
                == r.node.children@[k].hash@,
        l.node.children@[j].hash@ != r.node.children@[j].hash@,
        !(sub_in(l.subdirs@, l.node.children@[j].name@) && sub_in(
            r.subdirs@,
            l.node.children@[j].name@,
        )),
    ensures
        diff_spec(l, r) == Ok::<_, ()>(
            (
                Seq::<Seq<u8>>::empty(),
                Seq::<Seq<u8>>::empty(),
                seq![l.node.children@[j].name@],
            ),
        ),
{
    let cs = l.node.children@;
    let rcs = r.node.children@;
    lemma_kids_single_change(l, r, j, 0);
    assert forall|k: int| 0 <= k < rcs.len() implies child_in(cs, (#[trigger] rcs[k]).name@) by {
        assert(cs[k].name@ == rcs[k].name@);
    }
    assert forall|k: int| 0 <= k < cs.len() implies child_in(rcs, (#[trigger] cs[k]).name@) by {
        assert(rcs[k].name@ == cs[k].name@);
    }
    lemma_only_in_all_present(rcs, cs);
    lemma_only_in_all_present(cs, rcs);
    let t = diff_kids(l, r, 0)->Ok_0;
    assert(Seq::<Seq<u8>>::empty() + t.0 =~= t.0);
    assert(Seq::<Seq<u8>>::empty() + t.1 =~= t.1);
}


/// A child list with exactly one unmatched name contributes exactly
/// that name.
proof fn lemma_only_in_single(cs: Seq<Leaf>, other: Seq<Leaf>, j: int)
    requires
        0 <= j < cs.len(),
        !child_in(other, cs[j].name@),
        forall|k: int|
            0 <= k < cs.len() && k != j ==> child_in(other, (#[trigger] cs[k]).name@),
    ensures
        only_in(cs, other) == seq![cs[j].name@],
    decreases cs,
{
    if j == cs.len() - 1 {
        assert forall|k: int| 0 <= k < cs.drop_last().len() implies child_in(
            other,
            (#[trigger] cs.drop_last()[k]).name@,
        ) by {
            assert(cs.drop_last()[k] == cs[k]);
        }
        lemma_only_in_all_present(cs.drop_last(), other);
        assert(only_in(cs, other) =~= seq![cs[j].name@]);
    } else {
        assert forall|k: int|
            0 <= k < cs.drop_last().len() && k != j implies child_in(
            other,
            (#[trigger] cs.drop_last()[k]).name@,
        ) by {
            assert(cs.drop_last()[k] == cs[k]);
        }
        assert(cs.drop_last()[j] == cs[j]);
        lemma_only_in_single(cs.drop_last(), other, j);
        assert(child_in(other, cs.last().name@));
    }
}

/// The per-name walk contributes nothing when every left child has a
/// counterpart of the same name and the same digest on the right.
proof fn lemma_kids_all_matched(l: NodeTree, r: NodeTree, i: int)
    requires
        l.wf(),
        r.wf(),
        forall|k: int|
            0 <= k < l.node.children@.len() ==> exists|k2: int|
                0 <= k2 < r.node.children@.len() && r.node.children@[k2].name@ == (
                #[trigger] l.node.children@[k]).name@ && r.node.children@[k2].hash@
                    == l.node.children@[k].hash@,
        0 <= i,
    ensures
        diff_kids(l, r, i) == Ok::<_, ()>(
            (Seq::<Seq<u8>>::empty(), Seq::<Seq<u8>>::empty(), Seq::<Seq<u8>>::empty()),
        ),
    decreases l.node.children@.len() - i,
{
    let cs = l.node.children@;
    let rcs = r.node.children@;
    if i >= cs.len() {
    } else {
        lemma_kids_all_matched(l, r, i + 1);
        let n = cs[i].name@;
        let k2 = choose|k2: int|
            0 <= k2 < rcs.len() && rcs[k2].name@ == n && rcs[k2].hash@ == cs[i].hash@;
        assert(child_in(rcs, n));
        assert forall|a: int, b: int|
            (0 <= a < rcs.len() && (#[trigger] rcs[a]).name@ == n && 0 <= b < rcs.len() && (
            #[trigger] rcs[b]).name@ == n) implies a == b by {
            lemma_child_unique(rcs, a, b);
        }
        assert(child_hash(rcs, n) == rcs[k2].hash@);
    }
}

/// A whole subdirectory present only on the right — every other child
/// agreeing in name and digest — is reported as one added entry by
/// its own name, and nothing else is reported: nothing beneath it is
/// visited, since the per-name walk only enters names present on both
/// sides. The premise that the root digests differ cannot be dropped:
/// a comparison finding them equal prunes the whole tree.
pub proof fn lemma_added_subtree_reported_once(l: NodeTree, r: NodeTree, jd: int)
    requires
        l.wf(),
        r.wf(),
        l.node.hash_method == r.node.hash_method,
        l.node.bytes_to_hash == r.node.bytes_to_hash,
        l.node.root_hash@ != r.node.root_hash@,
        r.node.children@.len() == l.node.children@.len() + 1,
        0 <= jd < r.node.children@.len(),
        !child_in(l.node.children@, r.node.children@[jd].name@),
        forall|k: int|
            0 <= k < jd ==> (#[trigger] r.node.children@[k]).name@ == l.node.children@[k].name@
                && r.node.children@[k].hash@ == l.node.children@[k].hash@,
        forall|k: int|
            jd < k < r.node.children@.len() ==> (#[trigger] r.node.children@[k]).name@
                == l.node.children@[k - 1].name@ && r.node.children@[k].hash@ == l.node.children@[
                k - 1
            ].hash@,
    ensures
        diff_spec(l, r) == Ok::<_, ()>(
            (
                seq![r.node.children@[jd].name@],
                Seq::<Seq<u8>>::empty(),
                Seq::<Seq<u8>>::empty(),
            ),
        ),
{
    let cs = l.node.children@;
    let rcs = r.node.children@;
    assert forall|k: int|
        0 <= k < rcs.len() && k != jd implies child_in(cs, (#[trigger] rcs[k]).name@) by {
        if k < jd {
            assert(cs[k].name@ == rcs[k].name@);
        } else {
            assert(cs[k - 1].name@ == rcs[k].name@);
        }
    }
    lemma_only_in_single(rcs, cs, jd);
    assert forall|k: int| 0 <= k < cs.len() implies child_in(rcs, (#[trigger] cs[k]).name@) by {
        if k < jd {
            assert(rcs[k].name@ == cs[k].name@);
        } else {
            assert(rcs[k + 1].name@ == cs[k].name@);
        }
    }
    lemma_only_in_all_present(cs, rcs);
    assert forall|k: int| 0 <= k < cs.len() implies exists|k2: int|
        0 <= k2 < rcs.len() && rcs[k2].name@ == (#[trigger] cs[k]).name@ && rcs[k2].hash@ == cs[
        k
    ].hash@ by {
        if k < jd {
            assert(rcs[k].name@ == cs[k].name@ && rcs[k].hash@ == cs[k].hash@);
        } else {
            assert(rcs[k + 1].name@ == cs[k].name@ && rcs[k + 1].hash@ == cs[k].hash@);
        }
    }
    lemma_kids_all_matched(l, r, 0);
    assert(seq![rcs[jd].name@] + Seq::<Seq<u8>>::empty() =~= seq![rcs[jd].name@]);
    assert(Seq::<Seq<u8>>::empty() + Seq::<Seq<u8>>::empty() =~= Seq::<Seq<u8>>::empty());
}

} // verus!
