//! The in-memory shape of a dataset tree, its deterministic listing
//! order, and the ordered collection of its regular files.

use vstd::prelude::*;

use crate::bytes::{bytes_lt, bytes_lt_exec, joined, lemma_bytes_lt_asym, lemma_bytes_lt_total,
    lemma_bytes_lt_trans, path_join};
use crate::digest::bytes_eq;
use crate::errors::RushError;

verus! {

/// The shape of a dataset directory tree: regular files and
/// subdirectories, with names given as raw path-component bytes. Entry
/// kinds other than these two never enter a tree; a caller walking a
/// real filesystem rejects them before building one.
#[derive(Debug)]
pub enum FsTree {
    File { name: Vec<u8> },
    Dir { name: Vec<u8>, entries: Vec<FsTree> },
}

/// Name of the hidden control directory that holds the persisted mirror,
/// and that a listing always excludes.
pub open spec fn control_name() -> Seq<u8> {
    seq![46u8, 114u8, 117u8, 115u8, 104u8]
}

/// The control directory's name, ".rush", as bytes.
pub fn control_dir_name() -> (r: Vec<u8>)
    ensures
        r@ == control_name(),
{
    let mut v: Vec<u8> = Vec::new();
    v.push(46u8);
    v.push(114u8);
    v.push(117u8);
    v.push(115u8);
    v.push(104u8);
    proof {
        assert(v@ =~= control_name());
    }
    v
}

impl FsTree {
    /// The entry's own name.
    pub open spec fn name_spec(self) -> Seq<u8> {
        match self {
            FsTree::File { name } => name@,
            FsTree::Dir { name, .. } => name@,
        }
    }

    pub fn name(&self) -> (r: &Vec<u8>)
        ensures
            r@ == self.name_spec(),
    {
        match self {
            FsTree::File { name } => name,
            FsTree::Dir { name, .. } => name,
        }
    }

    /// Well-formed entry: a nonempty name, and in a directory the
    /// entries are strictly sorted by name — the deterministic listing
    /// order — none of them named like the control directory.
    pub open spec fn wf(self) -> bool
        decreases self,
    {
        match self {
            FsTree::File { name } => name@.len() > 0,
            FsTree::Dir { name, entries } => name@.len() > 0 && wf_entries(entries@),
        }
    }

    /// A well-formed file entry. Rejects only an empty name.
    pub fn file(name: Vec<u8>) -> (r: Result<FsTree, RushError>)
        ensures
            r is Ok <==> name@.len() > 0,
            r matches Ok(t) ==> t == (FsTree::File { name }) && t.wf(),
            r matches Err(e) ==> e == RushError::Structure,
    {
        if name.len() == 0 {
            Err(RushError::Structure)
        } else {
            Ok(FsTree::File { name })
        }
    }
}

/// Entries a directory keeps: everything not named like the control
/// directory.
pub open spec fn kept(e: FsTree) -> bool {
    e.name_spec() != control_name()
}

/// An ordered entry list is well formed when every entry is, the names
/// ascend strictly, and none is the control directory's.
pub open spec fn wf_entries(es: Seq<FsTree>) -> bool
    decreases es,
{
    (forall|i: int| 0 <= i < es.len() ==> (#[trigger] es[i]).wf()) && (forall|i: int, j: int|
        #![trigger es[i], es[j]]
        0 <= i < j < es.len() ==> bytes_lt(es[i].name_spec(), es[j].name_spec())) && (forall|i: int|
        0 <= i < es.len() ==> kept(#[trigger] es[i]))
}

/// Number of regular files in the subtree.
pub open spec fn file_count(t: FsTree) -> nat
    decreases t,
{
    match t {
        FsTree::File { .. } => 1,
        FsTree::Dir { entries, .. } => file_count_seq(entries@),
    }
}

/// Number of regular files under an ordered list of entries.
pub open spec fn file_count_seq(es: Seq<FsTree>) -> nat
    decreases es,
{
    if es.len() == 0 {
        0
    } else {
        file_count_seq(es.drop_last()) + file_count(es.last())
    }
}

/// File counts add up over a split of the entry list.
pub proof fn lemma_file_count_take(es: Seq<FsTree>, i: int)
    requires
        0 <= i < es.len(),
    ensures
        file_count_seq(es.take(i + 1)) == file_count_seq(es.take(i)) + file_count(es[i]),
    decreases es.len(),
{
    assert(es.take(i + 1).drop_last() =~= es.take(i));
    assert(es.take(i + 1).last() == es[i]);
}


/// No two kept entries share a name.
pub open spec fn unique_kept_names(es: Seq<FsTree>) -> bool {
    forall|i: int, j: int|
        0 <= i < j < es.len() && kept(#[trigger] es[i]) && kept(#[trigger] es[j]) ==> es[
            i
        ].name_spec() != es[j].name_spec()
}

/// The entry occurs in the sequence.
pub open spec fn occurs_in(es: Seq<FsTree>, e: FsTree) -> bool {
    exists|j: int| 0 <= j < es.len() && es[j] == e
}

/// Every element of `out` is a kept element of `all`.
pub open spec fn drawn_from_kept(out: Seq<FsTree>, all: Seq<FsTree>) -> bool {
    forall|i: int| #![trigger out[i]]
        0 <= i < out.len() ==> occurs_in(all, out[i]) && kept(out[i])
}

/// Every kept element of `all` appears in `out`.
pub open spec fn holds_all_kept(out: Seq<FsTree>, all: Seq<FsTree>) -> bool {
    forall|j: int| #![trigger all[j]]
        0 <= j < all.len() && kept(all[j]) ==> occurs_in(out, all[j])
}

/// The sequence holds exactly the kept elements of `all`, each exactly
/// the value it has there.
pub open spec fn same_kept_entries(out: Seq<FsTree>, all: Seq<FsTree>) -> bool {
    drawn_from_kept(out, all) && holds_all_kept(out, all)
}

/// Index at which a name belongs in a strictly sorted entry list.
fn find_insert_pos(out: &Vec<FsTree>, name: &Vec<u8>) -> (j: usize)
    ensures
        j <= out@.len(),
        forall|k: int| 0 <= k < j ==> bytes_lt((#[trigger] out@[k]).name_spec(), name@),
        j < out@.len() ==> !bytes_lt(out@[j as int].name_spec(), name@),
{
    let mut j: usize = 0;
    loop
        invariant
            j <= out@.len(),
            forall|k: int| 0 <= k < j ==> bytes_lt((#[trigger] out@[k]).name_spec(), name@),
        decreases out@.len() - j,
    {
        if j >= out.len() {
            return j;
        }
        if !bytes_lt_exec(out[j].name(), name) {
            return j;
        }
        j = j + 1;
    }
}

/// Inserts a well-formed entry at its sorted position; fails exactly
/// when an entry of the same name is already present.
fn insert_sorted(out: &mut Vec<FsTree>, e: FsTree) -> (r: Result<(), RushError>)
    requires
        wf_entries(old(out)@),
        e.wf(),
        kept(e),
    ensures
        r is Ok <==> (forall|k: int|
            0 <= k < old(out)@.len() ==> (#[trigger] old(out)@[k]).name_spec() != e.name_spec()),
        r is Ok ==> wf_entries(final(out)@) && (exists|jj: int|
            0 <= jj <= old(out)@.len() && final(out)@ == old(out)@.insert(jj, e)),
        r is Err ==> final(out)@ == old(out)@,
        r matches Err(err) ==> err == RushError::Structure,
{
    let j = find_insert_pos(out, e.name());
    if j < out.len() && bytes_eq(out[j].name(), e.name()) {
        return Err(RushError::Structure);
    }
    proof {
        if j < out@.len() {
            if !bytes_lt(e.name_spec(), out@[j as int].name_spec()) {
                assert(e.name_spec().take(0) =~= out@[j as int].name_spec().take(0));
                lemma_bytes_lt_total(e.name_spec(), out@[j as int].name_spec(), 0);
                assert(false);
            }
        }
        assert forall|k: int| 0 <= k < old(out)@.len() implies (#[trigger] old(
            out,
        )@[k]).name_spec() != e.name_spec() by {
            if k < j {
                lemma_bytes_lt_asym(old(out)@[k].name_spec(), e.name_spec(), 0);
            } else if k > j {
                lemma_bytes_lt_trans(
                    e.name_spec(),
                    old(out)@[j as int].name_spec(),
                    old(out)@[k].name_spec(),
                    0,
                );
                lemma_bytes_lt_asym(e.name_spec(), old(out)@[k].name_spec(), 0);
            }
        }
    }
    let ghost pre = out@;
    out.insert(j, e);
    proof {
        let post = out@;
        assert forall|a: int, b: int| 0 <= a < b < post.len() implies bytes_lt(
            (#[trigger] post[a]).name_spec(),
            (#[trigger] post[b]).name_spec(),
        ) by {
            if a == j && b > j + 1 {
                assert(post[b] == pre[b - 1]);
                assert(bytes_lt(pre[j as int].name_spec(), pre[b - 1].name_spec()));
                lemma_bytes_lt_trans(
                    e.name_spec(),
                    pre[j as int].name_spec(),
                    post[b].name_spec(),
                    0,
                );
            }
        }
        assert(wf_entries(post));
    }
    Ok(())
}

impl FsTree {
    /// A directory entry assembled from a name and its listed entries, in
    /// any order: entries named like the control directory are excluded,
    /// the rest are sorted by name into the deterministic listing order.
    /// Succeeds exactly when the name is nonempty and no two kept
    /// entries share a name; the result holds exactly the kept entries.
    #[verifier::loop_isolation(false)]
    pub fn dir(name: Vec<u8>, entries: Vec<FsTree>) -> (r: Result<FsTree, RushError>)
        requires
            forall|i: int| 0 <= i < entries@.len() ==> (#[trigger] entries@[i]).wf(),
        ensures
            r is Ok <==> (name@.len() > 0 && unique_kept_names(entries@)),
            r matches Ok(t) ==> t is Dir && t.name_spec() == name@ && t.wf() && same_kept_entries(
                t->Dir_entries@,
                entries@,
            ),
            r matches Err(e) ==> e == RushError::Structure,
    {
        if name.len() == 0 {
            return Err(RushError::Structure);
        }
        let ghost all0 = entries@;
        let control = control_dir_name();
        let mut rem = entries;
        let mut out: Vec<FsTree> = Vec::new();
        let ghost mut origin: Seq<int> = Seq::empty();
        while rem.len() > 0
            invariant
                rem@.len() <= all0.len(),
                rem@ == all0.skip(all0.len() - rem@.len()),
                wf_entries(out@),
                origin.len() == out@.len(),
                forall|i: int|
                    0 <= i < out@.len() ==> 0 <= #[trigger] origin[i] < all0.len() - rem@.len()
                        && all0[origin[i]] == out@[i] && kept(all0[origin[i]]),
                forall|j: int|
                    0 <= j < all0.len() - rem@.len() && kept(#[trigger] all0[j]) ==> exists|i: int|
                        0 <= i < origin.len() && origin[i] == j,
            decreases rem@.len(),
        {
            let ghost rem_pre = rem@;
            let ghost p = all0.len() - rem_pre.len();
            let e = rem.remove(0);
            proof {
                assert(e == all0[p]);
                assert(rem@ =~= all0.skip(all0.len() - rem@.len()));
            }
            if !bytes_eq(e.name(), &control) {
                let ghost out_pre = out@;
                let ghost origin_pre = origin;
                let res = insert_sorted(&mut out, e);
                match res {
                    Ok(()) => {
                        proof {
                            let jj = choose|jj: int|
                                0 <= jj <= out_pre.len() && out@ == out_pre.insert(jj, e);
                            origin = origin_pre.insert(jj, p);
                            assert forall|j: int|
                                0 <= j < p + 1 && kept(#[trigger] all0[j]) implies exists|i: int|
                                0 <= i < origin.len() && origin[i] == j by {
                                if j == p {
                                    assert(origin[jj] == p);
                                } else {
                                    let i0 = choose|i: int|
                                        0 <= i < origin_pre.len() && origin_pre[i] == j;
                                    if i0 < jj {
                                        assert(origin[i0] == j);
                                    } else {
                                        assert(origin[i0 + 1] == j);
                                    }
                                }
                            }
                        }
                    },
                    Err(err) => {
                        proof {
                            let k = choose|k: int|
                                0 <= k < out_pre.len() && (#[trigger] out_pre[k]).name_spec()
                                    == e.name_spec();
                            let j1 = origin_pre[k];
                            assert(all0[j1].name_spec() == all0[p].name_spec());
                            assert(!unique_kept_names(all0));
                        }
                        return Err(err);
                    },
                }
            }
        }
        let ghost outv = out@;
        let t = FsTree::Dir { name, entries: out };
        proof {
            assert(all0.len() - rem@.len() == all0.len());
            assert forall|i: int, j: int|
                0 <= i < j < all0.len() && kept(#[trigger] all0[i]) && kept(
                    #[trigger] all0[j],
                ) implies all0[i].name_spec() != all0[j].name_spec() by {
                let oi = choose|k: int| 0 <= k < origin.len() && origin[k] == i;
                let oj = choose|k: int| 0 <= k < origin.len() && origin[k] == j;
                assert(outv[oi] == all0[i]);
                assert(outv[oj] == all0[j]);
                if oi < oj {
                    lemma_bytes_lt_asym(outv[oi].name_spec(), outv[oj].name_spec(), 0);
                } else if oj < oi {
                    lemma_bytes_lt_asym(outv[oj].name_spec(), outv[oi].name_spec(), 0);
                }
            }
            assert(drawn_from_kept(outv, all0)) by {
                assert forall|i: int| #![trigger outv[i]] 0 <= i < outv.len() implies occurs_in(
                    all0,
                    outv[i],
                ) && kept(outv[i]) by {
                    let j0 = origin[i];
                    assert(0 <= j0 < all0.len() && all0[j0] == outv[i] && kept(all0[j0]));
                }
            }
            assert(holds_all_kept(outv, all0)) by {
                assert forall|j: int| #![trigger all0[j]]
                    0 <= j < all0.len() && kept(all0[j]) implies occurs_in(outv, all0[j]) by {
                    let i0 = choose|i: int| 0 <= i < origin.len() && origin[i] == j;
                    assert(0 <= i0 < outv.len() && outv[i0] == all0[j]);
                }
            }
            assert(same_kept_entries(outv, all0));
        }
        Ok(t)
    }
}


/// The relative paths of the regular files under one entry, depth
/// first, in listing order: a file contributes its own joined path; a
/// directory contributes the files beneath it, under its joined path.
pub open spec fn files_in_entry(t: FsTree, prefix: Seq<u8>) -> Seq<Seq<u8>>
    decreases t,
{
    match t {
        FsTree::File { name } => seq![joined(prefix, name@)],
        FsTree::Dir { name, entries } => files_in_entries(entries@, joined(prefix, name@)),
    }
}

/// The relative paths of the files under an ordered entry list.
pub open spec fn files_in_entries(es: Seq<FsTree>, prefix: Seq<u8>) -> Seq<Seq<u8>>
    decreases es,
{
    if es.len() == 0 {
        Seq::empty()
    } else {
        files_in_entries(es.drop_last(), prefix) + files_in_entry(es.last(), prefix)
    }
}

/// The ordered file list of a whole tree: the files under the root's
/// entries, with paths relative to the root itself.
pub open spec fn files_of(t: FsTree) -> Seq<Seq<u8>> {
    files_in_entries(t->Dir_entries@, Seq::empty())
}

/// Collected files split over a prefix of the entry list.
pub proof fn lemma_files_take(es: Seq<FsTree>, p: Seq<u8>, i: int)
    requires
        0 <= i < es.len(),
    ensures
        files_in_entries(es.take(i + 1), p) == files_in_entries(es.take(i), p) + files_in_entry(
            es[i],
            p,
        ),
{
    assert(es.take(i + 1).drop_last() =~= es.take(i));
    assert(es.take(i + 1).last() == es[i]);
}

/// One file path per regular file: the collected list's length is the
/// file count.
pub proof fn lemma_files_in_entry_len(t: FsTree, p: Seq<u8>)
    ensures
        files_in_entry(t, p).len() == file_count(t),
    decreases t,
{
    match t {
        FsTree::File { .. } => {},
        FsTree::Dir { name, entries } => {
            lemma_files_in_entries_len(entries@, joined(p, name@));
        },
    }
}

/// The collected list over an entry list is as long as its file count.
pub proof fn lemma_files_in_entries_len(es: Seq<FsTree>, p: Seq<u8>)
    ensures
        files_in_entries(es, p).len() == file_count_seq(es),
    decreases es,
{
    if es.len() > 0 {
        lemma_files_in_entries_len(es.drop_last(), p);
        lemma_files_in_entry_len(es.last(), p);
    }
}

/// Appends the relative paths of all files under the entries, depth
/// first in listing order, each under the given prefix.
#[verifier::loop_isolation(false)]
fn collect_entries(entries: &Vec<FsTree>, prefix: &Vec<u8>, out: &mut Vec<Vec<u8>>)
    ensures
        final(out).deep_view() == old(out).deep_view() + files_in_entries(entries@, prefix@),
    decreases entries@,
{
    let ghost out0 = old(out).deep_view();
    let mut i: usize = 0;
    while i < entries.len()
        invariant
            i <= entries@.len(),
            out.deep_view() == out0 + files_in_entries(entries@.take(i as int), prefix@),
        decreases entries@.len() - i,
    {
        proof {
            lemma_files_take(entries@, prefix@, i as int);
        }
        let ghost pre_dv = out.deep_view();
        match &entries[i] {
            FsTree::File { name } => {
                let path = path_join(prefix, name);
                out.push(path);
                proof {
                    assert(out.deep_view() =~~= pre_dv.push(joined(prefix@, name@)));
                    assert(pre_dv.push(joined(prefix@, name@)) =~~= pre_dv + files_in_entry(
                        entries@[i as int],
                        prefix@,
                    ));
                }
            },
            FsTree::Dir { name, entries: sub } => {
                let sub_prefix = path_join(prefix, name);
                proof {
                    assert(decreases_to!(entries@ => entries@[i as int]));
                    assert(decreases_to!(entries@ => sub@));
                }
                collect_entries(sub, &sub_prefix, out);
            },
        }
        proof {
            assert(out.deep_view() =~~= out0 + files_in_entries(
                entries@.take(i as int + 1),
                prefix@,
            ));
        }
        i = i + 1;
    }
    proof {
        assert(entries@.take(entries@.len() as int) =~= entries@);
    }
}

/// The ordered list of every regular file's relative path under the
/// root, depth first in the deterministic listing order. Two walks of
/// equal trees return identical lists.
pub fn collect_files(t: &FsTree) -> (r: Vec<Vec<u8>>)
    requires
        *t is Dir,
    ensures
        r.deep_view() == files_of(*t),
        r@.len() == file_count(*t),
{
    let mut out: Vec<Vec<u8>> = Vec::new();
    let empty: Vec<u8> = Vec::new();
    match t {
        FsTree::Dir { entries, .. } => {
            proof {
                assert(out.deep_view() =~~= Seq::<Seq<u8>>::empty());
            }
            collect_entries(entries, &empty, &mut out);
            proof {
                assert(out.deep_view() =~~= files_of(*t));
                lemma_files_in_entries_len(entries@, empty@);
            }
        },
        FsTree::File { .. } => {},
    }
    out
}

} // verus!
