//! Byte-string order, path joining, and root-relative paths.
//!
//! Entry names and relative paths are raw bytes; the strict
//! lexicographic byte order defined here is the deterministic listing
//! order everything else builds on.

use vstd::prelude::*;

verus! {

/// Strict lexicographic order on byte strings, decided from position
/// `i` on, the bytes before `i` being considered equal.
pub open spec fn bytes_lt_from(a: Seq<u8>, b: Seq<u8>, i: int) -> bool
    decreases b.len() - i,
{
    if i >= b.len() {
        false
    } else if i >= a.len() {
        true
    } else if a[i] < b[i] {
        true
    } else if a[i] > b[i] {
        false
    } else {
        bytes_lt_from(a, b, i + 1)
    }
}

/// Strict lexicographic (byte value) order on byte strings: the order
/// directory entries are listed in.
pub open spec fn bytes_lt(a: Seq<u8>, b: Seq<u8>) -> bool {
    bytes_lt_from(a, b, 0)
}

/// The order is irreflexive and asymmetric.
pub proof fn lemma_bytes_lt_asym(a: Seq<u8>, b: Seq<u8>, i: int)
    requires
        bytes_lt_from(a, b, i),
    ensures
        !bytes_lt_from(b, a, i),
        !(a == b),
    decreases b.len() - i,
{
    if i < b.len() && i < a.len() && a[i] == b[i] {
        lemma_bytes_lt_asym(a, b, i + 1);
    }
    if a == b {
        assert(a.len() == b.len());
    }
}

/// Two byte strings neither of which precedes the other are equal.
pub proof fn lemma_bytes_lt_total(a: Seq<u8>, b: Seq<u8>, i: int)
    requires
        0 <= i <= a.len(),
        0 <= i <= b.len(),
        !bytes_lt_from(a, b, i),
        !bytes_lt_from(b, a, i),
        a.take(i) == b.take(i),
    ensures
        a == b,
    decreases b.len() - i,
{
    if i == a.len() || i == b.len() {
        if a.len() == b.len() {
            assert(a.take(i) =~= a);
            assert(b.take(i) =~= b);
        }
    } else {
        assert(a[i] == b[i]);
        assert(a.take(i + 1) =~= b.take(i + 1));
        lemma_bytes_lt_total(a, b, i + 1);
    }
}

/// The order is transitive.
pub proof fn lemma_bytes_lt_trans(a: Seq<u8>, b: Seq<u8>, c: Seq<u8>, i: int)
    requires
        0 <= i,
        bytes_lt_from(a, b, i),
        bytes_lt_from(b, c, i),
    ensures
        bytes_lt_from(a, c, i),
    decreases c.len() - i,
{
    if i < a.len() && i < b.len() && i < c.len() && a[i] == b[i] && b[i] == c[i] {
        lemma_bytes_lt_trans(a, b, c, i + 1);
    }
}

/// Compares two byte strings in lexicographic byte order.
pub fn bytes_lt_exec(a: &Vec<u8>, b: &Vec<u8>) -> (r: bool)
    ensures
        r == bytes_lt(a@, b@),
{
    let mut i: usize = 0;
    loop
        invariant
            0 <= i <= a@.len(),
            i <= b@.len(),
            bytes_lt(a@, b@) == bytes_lt_from(a@, b@, i as int),
        decreases b@.len() - i,
    {
        if i >= b.len() {
            return false;
        }
        if i >= a.len() {
            return true;
        }
        if a[i] < b[i] {
            return true;
        }
        if a[i] > b[i] {
            return false;
        }
        i = i + 1;
    }
}

/// A relative path built from a prefix and one more component: the
/// component alone at the top level, else the prefix, a slash, and the
/// component.
pub open spec fn joined(prefix: Seq<u8>, name: Seq<u8>) -> Seq<u8> {
    if prefix.len() == 0 {
        name
    } else {
        prefix + seq![47u8] + name
    }
}

/// Joins a relative-path prefix and an entry name with a slash.
pub fn path_join(prefix: &Vec<u8>, name: &Vec<u8>) -> (r: Vec<u8>)
    ensures
        r@ == joined(prefix@, name@),
{
    let mut out: Vec<u8> = Vec::new();
    if prefix.len() > 0 {
        let mut i: usize = 0;
        while i < prefix.len()
            invariant
                i <= prefix@.len(),
                out@ =~= prefix@.take(i as int),
            decreases prefix@.len() - i,
        {
            out.push(prefix[i]);
            i = i + 1;
        }
        assert(out@ =~= prefix@);
        out.push(47u8);
    }
    let mut j: usize = 0;
    while j < name.len()
        invariant
            j <= name@.len(),
            prefix@.len() == 0 ==> out@ =~= name@.take(j as int),
            prefix@.len() > 0 ==> out@ =~= prefix@ + seq![47u8] + name@.take(j as int),
        decreases name@.len() - j,
    {
        out.push(name[j]);
        j = j + 1;
    }
    proof {
        assert(name@.take(name@.len() as int) =~= name@);
    }
    out
}

/// Deciding the order from position `i + c` inside strings that share
/// the prefix `c` is deciding it from `i` on the tails.
proof fn lemma_bytes_lt_shift(c: Seq<u8>, a: Seq<u8>, b: Seq<u8>, j: int)
    requires
        0 <= j,
    ensures
        bytes_lt_from(c + a, c + b, c.len() + j) == bytes_lt_from(a, b, j),
    decreases b.len() - j,
{
    let ca = c + a;
    let cb = c + b;
    let i = c.len() + j;
    if j >= b.len() {
    } else if j >= a.len() {
    } else {
        assert(ca[i] == a[j]);
        assert(cb[i] == b[j]);
        if a[j] == b[j] {
            lemma_bytes_lt_shift(c, a, b, j + 1);
        }
    }
}

/// Prepending a common prefix does not change the relative order.
pub proof fn lemma_prefix_order(c: Seq<u8>, a: Seq<u8>, b: Seq<u8>)
    ensures
        bytes_lt(c + a, c + b) == bytes_lt(a, b),
        (c + a == c + b) == (a == b),
{
    lemma_prefix_lt_aux(c, a, b, 0);
    if c + a == c + b {
        assert(a =~= b) by {
            assert forall|k: int| 0 <= k < a.len() implies a[k] == b[k] by {
                assert((c + a)[c.len() + k] == a[k]);
                assert((c + b)[c.len() + k] == b[k]);
            }
            assert(a.len() == b.len());
        }
    }
}

/// From any position inside the common prefix, the order of the joined
/// strings is the order of the tails.
proof fn lemma_prefix_lt_aux(c: Seq<u8>, a: Seq<u8>, b: Seq<u8>, i: int)
    requires
        0 <= i <= c.len(),
    ensures
        bytes_lt_from(c + a, c + b, i) == bytes_lt(a, b),
    decreases c.len() - i,
{
    if i == c.len() {
        lemma_bytes_lt_shift(c, a, b, 0);
    } else {
        assert((c + a)[i] == c[i]);
        assert((c + b)[i] == c[i]);
        lemma_prefix_lt_aux(c, a, b, i + 1);
    }
}

/// Joining with one prefix keeps the order and the identity of names.
pub proof fn lemma_joined_order(p: Seq<u8>, a: Seq<u8>, b: Seq<u8>)
    ensures
        bytes_lt(joined(p, a), joined(p, b)) == bytes_lt(a, b),
        (joined(p, a) == joined(p, b)) == (a == b),
{
    if p.len() == 0 {
    } else {
        let c = p + seq![47u8];
        assert(joined(p, a) =~= c + a);
        assert(joined(p, b) =~= c + b);
        lemma_prefix_order(c, a, b);
    }
}


/// A fresh copy of a byte vector.
pub fn copy_bytes(v: &Vec<u8>) -> (r: Vec<u8>)
    ensures
        r@ == v@,
{
    let mut out: Vec<u8> = Vec::new();
    let mut i: usize = 0;
    while i < v.len()
        invariant
            i <= v@.len(),
            out@ =~= v@.take(i as int),
        decreases v@.len() - i,
    {
        out.push(v[i]);
        i = i + 1;
    }
    proof {
        assert(out@ =~= v@);
    }
    out
}


/// Index of the last slash in a path, or minus one.
pub open spec fn last_slash(p: Seq<u8>) -> int
    decreases p.len(),
{
    if p.len() == 0 {
        -1
    } else if p[p.len() - 1] == 47 {
        p.len() - 1
    } else {
        last_slash(p.drop_last())
    }
}

/// The path's own final component: what follows its last slash.
pub open spec fn base_name(p: Seq<u8>) -> Seq<u8> {
    p.skip(last_slash(p) + 1)
}

/// The path with its trailing slashes removed.
pub open spec fn trim_slashes(p: Seq<u8>) -> Seq<u8>
    decreases p.len(),
{
    if p.len() > 0 && p[p.len() - 1] == 47 {
        trim_slashes(p.drop_last())
    } else {
        p
    }
}

/// Positions past `i` hold no slash, so the last slash lies in the
/// prefix.
proof fn lemma_last_slash_scan(p: Seq<u8>, i: int)
    requires
        0 <= i <= p.len(),
        forall|k: int| i <= k < p.len() ==> p[k] != 47,
    ensures
        last_slash(p) == last_slash(p.take(i)),
    decreases p.len() - i,
{
    if i == p.len() {
        assert(p.take(i) =~= p);
    } else {
        assert(p[p.len() - 1] != 47);
        assert(p.drop_last() =~= p.take(p.len() - 1));
        lemma_last_slash_scan(p.take(p.len() - 1), i);
        assert(p.take(p.len() - 1).take(i) =~= p.take(i));
    }
}

/// A path's position relative to a root, as the persisted node names
/// record it. Trailing slashes are ignored on the root, and on the
/// path when it denotes the root itself: the root maps to its own
/// final component; a path below the root, to what follows the root
/// and one slash; any other path — an empty root included — to
/// itself. Slashes are single bytes; repeated slashes between
/// components are taken literally.
pub open spec fn rel_path_spec(root: Seq<u8>, p: Seq<u8>) -> Seq<u8> {
    let r = trim_slashes(root);
    if root.len() == 0 {
        p
    } else if trim_slashes(p) == r {
        base_name(trim_slashes(p))
    } else if p.len() > r.len() && p.take(r.len() as int) == r && p[r.len() as int] == 47 {
        p.skip(r.len() as int + 1)
    } else {
        p
    }
}

/// Copy of the byte string between two positions.
fn copy_range(p: &Vec<u8>, from: usize, to: usize) -> (r: Vec<u8>)
    requires
        from <= to <= p@.len(),
    ensures
        r@ == p@.subrange(from as int, to as int),
{
    let mut out: Vec<u8> = Vec::new();
    let mut i: usize = from;
    while i < to
        invariant
            from <= i <= to <= p@.len(),
            out@ =~= p@.subrange(from as int, i as int),
        decreases to - i,
    {
        out.push(p[i]);
        i = i + 1;
    }
    out
}

/// Length of the path once its trailing slashes are removed.
fn trimmed_len(p: &Vec<u8>) -> (n: usize)
    ensures
        n <= p@.len(),
        trim_slashes(p@) == p@.take(n as int),
{
    let mut i: usize = p.len();
    proof {
        assert(p@.take(i as int) =~= p@);
    }
    loop
        invariant
            i <= p@.len(),
            trim_slashes(p@) == trim_slashes(p@.take(i as int)),
        decreases i,
    {
        if i == 0 {
            proof {
                assert(p@.take(0) =~= Seq::<u8>::empty());
            }
            return 0;
        }
        if p[i - 1] != 47 {
            proof {
                assert(p@.take(i as int).last() == p@[i - 1]);
                assert(trim_slashes(p@.take(i as int)) == p@.take(i as int));
            }
            return i;
        }
        proof {
            assert(p@.take(i as int).last() == 47);
            assert(p@.take(i as int).drop_last() =~= p@.take(i - 1));
        }
        i = i - 1;
    }
}

/// Whether two byte strings agree on their first `n` bytes.
fn prefix_eq(a: &Vec<u8>, b: &Vec<u8>, n: usize) -> (r: bool)
    requires
        n <= a@.len(),
        n <= b@.len(),
    ensures
        r == (a@.take(n as int) == b@.take(n as int)),
{
    let mut j: usize = 0;
    while j < n
        invariant
            j <= n <= a@.len(),
            n <= b@.len(),
            forall|k: int| 0 <= k < j ==> a@[k] == b@[k],
        decreases n - j,
    {
        if a[j] != b[j] {
            proof {
                assert(a@.take(n as int)[j as int] != b@.take(n as int)[j as int]);
            }
            return false;
        }
        j = j + 1;
    }
    proof {
        assert(a@.take(n as int) =~= b@.take(n as int));
    }
    true
}

/// The path of `path` relative to `root`, as the persisted node names
/// record it: the root itself maps to its own final component, a path
/// below the root to its root-relative remainder, and any other path
/// to itself. A trailing slash on the root, or on a path that denotes
/// the root, changes nothing.
#[verifier::loop_isolation(false)]
pub fn rel_path_str(root: &Vec<u8>, path: &Vec<u8>) -> (r: Vec<u8>)
    ensures
        r@ == rel_path_spec(root@, path@),
{
    if root.len() == 0 {
        return copy_range(path, 0, path.len());
    }
    let rl = trimmed_len(root);
    let pl = trimmed_len(path);
    let ghost rv = trim_slashes(root@);
    let ghost q = trim_slashes(path@);
    let pref = rl <= path.len() && prefix_eq(path, root, rl);
    if pl == rl && pref {
        proof {
            assert(q =~= rv);
        }
        // The path denotes the root: take its final component.
        let mut i: usize = pl;
        loop
            invariant
                0 <= i <= pl,
                forall|k: int| i <= k < pl ==> path@[k] != 47,
            decreases i,
        {
            if i == 0 {
                proof {
                    lemma_last_slash_scan(q, 0);
                    assert(q.take(0) =~= Seq::<u8>::empty());
                    assert(last_slash(q) == -1);
                    assert(q.skip(0) =~= q);
                }
                return copy_range(path, 0, pl);
            }
            if path[i - 1] == 47 {
                proof {
                    lemma_last_slash_scan(q, i as int);
                    assert(q.take(i as int) =~= path@.take(i as int));
                    assert(q.take(i as int).last() == 47);
                    assert(last_slash(q) == i - 1);
                    assert(q.skip(i as int) =~= path@.subrange(i as int, pl as int));
                }
                return copy_range(path, i, pl);
            }
            i = i - 1;
        }
    }
    if path.len() > rl && pref && path[rl] == 47 {
        proof {
            assert(path@.take(rl as int) == rv);
        }
        return copy_range(path, rl + 1, path.len());
    }
    proof {
        if trim_slashes(path@) == rv {
            assert(q.len() == pl && rv.len() == rl);
            assert(pl == rl);
            assert(path@.take(rl as int) =~= q);
        }
        if path@.len() > rv.len() && path@.take(rv.len() as int) == rv && path@[rv.len() as int]
            == 47 {
            assert(pref);
        }
        assert(path@.subrange(0, path@.len() as int) =~= path@);
    }
    copy_range(path, 0, path.len())
}

} // verus!
