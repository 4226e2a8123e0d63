//! The digest-combination algorithm: an ordered list of child digests
//! reduced level by level into one directory digest.

use vstd::prelude::*;

use crate::digest::{zero_bytes, Digest, HashMethod};
use crate::errors::RushError;
use crate::provider::{digest_of, hash_bytes};

verus! {

/// One level of the binary hash tree: adjacent digests are hashed
/// pairwise, `hash(left || right)`; a digest left without a partner is
/// carried forward unchanged.
pub open spec fn level_spec(m: HashMethod, ds: Seq<Seq<u8>>) -> Seq<Seq<u8>> {
    Seq::new(
        (ds.len() + 1) / 2,
        |j: int|
            if 2 * j + 1 < ds.len() {
                digest_of(m, ds[2 * j] + ds[2 * j + 1])
            } else {
                ds[2 * j]
            },
    )
}

/// The root of the binary hash tree over an ordered list of child
/// digests: levels are reduced until one digest remains; an empty list
/// yields the family's zero digest; a single digest is the root itself.
pub open spec fn combine_spec(m: HashMethod, ds: Seq<Seq<u8>>) -> Seq<u8>
    decreases ds.len(),
{
    if ds.len() == 0 {
        zero_bytes(m)
    } else if ds.len() == 1 {
        ds[0]
    } else {
        combine_spec(m, level_spec(m, ds))
    }
}

/// The digest byte strings a list of digest values carries.
pub open spec fn digest_views(ds: Seq<Digest>) -> Seq<Seq<u8>> {
    ds.map_values(|d: Digest| d@)
}

/// Concatenation of two byte vectors.
fn concat_bytes(a: &Vec<u8>, b: &Vec<u8>) -> (r: Vec<u8>)
    ensures
        r@ == a@ + b@,
{
    let mut out: Vec<u8> = Vec::new();
    let mut i: usize = 0;
    while i < a.len()
        invariant
            i <= a@.len(),
            out@ =~= a@.take(i as int),
        decreases a@.len() - i,
    {
        out.push(a[i]);
        i = i + 1;
    }
    assert(out@ =~= a@);
    let mut j: usize = 0;
    while j < b.len()
        invariant
            j <= b@.len(),
            out@ =~= a@ + b@.take(j as int),
        decreases b@.len() - j,
    {
        out.push(b[j]);
        j = j + 1;
    }
    proof {
        assert(out@ =~= a@ + b@);
    }
    out
}

/// Combines an ordered list of child digests into one directory digest,
/// level by level. Only the digest provider can make this fail, and only
/// under the 16-byte family.
#[verifier::loop_isolation(false)]
pub fn combine(m: &HashMethod, digests: Vec<Digest>) -> (r: Result<Digest, RushError>)
    requires
        forall|k: int| 0 <= k < digests@.len() ==> (#[trigger] digests@[k]).of_method(*m),
    ensures
        r matches Ok(d) ==> d@ == combine_spec(*m, digest_views(digests@)) && d.of_method(*m),
        *m is Blake3 ==> r is Ok,
        digests@.len() <= 1 ==> r is Ok,
        r matches Err(e) ==> e == RushError::Hash,
{
    if digests.len() == 0 {
        let z = Digest::zero(m);
        return Ok(z);
    }
    let mut current = digests;
    while current.len() > 1
        invariant
            current@.len() >= 1,
            digests@.len() <= 1 ==> current@.len() <= 1,
            forall|k: int| 0 <= k < current@.len() ==> (#[trigger] current@[k]).of_method(*m),
            combine_spec(*m, digest_views(current@)) == combine_spec(*m, digest_views(digests@)),
        decreases current@.len(),
    {
        let ghost pre = digest_views(current@);
        let n = current.len();
        let mut next: Vec<Digest> = Vec::new();
        let mut j: usize = 0;
        while j < n / 2
            invariant
                0 <= j,
                2 * j <= n,
                n == current@.len(),
                next@.len() == j,
                forall|k: int| 0 <= k < j ==> (#[trigger] next@[k])@ == level_spec(*m, pre)[k],
                forall|k: int| 0 <= k < j ==> (#[trigger] next@[k]).of_method(*m),
            decreases n - 2 * j,
        {
            let cat = concat_bytes(current[2 * j].bytes(), current[2 * j + 1].bytes());
            let h = match hash_bytes(m, cat.as_slice()) {
                Ok(h) => h,
                Err(e) => {
                    return Err(e);
                },
            };
            next.push(h);
            j = j + 1;
        }
        if 2 * j < n {
            let last = &current[n - 1];
            let carried = last.duplicate();
            assert(2 * j == n - 1);
            next.push(carried);
        }
        proof {
            assert(digest_views(next@) =~= level_spec(*m, pre));
            assert(next@.len() == (n + 1) / 2);
        }
        current = next;
    }
    let d = current.remove(0);
    Ok(d)
}

/// A single child digest is its own directory digest.
pub proof fn lemma_combine_one(m: HashMethod, d: Seq<u8>)
    ensures
        combine_spec(m, seq![d]) == d,
{
}

/// Two children combine into one pair hash.
pub proof fn lemma_combine_two(m: HashMethod, d0: Seq<u8>, d1: Seq<u8>)
    ensures
        combine_spec(m, seq![d0, d1]) == digest_of(m, d0 + d1),
{
    let ds = seq![d0, d1];
    let h = digest_of(m, d0 + d1);
    assert(level_spec(m, ds) =~= seq![h]);
    assert(combine_spec(m, seq![h]) == h);
}

/// With three children, the first two are paired and the odd third is
/// carried forward unhashed to the final step: the root is
/// `hash(hash(d0 || d1) || d2)`.
pub proof fn lemma_combine_three(m: HashMethod, d0: Seq<u8>, d1: Seq<u8>, d2: Seq<u8>)
    ensures
        combine_spec(m, seq![d0, d1, d2]) == digest_of(m, digest_of(m, d0 + d1) + d2),
{
    let ds = seq![d0, d1, d2];
    let h01 = digest_of(m, d0 + d1);
    assert(level_spec(m, ds) =~= seq![h01, d2]);
    lemma_combine_two(m, h01, d2);
}

} // verus!
