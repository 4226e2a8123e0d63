//! The pluggable digest providers, reached through trusted calls, and
//! the byte-limited content digest built on them.

use vstd::prelude::*;

use crate::digest::{Digest, HashMethod};
use crate::errors::RushError;

verus! {

/// The MD5 digest of a byte string, as the digest provider computes it.
pub uninterp spec fn md5_of(data: Seq<u8>) -> Seq<u8>;

/// The BLAKE3 digest of a byte string, as the digest provider computes it.
pub uninterp spec fn blake3_of(data: Seq<u8>) -> Seq<u8>;

/// The digest of a byte string under the chosen method.
pub open spec fn digest_of(m: HashMethod, data: Seq<u8>) -> Seq<u8> {
    match m {
        HashMethod::Md5 => md5_of(data),
        HashMethod::Blake3 => blake3_of(data),
    }
}

#[verifier::external_type_specification]
#[verifier::external_body]
pub struct ExErrorStack(openssl::error::ErrorStack);

/// Relies on openssl::hash::hash with MessageDigest::md5: the digest is a
/// function of the input bytes alone and is 16 bytes wide.
#[verifier::external_body]
fn md5_bytes(data: &[u8]) -> (r: Result<Vec<u8>, openssl::error::ErrorStack>)
    ensures
        r matches Ok(v) ==> v@ == md5_of(data@) && v@.len() == 16,
{
    openssl::hash::hash(openssl::hash::MessageDigest::md5(), data).map(|d| d.to_vec())
}

/// Relies on blake3::hash: the digest is a function of the input bytes
/// alone, is 32 bytes wide, and the call cannot fail.
#[verifier::external_body]
fn blake3_bytes(data: &[u8]) -> (r: Vec<u8>)
    ensures
        r@ == blake3_of(data@),
        r@.len() == 32,
{
    blake3::hash(data).as_bytes().to_vec()
}

/// Digest of a byte string under the method. Only the MD5 provider can
/// fail; BLAKE3 always succeeds.
pub fn hash_bytes(m: &HashMethod, data: &[u8]) -> (r: Result<Digest, RushError>)
    ensures
        r matches Ok(d) ==> d@ == digest_of(*m, data@) && d.of_method(*m),
        *m is Blake3 ==> r is Ok,
        r matches Err(e) ==> e == RushError::Hash,
{
    match m {
        HashMethod::Md5 => {
            match md5_bytes(data) {
                Ok(v) => Ok(Digest::D16(v)),
                Err(_) => Err(RushError::Hash),
            }
        },
        HashMethod::Blake3 => Ok(Digest::D32(blake3_bytes(data))),
    }
}

/// The part of a file's content that a build hashes: everything when the
/// limit is zero or at least the length, else the first `limit` bytes.
pub open spec fn limited(data: Seq<u8>, limit: u64) -> Seq<u8> {
    if limit == 0 || limit >= data.len() {
        data
    } else {
        data.take(limit as int)
    }
}

/// Digest of a file's content under the byte limit: the digest of the
/// whole content when the limit is zero or no smaller than the content,
/// else of the first `limit` bytes.
pub fn hash_content(m: &HashMethod, data: &[u8], bytes_to_hash: u64) -> (r: Result<
    Digest,
    RushError,
>)
    ensures
        r matches Ok(d) ==> d@ == digest_of(*m, limited(data@, bytes_to_hash)) && d.of_method(*m),
        *m is Blake3 ==> r is Ok,
        r matches Err(e) ==> e == RushError::Hash,
{
    if bytes_to_hash != 0 && bytes_to_hash < data.len() as u64 {
        let prefix = vstd::slice::slice_subrange(data, 0, bytes_to_hash as usize);
        hash_bytes(m, prefix)
    } else {
        hash_bytes(m, data)
    }
}

} // verus!
