//! SHA-256 digests of file contents, through the `sha2` crate.
use crate::dupfind::grouping::FileDigest;
use sha2::{Digest, Sha256};
use vstd::prelude::*;

verus! {

/// How many bytes from the start of a file the partial digest covers.
pub const HEAD_BYTES: usize = 64 * 1024;

/// The SHA-256 digest of `data`, as `sha2::Sha256` computes it.
pub uninterp spec fn sha256(data: Seq<u8>) -> Seq<u8>;

/// Calls `sha2::Sha256::digest` (the `Digest` trait) on `data`. Trusted to return
/// the SHA-256 digest of exactly these bytes, which depends on them alone.
#[verifier::external_body]
fn sha256_digest(data: &[u8]) -> (r: FileDigest)
    ensures
        r@ == sha256(data@),
{
    Sha256::digest(data).into()
}

/// The number of leading bytes that the partial digest of `len` bytes covers.
pub open spec fn head_len(len: int) -> int {
    if len < HEAD_BYTES {
        len
    } else {
        HEAD_BYTES as int
    }
}

/// The digest of the first `HEAD_BYTES` bytes of `head` (of all of it, where it is shorter).
pub fn partial_hash(head: &[u8]) -> (r: FileDigest)
    ensures
        r@ == sha256(head@.take(head_len(head@.len() as int))),
{
    let n: usize = if head.len() < HEAD_BYTES {
        head.len()
    } else {
        HEAD_BYTES
    };
    let prefix = &head[0..n];
    assert(prefix@ =~= head@.take(head_len(head@.len() as int)));
    sha256_digest(prefix)
}

/// The digest of all of `contents`.
pub fn full_hash(contents: &[u8]) -> (r: FileDigest)
    ensures
        r@ == sha256(contents@),
{
    sha256_digest(contents)
}

/// For contents no longer than `HEAD_BYTES`, the partial digest is the full digest.
pub proof fn partial_is_full_for_short_contents(contents: Seq<u8>)
    requires
        contents.len() <= HEAD_BYTES,
    ensures
        sha256(contents.take(head_len(contents.len() as int))) == sha256(contents),
{
    assert(contents.take(head_len(contents.len() as int)) =~= contents);
}

} // verus!
