//! SHA-256 digests, as the `sha2` crate computes them.

use vstd::prelude::*;
use sha2::{Digest, Sha256};

verus! {

/// The SHA-256 digest of `data`, written as lower-case hexadecimal digits.
pub uninterp spec fn sha256_hex(data: Seq<u8>) -> Seq<char>;

/// Feeds `data` to `sha2::Sha256` and formats the digest in lower-case
/// hexadecimal. Trusted: the result is the one that `sha256_hex` names, a
/// function of the bytes alone.
#[verifier::external_body]
pub(crate) fn sha256_hex_of(data: &[u8]) -> (hex: String)
    ensures
        hex@ == sha256_hex(data@),
{
    let mut hasher = Sha256::new();
    hasher.update(data);
    format!("{:x}", hasher.finalize())
}

} // verus!
