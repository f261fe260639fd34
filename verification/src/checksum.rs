//! Content checksums.
//!
//! A checksum is a fixed-size strong digest computed over the original,
//! uncompressed bytes of a record, so that verification on read is agnostic
//! to the codec choice.

use vstd::prelude::*;

use crate::error::Error;

verus! {

/// The digest of a byte string. The digest is a function of the bytes alone:
/// the same bytes always give the same digest, on every machine.
pub uninterp spec fn digest_of(data: Seq<u8>) -> Seq<u8>;

/// Computes the SHA-256 checksum of the provided data.
///
/// Relies on sha2's `Sha256::digest`: a 32-byte digest that depends on the
/// input bytes alone.
#[verifier::external_body]
pub fn compute_checksum(data: &[u8]) -> (r: [u8; 32])
    ensures
        r@ == digest_of(data@),
{
    let mut hasher = <sha2::Sha256 as sha2::Digest>::new();
    sha2::Digest::update(&mut hasher, data);
    sha2::Digest::finalize(hasher).into()
}

/// Compares two digests byte for byte.
fn digests_equal(a: &[u8; 32], b: &[u8; 32]) -> (r: bool)
    ensures
        r == (a@ == b@),
{
    let mut i: usize = 0;
    while i < 32
        invariant
            i <= 32,
            forall|j: int| 0 <= j < i ==> a@[j] == b@[j],
        decreases 32 - i,
    {
        if a[i] != b[i] {
            assert(a@ != b@);
            return false;
        }
        i += 1;
    }
    assert(a@ =~= b@);
    true
}

/// Verifies that `data` hashes to `expected`.
///
/// Succeeds exactly when the digest of `data` equals `expected`; a mismatch
/// is an integrity error.
pub fn verify_checksum(data: &[u8], expected: &[u8; 32]) -> (r: Result<(), Error>)
    ensures
        r is Ok <==> digest_of(data@) == expected@,
        r is Err ==> (r matches Err(e) && e == Error::Integrity),
{
    let actual = compute_checksum(data);
    if digests_equal(&actual, expected) {
        Ok(())
    } else {
        Err(Error::Integrity)
    }
}

} // verus!
