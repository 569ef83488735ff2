//! The SHA-256 boundary: the one place where the library calls the outside
//! hashing implementation.
//!
//! What SHA-256 computes is not written out here; the digest of a byte
//! string is only given a name, `sha256_of`, and every contract in the
//! library speaks of that name.  The incremental hasher of the `sha2` crate
//! is carried as an opaque value whose state is described by the bytes fed
//! into it so far.

use vstd::prelude::*;

verus! {

/// The SHA-256 digest of a byte string, as 32 bytes.  The value is a
/// function of the input alone; it is named, not defined.
pub uninterp spec fn sha256_of(bytes: Seq<u8>) -> Seq<u8>;

#[verifier::external_type_specification]
#[verifier::external_body]
pub struct ExSha256(sha2::Sha256);

/// The bytes fed so far into an incremental SHA-256 hasher.
pub uninterp spec fn hasher_fed(h: sha2::Sha256) -> Seq<u8>;

/// Relies on `sha2::Sha256::new` (`digest::Digest::new`): a fresh hasher
/// over no input.
#[verifier::external_body]
pub fn hasher_new() -> (h: sha2::Sha256)
    ensures
        hasher_fed(h) == Seq::<u8>::empty(),
{
    <sha2::Sha256 as sha2::Digest>::new()
}

/// Relies on `sha2::Sha256::update` (`digest::Digest::update`): feeds more
/// input bytes; hashing may be done incrementally.
#[verifier::external_body]
pub fn hasher_update(h: &mut sha2::Sha256, chunk: &[u8])
    ensures
        hasher_fed(*final(h)) == hasher_fed(*old(h)) + chunk@,
{
    <sha2::Sha256 as sha2::Digest>::update(h, chunk)
}

/// Relies on `sha2::Sha256::finalize` (`digest::Digest::finalize`): the
/// 32-byte SHA-256 digest of all bytes fed into the hasher.
#[verifier::external_body]
pub fn hasher_finalize(h: sha2::Sha256) -> (r: Vec<u8>)
    ensures
        r@ == sha256_of(hasher_fed(h)),
        r@.len() == 32,
{
    let out = <sha2::Sha256 as sha2::Digest>::finalize(h);
    out.as_slice().to_vec()
}

/// The SHA-256 digest of a byte string, computed in one pass.
pub fn sha256(bytes: &[u8]) -> (r: Vec<u8>)
    ensures
        r@ == sha256_of(bytes@),
        r@.len() == 32,
{
    let mut h = hasher_new();
    hasher_update(&mut h, bytes);
    proof {
        assert(Seq::<u8>::empty() + bytes@ =~= bytes@);
    }
    hasher_finalize(h)
}

} // verus!
