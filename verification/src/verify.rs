//! The descriptor verifier: checks a byte stream against the digest its
//! descriptor declares.
//!
//! Verification is streaming — the caller feeds chunks as they arrive, in
//! constant memory — and success is signalled only after the whole stream
//! has been hashed: a matching prefix proves nothing about the rest, so
//! there is no partial-stream success.

use vstd::prelude::*;
use crate::RepoError;
use crate::digest::{bytes_eq, Digest};
use crate::sha::{hasher_fed, hasher_finalize, hasher_new, hasher_update, sha256_of};

verus! {

/// Incremental verification of one stream against one expected digest.
pub struct DigestVerifier {
    hasher: sha2::Sha256,
    expected: Digest,
}

impl DigestVerifier {
    /// The bytes consumed so far.
    pub closed spec fn fed(&self) -> Seq<u8> {
        hasher_fed(self.hasher)
    }

    /// The digest value the whole stream must hash to.
    pub closed spec fn expected_digest(&self) -> Seq<u8> {
        self.expected.bytes@
    }

    /// Well-formed: the expected digest is.
    pub closed spec fn wf(&self) -> bool {
        self.expected.wf()
    }

    /// Starts verifying a stream against `expected`.
    pub fn new(expected: &Digest) -> (v: DigestVerifier)
        requires
            expected.wf(),
        ensures
            v.wf(),
            v.fed() == Seq::<u8>::empty(),
            v.expected_digest() == expected.bytes@,
    {
        DigestVerifier { hasher: hasher_new(), expected: expected.dup() }
    }

    /// Consumes the next chunk of the stream.
    pub fn update(&mut self, chunk: &[u8])
        requires
            old(self).wf(),
        ensures
            final(self).wf(),
            final(self).fed() == old(self).fed() + chunk@,
            final(self).expected_digest() == old(self).expected_digest(),
    {
        hasher_update(&mut self.hasher, chunk)
    }

    /// Ends the stream.  Succeeds exactly when all bytes fed hash to the
    /// expected digest, returning that digest; a mismatch is
    /// `DigestMismatch` and nothing is handed out.
    pub fn finish(self) -> (r: Result<Digest, RepoError>)
        requires
            self.wf(),
        ensures
            r is Ok <==> sha256_of(self.fed()) == self.expected_digest(),
            r matches Ok(d) ==> d.wf() && d.bytes@ == self.expected_digest(),
            r matches Err(e) ==> e == RepoError::DigestMismatch,
    {
        let got = hasher_finalize(self.hasher);
        if bytes_eq(got.as_slice(), self.expected.bytes.as_slice()) {
            Ok(self.expected)
        } else {
            Err(RepoError::DigestMismatch)
        }
    }
}

} // verus!
