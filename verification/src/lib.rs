//! A local, content-addressed repository of container-image artifacts.
//!
//! The repository stores immutable objects keyed by the SHA-256 digest of
//! their content, keeps a mutable tag namespace over committed artifacts,
//! and enforces an integrity-sealing mode fixed at creation time.  The pull
//! pipeline admits blobs only after their bytes have been verified against
//! the digest their descriptor declares; the unpack pipeline reconstructs a
//! layered tar filesystem into one deduplicated tree with overlay-style
//! whiteout and opaque-directory semantics.

use vstd::prelude::*;

pub mod digest;
pub mod hexfmt;
pub mod laws;
pub mod pull;
pub mod repo;
pub mod sha;
pub mod strutil;
pub mod tarfmt;
pub mod unpack;
pub mod verify;

verus! {

/// Errors surfaced by the repository core.
///
/// Transport and reference-resolution failures happen in the unverified
/// driver around this library and never reach these variants.
#[derive(Clone, Copy, Debug, PartialEq, Eq, Structural)]
pub enum RepoError {
    /// Bytes did not hash to the digest their descriptor declared.
    DigestMismatch,
    /// The storage layer could not apply the required integrity seal.
    SealError,
    /// A queried tag, object or artifact is absent.
    NotFound,
    /// A layer blob is not well-formed tar (or failed to decompress).
    LayerFormat,
}

} // verus!
