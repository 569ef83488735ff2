//! Digests, descriptors and small byte utilities.

use vstd::prelude::*;
use crate::sha::sha256_of;

verus! {

/// Digest algorithm tag.  New algorithms are additive variants; call sites
/// match on the tag instead of inspecting runtime types.
#[derive(Clone, Copy, Debug, PartialEq, Eq, Structural)]
pub enum DigestAlgo {
    Sha256,
}

/// A content digest: algorithm tag plus hash value.
#[derive(Debug)]
pub struct Digest {
    pub algo: DigestAlgo,
    pub bytes: Vec<u8>,
}

/// Media kind carried by a descriptor.
#[derive(Clone, Copy, Debug, PartialEq, Eq, Structural)]
pub enum MediaType {
    /// An image manifest.
    Manifest,
    /// An image configuration blob.
    Config,
    /// An uncompressed tar layer.
    LayerTar,
    /// A gzip-compressed tar layer.
    LayerTarGzip,
    /// Anything else; stored and verified but not interpreted.
    Other,
}

/// A descriptor: a digest, the declared size and the media kind of the
/// object it references.
#[derive(Debug)]
pub struct Descriptor {
    pub digest: Digest,
    pub size: u64,
    pub media: MediaType,
}

/// Model of a descriptor: the digest value it claims, the declared size
/// and the media kind.
#[verifier::ext_equal]
pub ghost struct DescriptorView {
    pub digest: Seq<u8>,
    pub size: u64,
    pub media: MediaType,
}

impl View for Descriptor {
    type V = DescriptorView;

    open spec fn view(&self) -> DescriptorView {
        DescriptorView { digest: self.digest.bytes@, size: self.size, media: self.media }
    }
}

/// Compares two byte strings.
pub fn bytes_eq(a: &[u8], b: &[u8]) -> (r: bool)
    ensures
        r == (a@ == b@),
{
    if a.len() != b.len() {
        return false;
    }
    let mut i: usize = 0;
    while i < a.len()
        invariant
            a@.len() == b@.len(),
            i <= a@.len(),
            forall|j: int| 0 <= j < i ==> a@[j] == b@[j],
        decreases a@.len() - i,
    {
        if a[i] != b[i] {
            return false;
        }
        i = i + 1;
    }
    proof {
        assert(a@ =~= b@);
    }
    true
}

/// Copies a byte string into a fresh vector.
pub fn clone_bytes(v: &[u8]) -> (r: Vec<u8>)
    ensures
        r@ == v@,
{
    let mut r: Vec<u8> = Vec::new();
    let mut i: usize = 0;
    while i < v.len()
        invariant
            i <= v@.len(),
            r@ == v@.take(i as int),
        decreases v@.len() - i,
    {
        proof {
            assert(v@.take(i + 1) =~= v@.take(i as int).push(v@[i as int]));
        }
        r.push(v[i]);
        i = i + 1;
    }
    proof {
        assert(v@.take(v@.len() as int) =~= v@);
    }
    r
}

impl Digest {
    /// Well-formed: the hash value has the algorithm's output length.
    pub open spec fn wf(&self) -> bool {
        self.algo == DigestAlgo::Sha256 && self.bytes@.len() == 32
    }

    /// Whether `data` hashes to this digest.
    pub open spec fn spec_matches(&self, data: Seq<u8>) -> bool {
        self.bytes@ == sha256_of(data)
    }

    /// Wraps a 32-byte SHA-256 value.
    pub fn new_sha256(bytes: Vec<u8>) -> (d: Digest)
        requires
            bytes@.len() == 32,
        ensures
            d.wf(),
            d.algo == DigestAlgo::Sha256,
            d.bytes@ == bytes@,
    {
        Digest { algo: DigestAlgo::Sha256, bytes }
    }

    /// Digest equality: same algorithm and same hash value.
    pub fn same_as(&self, other: &Digest) -> (r: bool)
        ensures
            r == (self.algo == other.algo && self.bytes@ == other.bytes@),
    {
        self.algo == other.algo && bytes_eq(self.bytes.as_slice(), other.bytes.as_slice())
    }

    /// An independent copy.
    pub fn dup(&self) -> (d: Digest)
        ensures
            d.algo == self.algo,
            d.bytes@ == self.bytes@,
    {
        Digest { algo: self.algo, bytes: clone_bytes(self.bytes.as_slice()) }
    }
}

impl Descriptor {
    /// Well-formed: the digest is.
    pub open spec fn wf(&self) -> bool {
        self.digest.wf()
    }

    /// An independent copy.
    pub fn dup(&self) -> (d: Descriptor)
        ensures
            d.digest.algo == self.digest.algo,
            d.digest.bytes@ == self.digest.bytes@,
            d.size == self.size,
            d.media == self.media,
    {
        Descriptor { digest: self.digest.dup(), size: self.size, media: self.media }
    }
}

} // verus!
