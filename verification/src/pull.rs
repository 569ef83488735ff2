//! The pull pipeline's admission step: every fetched blob — the manifest
//! itself, the configuration and each layer — is verified against the
//! digest its descriptor declares and stored, and only then is an
//! artifact committed.
//!
//! Fetching is transport and happens in the unverified driver; it hands
//! the fetched bytes here.  A digest mismatch anywhere aborts the pull
//! with no artifact and no tag side effect; blobs admitted before the
//! failure stay in the store, which is safe because each was admitted
//! only after its own digest check.

use vstd::prelude::*;
use crate::digest::{clone_bytes, Descriptor, DescriptorView};
use crate::hexfmt::{hex_of, to_hex};
use crate::repo::{spec_commit, ArtifactView, MetaEntry, Repo, RepoView};
use crate::sha::sha256_of;
use crate::RepoError;

verus! {

/// One fetched blob: the descriptor it was fetched under, and its bytes.
pub struct BlobInput {
    pub desc: Descriptor,
    pub data: Vec<u8>,
}

/// Model of a fetched blob.
#[verifier::ext_equal]
pub ghost struct BlobView {
    pub desc: DescriptorView,
    pub data: Seq<u8>,
}

impl View for BlobInput {
    type V = BlobView;

    open spec fn view(&self) -> BlobView {
        BlobView { desc: self.desc@, data: self.data@ }
    }
}

/// Whether a fetched blob can be admitted into a repository state: its
/// bytes hash to its declared digest, and either it is already stored or
/// the integrity mode does not stand in the way of a new object.
pub open spec fn blob_admissible(v: RepoView, b: BlobView) -> bool {
    &&& sha256_of(b.data) == b.desc.digest
    &&& (v.objects.contains_key(b.desc.digest) || !v.integrity_required || v.sealing_available)
}

/// The admission of a blob sequence from the `i`-th on: each blob goes
/// through the `spec_put` transition in order, and the first refusal —
/// `DigestMismatch` or `SealError` — decides the error.
pub open spec fn admit_seq_spec(v: RepoView, blobs: Seq<BlobView>, i: int) -> Result<
    RepoView,
    RepoError,
>
    decreases blobs.len() - i,
{
    if i < 0 || i >= blobs.len() {
        Ok(v)
    } else {
        let step = crate::repo::spec_put(v, blobs[i].data, blobs[i].desc.digest);
        match step.1 {
            Err(e) => Err(e),
            Ok(_) => admit_seq_spec(step.0, blobs, i + 1),
        }
    }
}

/// The metadata record a pull commits: the reference it resolved and the
/// manifest digest, as lower-case hex.
pub open spec fn pull_metadata(reference: Seq<char>, manifest_digest: Seq<u8>) -> Seq<
    (Seq<char>, Seq<char>),
> {
    seq![
        ("reference"@, reference),
        ("manifest-digest"@, hex_of(manifest_digest).map_values(|b: u8| b as char)),
    ]
}

impl Repo {
    fn admit_blob(&mut self, blob: &BlobInput) -> (r: Result<(), RepoError>)
        requires
            old(self).wf(),
            blob.desc.wf(),
        ensures
            final(self).wf(),
            final(self)@.integrity_required == old(self)@.integrity_required,
            final(self)@.sealing_available == old(self)@.sealing_available,
            final(self)@.tags == old(self)@.tags,
            final(self)@.artifacts == old(self)@.artifacts,
            forall|d: Seq<u8>|
                #![trigger old(self)@.objects.contains_key(d)]
                old(self)@.objects.contains_key(d) ==> final(self)@.objects.contains_key(d)
                    && final(self)@.objects[d] == old(self)@.objects[d],
            old(self)@.integrity_required && !old(self)@.sealing_available ==> final(self)@.objects
                == old(self)@.objects,
            r is Ok <==> blob_admissible(old(self)@, blob@),
            r is Ok ==> final(self)@.objects.contains_key(blob.desc.digest.bytes@),
            r is Err ==> final(self)@ == old(self)@,
            r matches Err(e) ==> (e == RepoError::DigestMismatch <==> sha256_of(blob.data@)
                != blob.desc.digest.bytes@) && (e == RepoError::DigestMismatch || e
                == RepoError::SealError),
            r is Ok ==> crate::repo::spec_put(old(self)@, blob@.data, blob@.desc.digest).1 is Ok
                && final(self)@ == crate::repo::spec_put(old(self)@, blob@.data, blob@.desc.digest).0,
            r matches Err(e) ==> crate::repo::spec_put(old(self)@, blob@.data, blob@.desc.digest).1
                == Err::<(), RepoError>(e),
    {
        let data = clone_bytes(blob.data.as_slice());
        match self.put_object(data, &blob.desc.digest, blob.desc.media) {
            Ok(_) => Ok(()),
            Err(e) => Err(e),
        }
    }

    /// Admits a whole fetched image — manifest, configuration and layers,
    /// in that order — and commits an artifact rooted at the manifest's
    /// descriptor, with the reference and the manifest digest recorded as
    /// metadata.
    ///
    /// Succeeds exactly when every blob hashes to its declared digest and
    /// the integrity mode admits whatever is not yet stored.  On any
    /// failure no artifact is committed and the tag namespace is
    /// untouched; already-admitted blobs remain stored for retries.
    pub fn pull_import(
        &mut self,
        reference: &str,
        manifest: &BlobInput,
        config: &BlobInput,
        layers: &Vec<BlobInput>,
    ) -> (r: Result<u64, RepoError>)
        requires
            old(self).wf(),
            manifest.desc.wf(),
            config.desc.wf(),
            forall|i: int| 0 <= i < layers@.len() ==> (#[trigger] layers@[i]).desc.wf(),
        ensures
            final(self).wf(),
            final(self)@.integrity_required == old(self)@.integrity_required,
            final(self)@.sealing_available == old(self)@.sealing_available,
            final(self)@.tags == old(self)@.tags,
            r is Ok <==> blob_admissible(old(self)@, manifest@) && blob_admissible(
                old(self)@,
                config@,
            ) && (forall|i: int|
                0 <= i < layers@.len() ==> blob_admissible(old(self)@, #[trigger] layers@[i]@)),
            r matches Ok(id) ==> id == old(self)@.artifacts.len() && final(self)@.artifacts
                == old(self)@.artifacts.push(
                ArtifactView {
                    root: manifest.desc@,
                    metadata: pull_metadata(reference@, manifest.desc.digest.bytes@),
                },
            ) && final(self)@.objects.contains_key(manifest.desc.digest.bytes@)
                && final(self)@.objects.contains_key(config.desc.digest.bytes@) && (forall|i: int|
                0 <= i < layers@.len() ==> final(self)@.objects.contains_key(
                    (#[trigger] layers@[i]@).desc.digest,
                )),
            r is Err ==> final(self)@.artifacts == old(self)@.artifacts,
            r matches Err(e) ==> e == RepoError::DigestMismatch || e == RepoError::SealError,
            ({
                let blobs = seq![manifest@, config@] + layers@.map_values(|b: BlobInput| b@);
                &&& (admit_seq_spec(old(self)@, blobs, 0) matches Err(e) ==> r matches Err(e2)
                    && e2 == e)
                &&& (admit_seq_spec(old(self)@, blobs, 0) matches Ok(v1) ==> r is Ok
                    && final(self)@ == spec_commit(
                    v1,
                    manifest.desc@,
                    pull_metadata(reference@, manifest.desc.digest.bytes@),
                ))
            }),
    {
        let ghost blobs = seq![manifest@, config@] + layers@.map_values(|b: BlobInput| b@);
        proof {
            assert(blobs.len() == 2 + layers@.len());
            assert(blobs[0] == manifest@);
            assert(blobs[1] == config@);
        }
        match self.admit_blob(manifest) {
            Ok(_) => {
                proof {
                    assert(admit_seq_spec(old(self)@, blobs, 0) == admit_seq_spec(
                        self@,
                        blobs,
                        1,
                    ));
                }
            },
            Err(e) => {
                proof {
                    assert(admit_seq_spec(old(self)@, blobs, 0) == Err::<RepoView, RepoError>(e));
                }
                return Err(e);
            },
        }
        let ghost v_after_manifest = self@;
        match self.admit_blob(config) {
            Ok(_) => {
                proof {
                    assert(blob_admissible(old(self)@, config@));
                    assert(admit_seq_spec(v_after_manifest, blobs, 1) == admit_seq_spec(
                        self@,
                        blobs,
                        2,
                    ));
                }
            },
            Err(e) => {
                proof {
                    if blob_admissible(old(self)@, config@) {
                        assert(blob_admissible(self@, config@));
                    }
                    assert(admit_seq_spec(v_after_manifest, blobs, 1) == Err::<
                        RepoView,
                        RepoError,
                    >(e));
                }
                return Err(e);
            },
        }
        let mut i: usize = 0;
        while i < layers.len()
            invariant
                self.wf(),
                manifest.desc.wf(),
                config.desc.wf(),
                forall|j: int| 0 <= j < layers@.len() ==> (#[trigger] layers@[j]).desc.wf(),
                i <= layers@.len(),
                self@.integrity_required == old(self)@.integrity_required,
                self@.sealing_available == old(self)@.sealing_available,
                self@.tags == old(self)@.tags,
                self@.artifacts == old(self)@.artifacts,
                forall|d: Seq<u8>|
                    old(self)@.objects.contains_key(d) ==> self@.objects.contains_key(d),
                old(self)@.integrity_required && !old(self)@.sealing_available ==> self@.objects
                    == old(self)@.objects,
                self@.objects.contains_key(manifest.desc.digest.bytes@),
                self@.objects.contains_key(config.desc.digest.bytes@),
                blob_admissible(old(self)@, manifest@),
                blob_admissible(old(self)@, config@),
                forall|j: int|
                    0 <= j < i ==> blob_admissible(old(self)@, #[trigger] layers@[j]@) && self@
                        .objects.contains_key(layers@[j]@.desc.digest),
                blobs == seq![manifest@, config@] + layers@.map_values(|b: BlobInput| b@),
                admit_seq_spec(old(self)@, blobs, 0) == admit_seq_spec(self@, blobs, 2 + i),
            decreases layers@.len() - i,
        {
            let ghost v_pre = self@;
            proof {
                assert(blobs[2 + i as int] == layers@.map_values(|b: BlobInput| b@)[i as int]);
                assert(blobs[2 + i as int] == layers@[i as int]@);
            }
            match self.admit_blob(&layers[i]) {
                Ok(_) => {
                    proof {
                        assert(admit_seq_spec(v_pre, blobs, 2 + i) == admit_seq_spec(
                            self@,
                            blobs,
                            2 + i + 1,
                        ));
                    }
                },
                Err(e) => {
                    proof {
                        assert(!blob_admissible(v_pre, layers@[i as int]@));
                        if blob_admissible(old(self)@, layers@[i as int]@) {
                            assert(blob_admissible(v_pre, layers@[i as int]@));
                        }
                        assert(admit_seq_spec(v_pre, blobs, 2 + i) == Err::<RepoView, RepoError>(
                            e,
                        ));
                    }
                    return Err(e);
                },
            }
            proof {
                assert(blob_admissible(v_pre, layers@[i as int]@));
                if old(self)@.integrity_required && !old(self)@.sealing_available {
                    assert(v_pre.objects == old(self)@.objects);
                }
                assert(blob_admissible(old(self)@, layers@[i as int]@));
                assert forall|j: int| 0 <= j < i + 1 implies blob_admissible(
                    old(self)@,
                    #[trigger] layers@[j]@,
                ) && self@.objects.contains_key(layers@[j]@.desc.digest) by {
                    if j < i {
                        assert(blob_admissible(old(self)@, layers@[j]@));
                        assert(v_pre.objects.contains_key(layers@[j]@.desc.digest));
                    } else {
                        assert(self@.objects.contains_key(layers@[i as int].desc.digest.bytes@));
                    }
                }
            }
            i = i + 1;
        }
        let hex = to_hex(manifest.desc.digest.bytes.as_slice());
        let mut metadata: Vec<MetaEntry> = Vec::new();
        metadata.push(MetaEntry { key: "reference".to_owned(), value: reference.to_owned() });
        metadata.push(MetaEntry { key: "manifest-digest".to_owned(), value: hex });
        proof {
            assert(metadata@.map_values(|e: MetaEntry| e@) =~= pull_metadata(
                reference@,
                manifest.desc.digest.bytes@,
            ));
        }
        let ghost v_done = self@;
        proof {
            assert(admit_seq_spec(v_done, blobs, 2 + layers@.len() as int) == Ok::<
                RepoView,
                RepoError,
            >(v_done));
        }
        let root = manifest.desc.dup();
        proof {
            assert(root@ =~= manifest.desc@);
        }
        let id = self.commit_artifact(root, metadata);
        proof {
            assert(self@.artifacts =~= old(self)@.artifacts.push(
                ArtifactView {
                    root: manifest.desc@,
                    metadata: pull_metadata(reference@, manifest.desc.digest.bytes@),
                },
            ));
            assert(self@ == spec_commit(
                v_done,
                manifest.desc@,
                pull_metadata(reference@, manifest.desc.digest.bytes@),
            ));
        }
        Ok(id)
    }
}

} // verus!
