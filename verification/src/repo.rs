//! The repository: a content-addressed object store, a tag namespace and
//! an artifact record, with an integrity mode fixed at creation.
//!
//! The store is modelled by [`RepoView`]: a map from digest to stored
//! object, a map from tag name to artifact id, and the sequence of
//! committed artifacts.  Every mutating operation is specified as a pure
//! transition on that model (`spec_put`, `spec_tag`, `spec_commit`), and
//! the executable methods are proved to follow those transitions exactly.
//! The laws module derives the deduplication, admission, retag and
//! sealing properties from the same transitions.
//!
//! Persistence of this state (directories, atomic renames, fs-verity
//! ioctls) is I/O and lives outside the library; an embedder that keeps
//! a repository on disk rebuilds the in-memory state by feeding what it
//! reads back through these methods, so the admission discipline — no
//! object is recorded unless its bytes hash to its claimed digest — is
//! enforced here either way.

use vstd::prelude::*;
use crate::digest::{bytes_eq, clone_bytes, Descriptor, Digest, MediaType};
use crate::sha::{sha256, sha256_of};
use crate::strutil::{is_prefix, str_eq, str_is_prefix};
use crate::RepoError;

verus! {

/// One key/value entry of an artifact's metadata record.
#[derive(Debug)]
pub struct MetaEntry {
    pub key: String,
    pub value: String,
}

impl View for MetaEntry {
    type V = (Seq<char>, Seq<char>);

    open spec fn view(&self) -> (Seq<char>, Seq<char>) {
        (self.key@, self.value@)
    }
}

impl MetaEntry {
    /// An independent copy.
    pub fn dup(&self) -> (e: MetaEntry)
        ensures
            e@ == self@,
    {
        MetaEntry { key: self.key.clone(), value: self.value.clone() }
    }
}

/// Copies a metadata record.
pub fn clone_metadata(m: &Vec<MetaEntry>) -> (r: Vec<MetaEntry>)
    ensures
        r@.map_values(|e: MetaEntry| e@) == m@.map_values(|e: MetaEntry| e@),
{
    let mut r: Vec<MetaEntry> = Vec::new();
    let mut i: usize = 0;
    while i < m.len()
        invariant
            i <= m@.len(),
            r@.len() == i,
            forall|j: int| 0 <= j < i ==> (#[trigger] r@[j])@ == m@[j]@,
        decreases m@.len() - i,
    {
        r.push(m[i].dup());
        i = i + 1;
    }
    proof {
        assert(r@.map_values(|e: MetaEntry| e@) =~= m@.map_values(|e: MetaEntry| e@));
    }
    r
}

/// One stored object: the digest it is keyed by, its bytes, and whether
/// the storage layer's integrity seal was applied to it.
#[derive(Debug)]
pub struct StoredObject {
    pub digest: Vec<u8>,
    pub data: Vec<u8>,
    pub sealed: bool,
}

/// Model of one stored object.
#[verifier::ext_equal]
pub ghost struct ObjView {
    pub data: Seq<u8>,
    pub sealed: bool,
}

impl View for StoredObject {
    type V = ObjView;

    open spec fn view(&self) -> ObjView {
        ObjView { data: self.data@, sealed: self.sealed }
    }
}

/// One tag: a name bound to a committed artifact.
#[derive(Debug)]
pub struct TagEntry {
    pub name: String,
    pub artifact: u64,
}

/// One committed artifact: a root descriptor plus its metadata record.
#[derive(Debug)]
pub struct Artifact {
    pub root: Descriptor,
    pub metadata: Vec<MetaEntry>,
}

/// Model of one committed artifact.
#[verifier::ext_equal]
pub ghost struct ArtifactView {
    pub root: crate::digest::DescriptorView,
    pub metadata: Seq<(Seq<char>, Seq<char>)>,
}

impl View for Artifact {
    type V = ArtifactView;

    open spec fn view(&self) -> ArtifactView {
        ArtifactView { root: self.root@, metadata: self.metadata@.map_values(|e: MetaEntry| e@) }
    }
}

/// The repository model: what the on-disk layout denotes.
#[verifier::ext_equal]
pub ghost struct RepoView {
    /// Whether every stored object must carry a valid integrity seal.
    pub integrity_required: bool,
    /// Whether the storage layer is able to apply seals.
    pub sealing_available: bool,
    /// Content-addressed objects, keyed by digest value.
    pub objects: Map<Seq<u8>, ObjView>,
    /// The tag namespace.
    pub tags: Map<Seq<char>, u64>,
    /// Committed artifacts, by id.
    pub artifacts: Seq<ArtifactView>,
}

/// The object map denoted by a stored-object sequence.
pub open spec fn objects_map_of(objs: Seq<StoredObject>) -> Map<Seq<u8>, ObjView>
    decreases objs.len(),
{
    if objs.len() == 0 {
        Map::empty()
    } else {
        objects_map_of(objs.drop_last()).insert(objs.last().digest@, objs.last()@)
    }
}

/// The tag map denoted by a tag-entry sequence.
pub open spec fn tags_map_of(tags: Seq<TagEntry>) -> Map<Seq<char>, u64>
    decreases tags.len(),
{
    if tags.len() == 0 {
        Map::empty()
    } else {
        tags_map_of(tags.drop_last()).insert(tags.last().name@, tags.last().artifact)
    }
}

/// The repository-wide invariant, at the model level: every stored
/// object's bytes hash to the digest it is keyed by; under required
/// integrity every stored object is sealed; no tag dangles.
pub open spec fn inv(v: RepoView) -> bool {
    &&& forall|d: Seq<u8>|
        v.objects.contains_key(d) ==> sha256_of((#[trigger] v.objects[d]).data) == d
    &&& v.integrity_required ==> forall|d: Seq<u8>|
        v.objects.contains_key(d) ==> (#[trigger] v.objects[d]).sealed
    &&& forall|n: Seq<char>|
        v.tags.contains_key(n) ==> (#[trigger] v.tags[n]) < v.artifacts.len()
}

/// The transition of `put_object`: admission of one blob.
///
/// Admission is refused (`DigestMismatch`) when the bytes do not hash to
/// the claimed digest; a blob already present is deduplicated and the
/// store is untouched; a new blob under required integrity is admitted
/// only if the storage layer can seal it (`SealError` otherwise).
pub open spec fn spec_put(v: RepoView, data: Seq<u8>, expected: Seq<u8>) -> (RepoView, Result<
    (),
    RepoError,
>) {
    if sha256_of(data) != expected {
        (v, Err(RepoError::DigestMismatch))
    } else if v.objects.contains_key(expected) {
        (v, Ok(()))
    } else if v.integrity_required && !v.sealing_available {
        (v, Err(RepoError::SealError))
    } else {
        (
            RepoView {
                objects: v.objects.insert(
                    expected,
                    ObjView { data, sealed: v.sealing_available },
                ),
                ..v
            },
            Ok(()),
        )
    }
}

/// The meaning of `get_object`: the stored bytes at a digest, if present.
pub open spec fn spec_get(v: RepoView, digest: Seq<u8>) -> Result<Seq<u8>, RepoError> {
    if v.objects.contains_key(digest) {
        Ok(v.objects[digest].data)
    } else {
        Err(RepoError::NotFound)
    }
}

/// The transition of `commit_artifact`: pure append, no tag side effect.
pub open spec fn spec_commit(
    v: RepoView,
    root: crate::digest::DescriptorView,
    metadata: Seq<(Seq<char>, Seq<char>)>,
) -> RepoView {
    RepoView { artifacts: v.artifacts.push(ArtifactView { root, metadata }), ..v }
}

/// The transition of `tag`: one atomic create-or-replace binding of a
/// name, refused if the artifact id is not committed.
pub open spec fn spec_tag(v: RepoView, name: Seq<char>, artifact: u64) -> (RepoView, Result<
    (),
    RepoError,
>) {
    if artifact < v.artifacts.len() {
        (RepoView { tags: v.tags.insert(name, artifact), ..v }, Ok(()))
    } else {
        (v, Err(RepoError::NotFound))
    }
}

/// Decodes a repository's stored integrity-mode flag: seals are demanded
/// exactly when the flag reads `verity=required`.
pub fn parse_verity_flag(flag: &str) -> (b: bool)
    ensures
        b == (flag@ == "verity=required"@),
{
    str_eq(flag, "verity=required")
}

/// Whether a tag name passes an optional prefix filter.
pub open spec fn prefix_ok(prefix: Option<&str>, name: Seq<char>) -> bool {
    match prefix {
        Some(p) => is_prefix(p@, name),
        None => true,
    }
}

/// A digest occurs in the object map exactly when some entry carries it.
pub proof fn lemma_objects_map_contains(objs: Seq<StoredObject>, d: Seq<u8>)
    ensures
        objects_map_of(objs).contains_key(d) <==> exists|i: int|
            0 <= i < objs.len() && (#[trigger] objs[i]).digest@ == d,
    decreases objs.len(),
{
    if objs.len() > 0 {
        lemma_objects_map_contains(objs.drop_last(), d);
        if objs.last().digest@ == d {
            assert(objs[objs.len() - 1].digest@ == d);
        } else {
            if objects_map_of(objs).contains_key(d) {
                let i = choose|i: int|
                    0 <= i < objs.drop_last().len() && (#[trigger] objs.drop_last()[i]).digest@
                        == d;
                assert(objs[i].digest@ == d);
            }
            if exists|i: int| 0 <= i < objs.len() && (#[trigger] objs[i]).digest@ == d {
                let i = choose|i: int| 0 <= i < objs.len() && (#[trigger] objs[i]).digest@ == d;
                assert(i < objs.len() - 1);
                assert(objs.drop_last()[i].digest@ == d);
            }
        }
    }
}

/// With distinct digests, each entry is what the object map holds at its
/// digest.
pub proof fn lemma_objects_map_index(objs: Seq<StoredObject>, i: int)
    requires
        0 <= i < objs.len(),
        forall|j: int, k: int|
            0 <= j < k < objs.len() ==> (#[trigger] objs[j]).digest@ != (
            #[trigger] objs[k]).digest@,
    ensures
        objects_map_of(objs).contains_key(objs[i].digest@),
        objects_map_of(objs)[objs[i].digest@] == objs[i]@,
    decreases objs.len(),
{
    if i == objs.len() - 1 {
        assert(objs.last() == objs[i]);
    } else {
        assert(forall|j: int, k: int|
            0 <= j < k < objs.drop_last().len() ==> (#[trigger] objs.drop_last()[j]).digest@ != (
            #[trigger] objs.drop_last()[k]).digest@);
        lemma_objects_map_index(objs.drop_last(), i);
        assert(objs.drop_last()[i] == objs[i]);
        assert(objs[i].digest@ != objs.last().digest@);
    }
}

/// A name occurs in the tag map exactly when some entry carries it.
pub proof fn lemma_tags_map_contains(tags: Seq<TagEntry>, n: Seq<char>)
    ensures
        tags_map_of(tags).contains_key(n) <==> exists|i: int|
            0 <= i < tags.len() && (#[trigger] tags[i]).name@ == n,
    decreases tags.len(),
{
    if tags.len() > 0 {
        lemma_tags_map_contains(tags.drop_last(), n);
        if tags.last().name@ == n {
            assert(tags[tags.len() - 1].name@ == n);
        } else {
            if tags_map_of(tags).contains_key(n) {
                let i = choose|i: int|
                    0 <= i < tags.drop_last().len() && (#[trigger] tags.drop_last()[i]).name@ == n;
                assert(tags[i].name@ == n);
            }
            if exists|i: int| 0 <= i < tags.len() && (#[trigger] tags[i]).name@ == n {
                let i = choose|i: int| 0 <= i < tags.len() && (#[trigger] tags[i]).name@ == n;
                assert(i < tags.len() - 1);
                assert(tags.drop_last()[i].name@ == n);
            }
        }
    }
}

/// With distinct names, each entry is what the tag map holds at its name.
pub proof fn lemma_tags_map_index(tags: Seq<TagEntry>, i: int)
    requires
        0 <= i < tags.len(),
        forall|j: int, k: int|
            0 <= j < k < tags.len() ==> (#[trigger] tags[j]).name@ != (#[trigger] tags[k]).name@,
    ensures
        tags_map_of(tags).contains_key(tags[i].name@),
        tags_map_of(tags)[tags[i].name@] == tags[i].artifact,
    decreases tags.len(),
{
    if i == tags.len() - 1 {
        assert(tags.last() == tags[i]);
    } else {
        assert(forall|j: int, k: int|
            0 <= j < k < tags.drop_last().len() ==> (#[trigger] tags.drop_last()[j]).name@ != (
            #[trigger] tags.drop_last()[k]).name@);
        lemma_tags_map_index(tags.drop_last(), i);
        assert(tags.drop_last()[i] == tags[i]);
        assert(tags[i].name@ != tags.last().name@);
    }
}

/// Replacing an entry in place, keeping its name, is one map insertion.
pub proof fn lemma_tags_map_update(tags: Seq<TagEntry>, i: int, e: TagEntry)
    requires
        0 <= i < tags.len(),
        forall|j: int, k: int|
            0 <= j < k < tags.len() ==> (#[trigger] tags[j]).name@ != (#[trigger] tags[k]).name@,
        e.name@ == tags[i].name@,
    ensures
        tags_map_of(tags.update(i, e)) =~= tags_map_of(tags).insert(e.name@, e.artifact),
    decreases tags.len(),
{
    let upd = tags.update(i, e);
    if i == tags.len() - 1 {
        assert(upd.drop_last() =~= tags.drop_last());
        assert(upd.last() == e);
    } else {
        assert(upd.drop_last() =~= tags.drop_last().update(i, e));
        assert(forall|j: int, k: int|
            0 <= j < k < tags.drop_last().len() ==> (#[trigger] tags.drop_last()[j]).name@ != (
            #[trigger] tags.drop_last()[k]).name@);
        assert(tags.drop_last()[i] == tags[i]);
        lemma_tags_map_update(tags.drop_last(), i, e);
        assert(upd.last() == tags.last());
        assert(e.name@ != tags.last().name@);
    }
}

/// The repository handle.
pub struct Repo {
    integrity_required: bool,
    sealing_available: bool,
    objects: Vec<StoredObject>,
    tags: Vec<TagEntry>,
    artifacts: Vec<Artifact>,
}

impl View for Repo {
    type V = RepoView;

    closed spec fn view(&self) -> RepoView {
        RepoView {
            integrity_required: self.integrity_required,
            sealing_available: self.sealing_available,
            objects: objects_map_of(self.objects@),
            tags: tags_map_of(self.tags@),
            artifacts: self.artifacts@.map_values(|a: Artifact| a@),
        }
    }
}

impl Repo {
    /// Well-formed: object digests are 32-byte SHA-256 values of their
    /// data, distinct across entries; under required integrity every
    /// object is sealed; tag names are distinct and bindings point at
    /// committed artifacts.
    pub closed spec fn wf(&self) -> bool {
        &&& forall|i: int|
            0 <= i < self.objects@.len() ==> {
                let o = #[trigger] self.objects@[i];
                o.digest@.len() == 32 && o.digest@ == sha256_of(o.data@) && (
                self.integrity_required ==> o.sealed)
            }
        &&& forall|j: int, k: int|
            0 <= j < k < self.objects@.len() ==> (#[trigger] self.objects@[j]).digest@ != (
            #[trigger] self.objects@[k]).digest@
        &&& forall|j: int, k: int|
            0 <= j < k < self.tags@.len() ==> (#[trigger] self.tags@[j]).name@ != (
            #[trigger] self.tags@[k]).name@
        &&& forall|i: int|
            0 <= i < self.tags@.len() ==> (#[trigger] self.tags@[i]).artifact
                < self.artifacts@.len()
    }

    /// A well-formed repository satisfies the model-level invariant.
    pub proof fn lemma_inv(&self)
        requires
            self.wf(),
        ensures
            inv(self@),
    {
        assert forall|d: Seq<u8>| self@.objects.contains_key(d) implies sha256_of(
            (#[trigger] self@.objects[d]).data,
        ) == d && (self.integrity_required ==> self@.objects[d].sealed) by {
            lemma_objects_map_contains(self.objects@, d);
            let i = choose|i: int|
                0 <= i < self.objects@.len() && (#[trigger] self.objects@[i]).digest@ == d;
            lemma_objects_map_index(self.objects@, i);
        }
        assert forall|n: Seq<char>| self@.tags.contains_key(n) implies (#[trigger] self@.tags[n])
            < self@.artifacts.len() by {
            lemma_tags_map_contains(self.tags@, n);
            let i = choose|i: int|
                0 <= i < self.tags@.len() && (#[trigger] self.tags@[i]).name@ == n;
            lemma_tags_map_index(self.tags@, i);
        }
        assert(self@.integrity_required == self.integrity_required);
    }

    /// Creates an empty repository with its integrity mode fixed for its
    /// lifetime, and with the storage layer's sealing ability as the
    /// surrounding driver reports it.
    pub fn init(integrity_required: bool, sealing_available: bool) -> (r: Repo)
        ensures
            r.wf(),
            r@ == (RepoView {
                integrity_required,
                sealing_available,
                objects: Map::<Seq<u8>, ObjView>::empty(),
                tags: Map::<Seq<char>, u64>::empty(),
                artifacts: Seq::<ArtifactView>::empty(),
            }),
    {
        let r = Repo {
            integrity_required,
            sealing_available,
            objects: Vec::new(),
            tags: Vec::new(),
            artifacts: Vec::new(),
        };
        proof {
            assert(r@ =~= (RepoView {
                integrity_required,
                sealing_available,
                objects: Map::<Seq<u8>, ObjView>::empty(),
                tags: Map::<Seq<char>, u64>::empty(),
                artifacts: Seq::<ArtifactView>::empty(),
            }));
        }
        r
    }

    /// The repository's integrity mode.
    pub fn is_integrity_required(&self) -> (b: bool)
        ensures
            b == self@.integrity_required,
    {
        self.integrity_required
    }

    /// Whether the storage layer can apply integrity seals.
    pub fn is_sealing_available(&self) -> (b: bool)
        ensures
            b == self@.sealing_available,
    {
        self.sealing_available
    }

    /// How many committed artifacts there are.
    pub fn artifact_count(&self) -> (n: u64)
        ensures
            n == self@.artifacts.len(),
    {
        proof {
            assert(self@.artifacts.len() == self.artifacts@.len());
        }
        self.artifacts.len() as u64
    }

    fn find_object(&self, digest: &[u8]) -> (r: Option<usize>)
        ensures
            r matches Some(i) ==> i < self.objects@.len() && self.objects@[i as int].digest@
                == digest@,
            r is None ==> forall|i: int|
                0 <= i < self.objects@.len() ==> (#[trigger] self.objects@[i]).digest@ != digest@,
            r is Some <==> self@.objects.contains_key(digest@),
    {
        proof {
            lemma_objects_map_contains(self.objects@, digest@);
        }
        let mut i: usize = 0;
        while i < self.objects.len()
            invariant
                i <= self.objects@.len(),
                forall|j: int| 0 <= j < i ==> (#[trigger] self.objects@[j]).digest@ != digest@,
            decreases self.objects@.len() - i,
        {
            if bytes_eq(self.objects[i].digest.as_slice(), digest) {
                proof {
                    lemma_objects_map_contains(self.objects@, digest@);
                    assert(exists|j: int|
                        0 <= j < self.objects@.len() && (#[trigger] self.objects@[j]).digest@
                            == digest@) by {
                        assert(0 <= i < self.objects@.len() && self.objects@[i as int].digest@
                            == digest@);
                    }
                }
                return Some(i);
            }
            i = i + 1;
        }
        None
    }

    /// Whether an object with this digest value is stored.
    pub fn has_object(&self, digest: &Digest) -> (r: bool)
        ensures
            r == self@.objects.contains_key(digest.bytes@),
    {
        self.find_object(digest.bytes.as_slice()).is_some()
    }

    /// Admits one blob: hashes `data`, refuses it unless it hashes to
    /// `expected`, stores it at its content address — a no-op if already
    /// present — sealing per the integrity mode, and returns the
    /// descriptor of the stored object.
    ///
    /// No object ever becomes visible under a digest its bytes do not
    /// match, and a refused blob leaves the repository exactly as it was.
    pub fn put_object(&mut self, data: Vec<u8>, expected: &Digest, media: MediaType) -> (r: Result<
        Descriptor,
        RepoError,
    >)
        requires
            old(self).wf(),
            expected.wf(),
        ensures
            final(self).wf(),
            final(self)@ == spec_put(old(self)@, data@, expected.bytes@).0,
            r is Ok <==> spec_put(old(self)@, data@, expected.bytes@).1 is Ok,
            r matches Err(e) ==> spec_put(old(self)@, data@, expected.bytes@).1 == Err::<
                (),
                RepoError,
            >(e),
            r matches Ok(desc) ==> desc.wf() && desc.digest.algo == expected.algo
                && desc.digest.bytes@ == expected.bytes@ && desc.size == data@.len()
                && desc.media == media,
    {
        let got = sha256(data.as_slice());
        if !bytes_eq(got.as_slice(), expected.bytes.as_slice()) {
            return Err(RepoError::DigestMismatch);
        }
        let size = data.len() as u64;
        if self.find_object(expected.bytes.as_slice()).is_some() {
            return Ok(Descriptor { digest: expected.dup(), size, media });
        }
        if self.integrity_required && !self.sealing_available {
            return Err(RepoError::SealError);
        }
        let sealed = self.sealing_available;
        let entry = StoredObject { digest: clone_bytes(expected.bytes.as_slice()), data, sealed };
        self.objects.push(entry);
        proof {
            assert(self.objects@.drop_last() =~= old(self).objects@);
            assert(self@ =~= spec_put(old(self)@, data@, expected.bytes@).0);
        }
        Ok(Descriptor { digest: expected.dup(), size, media })
    }

    /// Reads back the bytes stored for a descriptor's digest, absent
    /// tags and artifacts untouched.  Under required integrity only
    /// sealed objects are ever stored, so what is returned was sealed.
    pub fn get_object(&self, desc: &Descriptor) -> (r: Result<Vec<u8>, RepoError>)
        requires
            self.wf(),
        ensures
            r is Ok <==> spec_get(self@, desc.digest.bytes@) is Ok,
            r matches Ok(data) ==> spec_get(self@, desc.digest.bytes@) == Ok::<
                Seq<u8>,
                RepoError,
            >(data@),
            r matches Err(e) ==> spec_get(self@, desc.digest.bytes@) == Err::<
                Seq<u8>,
                RepoError,
            >(e),
            r matches Ok(data) ==> sha256_of(data@) == desc.digest.bytes@,
    {
        match self.find_object(desc.digest.bytes.as_slice()) {
            Some(i) => {
                proof {
                    lemma_objects_map_index(self.objects@, i as int);
                }
                Ok(clone_bytes(self.objects[i].data.as_slice()))
            },
            None => Err(RepoError::NotFound),
        }
    }

    /// Records an artifact: pure append, no tag side effect.  Returns the
    /// artifact's id.
    pub fn commit_artifact(&mut self, root: Descriptor, metadata: Vec<MetaEntry>) -> (id: u64)
        requires
            old(self).wf(),
        ensures
            final(self).wf(),
            final(self)@ == spec_commit(
                old(self)@,
                root@,
                metadata@.map_values(|e: MetaEntry| e@),
            ),
            id == old(self)@.artifacts.len(),
    {
        let id = self.artifacts.len() as u64;
        self.artifacts.push(Artifact { root, metadata });
        proof {
            assert(self@.artifacts =~= old(self)@.artifacts.push(
                Artifact { root, metadata }@,
            ));
            assert(self@ =~= spec_commit(
                old(self)@,
                root@,
                metadata@.map_values(|e: MetaEntry| e@),
            ));
        }
        id
    }

    fn find_tag(&self, name: &str) -> (r: Option<usize>)
        ensures
            r matches Some(i) ==> i < self.tags@.len() && self.tags@[i as int].name@ == name@,
            r is None ==> forall|i: int|
                0 <= i < self.tags@.len() ==> (#[trigger] self.tags@[i]).name@ != name@,
            r is Some <==> self@.tags.contains_key(name@),
    {
        proof {
            lemma_tags_map_contains(self.tags@, name@);
        }
        let mut i: usize = 0;
        while i < self.tags.len()
            invariant
                i <= self.tags@.len(),
                forall|j: int| 0 <= j < i ==> (#[trigger] self.tags@[j]).name@ != name@,
            decreases self.tags@.len() - i,
        {
            if str_eq(self.tags[i].name.as_str(), name) {
                proof {
                    lemma_tags_map_contains(self.tags@, name@);
                    assert(exists|j: int|
                        0 <= j < self.tags@.len() && (#[trigger] self.tags@[j]).name@ == name@)
                        by {
                        assert(0 <= i < self.tags@.len() && self.tags@[i as int].name@ == name@);
                    }
                }
                return Some(i);
            }
            i = i + 1;
        }
        None
    }

    /// Binds `name` to a committed artifact, atomically creating or
    /// replacing the binding: one single-step update of the tag map, so
    /// no reader ever observes a missing or dangling tag mid-write.
    /// Refused (`NotFound`) for an id that was never committed.
    pub fn tag(&mut self, name: &str, artifact: u64) -> (r: Result<(), RepoError>)
        requires
            old(self).wf(),
        ensures
            final(self).wf(),
            final(self)@ == spec_tag(old(self)@, name@, artifact).0,
            r == spec_tag(old(self)@, name@, artifact).1,
    {
        if artifact >= self.artifacts.len() as u64 {
            proof {
                assert(self@.artifacts.len() == self.artifacts@.len());
            }
            return Err(RepoError::NotFound);
        }
        match self.find_tag(name) {
            Some(i) => {
                let e = TagEntry { name: name.to_owned(), artifact };
                proof {
                    lemma_tags_map_update(self.tags@, i as int, e);
                }
                self.tags[i] = e;
                proof {
                    assert(self@ =~= spec_tag(old(self)@, name@, artifact).0);
                }
            },
            None => {
                self.tags.push(TagEntry { name: name.to_owned(), artifact });
                proof {
                    assert(self.tags@.drop_last() =~= old(self).tags@);
                    assert(self@ =~= spec_tag(old(self)@, name@, artifact).0);
                }
            },
        }
        Ok(())
    }

    /// The artifact id a tag is bound to, if the tag exists.
    pub fn lookup_tag(&self, name: &str) -> (r: Option<u64>)
        requires
            self.wf(),
        ensures
            r matches Some(id) ==> self@.tags.contains_key(name@) && id == self@.tags[name@],
            r is None <==> !self@.tags.contains_key(name@),
    {
        match self.find_tag(name) {
            Some(i) => {
                proof {
                    lemma_tags_map_index(self.tags@, i as int);
                }
                Some(self.tags[i].artifact)
            },
            None => None,
        }
    }

    /// The tag names passing an optional prefix filter: each returned
    /// name is a distinct bound tag, and every bound tag passing the
    /// filter is returned.  The order is a fixed function of the
    /// repository state.
    #[verifier::rlimit(60)]
    pub fn list_tags(&self, prefix: Option<&str>) -> (r: Vec<String>)
        requires
            self.wf(),
        ensures
            forall|j: int|
                0 <= j < r@.len() ==> self@.tags.contains_key((#[trigger] r@[j])@) && prefix_ok(
                    prefix,
                    r@[j]@,
                ),
            forall|n: Seq<char>|
                self@.tags.contains_key(n) && prefix_ok(prefix, n) ==> exists|j: int|
                    0 <= j < r@.len() && (#[trigger] r@[j])@ == n,
            forall|j: int, k: int| 0 <= j < k < r@.len() ==> (#[trigger] r@[j])@ != (
            #[trigger] r@[k])@,
    {
        let mut r: Vec<String> = Vec::new();
        let mut i: usize = 0;
        while i < self.tags.len()
            invariant
                self.wf(),
                i <= self.tags@.len(),
                forall|j: int|
                    #![trigger r@[j]]
                    0 <= j < r@.len() ==> exists|t: int|
                        0 <= t < i && (#[trigger] self.tags@[t]).name@ == r@[j]@,
                forall|j: int|
                    0 <= j < r@.len() ==> prefix_ok(prefix, (#[trigger] r@[j])@),
                forall|t: int|
                    0 <= t < i && prefix_ok(prefix, (#[trigger] self.tags@[t]).name@) ==> exists|
                        j: int,
                    | 0 <= j < r@.len() && (#[trigger] r@[j])@ == self.tags@[t].name@,
                forall|j: int, k: int| 0 <= j < k < r@.len() ==> (#[trigger] r@[j])@ != (
                #[trigger] r@[k])@,
            decreases self.tags@.len() - i,
        {
            let ghost r_prev = r@;
            let keep = match prefix {
                Some(p) => str_is_prefix(p, self.tags[i].name.as_str()),
                None => true,
            };
            if keep {
                r.push(self.tags[i].name.clone());
                proof {
                    assert(r@[r@.len() - 1]@ == self.tags@[i as int].name@);
                    assert forall|j: int| #![trigger r@[j]] 0 <= j < r@.len() implies exists|t: int|
                        0 <= t < i + 1 && (#[trigger] self.tags@[t]).name@ == r@[j]@ by {
                        if j < r_prev.len() {
                            assert(r@[j] == r_prev[j]);
                            let t = choose|t: int|
                                0 <= t < i && (#[trigger] self.tags@[t]).name@ == r_prev[j]@;
                            assert(self.tags@[t].name@ == r@[j]@);
                        } else {
                            assert(self.tags@[i as int].name@ == r@[j]@);
                        }
                    }
                    assert forall|t: int|
                        0 <= t < i + 1 && prefix_ok(
                            prefix,
                            (#[trigger] self.tags@[t]).name@,
                        ) implies exists|j: int|
                        0 <= j < r@.len() && (#[trigger] r@[j])@ == self.tags@[t].name@ by {
                        if t < i {
                            let j = choose|j: int|
                                0 <= j < r_prev.len() && (#[trigger] r_prev[j])@
                                    == self.tags@[t].name@;
                            assert(r@[j]@ == self.tags@[t].name@);
                        } else {
                            assert(r@[r@.len() - 1]@ == self.tags@[t].name@);
                        }
                    }
                    assert forall|j: int| 0 <= j < r_prev.len() implies (#[trigger] r@[j])@ != r@[r@.len()
                        - 1]@ by {
                        let t = choose|t: int|
                            0 <= t < i && (#[trigger] self.tags@[t]).name@ == r_prev[j]@;
                        assert(self.tags@[t].name@ != self.tags@[i as int].name@);
                    }
                }
            } else {
                proof {
                    assert(!prefix_ok(prefix, self.tags@[i as int].name@));
                }
            }
            i = i + 1;
        }
        proof {
            assert forall|j: int| 0 <= j < r@.len() implies self@.tags.contains_key(
                (#[trigger] r@[j])@,
            ) by {
                let t = choose|t: int|
                    0 <= t < self.tags@.len() && (#[trigger] self.tags@[t]).name@ == r@[j]@;
                lemma_tags_map_contains(self.tags@, r@[j]@);
            }
            assert forall|n: Seq<char>|
                self@.tags.contains_key(n) && prefix_ok(prefix, n) implies exists|j: int|
                0 <= j < r@.len() && (#[trigger] r@[j])@ == n by {
                lemma_tags_map_contains(self.tags@, n);
                let t = choose|t: int|
                    0 <= t < self.tags@.len() && (#[trigger] self.tags@[t]).name@ == n;
                assert(prefix_ok(prefix, self.tags@[t].name@));
            }
        }
        r
    }

    /// The metadata record of the artifact a tag is bound to, absent if
    /// the tag is not bound.  Read-only and side-effect-free.
    pub fn read_artifact_metadata(&self, name: &str) -> (r: Option<Vec<MetaEntry>>)
        requires
            self.wf(),
        ensures
            r is Some <==> self@.tags.contains_key(name@),
            r matches Some(m) ==> self@.tags[name@] < self@.artifacts.len()
                && m@.map_values(|e: MetaEntry| e@) == self@.artifacts[self@.tags[name@] as int].metadata,
    {
        match self.find_tag(name) {
            Some(i) => {
                proof {
                    lemma_tags_map_index(self.tags@, i as int);
                    assert(self@.artifacts.len() == self.artifacts@.len());
                    assert((#[trigger] self.tags@[i as int]).artifact < self.artifacts@.len());
                }
                let id = self.tags[i].artifact;
                let n = self.artifacts.len();
                proof {
                    assert(id == self@.tags[name@]);
                    assert((id as int) < n as int);
                }
                let m = clone_metadata(&self.artifacts[id as usize].metadata);
                proof {
                    assert(self@.artifacts[id as int] == self.artifacts@[id as int]@);
                }
                Some(m)
            },
            None => None,
        }
    }

    /// The root descriptor of a committed artifact.
    pub fn artifact_root(&self, id: u64) -> (r: Option<Descriptor>)
        ensures
            r is Some <==> id < self@.artifacts.len(),
            r matches Some(d) ==> d@ == self@.artifacts[id as int].root,
    {
        proof {
            assert(self@.artifacts.len() == self.artifacts@.len());
        }
        if id < self.artifacts.len() as u64 {
            let d = self.artifacts[id as usize].root.dup();
            proof {
                assert(self@.artifacts[id as int] == self.artifacts@[id as int]@);
                assert(d@ =~= self@.artifacts[id as int].root);
            }
            Some(d)
        } else {
            None
        }
    }
}

} // verus!
