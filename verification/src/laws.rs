//! Repository-wide properties, proved once over the model transitions
//! that the executable methods are specified by.

use vstd::prelude::*;
use crate::repo::{inv, spec_get, spec_put, spec_tag, RepoView};
use crate::sha::sha256_of;
use crate::RepoError;

verus! {

/// Deduplication: once content is admitted under a digest, admitting the
/// same content again succeeds, changes nothing, and the store keeps one
/// entry per digest — the second admission lands on the same storage
/// slot, and `put_object`'s contract makes both calls return the same
/// descriptor (digest and size are functions of the arguments alone).
pub proof fn lemma_put_dedup(v: RepoView, data: Seq<u8>, expected: Seq<u8>)
    requires
        spec_put(v, data, expected).1 is Ok,
    ensures
        ({
            let v1 = spec_put(v, data, expected).0;
            let (v2, r2) = spec_put(v1, data, expected);
            &&& v1.objects.contains_key(expected)
            &&& r2 is Ok
            &&& v2 == v1
        }),
{
}

/// Admission: a blob is either refused — a digest mismatch is refused as
/// `DigestMismatch`, and an absent digest stays absent — or admitted, and
/// then reading at its digest yields bytes that hash to that digest.  The
/// model invariant is preserved either way.
pub proof fn lemma_put_admission(v: RepoView, data: Seq<u8>, expected: Seq<u8>)
    requires
        inv(v),
    ensures
        ({
            let (v1, r) = spec_put(v, data, expected);
            &&& inv(v1)
            &&& (sha256_of(data) != expected <==> r == Err::<(), RepoError>(
                RepoError::DigestMismatch,
            ))
            &&& (r is Err ==> v1 == v)
            &&& (r is Err && !v.objects.contains_key(expected) ==> !v1.objects.contains_key(
                expected,
            ))
            &&& (r is Ok ==> v1.objects.contains_key(expected) && (spec_get(v1, expected) matches
                Ok(got) && sha256_of(got) == expected))
        }),
{
    let (v1, r) = spec_put(v, data, expected);
    if r is Ok && !v.objects.contains_key(expected) {
        assert forall|d: Seq<u8>| v1.objects.contains_key(d) implies sha256_of(
            (#[trigger] v1.objects[d]).data,
        ) == d by {
            if d != expected {
                assert(v.objects.contains_key(d));
            }
        }
        if v1.integrity_required {
            assert forall|d: Seq<u8>| v1.objects.contains_key(d) implies (
            #[trigger] v1.objects[d]).sealed by {
                if d != expected {
                    assert(v.objects.contains_key(d));
                }
            }
        }
    }
}

/// Retag: binding a name twice leaves exactly one final binding — the
/// later one — the name is never absent after the first bind, and no
/// other binding is disturbed.  Each bind is one single-step map update,
/// which is what makes interleaved writers safe: every observable state
/// carries a complete binding for the name.
pub proof fn lemma_retag_atomic(v: RepoView, name: Seq<char>, a: u64, b: u64)
    requires
        a < v.artifacts.len(),
        b < v.artifacts.len(),
    ensures
        ({
            let (v1, r1) = spec_tag(v, name, a);
            let (v2, r2) = spec_tag(v1, name, b);
            &&& r1 is Ok
            &&& r2 is Ok
            &&& v1.tags.contains_key(name) && v1.tags[name] == a
            &&& v2.tags.contains_key(name) && v2.tags[name] == b
            &&& forall|n: Seq<char>|
                n != name ==> ((#[trigger] v2.tags.contains_key(n)) == v.tags.contains_key(n) && (
                v2.tags.contains_key(n) ==> v2.tags[n] == v.tags[n]))
            &&& v2.tags.dom() == v.tags.dom().insert(name)
        }),
{
    let (v1, r1) = spec_tag(v, name, a);
    let (v2, r2) = spec_tag(v1, name, b);
    assert(v2.tags.dom() =~= v.tags.dom().insert(name));
}

/// Required integrity: when the repository demands seals and the storage
/// layer cannot apply one, a new object is refused with `SealError` and
/// nothing is admitted; and whatever `put_object` does, every stored
/// object remains sealed.
pub proof fn lemma_seal_required(v: RepoView, data: Seq<u8>, expected: Seq<u8>)
    requires
        inv(v),
        v.integrity_required,
    ensures
        ({
            let (v1, r) = spec_put(v, data, expected);
            &&& (!v.sealing_available && sha256_of(data) == expected && !v.objects.contains_key(
                expected,
            ) ==> r == Err::<(), RepoError>(RepoError::SealError) && v1 == v)
            &&& forall|d: Seq<u8>|
                v1.objects.contains_key(d) ==> (#[trigger] v1.objects[d]).sealed
        }),
{
    lemma_put_admission(v, data, expected);
}

} // verus!
