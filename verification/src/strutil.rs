//! Character-level string comparisons used by the tag namespace.

use vstd::prelude::*;
use vstd::string::StrSliceExecFns;

verus! {

/// Whether `p` is a prefix of `s`.
pub open spec fn is_prefix(p: Seq<char>, s: Seq<char>) -> bool {
    p.len() <= s.len() && s.subrange(0, p.len() as int) == p
}

/// Compares two strings by their characters.
pub fn str_eq(a: &str, b: &str) -> (r: bool)
    ensures
        r == (a@ == b@),
{
    let an = a.unicode_len();
    let bn = b.unicode_len();
    if an != bn {
        proof {
            assert(a@ != b@) by {
                if a@ == b@ {
                    assert(a@.len() == b@.len());
                }
            }
        }
        return false;
    }
    let mut i: usize = 0;
    while i < an
        invariant
            an == a@.len(),
            bn == b@.len(),
            an == bn,
            i <= an,
            forall|j: int| 0 <= j < i ==> a@[j] == b@[j],
        decreases an - i,
    {
        if a.get_char(i) != b.get_char(i) {
            return false;
        }
        i = i + 1;
    }
    proof {
        assert(a@ =~= b@);
    }
    true
}

/// Whether `p` is a prefix of `s`, by characters.
pub fn str_is_prefix(p: &str, s: &str) -> (r: bool)
    ensures
        r == is_prefix(p@, s@),
{
    let pn = p.unicode_len();
    let sn = s.unicode_len();
    if pn > sn {
        return false;
    }
    let mut i: usize = 0;
    while i < pn
        invariant
            pn == p@.len(),
            sn == s@.len(),
            pn <= sn,
            i <= pn,
            forall|j: int| 0 <= j < i ==> s@[j] == p@[j],
        decreases pn - i,
    {
        if p.get_char(i) != s.get_char(i) {
            proof {
                assert(s@.subrange(0, p@.len() as int)[i as int] == s@[i as int]);
            }
            return false;
        }
        i = i + 1;
    }
    proof {
        assert(s@.subrange(0, p@.len() as int) =~= p@);
    }
    true
}

} // verus!
