//! Lower-case hexadecimal rendering of byte strings, used to print digests
//! and to parse digest strings handed in by the surrounding driver.

use vstd::prelude::*;

verus! {

/// The ASCII code of the lower-case hex digit for a value below 16.
pub open spec fn hex_digit(v: u8) -> u8 {
    if v < 10 {
        (v + 48) as u8
    } else {
        (v + 87) as u8
    }
}

/// The lower-case hexadecimal rendering of a byte string as ASCII bytes,
/// two digits per input byte, high nibble first.
pub open spec fn hex_of(bytes: Seq<u8>) -> Seq<u8>
    decreases bytes.len(),
{
    if bytes.len() == 0 {
        Seq::empty()
    } else {
        hex_of(bytes.drop_last()) + seq![
            hex_digit(bytes.last() / 16),
            hex_digit(bytes.last() % 16),
        ]
    }
}

/// Whether an ASCII byte is a lower-case hexadecimal digit.
pub open spec fn is_hex_digit(b: u8) -> bool {
    (48 <= b && b <= 57) || (97 <= b && b <= 102)
}

/// The value of a lower-case hexadecimal digit byte.
pub open spec fn hex_val(b: u8) -> u8 {
    if 48 <= b && b <= 57 {
        (b - 48) as u8
    } else if 97 <= b && b <= 102 {
        (b - 87) as u8
    } else {
        0
    }
}

/// Every byte of a hexadecimal rendering is a lower-case hex digit
/// (in particular, plain ASCII).
pub proof fn lemma_hex_of_digits(bytes: Seq<u8>)
    ensures
        hex_of(bytes).len() == 2 * bytes.len(),
        forall|i: int| 0 <= i < hex_of(bytes).len() ==> is_hex_digit(#[trigger] hex_of(bytes)[i]),
    decreases bytes.len(),
{
    if bytes.len() > 0 {
        lemma_hex_of_digits(bytes.drop_last());
    }
}

fn hex_digit_exec(v: u8) -> (r: u8)
    requires
        v < 16,
    ensures
        r == hex_digit(v),
{
    if v < 10 {
        v + 48
    } else {
        v + 87
    }
}

/// Renders a byte string as lower-case hexadecimal ASCII bytes.
pub fn to_hex_bytes(bytes: &[u8]) -> (r: Vec<u8>)
    ensures
        r@ == hex_of(bytes@),
{
    let mut r: Vec<u8> = Vec::new();
    let mut i: usize = 0;
    while i < bytes.len()
        invariant
            i <= bytes@.len(),
            r@ == hex_of(bytes@.take(i as int)),
        decreases bytes@.len() - i,
    {
        let b = bytes[i];
        proof {
            assert(bytes@.take(i + 1).drop_last() =~= bytes@.take(i as int));
            assert(bytes@.take(i + 1).last() == b);
        }
        r.push(hex_digit_exec(b / 16));
        r.push(hex_digit_exec(b % 16));
        i = i + 1;
    }
    proof {
        assert(bytes@.take(bytes@.len() as int) =~= bytes@);
    }
    r
}

/// Parses a lower-case hexadecimal ASCII byte string back into bytes.
///
/// Succeeds exactly on inputs of even length made of lower-case hex
/// digits; the parsed bytes render back to the input.
pub fn from_hex(s: &[u8]) -> (r: Option<Vec<u8>>)
    ensures
        r is Some <==> s@.len() % 2 == 0 && (forall|i: int|
            0 <= i < s@.len() ==> is_hex_digit(#[trigger] s@[i])),
        r matches Some(v) ==> v@.len() == s@.len() / 2 && hex_of(v@) == s@,
{
    if s.len() % 2 != 0 {
        return None;
    }
    let mut v: Vec<u8> = Vec::new();
    let mut i: usize = 0;
    while i < s.len()
        invariant
            s@.len() % 2 == 0,
            i <= s@.len(),
            i % 2 == 0,
            v@.len() == i / 2,
            hex_of(v@) == s@.take(i as int),
            forall|j: int| 0 <= j < i ==> is_hex_digit(#[trigger] s@[j]),
        decreases s@.len() - i,
    {
        let hi = s[i];
        let lo = s[i + 1];
        let hi_ok = (48 <= hi && hi <= 57) || (97 <= hi && hi <= 102);
        let lo_ok = (48 <= lo && lo <= 57) || (97 <= lo && lo <= 102);
        if !(hi_ok && lo_ok) {
            return None;
        }
        let hv = if hi <= 57 { hi - 48 } else { hi - 87 };
        let lv = if lo <= 57 { lo - 48 } else { lo - 87 };
        let b = hv * 16 + lv;
        proof {
            assert(hv == hex_val(hi) && hv < 16);
            assert(lv == hex_val(lo) && lv < 16);
            assert(b / 16 == hv && b % 16 == lv) by (nonlinear_arith)
                requires
                    hv < 16,
                    lv < 16,
                    b == hv * 16 + lv,
            ;
            assert(v@.push(b).drop_last() =~= v@);
            assert(s@.take(i + 2) =~= s@.take(i as int) + seq![s@[i as int], s@[i + 1]]);
        }
        v.push(b);
        i = i + 2;
    }
    proof {
        assert(s@.take(s@.len() as int) =~= s@);
    }
    Some(v)
}

/// Relies on `String::from_utf8`: bytes below 128 decode as one ASCII
/// character per byte.
#[verifier::external_body]
pub fn ascii_to_string(v: Vec<u8>) -> (r: String)
    requires
        forall|i: int| 0 <= i < v@.len() ==> v@[i] < 128,
    ensures
        r@ == v@.map_values(|b: u8| b as char),
{
    match String::from_utf8(v) {
        Ok(s) => s,
        Err(_) => String::new(),
    }
}

/// Renders a byte string as a lower-case hexadecimal `String`.
pub fn to_hex(bytes: &[u8]) -> (r: String)
    ensures
        r@ == hex_of(bytes@).map_values(|b: u8| b as char),
{
    let hx = to_hex_bytes(bytes);
    proof {
        lemma_hex_of_digits(bytes@);
    }
    ascii_to_string(hx)
}

} // verus!
