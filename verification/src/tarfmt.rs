//! The tar layer format: 512-byte header blocks, octal number fields,
//! NUL-terminated names with an optional split prefix, and entry payloads
//! padded to whole blocks.  Parsing is lenient where tar producers vary
//! (padding, terminators) and refuses truncated archives.

use vstd::prelude::*;
use crate::digest::clone_bytes;
use crate::RepoError;

verus! {

/// Whether a byte is an octal digit.
pub open spec fn octal_digit(b: u8) -> bool {
    48 <= b && b <= 55
}

/// The value of a string of octal digits, most significant first.
pub open spec fn octal_val(s: Seq<u8>) -> int
    decreases s.len(),
{
    if s.len() == 0 {
        0
    } else {
        octal_val(s.drop_last()) * 8 + (s.last() - 48)
    }
}

/// The leading run of octal digits of a byte string.
pub open spec fn digit_prefix(s: Seq<u8>) -> Seq<u8>
    decreases s.len(),
{
    if s.len() == 0 || !octal_digit(s[0]) {
        Seq::empty()
    } else {
        seq![s[0]] + digit_prefix(s.subrange(1, s.len() as int))
    }
}

/// The first maximal run of octal digits of a byte string: what a tar
/// number field holds, whatever padding and terminator surround it.
pub open spec fn octal_run(s: Seq<u8>) -> Seq<u8>
    decreases s.len(),
{
    if s.len() == 0 {
        Seq::empty()
    } else if octal_digit(s[0]) {
        digit_prefix(s)
    } else {
        octal_run(s.subrange(1, s.len() as int))
    }
}

/// The numeric value of a tar octal field.
pub open spec fn octal_field_val(s: Seq<u8>) -> int {
    octal_val(octal_run(s))
}

/// 8 to the power `n`.
pub open spec fn pow8(n: nat) -> int
    decreases n,
{
    if n == 0 {
        1
    } else {
        8 * pow8((n - 1) as nat)
    }
}

/// An octal-digit string's value is bounded by eight to its length.
pub proof fn lemma_octal_val_bound(s: Seq<u8>)
    requires
        forall|i: int| 0 <= i < s.len() ==> octal_digit(#[trigger] s[i]),
    ensures
        0 <= octal_val(s) < pow8(s.len()),
    decreases s.len(),
{
    if s.len() > 0 {
        assert(forall|i: int|
            0 <= i < s.drop_last().len() ==> octal_digit(#[trigger] s.drop_last()[i]));
        lemma_octal_val_bound(s.drop_last());
    }
}

/// `pow8` grows with its argument.
pub proof fn lemma_pow8_le(a: nat, b: nat)
    requires
        a <= b,
    ensures
        pow8(a) <= pow8(b),
        pow8(a) >= 1,
    decreases b,
{
    if a < b {
        lemma_pow8_le(a, (b - 1) as nat);
    } else if b > 0 {
        lemma_pow8_le((a - 1) as nat, (b - 1) as nat);
    }
}

proof fn lemma_octal_run_skip(s: Seq<u8>, a: int)
    requires
        0 <= a <= s.len(),
        forall|j: int| 0 <= j < a ==> !octal_digit(#[trigger] s[j]),
    ensures
        octal_run(s) == octal_run(s.subrange(a, s.len() as int)),
    decreases a,
{
    if a == 0 {
        assert(s.subrange(0, s.len() as int) =~= s);
    } else {
        let t = s.subrange(1, s.len() as int);
        assert(!octal_digit(s[0]));
        assert(octal_run(s) == octal_run(t));
        assert(forall|j: int| 0 <= j < a - 1 ==> !octal_digit(#[trigger] t[j]));
        lemma_octal_run_skip(t, a - 1);
        assert(t.subrange(a - 1, t.len() as int) =~= s.subrange(a, s.len() as int));
    }
}

proof fn lemma_digit_prefix_exact(s: Seq<u8>, k: int)
    requires
        0 <= k <= s.len(),
        forall|j: int| 0 <= j < k ==> octal_digit(#[trigger] s[j]),
        k == s.len() || !octal_digit(s[k]),
    ensures
        digit_prefix(s) == s.subrange(0, k),
    decreases s.len(),
{
    if s.len() == 0 || !octal_digit(s[0]) {
        assert(k == 0);
        assert(s.subrange(0, 0) =~= Seq::<u8>::empty());
    } else {
        let t = s.subrange(1, s.len() as int);
        assert(k >= 1);
        assert(forall|j: int| 0 <= j < k - 1 ==> octal_digit(#[trigger] t[j]));
        lemma_digit_prefix_exact(t, k - 1);
        assert(seq![s[0]] + t.subrange(0, k - 1) =~= s.subrange(0, k));
    }
}

/// Parses a tar octal number field: skips any non-digit padding, reads
/// the first digit run, and ignores whatever follows it.
pub fn parse_octal(s: &[u8]) -> (r: u64)
    requires
        s@.len() <= 20,
    ensures
        r == octal_field_val(s@),
{
    let n = s.len();
    let mut a: usize = 0;
    while a < n && !(48 <= s[a] && s[a] <= 55)
        invariant
            n == s@.len(),
            a <= n,
            forall|j: int| 0 <= j < a ==> !octal_digit(#[trigger] s@[j]),
        decreases n - a,
    {
        a = a + 1;
    }
    proof {
        lemma_octal_run_skip(s@, a as int);
    }
    let mut k: usize = a;
    while k < n && 48 <= s[k] && s[k] <= 55
        invariant
            n == s@.len(),
            a <= k <= n,
            forall|j: int| a <= j < k ==> octal_digit(#[trigger] s@[j]),
        decreases n - k,
    {
        k = k + 1;
    }
    let ghost tail = s@.subrange(a as int, n as int);
    proof {
        assert(forall|j: int| 0 <= j < k - a ==> octal_digit(#[trigger] tail[j]));
        if a < n {
            assert(octal_digit(tail[0]));
        }
        lemma_digit_prefix_exact(tail, k - a);
        assert(octal_run(s@) == tail.subrange(0, k - a));
        assert(tail.subrange(0, k - a) =~= s@.subrange(a as int, k as int));
    }
    let ghost run = s@.subrange(a as int, k as int);
    let mut v: u64 = 0;
    let mut i: usize = a;
    proof {
        assert(run.subrange(0, 0) =~= Seq::<u8>::empty());
    }
    while i < k
        invariant
            n == s@.len(),
            n <= 20,
            a <= i <= k <= n,
            run == s@.subrange(a as int, k as int),
            forall|j: int| a <= j < k ==> octal_digit(#[trigger] s@[j]),
            v == octal_val(run.subrange(0, i - a)),
            0 <= v < pow8((i - a) as nat),
        decreases k - i,
    {
        let d = s[i];
        proof {
            let part = run.subrange(0, i + 1 - a);
            assert(part.drop_last() =~= run.subrange(0, i - a));
            assert(part.last() == s@[i as int]);
            lemma_pow8_le((i + 1 - a) as nat, 20);
            reveal_with_fuel(pow8, 21);
            assert(pow8(20) == 0x1000000000000000);
        }
        v = v * 8 + ((d - 48) as u64);
        i = i + 1;
    }
    proof {
        assert(run.subrange(0, k - a) =~= run);
    }
    v
}

/// The NUL-terminated prefix of a name field.
pub open spec fn cstr_of(s: Seq<u8>) -> Seq<u8>
    decreases s.len(),
{
    if s.len() == 0 || s[0] == 0 {
        Seq::empty()
    } else {
        seq![s[0]] + cstr_of(s.subrange(1, s.len() as int))
    }
}

proof fn lemma_cstr_exact(s: Seq<u8>, k: int)
    requires
        0 <= k <= s.len(),
        forall|j: int| 0 <= j < k ==> (#[trigger] s[j]) != 0,
        k == s.len() || s[k] == 0,
    ensures
        cstr_of(s) == s.subrange(0, k),
    decreases s.len(),
{
    if s.len() == 0 || s[0] == 0 {
        assert(k == 0);
        assert(s.subrange(0, 0) =~= Seq::<u8>::empty());
    } else {
        let t = s.subrange(1, s.len() as int);
        assert(k >= 1);
        assert(forall|j: int| 0 <= j < k - 1 ==> (#[trigger] t[j]) != 0);
        lemma_cstr_exact(t, k - 1);
        assert(seq![s[0]] + t.subrange(0, k - 1) =~= s.subrange(0, k));
    }
}

/// Reads the NUL-terminated prefix of a name field.
pub fn read_cstr(s: &[u8]) -> (r: Vec<u8>)
    ensures
        r@ == cstr_of(s@),
{
    let n = s.len();
    let mut k: usize = 0;
    while k < n && s[k] != 0
        invariant
            n == s@.len(),
            k <= n,
            forall|j: int| 0 <= j < k ==> (#[trigger] s@[j]) != 0,
        decreases n - k,
    {
        k = k + 1;
    }
    proof {
        lemma_cstr_exact(s@, k as int);
    }
    let mut r: Vec<u8> = Vec::new();
    let mut i: usize = 0;
    while i < k
        invariant
            k <= s@.len(),
            i <= k,
            r@ == s@.subrange(0, i as int),
        decreases k - i,
    {
        proof {
            assert(s@.subrange(0, i + 1) =~= s@.subrange(0, i as int).push(s@[i as int]));
        }
        r.push(s[i]);
        i = i + 1;
    }
    r
}

/// Whether a whole block is zero: the archive's end marker.
pub open spec fn is_zero_block(s: Seq<u8>) -> bool {
    forall|i: int| 0 <= i < s.len() ==> (#[trigger] s[i]) == 0
}

/// One parsed tar header.
#[derive(Debug)]
pub struct TarHeader {
    pub name: Vec<u8>,
    pub mode: u64,
    pub size: u64,
    pub typeflag: u8,
    pub linkname: Vec<u8>,
    pub devmajor: u64,
    pub devminor: u64,
}

/// The full entry name a header block declares: the NUL-terminated name,
/// preceded by the NUL-terminated prefix field and a slash when the
/// prefix is in use.
pub open spec fn header_name(b: Seq<u8>) -> Seq<u8> {
    let nm = cstr_of(b.subrange(0, 100));
    let pfx = cstr_of(b.subrange(345, 500));
    if pfx.len() == 0 {
        nm
    } else {
        pfx + seq![47u8] + nm
    }
}

/// Parses one 512-byte header block; `None` is the zero end marker.
pub fn parse_header(block: &[u8]) -> (r: Option<TarHeader>)
    requires
        block@.len() == 512,
    ensures
        r is None <==> is_zero_block(block@),
        r matches Some(h) ==> h.name@ == header_name(block@) && h.mode == octal_field_val(
            block@.subrange(100, 108),
        ) && h.size == octal_field_val(block@.subrange(124, 136)) && h.typeflag == block@[156]
            && h.linkname@ == cstr_of(block@.subrange(157, 257)) && h.devmajor == octal_field_val(
            block@.subrange(329, 337),
        ) && h.devminor == octal_field_val(block@.subrange(337, 345)),
{
    let mut z: usize = 0;
    let mut all_zero = true;
    while z < 512
        invariant
            block@.len() == 512,
            z <= 512,
            all_zero ==> forall|j: int| 0 <= j < z ==> (#[trigger] block@[j]) == 0,
            !all_zero ==> !is_zero_block(block@),
        decreases 512 - z,
    {
        if block[z] != 0 {
            all_zero = false;
            proof {
                assert(block@[z as int] != 0);
            }
            z = 512;
        } else {
            z = z + 1;
        }
    }
    if all_zero {
        return None;
    }
    let name_field = slice_part(block, 0, 100);
    let prefix_field = slice_part(block, 345, 500);
    let nm = read_cstr(name_field);
    let pfx = read_cstr(prefix_field);
    let name = if pfx.len() > 0 {
        let mut full = pfx;
        full.push(47);
        proof {
            assert(full@ =~= cstr_of(block@.subrange(345, 500)) + seq![47u8] + nm@.subrange(
                0,
                0,
            ));
        }
        let mut i: usize = 0;
        while i < nm.len()
            invariant
                i <= nm@.len(),
                full@ == cstr_of(block@.subrange(345, 500)) + seq![47u8] + nm@.subrange(
                    0,
                    i as int,
                ),
            decreases nm@.len() - i,
        {
            proof {
                assert(nm@.subrange(0, i + 1) =~= nm@.subrange(0, i as int).push(nm@[i as int]));
                assert((cstr_of(block@.subrange(345, 500)) + seq![47u8] + nm@.subrange(0, i as int))
                    .push(nm@[i as int]) =~= cstr_of(block@.subrange(345, 500)) + seq![47u8]
                    + nm@.subrange(0, i + 1));
            }
            full.push(nm[i]);
            i = i + 1;
        }
        proof {
            assert(nm@.subrange(0, nm@.len() as int) =~= nm@);
        }
        full
    } else {
        proof {
            assert(cstr_of(block@.subrange(345, 500)).len() == 0);
        }
        nm
    };
    let mode = parse_octal(slice_part(block, 100, 108));
    let size = parse_octal(slice_part(block, 124, 136));
    let typeflag = block[156];
    let linkname = read_cstr(slice_part(block, 157, 257));
    let devmajor = parse_octal(slice_part(block, 329, 337));
    let devminor = parse_octal(slice_part(block, 337, 345));
    Some(TarHeader { name, mode, size, typeflag, linkname, devmajor, devminor })
}

/// A sub-slice of a byte slice.
pub fn slice_part(s: &[u8], from: usize, to: usize) -> (r: &[u8])
    requires
        from <= to <= s@.len(),
    ensures
        r@ == s@.subrange(from as int, to as int),
{
    &s[from..to]
}

/// Model of one parsed header.
#[verifier::ext_equal]
pub ghost struct HeaderView {
    pub name: Seq<u8>,
    pub mode: u64,
    pub size: u64,
    pub typeflag: u8,
    pub linkname: Seq<u8>,
    pub devmajor: u64,
    pub devminor: u64,
}

impl View for TarHeader {
    type V = HeaderView;

    open spec fn view(&self) -> HeaderView {
        HeaderView {
            name: self.name@,
            mode: self.mode,
            size: self.size,
            typeflag: self.typeflag,
            linkname: self.linkname@,
            devmajor: self.devmajor,
            devminor: self.devminor,
        }
    }
}

/// One entry read out of an archive: its header, its payload, and where
/// the next entry starts.
pub struct TarItem {
    pub header: TarHeader,
    pub data: Vec<u8>,
    pub next: usize,
}

/// Model of one entry: its header fields, its payload, and the offset of
/// the entry after it.
#[verifier::ext_equal]
pub ghost struct ItemView {
    pub header: HeaderView,
    pub data: Seq<u8>,
    pub next: int,
}

impl View for TarItem {
    type V = ItemView;

    open spec fn view(&self) -> ItemView {
        ItemView { header: self.header@, data: self.data@, next: self.next as int }
    }
}

/// The meaning of a 512-byte header block, given as model fields.
pub open spec fn header_view_of(block: Seq<u8>) -> HeaderView {
    HeaderView {
        name: header_name(block),
        mode: octal_field_val(block.subrange(100, 108)) as u64,
        size: octal_field_val(block.subrange(124, 136)) as u64,
        typeflag: block[156],
        linkname: cstr_of(block.subrange(157, 257)),
        devmajor: octal_field_val(block.subrange(329, 337)) as u64,
        devminor: octal_field_val(block.subrange(337, 345)) as u64,
    }
}

/// What reading at `offset` yields: the archive's end (`Ok(None)`, at
/// its exact end or at a zero end-marker block), one entry with its
/// payload and successor offset, or a format error — a header that does
/// not fit, an oversized size field, or a payload running past the end.
pub open spec fn spec_next(layer: Seq<u8>, offset: int) -> Result<Option<ItemView>, ()> {
    if offset == layer.len() {
        Ok(None)
    } else if offset < 0 || offset > layer.len() || layer.len() - offset < 512 {
        Err(())
    } else {
        let block = layer.subrange(offset, offset + 512);
        if is_zero_block(block) {
            Ok(None)
        } else {
            let size = octal_field_val(block.subrange(124, 136));
            if size < 0 || size > 0xffffffffffffffff - 511 {
                Err(())
            } else {
                let padded = if size % 512 == 0 {
                    size
                } else {
                    size + (512 - size % 512)
                };
                if padded > layer.len() - offset - 512 {
                    Err(())
                } else {
                    Ok(
                        Some(
                            ItemView {
                                header: header_view_of(block),
                                data: layer.subrange(offset + 512, offset + 512 + size),
                                next: offset + 512 + padded,
                            },
                        ),
                    )
                }
            }
        }
    }
}

/// Reads the entry starting at `offset`: exactly what `spec_next` says
/// of the bytes, with a format error surfaced as `LayerFormat`.
pub fn next_entry(layer: &[u8], offset: usize) -> (r: Result<Option<TarItem>, RepoError>)
    ensures
        r matches Ok(Some(item)) ==> spec_next(layer@, offset as int) == Ok::<
            Option<ItemView>,
            (),
        >(Some(item@)) && item.next > offset && item.next <= layer@.len(),
        r matches Ok(None) ==> spec_next(layer@, offset as int) == Ok::<Option<ItemView>, ()>(
            None,
        ),
        r matches Err(e) ==> e == RepoError::LayerFormat && spec_next(layer@, offset as int)
            is Err,
{
    if offset == layer.len() {
        return Ok(None);
    }
    if offset > layer.len() || layer.len() - offset < 512 {
        return Err(RepoError::LayerFormat);
    }
    let block = slice_part(layer, offset, offset + 512);
    let header = match parse_header(block) {
        None => {
            return Ok(None);
        },
        Some(h) => h,
    };
    proof {
        assert(block@.subrange(124, 136) =~= layer@.subrange(offset + 124, offset + 136));
        assert(block@.subrange(100, 108) =~= layer@.subrange(offset + 100, offset + 108));
        assert(block@.subrange(157, 257) =~= layer@.subrange(offset + 157, offset + 257));
    }
    let size = header.size;
    if size > u64::MAX - 511 {
        return Err(RepoError::LayerFormat);
    }
    let rem = size % 512;
    let padded = if rem == 0 {
        size
    } else {
        size + (512 - rem)
    };
    let avail = (layer.len() - offset - 512) as u64;
    if padded > avail {
        return Err(RepoError::LayerFormat);
    }
    let data_start = offset + 512;
    let data = clone_bytes(slice_part(layer, data_start, data_start + (size as usize)));
    let next = data_start + (padded as usize);
    let item = TarItem { header, data, next };
    proof {
        let b = layer@.subrange(offset as int, offset + 512);
        assert(item.header@ =~= header_view_of(b));
        assert(item.next as int == offset + 512 + (padded as int));
        assert(spec_next(layer@, offset as int) == Ok::<Option<ItemView>, ()>(Some(item@)));
    }
    Ok(Some(item))
}

} // verus!
