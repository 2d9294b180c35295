//! Directory assembly planning: which files of a directory listing make up
//! a package, and the 8-hex-digit lowercase file stem a texture id maps to.
//! The file reads and writes themselves are left to outside collaborators;
//! this module only decides.

use crate::pixel_format::TexError;
use vstd::prelude::*;

verus! {

/// The lowercase hex digit of a nibble.
pub open spec fn hex_digit(n: u32) -> u8 {
    if n < 10 {
        (0x30 + n) as u8
    } else {
        (0x57 + n) as u8
    }
}

/// The 8-hex-digit lowercase encoding of a texture id, most significant
/// nibble first.
pub open spec fn hex_id_spec(id: u32) -> Seq<u8> {
    seq![
        hex_digit((id >> 28) & 0xf),
        hex_digit((id >> 24) & 0xf),
        hex_digit((id >> 20) & 0xf),
        hex_digit((id >> 16) & 0xf),
        hex_digit((id >> 12) & 0xf),
        hex_digit((id >> 8) & 0xf),
        hex_digit((id >> 4) & 0xf),
        hex_digit(id & 0xf),
    ]
}

/// The file stem a texture id is written under: eight lowercase hex digits.
pub fn hex_id(id: u32) -> (r: Vec<u8>)
    ensures
        r@ == hex_id_spec(id),
{
    proof {
        assert((id >> 28) & 0xf < 16 && (id >> 24) & 0xf < 16 && (id >> 20) & 0xf < 16 && (id
            >> 16) & 0xf < 16 && (id >> 12) & 0xf < 16 && (id >> 8) & 0xf < 16 && (id >> 4) & 0xf
            < 16 && id & 0xf < 16) by (bit_vector);
    }
    let mut out: Vec<u8> = Vec::new();
    out.push(hex_digit_exec((id >> 28) & 0xf));
    out.push(hex_digit_exec((id >> 24) & 0xf));
    out.push(hex_digit_exec((id >> 20) & 0xf));
    out.push(hex_digit_exec((id >> 16) & 0xf));
    out.push(hex_digit_exec((id >> 12) & 0xf));
    out.push(hex_digit_exec((id >> 8) & 0xf));
    out.push(hex_digit_exec((id >> 4) & 0xf));
    out.push(hex_digit_exec(id & 0xf));
    proof {
        assert(out@ =~= hex_id_spec(id));
    }
    out
}

fn hex_digit_exec(n: u32) -> (r: u8)
    requires
        n < 16,
    ensures
        r == hex_digit(n),
{
    if n < 10 {
        (0x30 + n) as u8
    } else {
        (0x57 + n) as u8
    }
}

/// One entry of a directory listing, reduced to what assembly needs: the
/// file stem, the extension, and whether it is a subdirectory.
pub struct DirEntry {
    pub stem: Vec<u8>,
    pub ext: Vec<u8>,
    pub is_dir: bool,
}

/// The mathematical image of a `DirEntry`.
pub struct DirEntryView {
    pub stem: Seq<u8>,
    pub ext: Seq<u8>,
    pub is_dir: bool,
}

impl View for DirEntry {
    type V = DirEntryView;

    open spec fn view(&self) -> DirEntryView {
        DirEntryView { stem: self.stem@, ext: self.ext@, is_dir: self.is_dir }
    }
}

/// The bytes of the canonical-image extension.
pub open spec fn png_ext() -> Seq<u8> {
    seq![0x70u8, 0x6eu8, 0x67u8]
}

/// The bytes of the metadata-sidecar extension.
pub open spec fn json_ext() -> Seq<u8> {
    seq![0x6au8, 0x73u8, 0x6fu8, 0x6eu8]
}

/// A listing entry that joins the package: a canonical-image file, not a
/// subdirectory.
pub open spec fn qualifies(e: DirEntryView) -> bool {
    !e.is_dir && e.ext == png_ext()
}

/// Whether a metadata sidecar with the given stem is in the listing.
pub open spec fn has_sidecar(entries: Seq<DirEntryView>, stem: Seq<u8>) -> bool {
    exists|k: int|
        0 <= k < entries.len() && (#[trigger] entries[k]).ext == json_ext() && entries[k].stem
            == stem
}

/// The stems of the qualifying entries, in listing order.
pub open spec fn assembly_stems(entries: Seq<DirEntryView>) -> Seq<Seq<u8>>
    decreases entries.len(),
{
    if entries.len() == 0 {
        Seq::empty()
    } else {
        (if qualifies(entries[0]) {
            seq![entries[0].stem]
        } else {
            Seq::empty()
        }) + assembly_stems(entries.drop_first())
    }
}

/// What planning assembly over a listing yields: the qualifying stems in
/// order, or `MissingMetadata` if any qualifying image lacks its sidecar.
pub open spec fn plan_spec(entries: Seq<DirEntryView>) -> Result<Seq<Seq<u8>>, TexError> {
    if exists|i: int|
        0 <= i < entries.len() && qualifies(#[trigger] entries[i]) && !has_sidecar(
            entries,
            entries[i].stem,
        ) {
        Err(TexError::MissingMetadata)
    } else {
        Ok(assembly_stems(entries))
    }
}

fn bytes_eq(a: &Vec<u8>, b: &Vec<u8>) -> (r: bool)
    ensures
        r == (a@ == b@),
{
    if a.len() != b.len() {
        return false;
    }
    let n = a.len();
    let mut k: usize = 0;
    while k < n
        invariant
            n == a@.len(),
            n == b@.len(),
            k <= n,
            forall|j: int| 0 <= j < k ==> a@[j] == b@[j],
        decreases n - k,
    {
        if a[k] != b[k] {
            return false;
        }
        k = k + 1;
    }
    proof {
        assert(a@ =~= b@);
    }
    true
}

fn is_json(v: &Vec<u8>) -> (r: bool)
    ensures
        r == (v@ == json_ext()),
{
    if v.len() == 4 {
        let r = v[0] == 0x6a && v[1] == 0x73 && v[2] == 0x6f && v[3] == 0x6e;
        proof {
            if r {
                assert(v@ =~= json_ext());
            }
        }
        r
    } else {
        false
    }
}

fn is_png(v: &Vec<u8>) -> (r: bool)
    ensures
        r == (v@ == png_ext()),
{
    if v.len() == 3 {
        let r = v[0] == 0x70 && v[1] == 0x6e && v[2] == 0x67;
        proof {
            if r {
                assert(v@ =~= png_ext());
            }
        }
        r
    } else {
        false
    }
}

fn find_sidecar(entries: &Vec<DirEntry>, stem: &Vec<u8>) -> (r: bool)
    ensures
        r == has_sidecar(entries@.map_values(|e: DirEntry| e@), stem@),
{
    let ghost ev = entries@.map_values(|e: DirEntry| e@);
    let n = entries.len();
    let mut k: usize = 0;
    while k < n
        invariant
            ev == entries@.map_values(|e: DirEntry| e@),
            n == entries@.len(),
            k <= n,
            forall|j: int|
                0 <= j < k ==> !((#[trigger] ev[j]).ext == json_ext() && ev[j].stem == stem@),
        decreases n - k,
    {
        if is_json(&entries[k].ext) && bytes_eq(&entries[k].stem, stem) {
            proof {
                assert(ev[k as int].ext == json_ext() && ev[k as int].stem == stem@);
            }
            return true;
        }
        k = k + 1;
    }
    false
}

/// Decide directory assembly: every canonical-image entry must have a
/// metadata sidecar of the same stem, else `MissingMetadata`; the stems of
/// the qualifying entries come back in listing order. Subdirectories and
/// other files are ignored.
pub fn plan_assembly(entries: &Vec<DirEntry>) -> (r: Result<Vec<Vec<u8>>, TexError>)
    ensures
        (match r {
            Ok(stems) => plan_spec(entries@.map_values(|e: DirEntry| e@)) == Ok::<
                Seq<Seq<u8>>,
                TexError,
            >(stems@.map_values(|v: Vec<u8>| v@)),
            Err(e) => plan_spec(entries@.map_values(|e: DirEntry| e@)) == Err::<
                Seq<Seq<u8>>,
                TexError,
            >(e),
        }),
{
    let ghost ev = entries@.map_values(|e: DirEntry| e@);
    let n = entries.len();
    let mut stems: Vec<Vec<u8>> = Vec::new();
    let mut i: usize = 0;
    proof {
        assert(stems@.map_values(|v: Vec<u8>| v@) =~= Seq::<Seq<u8>>::empty());
        assert(ev.skip(0) =~= ev);
        assert(Seq::<Seq<u8>>::empty() + assembly_stems(ev) =~= assembly_stems(ev));
    }
    while i < n
        invariant
            ev == entries@.map_values(|e: DirEntry| e@),
            n == entries@.len(),
            i <= n,
            forall|j: int|
                0 <= j < i ==> !(qualifies(#[trigger] ev[j]) && !has_sidecar(ev, ev[j].stem)),
            assembly_stems(ev) == stems@.map_values(|v: Vec<u8>| v@) + assembly_stems(ev.skip(
                i as int,
            )),
        decreases n - i,
    {
        let ghost rest = ev.skip(i as int);
        proof {
            assert(rest.len() == n - i);
            assert(rest[0] == ev[i as int]);
            assert(rest.drop_first() =~= ev.skip(i as int + 1));
        }
        let e = &entries[i];
        if !e.is_dir && is_png(&e.ext) {
            proof {
                assert(qualifies(ev[i as int]));
            }
            if !find_sidecar(entries, &e.stem) {
                proof {
                    assert(qualifies(ev[i as int]) && !has_sidecar(ev, ev[i as int].stem));
                }
                return Err(TexError::MissingMetadata);
            }
            let ghost prev_stems = stems@.map_values(|v: Vec<u8>| v@);
            let stem_copy = copy_bytes(&e.stem);
            stems.push(stem_copy);
            proof {
                assert(stems@.map_values(|v: Vec<u8>| v@) =~= prev_stems.push(ev[i as int].stem));
                assert(assembly_stems(rest) == seq![rest[0].stem] + assembly_stems(
                    rest.drop_first(),
                ));
                assert(prev_stems + (seq![ev[i as int].stem] + assembly_stems(
                    ev.skip(i as int + 1),
                )) =~= prev_stems.push(ev[i as int].stem) + assembly_stems(ev.skip(i as int + 1)));
            }
        } else {
            proof {
                assert(!qualifies(ev[i as int]));
                assert(assembly_stems(rest) == Seq::<Seq<u8>>::empty() + assembly_stems(
                    rest.drop_first(),
                ));
                assert(Seq::<Seq<u8>>::empty() + assembly_stems(ev.skip(i as int + 1))
                    =~= assembly_stems(ev.skip(i as int + 1)));
            }
        }
        i = i + 1;
    }
    proof {
        assert(ev.skip(n as int) =~= Seq::<DirEntryView>::empty());
        assert(assembly_stems(ev.skip(n as int)) =~= Seq::<Seq<u8>>::empty());
        assert(stems@.map_values(|v: Vec<u8>| v@) + Seq::<Seq<u8>>::empty() =~= stems@.map_values(
            |v: Vec<u8>| v@,
        ));
    }
    Ok(stems)
}

fn copy_bytes(v: &Vec<u8>) -> (out: Vec<u8>)
    ensures
        out@ == v@,
{
    let n = v.len();
    let mut out: Vec<u8> = Vec::new();
    let mut k: usize = 0;
    while k < n
        invariant
            n == v@.len(),
            k <= n,
            out@.len() == k,
            forall|j: int| 0 <= j < k ==> out@[j] == v@[j],
        decreases n - k,
    {
        out.push(v[k]);
        k = k + 1;
    }
    proof {
        assert(out@ =~= v@);
    }
    out
}

} // verus!
