//! The multi-architecture wrapper, and the two probers that tell a thin
//! or fat container from other data.

use vstd::prelude::*;
use crate::util::Endian;
use crate::archname::{arch_name, mach_arch_desc, subtype_key};
use crate::codec::{be_val, fields_val, pow256, read_fields, read_uint};
use crate::header::{header_spec, magic_kind, parse_header, words, words_layout, Header, MachOError, FAT_MAGIC};
use crate::region::{MCRef, Warning};

verus! {

/// One entry of the fat header's architecture table.
#[derive(Debug, Clone, Copy, PartialEq, Eq, Structural)]
pub struct FatArch {
    pub cputype: u32,
    pub cpusubtype: u32,
    pub offset: u32,
    pub size: u32,
    pub align: u32,
}

/// An in-range architecture slice and its position in the table.
#[derive(Debug, Clone, Copy, PartialEq, Eq, Structural)]
pub struct FatSlice {
    pub index: u32,
    pub arch: FatArch,
}

/// A container found by a prober.
#[derive(Debug, Clone, Copy, PartialEq, Eq, Structural)]
pub struct ProbeResult {
    /// The fat slice it was found in, if any.
    pub slice: Option<FatSlice>,
    pub header: Header,
    /// Its bytes within the backing buffer.
    pub region: MCRef,
}

pub open spec fn fat_arch_at(b: Seq<u8>, i: nat) -> FatArch {
    let p: int = (8 + 20 * i) as int;
    let f = fields_val(b.subrange(p, p + 20), words(5), Endian::BigEndian);
    FatArch { cputype: f[0] as u32, cpusubtype: f[1] as u32, offset: f[2] as u32, size: f[3] as u32, align: f[4] as u32 }
}

/// The in-range slices among the first `n` entries, and a warning for
/// each entry that lies outside the buffer.
pub open spec fn fat_scan(b: Seq<u8>, n: nat) -> (Seq<FatSlice>, Seq<Warning>)
    decreases n,
{
    if n == 0 {
        (Seq::empty(), Seq::empty())
    } else {
        let (s, w) = fat_scan(b, (n - 1) as nat);
        let fa = fat_arch_at(b, (n - 1) as nat);
        if fa.offset + fa.size > b.len() {
            (s, w.push(Warning::FatSliceOutOfRange { cputype: fa.cputype, cpusubtype: fa.cpusubtype, offset: fa.offset, size: fa.size }))
        } else {
            (s.push(FatSlice { index: (n - 1) as u32, arch: fa }), w)
        }
    }
}

pub open spec fn fat_count(b: Seq<u8>) -> nat {
    be_val(b.subrange(4, 8))
}

/// The slices of a fat container in `b` (`None` if `b` is not one, or its
/// table does not fit), and the warnings given.
pub open spec fn fat_spec(b: Seq<u8>) -> (Option<Seq<FatSlice>>, Seq<Warning>) {
    if b.len() < 8 || be_val(b.subrange(0, 4)) != FAT_MAGIC {
        (None, Seq::empty())
    } else if b.len() < 8 + 20 * fat_count(b) {
        (None, seq![Warning::FatTableTruncated { nfat: fat_count(b) as u32 }])
    } else {
        let (s, w) = fat_scan(b, fat_count(b));
        (Some(s), w)
    }
}

/// Reads the fat header of `b` and its in-range slices.
pub fn fat_slices(b: &[u8], warnings: &mut Vec<Warning>) -> (r: Option<Vec<FatSlice>>)
    ensures
        r is Some <==> fat_spec(b@).0 is Some,
        r is Some ==> r->0@ == fat_spec(b@).0->0,
        final(warnings)@ == old(warnings)@ + fat_spec(b@).1,
{
    let n: usize = b.len();
    if n < 8 {
        assert(warnings@ =~= old(warnings)@ + fat_spec(b@).1);
        return None;
    }
    let magic = read_uint(b, 0, 4, Endian::BigEndian);
    if magic != FAT_MAGIC as u64 {
        assert(warnings@ =~= old(warnings)@ + fat_spec(b@).1);
        return None;
    }
    let nfat = read_uint(b, 4, 4, Endian::BigEndian);
    proof {
        crate::codec::lemma_pow256(4);
    }
    if (n as u64) < 8 + 20 * nfat {
        warnings.push(Warning::FatTableTruncated { nfat: nfat as u32 });
        return None;
    }
    let ws = words_layout(5);
    let mut out: Vec<FatSlice> = Vec::new();
    let ghost w0 = warnings@;
    let mut i: u64 = 0;
    while i < nfat
        invariant
            i <= nfat,
            nfat == fat_count(b@),
            n == b@.len(),
            8 + 20 * nfat <= n,
            ws@ == words(5),
            crate::codec::total(ws@) == 20,
            crate::codec::is_layout(ws@),
            w0 == old(warnings)@,
            (out@, warnings@.subrange(w0.len() as int, warnings@.len() as int)) == fat_scan(b@, i as nat),
            warnings@.len() >= w0.len(),
            warnings@.subrange(0, w0.len() as int) == w0,
        decreases nfat - i,
    {
        let p: usize = 8 + 20 * (i as usize);
        let f = read_fields(b, p, ws.as_slice(), Endian::BigEndian);
        proof {
            crate::codec::lemma_pow256(4);
            assert(f@[0] < pow256(4) && f@[1] < pow256(4) && f@[2] < pow256(4) && f@[3] < pow256(4) && f@[4] < pow256(4));
        }
        let fa = FatArch { cputype: f[0] as u32, cpusubtype: f[1] as u32, offset: f[2] as u32, size: f[3] as u32, align: f[4] as u32 };
        assert(fa == fat_arch_at(b@, i as nat));
        let ghost wl = warnings@;
        if fa.offset as u64 + fa.size as u64 > n as u64 {
            warnings.push(Warning::FatSliceOutOfRange { cputype: fa.cputype, cpusubtype: fa.cpusubtype, offset: fa.offset, size: fa.size });
            assert(warnings@.subrange(w0.len() as int, warnings@.len() as int) =~= wl.subrange(w0.len() as int, wl.len() as int).push(Warning::FatSliceOutOfRange { cputype: fa.cputype, cpusubtype: fa.cpusubtype, offset: fa.offset, size: fa.size }));
            assert(warnings@.subrange(0, w0.len() as int) =~= wl.subrange(0, w0.len() as int));
        } else {
            out.push(FatSlice { index: i as u32, arch: fa });
        }
        i = i + 1;
    }
    proof {
        assert(warnings@ =~= w0 + warnings@.subrange(w0.len() as int, warnings@.len() as int));
    }
    Some(out)
}

proof fn lemma_fat_scan_in_range(b: Seq<u8>, n: nat)
    ensures
        forall|j: int| 0 <= j < fat_scan(b, n).0.len() ==> (#[trigger] fat_scan(b, n).0[j]).arch.offset + fat_scan(b, n).0[j].arch.size <= b.len(),
    decreases n,
{
    if n > 0 {
        lemma_fat_scan_in_range(b, (n - 1) as nat);
        let prev = fat_scan(b, (n - 1) as nat);
        let fa = fat_arch_at(b, (n - 1) as nat);
        if fa.offset + fa.size > b.len() {
            assert(fat_scan(b, n).0 == prev.0);
        } else {
            let t = prev.0.push(FatSlice { index: (n - 1) as u32, arch: fa });
            assert(fat_scan(b, n).0 == t);
            assert forall|j: int| 0 <= j < t.len() implies (#[trigger] t[j]).arch.offset + t[j].arch.size <= b.len() by {
                if j < prev.0.len() {
                    assert(t[j] == prev.0[j]);
                }
            }
        }
    }
}

/// What the thin prober finds in region `mc` of a backing buffer `bk`.
pub open spec fn probe_spec(bk: Seq<u8>, mc: MCRef, slice: Option<FatSlice>) -> Seq<ProbeResult> {
    match header_spec(bk.subrange(mc.off as int, mc.off + mc.len), 0) {
        Ok(h) => seq![ProbeResult { slice, header: h, region: mc }],
        Err(_) => Seq::empty(),
    }
}

/// The thin prober: one result if region `mc` of `backing` starts with a
/// container header, none otherwise.
pub fn probe_macho(backing: &[u8], mc: MCRef, slice: Option<FatSlice>) -> (r: Vec<ProbeResult>)
    requires
        mc.wf(),
        backing@.len() == mc.cap,
    ensures
        r@ == probe_spec(backing@, mc, slice),
{
    let b = mc.get(backing);
    match parse_header(b, 0) {
        Ok(h) => {
            let r = vec![ProbeResult { slice, header: h, region: mc }];
            assert(r@ =~= probe_spec(backing@, mc, slice));
            r
        },
        Err(_) => {
            let r: Vec<ProbeResult> = Vec::new();
            assert(r@ =~= probe_spec(backing@, mc, slice));
            r
        },
    }
}

/// The region of slice `s` within container region `mc`.
pub open spec fn slice_region(mc: MCRef, s: FatSlice) -> MCRef {
    MCRef { handle: mc.handle, cap: mc.cap, off: (mc.off + s.arch.offset) as usize, len: s.arch.size as usize }
}

/// The results of probing the first `k` slices.
pub open spec fn fat_probe_results(bk: Seq<u8>, mc: MCRef, s: Seq<FatSlice>, k: nat) -> Seq<ProbeResult>
    decreases k,
{
    if k == 0 || k > s.len() {
        Seq::empty()
    } else {
        fat_probe_results(bk, mc, s, (k - 1) as nat) + probe_spec(bk, slice_region(mc, s[k - 1]), Some(s[k - 1]))
    }
}

/// The fat prober: every container found in an in-range slice.
pub fn probe_fat(backing: &[u8], mc: MCRef, warnings: &mut Vec<Warning>) -> (r: Vec<ProbeResult>)
    requires
        mc.wf(),
        backing@.len() == mc.cap,
    ensures
        final(warnings)@ == old(warnings)@ + fat_spec(backing@.subrange(mc.off as int, mc.off + mc.len)).1,
        match fat_spec(backing@.subrange(mc.off as int, mc.off + mc.len)).0 {
            None => r@.len() == 0,
            Some(s) => r@ == fat_probe_results(backing@, mc, s, s.len()),
        },
{
    let b = mc.get(backing);
    let slices = match fat_slices(b, warnings) {
        None => {
            return Vec::new();
        },
        Some(s) => s,
    };
    proof {
        lemma_fat_scan_in_range(b@, fat_count(b@));
    }
    let mut out: Vec<ProbeResult> = Vec::new();
    let mut i: usize = 0;
    while i < slices.len()
        invariant
            i <= slices@.len(),
            mc.wf(),
            backing@.len() == mc.cap,
            b@ == backing@.subrange(mc.off as int, mc.off + mc.len),
            slices@ == fat_spec(b@).0->0,
            forall|j: int| 0 <= j < slices@.len() ==> (#[trigger] slices@[j]).arch.offset + slices@[j].arch.size <= b@.len(),
            out@ == fat_probe_results(backing@, mc, slices@, i as nat),
        decreases slices@.len() - i,
    {
        let s = slices[i];
        let off: usize = s.arch.offset as usize;
        let size: usize = s.arch.size as usize;
        let sub = MCRef { handle: mc.handle, cap: mc.cap, off: mc.off + off, len: size };
        let found = probe_macho(backing, sub, Some(s));
        out.append(&mut found.clone());
        i = i + 1;
        assert(out@ =~= fat_probe_results(backing@, mc, slices@, i as nat));
    }
    out
}

/// Whether two byte strings are equal.
pub fn bytes_eq(a: &[u8], b: &[u8]) -> (r: bool)
    ensures
        r == (a@ == b@),
{
    if a.len() != b.len() {
        return false;
    }
    let mut i: usize = 0;
    while i < a.len()
        invariant
            i <= a@.len(),
            a@.len() == b@.len(),
            forall|j: int| 0 <= j < i ==> a@[j] == b@[j],
        decreases a@.len() - i,
    {
        if a[i] != b[i] {
            return false;
        }
        i = i + 1;
    }
    assert(a@ =~= b@);
    true
}

/// Whether slice `s` is the one asked for: by position, or by the name of
/// its architecture.
pub open spec fn slice_matches(s: FatSlice, index: Option<u64>, name: Option<Seq<char>>) -> bool {
    match index {
        Some(i) => s.index as u64 == i,
        None => match arch_name(s.arch.cputype, subtype_key(s.arch.cpusubtype)) {
            Some(d) => name is Some && d@ == name->0,
            None => false,
        },
    }
}

/// Position of the first slice among the first `k` that is asked for.
pub open spec fn first_match(s: Seq<FatSlice>, k: nat, index: Option<u64>, name: Option<Seq<char>>) -> Option<nat>
    decreases k,
{
    if k == 0 {
        None
    } else {
        match first_match(s, (k - 1) as nat, index, name) {
            Some(j) => Some(j),
            None => if slice_matches(s[k - 1], index, name) { Some((k - 1) as nat) } else { None },
        }
    }
}

/// The slice of a fat container that the caller selects, by position or
/// by architecture name (exactly one of the two).
pub open spec fn select_spec(b: Seq<u8>, mc: MCRef, index: Option<u64>, name: Option<Seq<char>>) -> Result<MCRef, MachOError> {
    if (index is Some) == (name is Some) {
        Err(MachOError::UsageError)
    } else {
        match fat_spec(b).0 {
            None => Err(MachOError::BadFormat),
            Some(s) => match first_match(s, s.len(), index, name) {
                None => Err(MachOError::NotFound),
                Some(j) => Ok(slice_region(mc, s[j as int])),
            },
        }
    }
}

/// Selects one slice of the fat container in region `mc` of `backing`.
pub fn select_slice(backing: &[u8], mc: MCRef, index: Option<u64>, name: Option<&str>, warnings: &mut Vec<Warning>) -> (r: Result<MCRef, MachOError>)
    requires
        mc.wf(),
        backing@.len() == mc.cap,
    ensures
        r == select_spec(backing@.subrange(mc.off as int, mc.off + mc.len), mc, index, match name { Some(n) => Some(n@), None => None }),
        r is Ok ==> r->Ok_0.wf(),
{
    let ghost nm: Option<Seq<char>> = match name { Some(n) => Some(n@), None => None };
    if index.is_some() == name.is_some() {
        return Err(MachOError::UsageError);
    }
    let b = mc.get(backing);
    let slices = match fat_slices(b, warnings) {
        None => {
            return Err(MachOError::BadFormat);
        },
        Some(s) => s,
    };
    proof {
        lemma_fat_scan_in_range(b@, fat_count(b@));
    }
    let mut i: usize = 0;
    while i < slices.len()
        invariant
            i <= slices@.len(),
            mc.wf(),
            backing@.len() == mc.cap,
            b@.len() == mc.len,
            b@ == backing@.subrange(mc.off as int, mc.off + mc.len),
            slices@ == fat_spec(b@).0->0,
            fat_spec(b@).0 is Some,
            forall|j: int| 0 <= j < slices@.len() ==> (#[trigger] slices@[j]).arch.offset + slices@[j].arch.size <= b@.len(),
            (index is Some) != (name is Some),
            nm == match name { Some(n) => Some(n@), None => None::<Seq<char>> },
            first_match(slices@, i as nat, index, nm) is None,
        decreases slices@.len() - i,
    {
        let s = slices[i];
        let hit = match index {
            Some(k) => s.index as u64 == k,
            None => match (mach_arch_desc(s.arch.cputype, s.arch.cpusubtype), name) {
                (Some(d), Some(n)) => {
                    let eq = bytes_eq(d.as_bytes(), n.as_bytes());
                    proof {
                        vstd::utf8::encode_utf8_decode_utf8(d@);
                        vstd::utf8::encode_utf8_decode_utf8(n@);
                    }
                    eq
                },
                _ => false,
            },
        };
        if hit {
            assert(s.arch.offset + s.arch.size <= b@.len());
            assert(first_match(slices@, i as nat + 1, index, nm) == Some(i as nat));
            proof {
                lemma_first_match_stable(slices@, i as nat + 1, slices@.len(), index, nm);
            }
            return Ok(MCRef { handle: mc.handle, cap: mc.cap, off: mc.off + s.arch.offset as usize, len: s.arch.size as usize });
        }
        i = i + 1;
    }
    Err(MachOError::NotFound)
}

proof fn lemma_first_match_stable(s: Seq<FatSlice>, i: nat, k: nat, index: Option<u64>, name: Option<Seq<char>>)
    requires
        i <= k,
        first_match(s, i, index, name) is Some,
    ensures
        first_match(s, k, index, name) == first_match(s, i, index, name),
    decreases k - i,
{
    if i < k {
        lemma_first_match_stable(s, i, (k - 1) as nat, index, name);
    }
}

/// A buffer whose first four bytes are none of the four container magics
/// and not the fat magic is rejected by both probers: the thin parser
/// fails with `BadFormat` and the fat prober finds no container.
pub proof fn lemma_magic_rejection(b: Seq<u8>)
    requires
        b.len() >= 4,
        magic_kind(be_val(b.subrange(0, 4))) is None,
        be_val(b.subrange(0, 4)) != FAT_MAGIC,
    ensures
        b.len() >= 28 ==> header_spec(b, 0) == Err::<Header, MachOError>(MachOError::BadFormat),
        header_spec(b, 0) is Err,
        fat_spec(b).0 is None,
{
    assert(b.subrange(0, 0 + 4int) == b.subrange(0, 4));
}

} // verus!
