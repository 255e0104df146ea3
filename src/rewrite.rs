//! Regeneration of the command area from an edited model and a new layout.

use vstd::prelude::*;
use crate::util::Endian;
use crate::codec::{pow256, fields_bytes, fields_val, total, uint_val, write_fields};
use crate::header::{words, MachOError};
use crate::codec::is_layout;
use crate::macho::MachO;
use crate::model::{Tables, prot_of, prot_bits, prot_to_u32, Section, SectionV, Segment, SegmentV, seg_views, sect_views};
use crate::region::{MCRef, Warning};
use crate::walker::{addr_limit, fix_size, sect_fields, sect_pos, sect_v, seg_fields, seg_step, seg_v, dysymtab_step, dyld_step, symtab_step, WalkV, module_size, nlist_size, sect_size, sect_tail, sect_tail_layout, seg_hdr_size, seg_tail,
    seg_tail_layout, LC_DYLD_INFO, LC_DYLD_INFO_ONLY, LC_DYSYMTAB, LC_SEGMENT, LC_SEGMENT_64, LC_SYMTAB, U32_MAX};

verus! {

/// New file offsets of the regions that move, and new base indices of the
/// three symbol runs.
#[derive(Debug, Clone, Copy, PartialEq, Eq, Structural)]
pub struct Allocations {
    pub dyld_rebase: u32,
    pub dyld_bind: u32,
    pub dyld_weak_bind: u32,
    pub dyld_lazy_bind: u32,
    pub dyld_export: u32,
    pub symtab: u32,
    pub strtab: u32,
    pub toc: u32,
    pub modtab: u32,
    pub extrefsym: u32,
    pub indirectsym: u32,
    pub ilocalsym: u32,
    pub iextdefsym: u32,
    pub iundefsym: u32,
}

/// Stores a name in a 16-byte field, padded with zeros.
pub open spec fn pad16(s: Seq<u8>) -> Seq<u8> {
    s + Seq::new((16 - s.len()) as nat, |i: int| 0u8)
}

/// The stored form of a name: at most 15 bytes, then zeros.
pub open spec fn stored_name(name: Seq<u8>) -> Seq<u8> {
    pad16(if name.len() > 15 { name.take(15) } else { name })
}

pub open spec fn name_warnings(name: Seq<u8>) -> Seq<Warning> {
    if name.len() > 15 {
        seq![Warning::NameTooLong { len: name.len() as usize }]
    } else {
        Seq::empty()
    }
}

/// The 16-byte field for `name`; a name longer than 15 bytes is cut to 15
/// so that the field keeps a terminator, with a warning.
pub fn name_to_macho(name: &[u8], warnings: &mut Vec<Warning>) -> (r: [u8; 16])
    ensures
        r@ == stored_name(name@),
        final(warnings)@ == old(warnings)@ + name_warnings(name@),
{
    let mut n: usize = name.len();
    if n > 15 {
        warnings.push(Warning::NameTooLong { len: n });
        n = 15;
    } else {
        assert(warnings@ =~= old(warnings)@ + name_warnings(name@));
    }
    let mut r: [u8; 16] = [0u8; 16];
    let mut i: usize = 0;
    while i < n
        invariant
            i <= n,
            n <= 15,
            n <= name@.len(),
            r@.len() == 16,
            forall|j: int| 0 <= j < i ==> r@[j] == name@[j],
            forall|j: int| i <= j < 16 ==> r@[j] == 0u8,
        decreases n - i,
    {
        r[i] = name[i];
        i = i + 1;
    }
    assert(r@ =~= stored_name(name@));
    r
}

impl Segment {
    /// Renames the segment, cutting a name longer than 15 bytes.
    pub fn set_name(&mut self, name: &[u8], warnings: &mut Vec<Warning>)
        ensures
            final(self)@ == (SegmentV { name: stored_name(name@), ..old(self)@ }),
            final(warnings)@ == old(warnings)@ + name_warnings(name@),
    {
        self.name = name_to_macho(name, warnings);
    }
}

impl Section {
    /// Renames the section, cutting a name longer than 15 bytes.
    pub fn set_name(&mut self, name: &[u8], warnings: &mut Vec<Warning>)
        ensures
            final(self)@ == (SectionV { name: stored_name(name@), ..old(self)@ }),
            final(warnings)@ == old(warnings)@ + name_warnings(name@),
    {
        self.name = name_to_macho(name, warnings);
    }
}

/// Number of the first `k` sections that belong to segment `si`.
pub open spec fn count_sects(sects: Seq<SectionV>, si: nat, k: nat) -> nat
    decreases k,
{
    if k == 0 || k > sects.len() {
        0
    } else {
        count_sects(sects, si, (k - 1) as nat) + if sects[k - 1].seg_idx == si { 1nat } else { 0nat }
    }
}

pub open spec fn seg_vals(s: SegmentV, n: nat) -> Seq<u64> {
    seq![s.vmaddr, s.vmsize, s.fileoff, s.filesize, s.maxprot as u64, prot_bits(s.prot) as u64, n as u64, s.flags as u64]
}

pub open spec fn sect_vals(x: SectionV, is64: bool) -> Seq<u64> {
    let v = seq![x.addr, x.size, x.offset as u64, x.align as u64, x.reloff as u64, x.nreloc as u64, x.flags as u64,
        x.reserved1 as u64, x.reserved2 as u64];
    if is64 { v.push(x.reserved3 as u64) } else { v }
}

/// The section record of `x` in segment `segname`.
pub open spec fn sect_bytes(x: SectionV, segname: Seq<u8>, is64: bool, e: Endian) -> Seq<u8> {
    x.name + segname + fields_bytes(sect_vals(x, is64), sect_tail(is64), e)
}

/// Records of the first `k` sections that belong to segment `si`.
pub open spec fn sects_bytes(sects: Seq<SectionV>, si: nat, segname: Seq<u8>, is64: bool, e: Endian, k: nat) -> Seq<u8>
    decreases k,
{
    if k == 0 || k > sects.len() {
        Seq::empty()
    } else {
        sects_bytes(sects, si, segname, is64, e, (k - 1) as nat) + if sects[k - 1].seg_idx == si {
            sect_bytes(sects[k - 1], segname, is64, e)
        } else {
            Seq::empty()
        }
    }
}

/// The segment command of segment `si`, with the sections that name it as
/// their segment.
pub open spec fn seg_cmd_bytes(segs: Seq<SegmentV>, sects: Seq<SectionV>, si: nat, is64: bool, e: Endian) -> Seq<u8> {
    let s = segs[si as int];
    let n = count_sects(sects, si, sects.len());
    let cmd: u64 = if is64 { LC_SEGMENT_64 as u64 } else { LC_SEGMENT as u64 };
    fields_bytes(seq![cmd, (seg_hdr_size(is64) + n * sect_size(is64)) as u64], words(2), e) + s.name
        + fields_bytes(seg_vals(s, n), seg_tail(is64), e) + sects_bytes(sects, si, s.name, is64, e, sects.len())
}

/// Appends `b`.
pub fn push_bytes(out: &mut Vec<u8>, b: &[u8])
    ensures
        final(out)@ == old(out)@ + b@,
{
    let ghost start = out@;
    let mut i: usize = 0;
    while i < b.len()
        invariant
            i <= b@.len(),
            out@ == start + b@.take(i as int),
        decreases b@.len() - i,
    {
        out.push(b[i]);
        i = i + 1;
        assert(out@ =~= start + b@.take(i as int));
    }
    assert(b@.take(i as int) =~= b@);
}

/// Whether a 32-bit container's segments and sections fit 32-bit fields.
pub open spec fn fits32(segs: Seq<SegmentV>, sects: Seq<SectionV>) -> bool {
    &&& forall|i: int| 0 <= i < segs.len() ==> (#[trigger] segs[i]).vmaddr <= U32_MAX && segs[i].vmsize <= U32_MAX
        && segs[i].fileoff <= U32_MAX && segs[i].filesize <= U32_MAX
    &&& forall|i: int| 0 <= i < sects.len() ==> (#[trigger] sects[i]).addr <= U32_MAX && sects[i].size <= U32_MAX
}

/// Encodes the segment command of segment `si`; `None` when its size does
/// not fit the 32-bit size field.
pub fn encode_segment(segs: &Vec<Segment>, sects: &Vec<Section>, si: usize, is64: bool, e: Endian) -> (r: Option<Vec<u8>>)
    requires
        si < segs@.len(),
    ensures
        r is Some <==> seg_hdr_size(is64) + count_sects(sect_views(sects@), si as nat, sects@.len()) * sect_size(is64) <= U32_MAX,
        r is Some ==> r->0@ == seg_cmd_bytes(seg_views(segs@), sect_views(sects@), si as nat, is64, e),
{
    let ghost sv = sect_views(sects@);
    let mut n: usize = 0;
    let mut k: usize = 0;
    while k < sects.len()
        invariant
            k <= sects@.len(),
            sv == sect_views(sects@),
            n == count_sects(sv, si as nat, k as nat),
            n <= k,
        decreases sects@.len() - k,
    {
        if sects[k].seg_idx == si {
            n = n + 1;
        }
        k = k + 1;
    }
    let hs: u64 = if is64 { 72 } else { 56 };
    let ss: u64 = if is64 { 80 } else { 68 };
    let room: u64 = (U32_MAX - hs) / ss;
    if n as u64 > room {
        proof {
            assert(hs + n * ss > U32_MAX) by (nonlinear_arith)
                requires n > room, room == (U32_MAX - hs) as int / ss as int, ss > 0, hs <= U32_MAX;
        }
        return None;
    }
    proof {
        assert(hs + n * ss <= U32_MAX) by (nonlinear_arith)
            requires n <= room, room == (U32_MAX - hs) as int / ss as int, ss > 0, hs <= U32_MAX;
    }
    let s: Segment = segs[si];
    let mut out: Vec<u8> = Vec::new();
    let cmd: u64 = if is64 { LC_SEGMENT_64 as u64 } else { LC_SEGMENT as u64 };
    let head: Vec<u64> = vec![cmd, hs + (n as u64) * ss];
    let w2: Vec<usize> = vec![4, 4];
    assert(w2@ =~= words(2));
    write_fields(&mut out, head.as_slice(), w2.as_slice(), e);
    push_bytes(&mut out, s.name.as_slice());
    let tl = seg_tail_layout(is64);
    let vals: Vec<u64> = vec![s.vmaddr, s.vmsize, s.fileoff, s.filesize, s.maxprot as u64,
        prot_to_u32(s.prot) as u64, n as u64, s.flags as u64];
    assert(vals@ =~= seg_vals(s@, n as nat));
    assert(head@ =~= seq![cmd, (seg_hdr_size(is64) + n * sect_size(is64)) as u64]);
    write_fields(&mut out, vals.as_slice(), tl.as_slice(), e);
    let ghost prefix = out@;
    let stl = sect_tail_layout(is64);
    let mut k: usize = 0;
    while k < sects.len()
        invariant
            k <= sects@.len(),
            sv == sect_views(sects@),
            stl@ == sect_tail(is64),
            out@ == prefix + sects_bytes(sv, si as nat, s.name@, is64, e, k as nat),
        decreases sects@.len() - k,
    {
        let x: Section = sects[k];
        if x.seg_idx == si {
            push_bytes(&mut out, x.name.as_slice());
            push_bytes(&mut out, s.name.as_slice());
            let v9: Vec<u64> = vec![x.addr, x.size, x.offset as u64, x.align as u64, x.reloff as u64,
                x.nreloc as u64, x.flags as u64, x.reserved1 as u64, x.reserved2 as u64];
            let mut sv2 = v9;
            if is64 {
                sv2.push(x.reserved3 as u64);
            }
            assert(sv2@ =~= sect_vals(x@, is64));
            write_fields(&mut out, sv2.as_slice(), stl.as_slice(), e);
        }
        k = k + 1;
        proof {
            assert(sv[k - 1] == x@);
            assert(out@ =~= prefix + sects_bytes(sv, si as nat, s.name@, is64, e, k as nat));
        }
    }
    assert(segs@[si as int]@ == s@);
    Some(out)
}

/// What the rewriter reads of a model.
pub struct ModelV {
    pub segs: Seq<SegmentV>,
    pub sects: Seq<SectionV>,
    pub tables: Tables,
    pub is64: bool,
    pub e: Endian,
}

/// Type code of a command's bytes (zero, which no command has, when too short).
pub open spec fn cmd_type(c: Seq<u8>, e: Endian) -> nat {
    if c.len() >= 4 { uint_val(c.take(4), e) } else { 0 }
}

pub open spec fn is_seg_type(t: nat) -> bool {
    t == LC_SEGMENT || t == LC_SEGMENT_64
}

/// The first of the first `k` segments read from command `i`.
pub open spec fn seg_for(segs: Seq<SegmentV>, i: nat, k: nat) -> Option<nat>
    decreases k,
{
    if k == 0 || k > segs.len() {
        None
    } else {
        match seg_for(segs, i, (k - 1) as nat) {
            Some(j) => Some(j),
            None => if segs[k - 1].origin == Some(i as usize) { Some((k - 1) as nat) } else { None },
        }
    }
}

pub open spec fn dyld_block(m: ModelV, a: Allocations) -> Seq<u8> {
    let t = m.tables;
    let id: u64 = if t.dyld_info_is_only { LC_DYLD_INFO_ONLY as u64 } else { LC_DYLD_INFO as u64 };
    fields_bytes(seq![id, 48, a.dyld_rebase as u64, t.dyld_rebase.len as u64, a.dyld_bind as u64, t.dyld_bind.len as u64,
        a.dyld_weak_bind as u64, t.dyld_weak_bind.len as u64, a.dyld_lazy_bind as u64, t.dyld_lazy_bind.len as u64,
        a.dyld_export as u64, t.dyld_export.len as u64], words(12), m.e)
}

pub open spec fn symtab_block(m: ModelV, a: Allocations) -> Seq<u8> {
    let t = m.tables;
    fields_bytes(seq![LC_SYMTAB as u64, 24, a.symtab as u64, (t.symtab.len as nat / nlist_size(m.is64) as nat) as u64,
        a.strtab as u64, t.strtab.len as u64], words(6), m.e)
}

pub open spec fn dysymtab_block(m: ModelV, a: Allocations) -> Seq<u8> {
    let t = m.tables;
    fields_bytes(seq![LC_DYSYMTAB as u64, 80, a.ilocalsym as u64, t.localsym.count as u64, a.iextdefsym as u64,
        t.extdefsym.count as u64, a.iundefsym as u64, t.undefsym.count as u64, a.toc as u64, (t.toc.len / 8) as u64,
        a.modtab as u64, (t.modtab.len as nat / module_size(m.is64) as nat) as u64, a.extrefsym as u64, (t.extrefsym.len / 4) as u64,
        a.indirectsym as u64, (t.indirectsym.len / 4) as u64, t.extrel.off as u64, t.extrel.count as u64,
        t.locrel.off as u64, t.locrel.count as u64], words(20), m.e)
}

/// The blocks that stand in place of command `i`, whose bytes are `c`.
pub open spec fn emit(m: ModelV, a: Allocations, c: Seq<u8>, i: nat) -> Seq<Seq<u8>> {
    let t = cmd_type(c, m.e);
    if is_seg_type(t) {
        match seg_for(m.segs, i, m.segs.len()) {
            Some(j) => seq![seg_cmd_bytes(m.segs, m.sects, j, m.is64, m.e)],
            None => Seq::empty(),
        }
    } else if t == LC_DYLD_INFO || t == LC_DYLD_INFO_ONLY {
        seq![dyld_block(m, a)]
    } else if t == LC_SYMTAB {
        seq![symtab_block(m, a)]
    } else if t == LC_DYSYMTAB {
        seq![dysymtab_block(m, a)]
    } else {
        seq![c]
    }
}

/// The blocks for the first `k` commands.
pub open spec fn base_blocks(m: ModelV, a: Allocations, cmds: Seq<Seq<u8>>, k: nat) -> Seq<Seq<u8>>
    decreases k,
{
    if k == 0 || k > cmds.len() {
        Seq::empty()
    } else {
        base_blocks(m, a, cmds, (k - 1) as nat) + emit(m, a, cmds[k - 1], (k - 1) as nat)
    }
}

/// Where segments added after parsing go among the blocks of the first `k`
/// commands: before the blocks of the first command that is not a segment
/// command, or at the end if there is none.
pub open spec fn insert_point(m: ModelV, a: Allocations, cmds: Seq<Seq<u8>>, k: nat) -> nat
    decreases k,
{
    if k == 0 || k > cmds.len() {
        0
    } else if !has_other(m, cmds, (k - 1) as nat) && is_seg_type(cmd_type(cmds[k - 1], m.e)) {
        base_blocks(m, a, cmds, k).len()
    } else {
        insert_point(m, a, cmds, (k - 1) as nat)
    }
}

/// Whether one of the first `k` commands is not a segment command.
pub open spec fn has_other(m: ModelV, cmds: Seq<Seq<u8>>, k: nat) -> bool
    decreases k,
{
    if k == 0 || k > cmds.len() {
        false
    } else {
        has_other(m, cmds, (k - 1) as nat) || !is_seg_type(cmd_type(cmds[k - 1], m.e))
    }
}

/// Segment commands of the first `k` segments that no command gave.
pub open spec fn new_seg_blocks(m: ModelV, k: nat) -> Seq<Seq<u8>>
    decreases k,
{
    if k == 0 || k > m.segs.len() {
        Seq::empty()
    } else {
        new_seg_blocks(m, (k - 1) as nat) + if m.segs[k - 1].origin is None {
            seq![seg_cmd_bytes(m.segs, m.sects, (k - 1) as nat, m.is64, m.e)]
        } else {
            Seq::empty()
        }
    }
}

/// Whether every field the rewrite writes fits its width.
pub open spec fn encodable(m: ModelV) -> bool {
    let t = m.tables;
    &&& !m.is64 ==> fits32(m.segs, m.sects)
    &&& forall|si: int| 0 <= si < m.segs.len() ==> seg_hdr_size(m.is64) + #[trigger] count_sects(m.sects, si as nat, m.sects.len())
        * sect_size(m.is64) <= U32_MAX
    &&& t.dyld_rebase.len <= U32_MAX && t.dyld_bind.len <= U32_MAX && t.dyld_weak_bind.len <= U32_MAX
    &&& t.dyld_lazy_bind.len <= U32_MAX && t.dyld_export.len <= U32_MAX && t.strtab.len <= U32_MAX
    &&& t.symtab.len <= U32_MAX && t.toc.len <= U32_MAX && t.modtab.len <= U32_MAX
    &&& t.extrefsym.len <= U32_MAX && t.indirectsym.len <= U32_MAX
}

/// The new command area for model `m`, the commands `cmds` it was read from and
/// layout `a`.
pub open spec fn rewrite_spec(m: ModelV, cmds: Seq<Seq<u8>>, a: Allocations) -> Result<Seq<Seq<u8>>, MachOError> {
    if !encodable(m) {
        Err(MachOError::InternalInvariant)
    } else {
        let b = base_blocks(m, a, cmds, cmds.len());
        let p = insert_point(m, a, cmds, cmds.len()) as int;
        Ok(b.take(p) + new_seg_blocks(m, m.segs.len()) + b.skip(p))
    }
}

pub open spec fn blocks_view(v: Seq<Vec<u8>>) -> Seq<Seq<u8>> {
    v.map_values(|b: Vec<u8>| b@)
}

fn copy_bytes(b: &Vec<u8>) -> (r: Vec<u8>)
    ensures
        r@ == b@,
{
    vstd::slice::slice_to_vec(b.as_slice())
}

/// Whether segment `s` or section `x` values fit 32 bits.
fn check_fits32(segs: &Vec<Segment>, sects: &Vec<Section>) -> (r: bool)
    ensures
        r == fits32(seg_views(segs@), sect_views(sects@)),
{
    let ghost sv = seg_views(segs@);
    let ghost xv = sect_views(sects@);
    let mut i: usize = 0;
    while i < segs.len()
        invariant
            i <= segs@.len(),
            sv == seg_views(segs@),
            forall|j: int| 0 <= j < i ==> (#[trigger] sv[j]).vmaddr <= U32_MAX && sv[j].vmsize <= U32_MAX
                && sv[j].fileoff <= U32_MAX && sv[j].filesize <= U32_MAX,
        decreases segs@.len() - i,
    {
        let s = &segs[i];
        if s.vmaddr > U32_MAX || s.vmsize > U32_MAX || s.fileoff > U32_MAX || s.filesize > U32_MAX {
            assert(sv[i as int] == segs@[i as int]@);
            return false;
        }
        i = i + 1;
    }
    let mut k: usize = 0;
    while k < sects.len()
        invariant
            k <= sects@.len(),
            xv == sect_views(sects@),
            forall|j: int| 0 <= j < k ==> (#[trigger] xv[j]).addr <= U32_MAX && xv[j].size <= U32_MAX,
        decreases sects@.len() - k,
    {
        let x = &sects[k];
        if x.addr > U32_MAX || x.size > U32_MAX {
            assert(xv[k as int] == sects@[k as int]@);
            return false;
        }
        k = k + 1;
    }
    true
}

impl MachO {
    /// What the rewriter reads of this model.
    pub open spec fn model(&self) -> ModelV {
        ModelV {
            segs: seg_views(self.segments@),
            sects: sect_views(self.sections@),
            tables: self.tables,
            is64: self.header.is64,
            e: self.header.endian,
        }
    }

    /// The bytes of each load command, read from `bk`.
    pub open spec fn cmd_bytes(&self, bk: Seq<u8>) -> Seq<Seq<u8>> {
        self.load_commands@.map_values(|c: MCRef| bk.subrange(c.off as int, c.off + c.len))
    }

    /// Regenerates the whole command area: segment, dynamic-linker info,
    /// symbol-table and dynamic symbol-table commands are rebuilt from the
    /// model and `a` where they stood, others are copied, and
    /// segments added after parsing come before the first command that is
    /// not a segment command.
    pub fn update_cmds(&self, backing: &[u8], a: Allocations) -> (r: Result<Vec<Vec<u8>>, MachOError>)
        requires
            self.wf(),
            backing@.len() == self.buf.cap,
        ensures
            match rewrite_spec(self.model(), self.cmd_bytes(backing@), a) {
                Ok(bs) => r is Ok && blocks_view(r->Ok_0@) == bs,
                Err(err) => r == Err::<Vec<Vec<u8>>, MachOError>(err),
            },
    {
        let ghost m = self.model();
        let ghost cmds = self.cmd_bytes(backing@);
        let is64 = self.header.is64;
        let e = self.header.endian;
        let t = self.tables;
        if t.dyld_rebase.len as u64 > U32_MAX || t.dyld_bind.len as u64 > U32_MAX || t.dyld_weak_bind.len as u64 > U32_MAX
            || t.dyld_lazy_bind.len as u64 > U32_MAX || t.dyld_export.len as u64 > U32_MAX || t.strtab.len as u64 > U32_MAX
            || t.symtab.len as u64 > U32_MAX || t.toc.len as u64 > U32_MAX || t.modtab.len as u64 > U32_MAX
            || t.extrefsym.len as u64 > U32_MAX || t.indirectsym.len as u64 > U32_MAX {
            return Err(MachOError::InternalInvariant);
        }
        if !is64 && !check_fits32(&self.segments, &self.sections) {
            return Err(MachOError::InternalInvariant);
        }
        let mut seg_blocks: Vec<Vec<u8>> = Vec::new();
        let mut si: usize = 0;
        while si < self.segments.len()
            invariant
                si <= self.segments@.len(),
                m == self.model(),
                seg_blocks@.len() == si,
                forall|j: int| 0 <= j < si ==> (#[trigger] seg_blocks@[j])@ == seg_cmd_bytes(m.segs, m.sects, j as nat, m.is64, m.e),
                forall|j: int| 0 <= j < si ==> seg_hdr_size(m.is64) + #[trigger] count_sects(m.sects, j as nat, m.sects.len())
                    * sect_size(m.is64) <= U32_MAX,
                is64 == m.is64,
                e == m.e,
            decreases self.segments@.len() - si,
        {
            match encode_segment(&self.segments, &self.sections, si, is64, e) {
                None => {
                    assert(!(seg_hdr_size(m.is64) + count_sects(m.sects, si as nat, m.sects.len()) * sect_size(m.is64) <= U32_MAX));
                    assert(!encodable(m)) by {
                        let k: int = si as int;
                        assert(0 <= k < m.segs.len());
                        assert(count_sects(m.sects, k as nat, m.sects.len()) == count_sects(m.sects, si as nat, m.sects.len()));
                    }
                    return Err(MachOError::InternalInvariant);
                },
                Some(b) => {
                    seg_blocks.push(b);
                },
            }
            si = si + 1;
        }
        proof {
            assert(encodable(m));
        }
        let only = t.dyld_info_is_only;
        let id: u64 = if only { LC_DYLD_INFO_ONLY as u64 } else { LC_DYLD_INFO as u64 };
        let mut dyld: Vec<u8> = Vec::new();
        let dv: Vec<u64> = vec![id, 48, a.dyld_rebase as u64, t.dyld_rebase.len as u64, a.dyld_bind as u64,
            t.dyld_bind.len as u64, a.dyld_weak_bind as u64, t.dyld_weak_bind.len as u64, a.dyld_lazy_bind as u64,
            t.dyld_lazy_bind.len as u64, a.dyld_export as u64, t.dyld_export.len as u64];
        let w12 = crate::header::words_layout(12);
        write_fields(&mut dyld, dv.as_slice(), w12.as_slice(), e);
        assert(dyld@ =~= dyld_block(m, a));
        let nl: usize = self.nlist_size;
        let mut symtab: Vec<u8> = Vec::new();
        let sv: Vec<u64> = vec![LC_SYMTAB as u64, 24, a.symtab as u64, (t.symtab.len / nl) as u64, a.strtab as u64,
            t.strtab.len as u64];
        let w6 = crate::header::words_layout(6);
        write_fields(&mut symtab, sv.as_slice(), w6.as_slice(), e);
        assert(symtab@ =~= symtab_block(m, a));
        let ms: usize = if is64 { 56 } else { 52 };
        let mut dysym: Vec<u8> = Vec::new();
        let yv: Vec<u64> = vec![LC_DYSYMTAB as u64, 80, a.ilocalsym as u64, t.localsym.count as u64,
            a.iextdefsym as u64, t.extdefsym.count as u64, a.iundefsym as u64, t.undefsym.count as u64, a.toc as u64,
            (t.toc.len / 8) as u64, a.modtab as u64, (t.modtab.len / ms) as u64, a.extrefsym as u64,
            (t.extrefsym.len / 4) as u64, a.indirectsym as u64, (t.indirectsym.len / 4) as u64, t.extrel.off as u64,
            t.extrel.count as u64, t.locrel.off as u64, t.locrel.count as u64];
        let w20 = crate::header::words_layout(20);
        write_fields(&mut dysym, yv.as_slice(), w20.as_slice(), e);
        assert(dysym@ =~= dysymtab_block(m, a));
        let mut out: Vec<Vec<u8>> = Vec::new();
        let mut ins: usize = 0;
        let mut other: bool = false;
        let mut i: usize = 0;
        while i < self.load_commands.len()
            invariant
                i <= self.load_commands@.len(),
                self.wf(),
                backing@.len() == self.buf.cap,
                m == self.model(),
                cmds == self.cmd_bytes(backing@),
                cmds.len() == self.load_commands@.len(),
                is64 == m.is64,
                e == m.e,
                seg_blocks@.len() == m.segs.len(),
                forall|j: int| 0 <= j < m.segs.len() ==> (#[trigger] seg_blocks@[j])@ == seg_cmd_bytes(m.segs, m.sects, j as nat, m.is64, m.e),
                dyld@ == dyld_block(m, a),
                symtab@ == symtab_block(m, a),
                dysym@ == dysymtab_block(m, a),
                blocks_view(out@) == base_blocks(m, a, cmds, i as nat),
                other == has_other(m, cmds, i as nat),
                ins == insert_point(m, a, cmds, i as nat),
            decreases self.load_commands@.len() - i,
        {
            let lc = self.load_commands[i];
            let c: &[u8] = lc.get(backing);
            proof {
                assert(cmds[i as int] == c@);
            }
            let ty: u64 = if c.len() >= 4 { crate::codec::read_uint(c, 0, 4, e) } else { 0 };
            proof {
                if c@.len() >= 4 {
                    assert(c@.subrange(0, 4) =~= c@.take(4));
                }
                assert(ty == cmd_type(cmds[i as int], m.e));
                assert(m.segs.len() == self.segments@.len());
            }
            let ghost before = out@;
            let is_seg = ty == LC_SEGMENT as u64 || ty == LC_SEGMENT_64 as u64;
            if is_seg {
                let mut j: usize = 0;
                let mut found: Option<usize> = None;
                while j < self.segments.len()
                    invariant
                        j <= self.segments@.len(),
                        m == self.model(),
                        (found is Some) == (seg_for(m.segs, i as nat, j as nat) is Some),
                        found is Some ==> found->0 as nat == seg_for(m.segs, i as nat, j as nat)->0,
                        found is Some ==> found->0 < j,
                    decreases self.segments@.len() - j,
                {
                    if found.is_none() && self.segments[j].origin == Some(i) {
                        assert(m.segs[j as int] == self.segments@[j as int]@);
                        found = Some(j);
                    } else {
                        assert(m.segs[j as int] == self.segments@[j as int]@);
                    }
                    j = j + 1;
                }
                match found {
                    Some(x) => {
                        out.push(copy_bytes(&seg_blocks[x]));
                    },
                    None => {},
                }
            } else if ty == LC_DYLD_INFO as u64 || ty == LC_DYLD_INFO_ONLY as u64 {
                out.push(copy_bytes(&dyld));
            } else if ty == LC_SYMTAB as u64 {
                out.push(copy_bytes(&symtab));
            } else if ty == LC_DYSYMTAB as u64 {
                out.push(copy_bytes(&dysym));
            } else {
                out.push(vstd::slice::slice_to_vec(c));
            }
            proof {
                if out@.len() > before.len() {
                    assert(out@ == before.push(out@.last()));
                    lemma_blocks_push(before, out@.last());
                } else {
                    assert(out@ == before);
                }
                assert(blocks_view(out@) =~= blocks_view(before) + emit(m, a, cmds[i as int], i as nat));
            }
            if !other && is_seg {
                ins = out.len();
            }
            if !is_seg {
                other = true;
            }
            i = i + 1;
        }
        let mut extra: Vec<Vec<u8>> = Vec::new();
        let mut k: usize = 0;
        while k < self.segments.len()
            invariant
                k <= self.segments@.len(),
                m == self.model(),
                seg_blocks@.len() == m.segs.len(),
                forall|j: int| 0 <= j < m.segs.len() ==> (#[trigger] seg_blocks@[j])@ == seg_cmd_bytes(m.segs, m.sects, j as nat, m.is64, m.e),
                blocks_view(extra@) == new_seg_blocks(m, k as nat),
            decreases self.segments@.len() - k,
        {
            let ghost before_push = extra@;
            assert(m.segs[k as int] == self.segments@[k as int]@);
            if self.segments[k].origin.is_none() {
                extra.push(copy_bytes(&seg_blocks[k]));
            }
            k = k + 1;
            proof {
                if extra@.len() > before_push.len() {
                    lemma_blocks_push(before_push, extra@.last());
                }
            }
            assert(blocks_view(extra@) =~= new_seg_blocks(m, k as nat));
        }
        let ghost b = blocks_view(out@);
        proof {
            lemma_insert_point_le(m, a, cmds, cmds.len());
        }
        let mut result: Vec<Vec<u8>> = Vec::new();
        let mut p: usize = 0;
        while p < ins
            invariant
                p <= ins <= out@.len(),
                b == blocks_view(out@),
                blocks_view(result@) == b.take(p as int),
            decreases ins - p,
        {
            let ghost before_push = result@;
            result.push(copy_bytes(&out[p]));
            p = p + 1;
            proof {
                if result@.len() > before_push.len() {
                    lemma_blocks_push(before_push, result@.last());
                }
            }
            assert(blocks_view(result@) =~= b.take(p as int));
        }
        let ghost mid = blocks_view(result@);
        let mut q: usize = 0;
        while q < extra.len()
            invariant
                q <= extra@.len(),
                blocks_view(result@) == mid + blocks_view(extra@).take(q as int),
            decreases extra@.len() - q,
        {
            let ghost before_push = result@;
            result.push(copy_bytes(&extra[q]));
            q = q + 1;
            proof {
                if result@.len() > before_push.len() {
                    lemma_blocks_push(before_push, result@.last());
                }
            }
            assert(blocks_view(result@) =~= mid + blocks_view(extra@).take(q as int));
        }
        assert(blocks_view(extra@).take(q as int) =~= blocks_view(extra@));
        let ghost mid2 = blocks_view(result@);
        let mut p2: usize = ins;
        while p2 < out.len()
            invariant
                ins <= p2 <= out@.len(),
                b == blocks_view(out@),
                blocks_view(result@) == mid2 + b.subrange(ins as int, p2 as int),
            decreases out@.len() - p2,
        {
            let ghost before_push = result@;
            result.push(copy_bytes(&out[p2]));
            p2 = p2 + 1;
            proof {
                if result@.len() > before_push.len() {
                    lemma_blocks_push(before_push, result@.last());
                }
            }
            assert(blocks_view(result@) =~= mid2 + b.subrange(ins as int, p2 as int));
        }
        assert(b.subrange(ins as int, p2 as int) =~= b.skip(ins as int));
        Ok(result)
    }
}

proof fn lemma_blocks_push(v: Seq<Vec<u8>>, x: Vec<u8>)
    ensures
        blocks_view(v.push(x)) == blocks_view(v).push(x@),
{
    assert(blocks_view(v.push(x)) =~= blocks_view(v).push(x@));
}

proof fn lemma_insert_point_le(m: ModelV, a: Allocations, cmds: Seq<Seq<u8>>, k: nat)
    requires
        k <= cmds.len(),
    ensures
        insert_point(m, a, cmds, k) <= base_blocks(m, a, cmds, k).len(),
    decreases k,
{
    if k > 0 {
        lemma_insert_point_le(m, a, cmds, (k - 1) as nat);
    }
}

/// Whether a command's type is one the rewriter rebuilds.
pub open spec fn is_regenerable(t: nat) -> bool {
    is_seg_type(t) || t == LC_DYLD_INFO || t == LC_DYLD_INFO_ONLY || t == LC_SYMTAB || t == LC_DYSYMTAB
}

proof fn lemma_base_prefix(m: ModelV, a: Allocations, cmds: Seq<Seq<u8>>, k: nat, n: nat)
    requires
        k <= n <= cmds.len(),
    ensures
        base_blocks(m, a, cmds, k).len() <= base_blocks(m, a, cmds, n).len(),
        base_blocks(m, a, cmds, n).take(base_blocks(m, a, cmds, k).len() as int) == base_blocks(m, a, cmds, k),
    decreases n - k,
{
    if k < n {
        lemma_base_prefix(m, a, cmds, k, (n - 1) as nat);
        let bk = base_blocks(m, a, cmds, k);
        let bp = base_blocks(m, a, cmds, (n - 1) as nat);
        let bn = base_blocks(m, a, cmds, n);
        assert(bn == bp + emit(m, a, cmds[n - 1], (n - 1) as nat));
        assert(bn.take(bk.len() as int) =~= bp.take(bk.len() as int));
    } else {
        assert(base_blocks(m, a, cmds, n).take(base_blocks(m, a, cmds, k).len() as int) =~= base_blocks(m, a, cmds, k));
    }
}

proof fn lemma_has_other_mono(m: ModelV, cmds: Seq<Seq<u8>>, i: nat, k: nat)
    requires
        i < k <= cmds.len(),
        !is_seg_type(cmd_type(cmds[i as int], m.e)),
    ensures
        has_other(m, cmds, k),
    decreases k - i,
{
    if k > i + 1 {
        lemma_has_other_mono(m, cmds, i, (k - 1) as nat);
    }
}

proof fn lemma_insert_before(m: ModelV, a: Allocations, cmds: Seq<Seq<u8>>, i: nat, k: nat)
    requires
        i < k <= cmds.len(),
        !is_seg_type(cmd_type(cmds[i as int], m.e)),
    ensures
        insert_point(m, a, cmds, k) <= base_blocks(m, a, cmds, i).len(),
    decreases k - i,
{
    if k == i + 1 {
        lemma_insert_point_le(m, a, cmds, i);
    } else {
        lemma_insert_before(m, a, cmds, i, (k - 1) as nat);
        lemma_has_other_mono(m, cmds, i, (k - 1) as nat);
    }
}

/// A command of a type that the rewriter does not rebuild comes out
/// byte for byte: in the new command area it stands at its own position
/// among the rebuilt commands, shifted by the segment commands added
/// before it.
pub proof fn lemma_unrecognized_pass_through(m: ModelV, a: Allocations, cmds: Seq<Seq<u8>>, i: nat)
    requires
        i < cmds.len(),
        !is_regenerable(cmd_type(cmds[i as int], m.e)),
        rewrite_spec(m, cmds, a) is Ok,
    ensures
        rewrite_spec(m, cmds, a)->Ok_0[(base_blocks(m, a, cmds, i).len() + new_seg_blocks(m, m.segs.len()).len()) as int]
            == cmds[i as int],
{
    let n = cmds.len();
    let b = base_blocks(m, a, cmds, n);
    let pos: int = base_blocks(m, a, cmds, i).len() as int;
    let p: int = insert_point(m, a, cmds, n) as int;
    let x = new_seg_blocks(m, m.segs.len());
    lemma_base_prefix(m, a, cmds, i + 1, n);
    assert(base_blocks(m, a, cmds, i + 1) == base_blocks(m, a, cmds, i) + seq![cmds[i as int]]);
    assert(b.take(pos + 1)[pos] == cmds[i as int]);
    lemma_insert_before(m, a, cmds, i, n);
    lemma_insert_point_le(m, a, cmds, n);
    let bs = b.take(p) + x + b.skip(p);
    assert(bs[pos + x.len()] == b.skip(p)[pos - p]);
}

/// Rebuilding the symbol-table command of an unedited model, whose tables
/// were not clamped, at the offsets it was read with gives the command's bytes.
pub proof fn lemma_symtab_regenerated(w: WalkV, c: Seq<u8>, buf: MCRef, m: ModelV, a: Allocations)
    requires
        buf.wf(),
        c.len() == 24,
        symtab_step(w, c, m.is64, m.e, buf) is Ok,
        m.tables == symtab_step(w, c, m.is64, m.e, buf)->Ok_0.tables,
        fields_val(c.subrange(0, 24), words(6), m.e)[0] == LC_SYMTAB,
        fields_val(c.subrange(0, 24), words(6), m.e)[1] == 24,
        fields_val(c.subrange(0, 24), words(6), m.e)[2] + fields_val(c.subrange(0, 24), words(6), m.e)[3] * nlist_size(m.is64) <= buf.len,
        fields_val(c.subrange(0, 24), words(6), m.e)[4] + fields_val(c.subrange(0, 24), words(6), m.e)[5] <= buf.len,
        a.symtab as u64 == fields_val(c.subrange(0, 24), words(6), m.e)[2],
        a.strtab as u64 == fields_val(c.subrange(0, 24), words(6), m.e)[4],
    ensures
        symtab_block(m, a) == c,
{
    let f = fields_val(c.subrange(0, 24), words(6), m.e);
    crate::header::lemma_words_total(6);
    assert(c.subrange(0, 24) =~= c);
    crate::codec::lemma_fields_inverse(c, words(6), m.e);
    reveal_with_fuel(fields_val, 7);
    let nl = nlist_size(m.is64) as nat;
    assert(f[3] * nl <= buf.len);
    assert(((f[3] * nl) as int) / (nl as int) == f[3]) by (nonlinear_arith)
        requires nl > 0;
    let v = seq![LC_SYMTAB as u64, 24, a.symtab as u64, (m.tables.symtab.len as nat / nl) as u64,
        a.strtab as u64, m.tables.strtab.len as u64];
    assert(v =~= f);
}

/// Rebuilding the dynamic-linker info command of an unedited model, whose
/// regions were not clamped, at the offsets it was read with gives the command's
/// bytes.
pub proof fn lemma_dyld_regenerated(w: WalkV, c: Seq<u8>, buf: MCRef, m: ModelV, a: Allocations)
    requires
        buf.wf(),
        c.len() == 48,
        dyld_step(w, c, m.e, buf) is Ok,
        m.tables == dyld_step(w, c, m.e, buf)->Ok_0.tables,
        fields_val(c.subrange(0, 48), words(12), m.e)[0] == LC_DYLD_INFO
            || fields_val(c.subrange(0, 48), words(12), m.e)[0] == LC_DYLD_INFO_ONLY,
        fields_val(c.subrange(0, 48), words(12), m.e)[1] == 48,
        fields_val(c.subrange(0, 48), words(12), m.e)[2] + fields_val(c.subrange(0, 48), words(12), m.e)[3] <= buf.len,
        fields_val(c.subrange(0, 48), words(12), m.e)[4] + fields_val(c.subrange(0, 48), words(12), m.e)[5] <= buf.len,
        fields_val(c.subrange(0, 48), words(12), m.e)[6] + fields_val(c.subrange(0, 48), words(12), m.e)[7] <= buf.len,
        fields_val(c.subrange(0, 48), words(12), m.e)[8] + fields_val(c.subrange(0, 48), words(12), m.e)[9] <= buf.len,
        fields_val(c.subrange(0, 48), words(12), m.e)[10] + fields_val(c.subrange(0, 48), words(12), m.e)[11] <= buf.len,
        a.dyld_rebase as u64 == fields_val(c.subrange(0, 48), words(12), m.e)[2],
        a.dyld_bind as u64 == fields_val(c.subrange(0, 48), words(12), m.e)[4],
        a.dyld_weak_bind as u64 == fields_val(c.subrange(0, 48), words(12), m.e)[6],
        a.dyld_lazy_bind as u64 == fields_val(c.subrange(0, 48), words(12), m.e)[8],
        a.dyld_export as u64 == fields_val(c.subrange(0, 48), words(12), m.e)[10],
    ensures
        dyld_block(m, a) == c,
{
    let f = fields_val(c.subrange(0, 48), words(12), m.e);
    crate::header::lemma_words_total(12);
    assert(c.subrange(0, 48) =~= c);
    crate::codec::lemma_fields_inverse(c, words(12), m.e);
    reveal_with_fuel(fields_val, 13);
    let t = m.tables;
    let id: u64 = if t.dyld_info_is_only { LC_DYLD_INFO_ONLY as u64 } else { LC_DYLD_INFO as u64 };
    let v = seq![id, 48, a.dyld_rebase as u64, t.dyld_rebase.len as u64, a.dyld_bind as u64, t.dyld_bind.len as u64,
        a.dyld_weak_bind as u64, t.dyld_weak_bind.len as u64, a.dyld_lazy_bind as u64, t.dyld_lazy_bind.len as u64,
        a.dyld_export as u64, t.dyld_export.len as u64];
    assert(v =~= f);
}

/// Rebuilding the dynamic symbol-table command of an unedited model, whose
/// tables were not clamped, at the offsets and base indices it was read with gives
/// the command's bytes.
pub proof fn lemma_dysymtab_regenerated(w: WalkV, c: Seq<u8>, buf: MCRef, m: ModelV, a: Allocations)
    requires
        buf.wf(),
        c.len() == 80,
        dysymtab_step(w, c, m.is64, m.e, buf) is Ok,
        m.tables == dysymtab_step(w, c, m.is64, m.e, buf)->Ok_0.tables,
        fields_val(c.subrange(0, 80), words(20), m.e)[0] == LC_DYSYMTAB,
        fields_val(c.subrange(0, 80), words(20), m.e)[1] == 80,
        fields_val(c.subrange(0, 80), words(20), m.e)[8] + fields_val(c.subrange(0, 80), words(20), m.e)[9] * 8 <= buf.len,
        fields_val(c.subrange(0, 80), words(20), m.e)[10] + fields_val(c.subrange(0, 80), words(20), m.e)[11] * module_size(m.is64) <= buf.len,
        fields_val(c.subrange(0, 80), words(20), m.e)[12] + fields_val(c.subrange(0, 80), words(20), m.e)[13] * 4 <= buf.len,
        fields_val(c.subrange(0, 80), words(20), m.e)[14] + fields_val(c.subrange(0, 80), words(20), m.e)[15] * 4 <= buf.len,
        a.ilocalsym as u64 == fields_val(c.subrange(0, 80), words(20), m.e)[2],
        a.iextdefsym as u64 == fields_val(c.subrange(0, 80), words(20), m.e)[4],
        a.iundefsym as u64 == fields_val(c.subrange(0, 80), words(20), m.e)[6],
        a.toc as u64 == fields_val(c.subrange(0, 80), words(20), m.e)[8],
        a.modtab as u64 == fields_val(c.subrange(0, 80), words(20), m.e)[10],
        a.extrefsym as u64 == fields_val(c.subrange(0, 80), words(20), m.e)[12],
        a.indirectsym as u64 == fields_val(c.subrange(0, 80), words(20), m.e)[14],
    ensures
        dysymtab_block(m, a) == c,
{
    let f = fields_val(c.subrange(0, 80), words(20), m.e);
    crate::header::lemma_words_total(20);
    assert(c.subrange(0, 80) =~= c);
    crate::codec::lemma_fields_inverse(c, words(20), m.e);
    crate::codec::lemma_pow256(4);
    crate::codec::lemma_fields_bound(c.subrange(0, 80), words(20), m.e);
    assert forall|i: int| 0 <= i < 20 implies (#[trigger] f[i]) < 0x1_0000_0000 by {
        assert(words(20)[i] == 4usize);
    }
    let ms = module_size(m.is64) as nat;
    assert(((f[9] * 8) as int) / 8 == f[9]);
    assert(((f[11] * ms) as int) / (ms as int) == f[11]) by (nonlinear_arith)
        requires ms > 0;
    assert(((f[13] * 4) as int) / 4 == f[13]);
    assert(((f[15] * 4) as int) / 4 == f[15]);
    let t = m.tables;
    let v = seq![LC_DYSYMTAB as u64, 80, a.ilocalsym as u64, t.localsym.count as u64, a.iextdefsym as u64,
        t.extdefsym.count as u64, a.iundefsym as u64, t.undefsym.count as u64, a.toc as u64, (t.toc.len / 8) as u64,
        a.modtab as u64, (t.modtab.len as nat / ms) as u64, a.extrefsym as u64, (t.extrefsym.len / 4) as u64,
        a.indirectsym as u64, (t.indirectsym.len / 4) as u64, t.extrel.off as u64, t.extrel.count as u64,
        t.locrel.off as u64, t.locrel.count as u64];
    assert(v =~= f);
}

proof fn lemma_tail_totals(is64: bool)
    ensures
        total(seg_tail(is64)) + 24 == seg_hdr_size(is64),
        total(sect_tail(is64)) + 32 == sect_size(is64),
        is_layout(seg_tail(is64)),
        is_layout(sect_tail(is64)),
{
    reveal_with_fuel(total, 11);
    crate::header::lemma_words_total(8);
    crate::header::lemma_words_total(9);
}

/// A section whose record re-encodes to its own bytes.
pub open spec fn sect_stable(c: Seq<u8>, is64: bool, e: Endian, k: nat) -> bool {
    let p = sect_pos(is64, k) as int;
    let f = sect_fields(c, is64, e, k);
    &&& c.subrange(p + 16, p + 32) == c.subrange(8, 24)
    &&& fix_size(f[0], f[1], is64) == f[1]
}

proof fn lemma_sect_identity(c: Seq<u8>, is64: bool, e: Endian, k: nat, si: usize, origin: usize)
    requires
        sect_pos(is64, k + 1) <= c.len(),
        sect_stable(c, is64, e, k),
    ensures
        sect_bytes(sect_v(c, is64, e, k, si, origin), c.subrange(8, 24), is64, e)
            == c.subrange(sect_pos(is64, k) as int, sect_pos(is64, k + 1) as int),
{
    let p = sect_pos(is64, k) as int;
    let ss = sect_size(is64) as int;
    assert(sect_pos(is64, k + 1) == p + ss) by (nonlinear_arith)
        requires p == seg_hdr_size(is64) + k * sect_size(is64), ss == sect_size(is64);
    lemma_tail_totals(is64);
    let t = c.subrange(p + 32, p + ss);
    let f = sect_fields(c, is64, e, k);
    crate::codec::lemma_fields_bound(t, sect_tail(is64), e);
    crate::codec::lemma_fields_inverse(t, sect_tail(is64), e);
    crate::codec::lemma_pow256(4);
    assert forall|j: int| 2 <= j < sect_tail(is64).len() implies (#[trigger] f[j]) < 0x1_0000_0000 by {
        assert(sect_tail(is64)[j] == 4usize);
    }
    let x = sect_v(c, is64, e, k, si, origin);
    assert(sect_vals(x, is64) =~= f);
    assert(sect_bytes(x, c.subrange(8, 24), is64, e) =~= c.subrange(p, p + ss));
}

proof fn lemma_sects_of_segment(
    c: Seq<u8>, is64: bool, e: Endian, old_sects: Seq<SectionV>, n: nat, si: usize, origin: usize, k: nat,
)
    requires
        sect_pos(is64, n) <= c.len(),
        k <= old_sects.len() + n,
        forall|j: int| 0 <= j < old_sects.len() ==> (#[trigger] old_sects[j]).seg_idx != si,
        forall|j: nat| j < n ==> #[trigger] sect_stable(c, is64, e, j),
    ensures
        ({
            let all = old_sects + Seq::new(n, |j: int| sect_v(c, is64, e, j as nat, si, origin));
            let d: nat = if k <= old_sects.len() { 0 } else { (k - old_sects.len()) as nat };
            &&& count_sects(all, si as nat, k) == d
            &&& sects_bytes(all, si as nat, c.subrange(8, 24), is64, e, k)
                == c.subrange(seg_hdr_size(is64) as int, sect_pos(is64, d) as int)
        }),
    decreases k,
{
    let all = old_sects + Seq::new(n, |j: int| sect_v(c, is64, e, j as nat, si, origin));
    if k == 0 {
        assert(c.subrange(seg_hdr_size(is64) as int, sect_pos(is64, 0) as int) =~= Seq::empty());
    } else {
        lemma_sects_of_segment(c, is64, e, old_sects, n, si, origin, (k - 1) as nat);
        if k <= old_sects.len() {
            assert(all[k - 1] == old_sects[k - 1]);
        } else {
            let j = (k - 1 - old_sects.len()) as nat;
            assert(all[k - 1] == sect_v(c, is64, e, j, si, origin));
            assert(sect_stable(c, is64, e, j));
            assert(sect_pos(is64, j + 1) <= sect_pos(is64, n)) by (nonlinear_arith)
                requires j + 1 <= n;
            lemma_sect_identity(c, is64, e, j, si, origin);
            assert(sect_pos(is64, j) >= seg_hdr_size(is64)) by (nonlinear_arith)
                requires true;
            assert(c.subrange(seg_hdr_size(is64) as int, sect_pos(is64, j) as int) + c.subrange(
                sect_pos(is64, j) as int,
                sect_pos(is64, j + 1) as int,
            ) =~= c.subrange(seg_hdr_size(is64) as int, sect_pos(is64, j + 1) as int));
        }
    }
}

/// Rebuilding a segment command of an unedited model gives the command's
/// bytes, when the command has exactly the size its sections need, no range
/// was cut down, its protection has only the read, write and execute bits,
/// and each section names its segment.
#[verifier::rlimit(60)]
pub proof fn lemma_segment_regenerated(w: WalkV, c: Seq<u8>, is64: bool, e: Endian, origin: usize, m: ModelV)
    requires
        seg_step(w, c, is64, e, origin) is Ok,
        m.segs == seg_step(w, c, is64, e, origin)->Ok_0.segs,
        m.sects == seg_step(w, c, is64, e, origin)->Ok_0.sects,
        m.is64 == is64,
        m.e == e,
        w.segs.len() < usize::MAX,
        forall|j: int| 0 <= j < w.sects.len() ==> (#[trigger] w.sects[j]).seg_idx != w.segs.len() as usize,
        c.len() == sect_pos(is64, seg_fields(c, is64, e)[6] as nat),
        uint_val(c.subrange(0, 4), e) == (if is64 { LC_SEGMENT_64 } else { LC_SEGMENT }),
        uint_val(c.subrange(4, 8), e) == c.len(),
        seg_fields(c, is64, e)[5] < 8,
        fix_size(seg_fields(c, is64, e)[0], seg_fields(c, is64, e)[1], is64) == seg_fields(c, is64, e)[1],
        fix_size(seg_fields(c, is64, e)[2], seg_fields(c, is64, e)[3], is64) == seg_fields(c, is64, e)[3],
        forall|j: nat| j < seg_fields(c, is64, e)[6] ==> #[trigger] sect_stable(c, is64, e, j),
    ensures
        seg_cmd_bytes(m.segs, m.sects, w.segs.len(), is64, e) == c,
{
    let f = seg_fields(c, is64, e);
    let n = f[6] as nat;
    let si = w.segs.len() as usize;
    let hs = seg_hdr_size(is64) as int;
    lemma_tail_totals(is64);
    let tail = c.subrange(24, hs);
    crate::codec::lemma_fields_bound(tail, seg_tail(is64), e);
    crate::codec::lemma_fields_inverse(tail, seg_tail(is64), e);
    crate::codec::lemma_pow256(4);
    assert forall|j: int| 4 <= j < 8 implies (#[trigger] f[j]) < 0x1_0000_0000 by {
        assert(seg_tail(is64)[j] == 4usize);
    }
    lemma_sects_of_segment(c, is64, e, w.sects, n, si, origin, w.sects.len() + n);
    assert(m.sects.len() == w.sects.len() + n);
    let s = m.segs[w.segs.len() as int];
    assert(s == seg_v(c, is64, e, origin));
    assert(si as nat == w.segs.len());
    let f5 = f[5] as u32;
    assert(prot_bits(prot_of(f5)) == f5) by (bit_vector)
        requires f5 < 8;
    assert(seg_vals(s, n) =~= f);
    let head = c.subrange(0, 8);
    crate::header::lemma_words_total(2);
    crate::codec::lemma_fields_inverse(head, words(2), e);
    reveal_with_fuel(fields_val, 3);
    assert(head.subrange(0, 4) =~= c.subrange(0, 4));
    assert(head.subrange(4, 8) =~= c.subrange(4, 8));
    let cmd: u64 = if is64 { LC_SEGMENT_64 as u64 } else { LC_SEGMENT as u64 };
    assert(seq![cmd, (seg_hdr_size(is64) + n * sect_size(is64)) as u64] =~= fields_val(head, words(2), e));
    assert(head + c.subrange(8, 24) + tail + c.subrange(hs, sect_pos(is64, n) as int) =~= c);
}

proof fn lemma_sects_bytes_len(sects: Seq<SectionV>, si: nat, segname: Seq<u8>, is64: bool, e: Endian, k: nat)
    requires
        k <= sects.len(),
        segname.len() == 16,
        forall|j: int| 0 <= j < sects.len() ==> (#[trigger] sects[j]).name.len() == 16,
    ensures
        sects_bytes(sects, si, segname, is64, e, k).len() == count_sects(sects, si, k) * sect_size(is64),
    decreases k,
{
    if k > 0 {
        lemma_sects_bytes_len(sects, si, segname, is64, e, (k - 1) as nat);
        lemma_tail_totals(is64);
        let x = sects[k - 1];
        if x.seg_idx == si {
            let vals = sect_vals(x, is64);
            assert(vals.len() == sect_tail(is64).len());
            crate::codec::lemma_fields_len(vals, sect_tail(is64), e);
        }
        let c0 = count_sects(sects, si, (k - 1) as nat);
        assert((c0 + 1) * sect_size(is64) == c0 * sect_size(is64) + sect_size(is64)) by (nonlinear_arith);
    }
}

/// Reading back a rebuilt segment command gives the segment it was built
/// from, with the new command's position as its origin, and as many
/// sections as the segment had; this holds when every value fits its field
/// and no range overflows the address width.
pub proof fn lemma_segment_reparsed(w: WalkV, m: ModelV, si: nat, origin: usize)
    requires
        si < m.segs.len(),
        m.segs[si as int].name.len() == 16,
        forall|j: int| 0 <= j < m.sects.len() ==> (#[trigger] m.sects[j]).name.len() == 16,
        m.segs[si as int].vmsize <= addr_limit(m.is64) - m.segs[si as int].vmaddr,
        m.segs[si as int].filesize <= addr_limit(m.is64) - m.segs[si as int].fileoff,
        !m.is64 ==> m.segs[si as int].vmaddr <= U32_MAX && m.segs[si as int].vmsize <= U32_MAX
            && m.segs[si as int].fileoff <= U32_MAX && m.segs[si as int].filesize <= U32_MAX,
        seg_hdr_size(m.is64) + count_sects(m.sects, si, m.sects.len()) * sect_size(m.is64) <= U32_MAX,
    ensures
        ({
            let c = seg_cmd_bytes(m.segs, m.sects, si, m.is64, m.e);
            let r = seg_step(w, c, m.is64, m.e, origin);
            &&& r is Ok
            &&& r->Ok_0.segs.last() == SegmentV { origin: Some(origin), ..m.segs[si as int] }
            &&& r->Ok_0.sects.len() == w.sects.len() + count_sects(m.sects, si, m.sects.len())
        }),
{
    let is64 = m.is64;
    let e = m.e;
    let s = m.segs[si as int];
    let n = count_sects(m.sects, si, m.sects.len());
    let cmd: u64 = if is64 { LC_SEGMENT_64 as u64 } else { LC_SEGMENT as u64 };
    let hv = seq![cmd, (seg_hdr_size(is64) + n * sect_size(is64)) as u64];
    let h = fields_bytes(hv, words(2), e);
    let vals = seg_vals(s, n);
    let t = fields_bytes(vals, seg_tail(is64), e);
    let sb = sects_bytes(m.sects, si, s.name, is64, e, m.sects.len());
    let c = seg_cmd_bytes(m.segs, m.sects, si, is64, e);
    lemma_tail_totals(is64);
    crate::header::lemma_words_total(2);
    crate::codec::lemma_pow256(4);
    crate::codec::lemma_pow256(8);
    assert(crate::codec::fits(hv, words(2))) by {
        assert forall|i: int| 0 <= i < hv.len() implies (#[trigger] hv[i]) < pow256(words(2)[i] as nat) by {
            assert(words(2)[i] == 4usize);
        }
    }
    crate::codec::lemma_fields_round_trip(hv, words(2), e);
    let pb = prot_bits(s.prot);
    let (pr, pw, px) = (s.prot.r, s.prot.w, s.prot.x);
    assert(pb < 8 && ((pb & 1 != 0) == pr) && ((pb & 2 != 0) == pw) && ((pb & 4 != 0) == px)) by (bit_vector)
        requires pb == (if pr { 1u32 } else { 0u32 }) | (if pw { 2u32 } else { 0u32 }) | (if px { 4u32 } else { 0u32 });
    assert(prot_of(pb) == s.prot);
    assert(crate::codec::fits(vals, seg_tail(is64))) by {
        assert forall|i: int| 0 <= i < vals.len() implies (#[trigger] vals[i]) < pow256(seg_tail(is64)[i] as nat) by {
            if i >= 4 {
                assert(seg_tail(is64)[i] == 4usize);
            } else if is64 {
                assert(seg_tail(is64)[i] == 8usize);
            } else {
                assert(seg_tail(is64)[i] == 4usize);
            }
        }
    }
    crate::codec::lemma_fields_round_trip(vals, seg_tail(is64), e);
    lemma_sects_bytes_len(m.sects, si, s.name, is64, e, m.sects.len());
    assert(c == h + s.name + t + sb);
    assert(c.subrange(24, seg_hdr_size(is64) as int) =~= t);
    assert(c.subrange(8, 24) =~= s.name);
    assert(seg_fields(c, is64, e) == vals);
    assert(sect_pos(is64, n) == c.len());
    let r = seg_step(w, c, is64, e, origin);
    assert(r->Ok_0.segs.last() =~= seg_v(c, is64, e, origin));
}

/// Reading back a rebuilt symbol-table command locates the symbol and
/// string tables at their new offsets with their sizes unchanged, when both
/// fit the buffer and the symbol table holds whole entries.
pub proof fn lemma_symtab_reparsed(w: WalkV, m: ModelV, a: Allocations, buf: MCRef)
    requires
        buf.wf(),
        m.tables.symtab.len as nat % nlist_size(m.is64) as nat == 0,
        a.symtab + m.tables.symtab.len <= buf.len,
        a.strtab + m.tables.strtab.len <= buf.len,
        m.tables.symtab.len <= U32_MAX,
        m.tables.strtab.len <= U32_MAX,
    ensures
        ({
            let r = symtab_step(w, symtab_block(m, a), m.is64, m.e, buf);
            &&& r is Ok
            &&& r->Ok_0.tables.symtab == (MCRef { handle: buf.handle, cap: buf.cap, off: (buf.off + a.symtab) as usize, len: m.tables.symtab.len })
            &&& r->Ok_0.tables.strtab == (MCRef { handle: buf.handle, cap: buf.cap, off: (buf.off + a.strtab) as usize, len: m.tables.strtab.len })
        }),
{
    let t = m.tables;
    let nl = nlist_size(m.is64) as nat;
    let cnt = (t.symtab.len as nat / nl) as u64;
    let v = seq![LC_SYMTAB as u64, 24, a.symtab as u64, cnt, a.strtab as u64, t.strtab.len as u64];
    crate::header::lemma_words_total(6);
    crate::codec::lemma_pow256(4);
    assert(crate::codec::fits(v, words(6))) by {
        assert forall|i: int| 0 <= i < v.len() implies (#[trigger] v[i]) < pow256(words(6)[i] as nat) by {
            assert(words(6)[i] == 4usize);
        }
    }
    crate::codec::lemma_fields_round_trip(v, words(6), m.e);
    let c = symtab_block(m, a);
    assert(c.subrange(0, 24) =~= c);
    assert(cnt * nl == t.symtab.len) by (nonlinear_arith)
        requires cnt == t.symtab.len as nat / nl, t.symtab.len as nat % nl == 0, nl > 0;
}

} // verus!
