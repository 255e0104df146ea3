//! The load-command walker: frames the command stream and decodes the
//! commands that the model tracks. Each command's effect is stated as a
//! step on the model; the walk is the steps in order.

use vstd::prelude::*;
use crate::util::Endian;
use crate::codec::{fields_val, is_layout, pow256, read_fields, read_uint, total, uint_val};
use crate::header::{MachOError, words, words_layout};
use crate::model::{seg_views, sect_views, empty_tables, tables_wf, prot_of, u32_to_prot, RelSubset, Section, SectionV, Segment, SegmentV, SymSubset, Tables};
use crate::region::{file_array, table_region, table_warning, MCRef, Table, Warning};

verus! {

pub const LC_SEGMENT: u32 = 0x1;
pub const LC_SYMTAB: u32 = 0x2;
pub const LC_DYSYMTAB: u32 = 0xb;
pub const LC_SEGMENT_64: u32 = 0x19;
pub const LC_DYLD_INFO: u32 = 0x22;
pub const LC_DYLD_INFO_ONLY: u32 = 0x8000_0022;

pub const U32_MAX: u64 = 0xffff_ffff;
pub const U64_MAX: u64 = 0xffff_ffff_ffff_ffff;

/// Layout of a segment command after its name.
pub open spec fn seg_tail(is64: bool) -> Seq<usize> {
    if is64 {
        seq![8usize, 8, 8, 8, 4, 4, 4, 4]
    } else {
        words(8)
    }
}

/// Layout of a section record after its two names.
pub open spec fn sect_tail(is64: bool) -> Seq<usize> {
    if is64 {
        seq![8usize, 8, 4, 4, 4, 4, 4, 4, 4, 4]
    } else {
        words(9)
    }
}

pub open spec fn seg_hdr_size(is64: bool) -> nat {
    if is64 { 72 } else { 56 }
}

pub open spec fn sect_size(is64: bool) -> nat {
    if is64 { 80 } else { 68 }
}

pub fn seg_tail_layout(is64: bool) -> (r: Vec<usize>)
    ensures
        r@ == seg_tail(is64),
        is_layout(r@),
        24 + total(r@) == seg_hdr_size(is64),
{
    if is64 {
        let r: Vec<usize> = vec![8, 8, 8, 8, 4, 4, 4, 4];
        assert(r@ =~= seg_tail(is64));
        reveal_with_fuel(total, 9);
        r
    } else {
        words_layout(8)
    }
}

pub fn sect_tail_layout(is64: bool) -> (r: Vec<usize>)
    ensures
        r@ == sect_tail(is64),
        is_layout(r@),
        32 + total(r@) == sect_size(is64),
{
    if is64 {
        let r: Vec<usize> = vec![8, 8, 4, 4, 4, 4, 4, 4, 4, 4];
        assert(r@ =~= sect_tail(is64));
        reveal_with_fuel(total, 11);
        r
    } else {
        words_layout(9)
    }
}

/// The largest value of the address width.
pub open spec fn addr_limit(is64: bool) -> u64 {
    if is64 { U64_MAX } else { U32_MAX }
}

/// A size cut down so that `base + size` fits 64 bits; 32-bit containers
/// keep it.
pub open spec fn fix_size(base: u64, size: u64, is64: bool) -> u64 {
    if is64 && size > U64_MAX - base { (U64_MAX - base) as u64 } else { size }
}

/// The warnings for a range pair that overflows the address width.
pub open spec fn fix_warnings(va: u64, vs: u64, fo: u64, fs: u64, is64: bool) -> Seq<Warning> {
    (if vs > addr_limit(is64) - va {
        seq![Warning::VmOverflow { is64, vmaddr: va, vmsize: vs }]
    } else {
        Seq::<Warning>::empty()
    }) + (if fs > addr_limit(is64) - fo {
        seq![Warning::FileOverflow { is64, fileoff: fo, filesize: fs }]
    } else {
        Seq::<Warning>::empty()
    })
}

fn fixup(va: u64, vs: u64, fo: u64, fs: u64, is64: bool, warnings: &mut Vec<Warning>) -> (r: (
    u64,
    u64,
))
    ensures
        r == (fix_size(va, vs, is64), fix_size(fo, fs, is64)),
        final(warnings)@ == old(warnings)@ + fix_warnings(va, vs, fo, fs, is64),
{
    let limit: u64 = if is64 { U64_MAX } else { U32_MAX };
    let mut nvs = vs;
    let mut nfs = fs;
    let ghost start = warnings@;
    if va > limit || vs > limit - va {
        warnings.push(Warning::VmOverflow { is64, vmaddr: va, vmsize: vs });
        if is64 {
            nvs = U64_MAX - va;
        }
    }
    if fo > limit || fs > limit - fo {
        warnings.push(Warning::FileOverflow { is64, fileoff: fo, filesize: fs });
        if is64 {
            nfs = U64_MAX - fo;
        }
    }
    assert(warnings@ =~= start + fix_warnings(va, vs, fo, fs, is64));
    (nvs, nfs)
}

/// Copies the 16 bytes at `p` of `c`.
pub fn read_name(c: &[u8], p: usize) -> (r: [u8; 16])
    requires
        p + 16 <= c@.len(),
    ensures
        r@ == c@.subrange(p as int, p + 16),
{
    let n: usize = c.len();
    let mut r: [u8; 16] = [0u8; 16];
    let mut i: usize = 0;
    while i < 16
        invariant
            i <= 16,
            n == c@.len(),
            p + 16 <= c@.len(),
            r@.len() == 16,
            forall|j: int| 0 <= j < i ==> r@[j] == c@[p + j],
        decreases 16 - i,
    {
        r[i] = c[p + i];
        i = i + 1;
    }
    assert(r@ =~= c@.subrange(p as int, p + 16));
    r
}

/// The segment that a segment command's bytes describe, before the
/// overflow fixup.
pub open spec fn seg_fields(c: Seq<u8>, is64: bool, e: Endian) -> Seq<u64> {
    fields_val(c.subrange(24, seg_hdr_size(is64) as int), seg_tail(is64), e)
}

pub open spec fn seg_v(c: Seq<u8>, is64: bool, e: Endian, origin: usize) -> SegmentV {
    let f = seg_fields(c, is64, e);
    SegmentV {
        name: c.subrange(8, 24),
        vmaddr: f[0],
        vmsize: fix_size(f[0], f[1], is64),
        fileoff: f[2],
        filesize: fix_size(f[2], f[3], is64),
        maxprot: f[4] as u32,
        prot: prot_of(f[5] as u32),
        flags: f[7] as u32,
        origin: Some(origin),
    }
}

pub open spec fn seg_warnings(c: Seq<u8>, is64: bool, e: Endian) -> Seq<Warning> {
    let f = seg_fields(c, is64, e);
    fix_warnings(f[0], f[1], f[2], f[3], is64)
}

/// Offset of section `k` within a segment command.
pub open spec fn sect_pos(is64: bool, k: nat) -> nat {
    seg_hdr_size(is64) + k * sect_size(is64)
}

pub open spec fn sect_fields(c: Seq<u8>, is64: bool, e: Endian, k: nat) -> Seq<u64> {
    let p = sect_pos(is64, k) as int;
    fields_val(c.subrange(p + 32, p + sect_size(is64) as int), sect_tail(is64), e)
}

pub open spec fn sect_v(c: Seq<u8>, is64: bool, e: Endian, k: nat, seg_idx: usize, origin: usize) -> SectionV {
    let p = sect_pos(is64, k) as int;
    let f = sect_fields(c, is64, e, k);
    SectionV {
        name: c.subrange(p as int, p + 16),
        addr: f[0],
        size: fix_size(f[0], f[1], is64),
        offset: f[2] as u32,
        align: f[3] as u32,
        reloff: f[4] as u32,
        nreloc: f[5] as u32,
        flags: f[6] as u32,
        reserved1: f[7] as u32,
        reserved2: f[8] as u32,
        reserved3: if is64 { f[9] as u32 } else { 0 },
        seg_idx,
        origin: Some(origin),
    }
}

pub open spec fn sect_warnings(c: Seq<u8>, is64: bool, e: Endian, k: nat) -> Seq<Warning> {
    let f = sect_fields(c, is64, e, k);
    fix_warnings(f[0], f[1], f[2], f[1], is64)
}

/// Warnings of the first `n` sections, in order.
pub open spec fn sects_warnings(c: Seq<u8>, is64: bool, e: Endian, n: nat) -> Seq<Warning>
    decreases n,
{
    if n == 0 {
        Seq::empty()
    } else {
        sects_warnings(c, is64, e, (n - 1) as nat) + sect_warnings(c, is64, e, (n - 1) as nat)
    }
}

/// The state of a walk: where the next command starts, the commands framed
/// so far, and what they added to the model.
pub struct WalkV {
    pub next: nat,
    pub cmds: Seq<MCRef>,
    pub segs: Seq<SegmentV>,
    pub sects: Seq<SectionV>,
    pub tables: Tables,
    pub warnings: Seq<Warning>,
}

/// What a segment command (`c`, the `origin`-th command) adds.
pub open spec fn seg_step(w: WalkV, c: Seq<u8>, is64: bool, e: Endian, origin: usize) -> Result<WalkV, MachOError> {
    if c.len() < seg_hdr_size(is64) {
        Err(MachOError::Truncated)
    } else {
        let n = seg_fields(c, is64, e)[6] as nat;
        if sect_pos(is64, n) > c.len() {
            Err(MachOError::Truncated)
        } else {
            let si = w.segs.len() as usize;
            Ok(WalkV {
                segs: w.segs.push(seg_v(c, is64, e, origin)),
                sects: w.sects + Seq::new(n, |k: int| sect_v(c, is64, e, k as nat, si, origin)),
                warnings: w.warnings + seg_warnings(c, is64, e) + sects_warnings(c, is64, e, n),
                ..w
            })
        }
    }
}

/// What a dynamic-linker info command adds.
pub open spec fn dyld_step(w: WalkV, c: Seq<u8>, e: Endian, buf: MCRef) -> Result<WalkV, MachOError> {
    if c.len() < 48 {
        Err(MachOError::Truncated)
    } else {
        let f = fields_val(c.subrange(0, 48), words(12), e);
        let len = buf.len as nat;
        Ok(WalkV {
            tables: Tables {
                dyld_info_is_only: f[0] == LC_DYLD_INFO_ONLY,
                dyld_rebase: table_region(buf, f[2], f[3], 1),
                dyld_bind: table_region(buf, f[4], f[5], 1),
                dyld_weak_bind: table_region(buf, f[6], f[7], 1),
                dyld_lazy_bind: table_region(buf, f[8], f[9], 1),
                dyld_export: table_region(buf, f[10], f[11], 1),
                ..w.tables
            },
            warnings: w.warnings + table_warning(Table::DyldRebase, len, f[2], f[3], 1)
                + table_warning(Table::DyldBind, len, f[4], f[5], 1)
                + table_warning(Table::DyldWeakBind, len, f[6], f[7], 1)
                + table_warning(Table::DyldLazyBind, len, f[8], f[9], 1)
                + table_warning(Table::DyldExport, len, f[10], f[11], 1),
            ..w
        })
    }
}

/// Size of a symbol-table entry.
pub open spec fn nlist_size(is64: bool) -> u64 {
    if is64 { 16 } else { 12 }
}

/// Size of a module-table entry.
pub open spec fn module_size(is64: bool) -> u64 {
    if is64 { 56 } else { 52 }
}

/// What a symbol-table command adds.
pub open spec fn symtab_step(w: WalkV, c: Seq<u8>, is64: bool, e: Endian, buf: MCRef) -> Result<WalkV, MachOError> {
    if c.len() < 24 {
        Err(MachOError::Truncated)
    } else {
        let f = fields_val(c.subrange(0, 24), words(6), e);
        let len = buf.len as nat;
        Ok(WalkV {
            tables: Tables {
                symtab: table_region(buf, f[2], f[3], nlist_size(is64)),
                strtab: table_region(buf, f[4], f[5], 1),
                ..w.tables
            },
            warnings: w.warnings + table_warning(Table::SymbolTable, len, f[2], f[3], nlist_size(is64))
                + table_warning(Table::StringTable, len, f[4], f[5], 1),
            ..w
        })
    }
}

/// What a dynamic symbol-table command adds.
pub open spec fn dysymtab_step(w: WalkV, c: Seq<u8>, is64: bool, e: Endian, buf: MCRef) -> Result<WalkV, MachOError> {
    if c.len() < 80 {
        Err(MachOError::Truncated)
    } else {
        let f = fields_val(c.subrange(0, 80), words(20), e);
        let len = buf.len as nat;
        Ok(WalkV {
            tables: Tables {
                localsym: SymSubset { off: f[2] as u32, count: f[3] as u32 },
                extdefsym: SymSubset { off: f[4] as u32, count: f[5] as u32 },
                undefsym: SymSubset { off: f[6] as u32, count: f[7] as u32 },
                toc: table_region(buf, f[8], f[9], 8),
                modtab: table_region(buf, f[10], f[11], module_size(is64)),
                extrefsym: table_region(buf, f[12], f[13], 4),
                indirectsym: table_region(buf, f[14], f[15], 4),
                extrel: RelSubset { off: f[16] as u32, count: f[17] as u32 },
                locrel: RelSubset { off: f[18] as u32, count: f[19] as u32 },
                ..w.tables
            },
            warnings: w.warnings + table_warning(Table::TableOfContents, len, f[8], f[9], 8)
                + table_warning(Table::ModuleTable, len, f[10], f[11], module_size(is64))
                + table_warning(Table::ReferencedSymbols, len, f[12], f[13], 4)
                + table_warning(Table::IndirectSymbols, len, f[14], f[15], 4),
            ..w
        })
    }
}

/// Frames the command at `w.next` of container bytes `b` and applies it.
#[verifier::opaque]
pub open spec fn cmd_step(b: Seq<u8>, buf: MCRef, is64: bool, e: Endian, w: WalkV, i: nat) -> Result<WalkV, MachOError> {
    let at = w.next as int;
    if at + 8 > b.len() {
        Err(MachOError::Truncated)
    } else {
        let size = uint_val(b.subrange(at + 4, at + 8), e) as int;
        if size < 8 || at + size > b.len() {
            Err(MachOError::Truncated)
        } else {
            let c = b.subrange(at, at + size);
            let cmd = uint_val(b.subrange(at, at + 4), e);
            let w2 = WalkV {
                next: (at + size) as nat,
                cmds: w.cmds.push(MCRef { handle: buf.handle, cap: buf.cap, off: (buf.off + at) as usize, len: size as usize }),
                ..w
            };
            if cmd == LC_SEGMENT {
                seg_step(w2, c, false, e, i as usize)
            } else if cmd == LC_SEGMENT_64 {
                seg_step(w2, c, true, e, i as usize)
            } else if cmd == LC_DYLD_INFO || cmd == LC_DYLD_INFO_ONLY {
                dyld_step(w2, c, e, buf)
            } else if cmd == LC_SYMTAB {
                symtab_step(w2, c, is64, e, buf)
            } else if cmd == LC_DYSYMTAB {
                dysymtab_step(w2, c, is64, e, buf)
            } else {
                Ok(w2)
            }
        }
    }
}

/// The walk over the first `k` commands, starting at `start`.
pub open spec fn walk(b: Seq<u8>, buf: MCRef, is64: bool, e: Endian, start: nat, k: nat) -> Result<WalkV, MachOError>
    decreases k,
{
    if k == 0 {
        Ok(WalkV {
            next: start,
            cmds: Seq::empty(),
            segs: Seq::empty(),
            sects: Seq::empty(),
            tables: empty_tables(buf),
            warnings: Seq::empty(),
        })
    } else {
        match walk(b, buf, is64, e, start, (k - 1) as nat) {
            Err(err) => Err(err),
            Ok(w) => cmd_step(b, buf, is64, e, w, (k - 1) as nat),
        }
    }
}

/// The executable state of a walk.
pub struct Walker {
    pub next: usize,
    pub cmds: Vec<MCRef>,
    pub segs: Vec<Segment>,
    pub sects: Vec<Section>,
    pub tables: Tables,
    pub warnings: Vec<Warning>,
}

impl View for Walker {
    type V = WalkV;

    open spec fn view(&self) -> WalkV {
        WalkV {
            next: self.next as nat,
            cmds: self.cmds@,
            segs: seg_views(self.segs@),
            sects: sect_views(self.sects@),
            tables: self.tables,
            warnings: self.warnings@,
        }
    }
}

/// Whether a walk's result matches what the spec step gives.
pub open spec fn step_matches(r: Result<(), MachOError>, after: WalkV, spec: Result<WalkV, MachOError>) -> bool {
    match spec {
        Ok(w) => r is Ok && after == w,
        Err(err) => r == Err::<(), MachOError>(err),
    }
}

impl Walker {
    /// Decodes a segment command and its sections.
    pub fn parse_segment(&mut self, c: &[u8], is64: bool, e: Endian, origin: usize) -> (r: Result<(), MachOError>)
        ensures
            final(self).tables == old(self).tables,
            step_matches(r, final(self)@, seg_step(old(self)@, c@, is64, e, origin)),
    {
        let hs: usize = if is64 { 72 } else { 56 };
        let ss: usize = if is64 { 80 } else { 68 };
        if c.len() < hs {
            return Err(MachOError::Truncated);
        }
        let tl = seg_tail_layout(is64);
        let f = read_fields(c, 24, tl.as_slice(), e);
        proof {
            crate::codec::lemma_pow256(4);
            crate::codec::lemma_pow256(8);
            assert(f@[4] < pow256(4) && f@[5] < pow256(4) && f@[6] < pow256(4) && f@[7] < pow256(4));
        }
        let nsects: u64 = f[6];
        if (c.len() as u64) < hs as u64 + nsects * ss as u64 {
            return Err(MachOError::Truncated);
        }
        let ghost old_sects = self@.sects;
        let ghost old_w = self.warnings@;
        let name = read_name(c, 8);
        let (vs, fs) = fixup(f[0], f[1], f[2], f[3], is64, &mut self.warnings);
        let si: usize = self.segs.len();
        self.segs.push(Segment {
            name,
            vmaddr: f[0],
            vmsize: vs,
            fileoff: f[2],
            filesize: fs,
            maxprot: f[4] as u32,
            prot: u32_to_prot(f[5] as u32),
            flags: f[7] as u32,
            origin: Some(origin),
        });
        let stl = sect_tail_layout(is64);
        let ghost w_seg = self.warnings@;
        let clen: usize = c.len();
        let mut k: u64 = 0;
        while k < nsects
            invariant
                k <= nsects,
                clen == c@.len(),
                nsects == seg_fields(c@, is64, e)[6],
                hs == seg_hdr_size(is64),
                ss == sect_size(is64),
                hs + nsects * ss <= c@.len(),
                stl@ == sect_tail(is64),
                is_layout(stl@),
                32 + total(stl@) == ss,
                si == old(self)@.segs.len(),
                seg_views(self.segs@) == old(self)@.segs.push(seg_v(c@, is64, e, origin)),
                sect_views(self.sects@) == old_sects + Seq::new(k as nat, |j: int| sect_v(c@, is64, e, j as nat, si, origin)),
                self.warnings@ == w_seg + sects_warnings(c@, is64, e, k as nat),
                w_seg == old_w + seg_warnings(c@, is64, e),
                old_sects == old(self)@.sects,
                old_w == old(self)@.warnings,
                self.next == old(self).next,
                self.cmds@ == old(self).cmds@,
                self.tables == old(self).tables,
            decreases nsects - k,
        {
            proof {
                assert(hs + k * ss + ss <= hs + nsects * ss) by (nonlinear_arith)
                    requires k < nsects;
            }
            let p: usize = hs + (k as usize) * ss;
            let sname = read_name(c, p);
            let sf = read_fields(c, p + 32, stl.as_slice(), e);
            proof {
                crate::codec::lemma_pow256(4);
                crate::codec::lemma_pow256(8);
                assert(sf@[2] < pow256(4) && sf@[3] < pow256(4) && sf@[4] < pow256(4) && sf@[5] < pow256(4));
                assert(sf@[6] < pow256(4) && sf@[7] < pow256(4) && sf@[8] < pow256(4));
                if is64 {
                    assert(sf@[9] < pow256(4));
                }
                assert(p == sect_pos(is64, k as nat));
            }
            let (sz, _unused) = fixup(sf[0], sf[1], sf[2], sf[1], is64, &mut self.warnings);
            let r3: u32 = if is64 { sf[9] as u32 } else { 0 };
            let sect = Section {
                name: sname,
                addr: sf[0],
                size: sz,
                offset: sf[2] as u32,
                align: sf[3] as u32,
                reloff: sf[4] as u32,
                nreloc: sf[5] as u32,
                flags: sf[6] as u32,
                reserved1: sf[7] as u32,
                reserved2: sf[8] as u32,
                reserved3: r3,
                seg_idx: si,
                origin: Some(origin),
            };
            proof {
                assert(sect@ == sect_v(c@, is64, e, k as nat, si, origin));
            }
            let ghost prev = self.sects@;
            let ghost target = old_sects + Seq::new(k as nat + 1, |j: int| sect_v(c@, is64, e, j as nat, si, origin));
            self.sects.push(sect);
            proof {
                assert(sect_views(prev) == old_sects + Seq::new(k as nat, |j: int| sect_v(c@, is64, e, j as nat, si, origin)));
                assert forall|j: int| 0 <= j < self.sects@.len() implies #[trigger] sect_views(self.sects@)[j] == target[j] by {
                    if j < prev.len() {
                        assert(self.sects@[j] == prev[j]);
                        assert(sect_views(prev)[j] == prev[j]@);
                    }
                }
            }
            k = k + 1;
            proof {
                assert(sect_views(self.sects@) =~= old_sects + Seq::new(k as nat, |j: int| sect_v(c@, is64, e, j as nat, si, origin)));
            }
        }
        proof {
            assert(self@.segs =~= old(self)@.segs.push(seg_v(c@, is64, e, origin)));
            assert(self@.warnings =~= old(self)@.warnings + seg_warnings(c@, is64, e) + sects_warnings(c@, is64, e, nsects as nat));
        }
        Ok(())
    }
}

impl Walker {
    /// Decodes a dynamic-linker info command into its five regions.
    pub fn parse_dyld_info(&mut self, c: &[u8], e: Endian, buf: &MCRef) -> (r: Result<(), MachOError>)
        requires
            buf.wf(),
        ensures
            r is Ok && tables_wf(old(self).tables) ==> tables_wf(final(self).tables),
            step_matches(r, final(self)@, dyld_step(old(self)@, c@, e, *buf)),
    {
        if c.len() < 48 {
            return Err(MachOError::Truncated);
        }
        let ws = words_layout(12);
        let f = read_fields(c, 0, ws.as_slice(), e);
        let ghost w0 = self.warnings@;
        let rebase = file_array(buf, Table::DyldRebase, f[2], f[3], 1, &mut self.warnings);
        let bind = file_array(buf, Table::DyldBind, f[4], f[5], 1, &mut self.warnings);
        let weak = file_array(buf, Table::DyldWeakBind, f[6], f[7], 1, &mut self.warnings);
        let lazy = file_array(buf, Table::DyldLazyBind, f[8], f[9], 1, &mut self.warnings);
        let export = file_array(buf, Table::DyldExport, f[10], f[11], 1, &mut self.warnings);
        self.tables = Tables {
            dyld_info_is_only: f[0] == LC_DYLD_INFO_ONLY as u64,
            dyld_rebase: rebase,
            dyld_bind: bind,
            dyld_weak_bind: weak,
            dyld_lazy_bind: lazy,
            dyld_export: export,
            ..self.tables
        };
        proof {
            let len = buf.len as nat;
            assert(self.warnings@ =~= w0 + table_warning(Table::DyldRebase, len, f@[2], f@[3], 1)
                + table_warning(Table::DyldBind, len, f@[4], f@[5], 1)
                + table_warning(Table::DyldWeakBind, len, f@[6], f@[7], 1)
                + table_warning(Table::DyldLazyBind, len, f@[8], f@[9], 1)
                + table_warning(Table::DyldExport, len, f@[10], f@[11], 1));
        }
        Ok(())
    }

    /// Decodes a symbol-table command into the symbol and string tables.
    pub fn parse_symtab(&mut self, c: &[u8], is64: bool, e: Endian, buf: &MCRef) -> (r: Result<(), MachOError>)
        requires
            buf.wf(),
        ensures
            r is Ok && tables_wf(old(self).tables) ==> tables_wf(final(self).tables),
            step_matches(r, final(self)@, symtab_step(old(self)@, c@, is64, e, *buf)),
    {
        if c.len() < 24 {
            return Err(MachOError::Truncated);
        }
        let ws = words_layout(6);
        let f = read_fields(c, 0, ws.as_slice(), e);
        let ghost w0 = self.warnings@;
        let nl: u64 = if is64 { 16 } else { 12 };
        let symtab = file_array(buf, Table::SymbolTable, f[2], f[3], nl, &mut self.warnings);
        let strtab = file_array(buf, Table::StringTable, f[4], f[5], 1, &mut self.warnings);
        self.tables = Tables { symtab, strtab, ..self.tables };
        proof {
            let len = buf.len as nat;
            assert(self.warnings@ =~= w0 + table_warning(Table::SymbolTable, len, f@[2], f@[3], nlist_size(is64))
                + table_warning(Table::StringTable, len, f@[4], f@[5], 1));
        }
        Ok(())
    }

    /// Decodes a dynamic symbol-table command.
    pub fn parse_dysymtab(&mut self, c: &[u8], is64: bool, e: Endian, buf: &MCRef) -> (r: Result<(), MachOError>)
        requires
            buf.wf(),
        ensures
            r is Ok && tables_wf(old(self).tables) ==> tables_wf(final(self).tables),
            step_matches(r, final(self)@, dysymtab_step(old(self)@, c@, is64, e, *buf)),
    {
        if c.len() < 80 {
            return Err(MachOError::Truncated);
        }
        let ws = words_layout(20);
        let f = read_fields(c, 0, ws.as_slice(), e);
        proof {
            crate::codec::lemma_pow256(4);
            assert forall|i: int| 0 <= i < 20 implies (#[trigger] f@[i]) < 0x1_0000_0000 by {
                assert(f@[i] < pow256(ws@[i] as nat));
            }
        }
        let ghost w0 = self.warnings@;
        let ms: u64 = if is64 { 56 } else { 52 };
        let toc = file_array(buf, Table::TableOfContents, f[8], f[9], 8, &mut self.warnings);
        let modtab = file_array(buf, Table::ModuleTable, f[10], f[11], ms, &mut self.warnings);
        let extrefsym = file_array(buf, Table::ReferencedSymbols, f[12], f[13], 4, &mut self.warnings);
        let indirectsym = file_array(buf, Table::IndirectSymbols, f[14], f[15], 4, &mut self.warnings);
        self.tables = Tables {
            localsym: SymSubset { off: f[2] as u32, count: f[3] as u32 },
            extdefsym: SymSubset { off: f[4] as u32, count: f[5] as u32 },
            undefsym: SymSubset { off: f[6] as u32, count: f[7] as u32 },
            toc,
            modtab,
            extrefsym,
            indirectsym,
            extrel: RelSubset { off: f[16] as u32, count: f[17] as u32 },
            locrel: RelSubset { off: f[18] as u32, count: f[19] as u32 },
            ..self.tables
        };
        proof {
            let len = buf.len as nat;
            assert(self.warnings@ =~= w0 + table_warning(Table::TableOfContents, len, f@[8], f@[9], 8)
                + table_warning(Table::ModuleTable, len, f@[10], f@[11], module_size(is64))
                + table_warning(Table::ReferencedSymbols, len, f@[12], f@[13], 4)
                + table_warning(Table::IndirectSymbols, len, f@[14], f@[15], 4));
        }
        Ok(())
    }

    /// Frames the command at `self.next` of `b` and applies it.
    pub fn step(&mut self, b: &[u8], buf: &MCRef, is64: bool, e: Endian, i: usize) -> (r: Result<(), MachOError>)
        requires
            buf.wf(),
            b@.len() == buf.len,
            old(self).next <= b@.len(),
        ensures
            r is Ok && (forall|j: int| 0 <= j < old(self).cmds@.len() ==> (#[trigger] old(self).cmds@[j]).wf() && old(self).cmds@[j].cap == buf.cap)
                ==> (forall|j: int| 0 <= j < final(self).cmds@.len() ==> (#[trigger] final(self).cmds@[j]).wf() && final(self).cmds@[j].cap == buf.cap),
            r is Ok && tables_wf(old(self).tables) ==> tables_wf(final(self).tables),
            step_matches(r, final(self)@, cmd_step(b@, *buf, is64, e, old(self)@, i as nat)),
            r is Ok ==> final(self).next <= b@.len(),
    {
        reveal(cmd_step);
        let n: usize = b.len();
        let at: usize = self.next;
        if n - at < 8 {
            return Err(MachOError::Truncated);
        }
        let size64 = read_uint(b, at + 4, 4, e);
        proof {
            crate::codec::lemma_pow256(4);
        }
        if size64 < 8 || size64 > (n - at) as u64 {
            return Err(MachOError::Truncated);
        }
        let size: usize = size64 as usize;
        let cmd = read_uint(b, at, 4, e);
        let c: &[u8] = &b[at..at + size];
        proof {
            assert(c@ == b@.subrange(at as int, at + size));
        }
        self.cmds.push(MCRef { handle: buf.handle, cap: buf.cap, off: buf.off + at, len: size });
        self.next = at + size;
        if cmd == LC_SEGMENT as u64 {
            self.parse_segment(c, false, e, i)
        } else if cmd == LC_SEGMENT_64 as u64 {
            self.parse_segment(c, true, e, i)
        } else if cmd == LC_DYLD_INFO as u64 || cmd == LC_DYLD_INFO_ONLY as u64 {
            self.parse_dyld_info(c, e, buf)
        } else if cmd == LC_SYMTAB as u64 {
            self.parse_symtab(c, is64, e, buf)
        } else if cmd == LC_DYSYMTAB as u64 {
            self.parse_dysymtab(c, is64, e, buf)
        } else {
            Ok(())
        }
    }
}

} // verus!
