//! The container model: segments, sections and the tables that load
//! commands locate.

use vstd::prelude::*;
use crate::region::MCRef;

verus! {

/// Read, write and execute permission.
#[derive(Debug, Clone, Copy, PartialEq, Eq, Structural)]
pub struct Prot {
    pub r: bool,
    pub w: bool,
    pub x: bool,
}

pub const VM_PROT_READ: u32 = 1;
pub const VM_PROT_WRITE: u32 = 2;
pub const VM_PROT_EXECUTE: u32 = 4;

pub open spec fn prot_of(ip: u32) -> Prot {
    Prot { r: ip & 1 != 0, w: ip & 2 != 0, x: ip & 4 != 0 }
}

pub open spec fn prot_bits(p: Prot) -> u32 {
    (if p.r { 1u32 } else { 0u32 }) | (if p.w { 2u32 } else { 0u32 }) | (if p.x { 4u32 } else { 0u32 })
}

pub fn u32_to_prot(ip: u32) -> (r: Prot)
    ensures
        r == prot_of(ip),
{
    Prot { r: ip & VM_PROT_READ != 0, w: ip & VM_PROT_WRITE != 0, x: ip & VM_PROT_EXECUTE != 0 }
}

pub fn prot_to_u32(p: Prot) -> (r: u32)
    ensures
        r == prot_bits(p),
{
    let r: u32 = if p.r { VM_PROT_READ } else { 0 };
    let w: u32 = if p.w { VM_PROT_WRITE } else { 0 };
    let x: u32 = if p.x { VM_PROT_EXECUTE } else { 0 };
    r | w | x
}

/// A named range of address space backed by a range of the file.
#[derive(Debug, Clone, Copy)]
pub struct Segment {
    /// The name as stored: 16 bytes, zero padded.
    pub name: [u8; 16],
    pub vmaddr: u64,
    pub vmsize: u64,
    pub fileoff: u64,
    pub filesize: u64,
    pub maxprot: u32,
    pub prot: Prot,
    pub flags: u32,
    /// Index of the load command this segment was read from; `None` for a
    /// segment added after parsing.
    pub origin: Option<usize>,
}

/// A named sub-range of a segment.
#[derive(Debug, Clone, Copy)]
pub struct Section {
    pub name: [u8; 16],
    pub addr: u64,
    pub size: u64,
    pub offset: u32,
    pub align: u32,
    pub reloff: u32,
    pub nreloc: u32,
    pub flags: u32,
    pub reserved1: u32,
    pub reserved2: u32,
    pub reserved3: u32,
    /// Index of the owning segment.
    pub seg_idx: usize,
    /// Index of the load command this section was read from.
    pub origin: Option<usize>,
}

pub struct SegmentV {
    pub name: Seq<u8>,
    pub vmaddr: u64,
    pub vmsize: u64,
    pub fileoff: u64,
    pub filesize: u64,
    pub maxprot: u32,
    pub prot: Prot,
    pub flags: u32,
    pub origin: Option<usize>,
}

pub struct SectionV {
    pub name: Seq<u8>,
    pub addr: u64,
    pub size: u64,
    pub offset: u32,
    pub align: u32,
    pub reloff: u32,
    pub nreloc: u32,
    pub flags: u32,
    pub reserved1: u32,
    pub reserved2: u32,
    pub reserved3: u32,
    pub seg_idx: usize,
    pub origin: Option<usize>,
}

impl View for Segment {
    type V = SegmentV;

    open spec fn view(&self) -> SegmentV {
        SegmentV {
            name: self.name@,
            vmaddr: self.vmaddr,
            vmsize: self.vmsize,
            fileoff: self.fileoff,
            filesize: self.filesize,
            maxprot: self.maxprot,
            prot: self.prot,
            flags: self.flags,
            origin: self.origin,
        }
    }
}

impl View for Section {
    type V = SectionV;

    open spec fn view(&self) -> SectionV {
        SectionV {
            name: self.name@,
            addr: self.addr,
            size: self.size,
            offset: self.offset,
            align: self.align,
            reloff: self.reloff,
            nreloc: self.nreloc,
            flags: self.flags,
            reserved1: self.reserved1,
            reserved2: self.reserved2,
            reserved3: self.reserved3,
            seg_idx: self.seg_idx,
            origin: self.origin,
        }
    }
}

pub open spec fn seg_views(s: Seq<Segment>) -> Seq<SegmentV> {
    s.map_values(|x: Segment| x@)
}

pub open spec fn sect_views(s: Seq<Section>) -> Seq<SectionV> {
    s.map_values(|x: Section| x@)
}

/// A run of entries of the symbol table.
#[derive(Debug, Clone, Copy, PartialEq, Eq, Structural, Default)]
pub struct SymSubset {
    pub off: u32,
    pub count: u32,
}

/// A run of relocation entries, kept as declared.
#[derive(Debug, Clone, Copy, PartialEq, Eq, Structural, Default)]
pub struct RelSubset {
    pub off: u32,
    pub count: u32,
}

/// Everything that the symbol-table and dynamic-linker commands locate.
#[derive(Debug, Clone, Copy, PartialEq, Eq, Structural)]
pub struct Tables {
    pub symtab: MCRef,
    pub strtab: MCRef,
    pub localsym: SymSubset,
    pub extdefsym: SymSubset,
    pub undefsym: SymSubset,
    pub toc: MCRef,
    pub modtab: MCRef,
    pub extrefsym: MCRef,
    pub indirectsym: MCRef,
    pub extrel: RelSubset,
    pub locrel: RelSubset,
    /// Whether the dynamic-linker command was the "only" variant (also the
    /// choice when there was none).
    pub dyld_info_is_only: bool,
    pub dyld_rebase: MCRef,
    pub dyld_bind: MCRef,
    pub dyld_weak_bind: MCRef,
    pub dyld_lazy_bind: MCRef,
    pub dyld_export: MCRef,
}

pub open spec fn empty_tables(buf: MCRef) -> Tables {
    let z = MCRef { handle: buf.handle, cap: buf.cap, off: buf.off, len: 0 };
    Tables {
        symtab: z,
        strtab: z,
        localsym: SymSubset { off: 0, count: 0 },
        extdefsym: SymSubset { off: 0, count: 0 },
        undefsym: SymSubset { off: 0, count: 0 },
        toc: z,
        modtab: z,
        extrefsym: z,
        indirectsym: z,
        extrel: RelSubset { off: 0, count: 0 },
        locrel: RelSubset { off: 0, count: 0 },
        dyld_info_is_only: true,
        dyld_rebase: z,
        dyld_bind: z,
        dyld_weak_bind: z,
        dyld_lazy_bind: z,
        dyld_export: z,
    }
}

pub open spec fn tables_wf(t: Tables) -> bool {
    &&& t.symtab.wf() && t.strtab.wf() && t.toc.wf() && t.modtab.wf()
    &&& t.extrefsym.wf() && t.indirectsym.wf()
    &&& t.dyld_rebase.wf() && t.dyld_bind.wf() && t.dyld_weak_bind.wf()
    &&& t.dyld_lazy_bind.wf() && t.dyld_export.wf()
}

pub fn new_tables(buf: &MCRef) -> (r: Tables)
    requires
        buf.wf(),
    ensures
        r == empty_tables(*buf),
        tables_wf(r),
{
    let z = buf.empty_of();
    Tables {
        symtab: z,
        strtab: z,
        localsym: SymSubset { off: 0, count: 0 },
        extdefsym: SymSubset { off: 0, count: 0 },
        undefsym: SymSubset { off: 0, count: 0 },
        toc: z,
        modtab: z,
        extrefsym: z,
        indirectsym: z,
        extrel: RelSubset { off: 0, count: 0 },
        locrel: RelSubset { off: 0, count: 0 },
        dyld_info_is_only: true,
        dyld_rebase: z,
        dyld_bind: z,
        dyld_weak_bind: z,
        dyld_lazy_bind: z,
        dyld_export: z,
    }
}

} // verus!
