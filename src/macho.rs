//! A parsed thin container.

use vstd::prelude::*;
use crate::archname::{arch_name, mach_arch_desc, subtype_key};
use crate::header::{header_spec, parse_header, Header, MachOError};
use crate::model::{new_tables, seg_views, sect_views, tables_wf, Section, Segment, Tables};
use crate::region::{MCRef, Warning};
use crate::symbols::{push_nlist_symbols, symbol_views, symbols_spec, Symbol, SymbolSource};
use crate::walker::{cmd_step, walk, WalkV, Walker};

verus! {

/// A container parsed from a region of a backing buffer.
pub struct MachO {
    pub header: Header,
    /// The container's bytes within the backing buffer.
    pub buf: MCRef,
    /// Every load command, recognised or not, in order.
    pub load_commands: Vec<MCRef>,
    pub segments: Vec<Segment>,
    pub sections: Vec<Section>,
    /// Size of a symbol-table entry.
    pub nlist_size: usize,
    pub tables: Tables,
}

/// Header and walk of the container in `b`, the bytes of region `buf`;
/// commands are walked only when `do_lcs` holds.
pub open spec fn parse_spec(b: Seq<u8>, buf: MCRef, do_lcs: bool, h: nat) -> Result<(Header, WalkV), MachOError> {
    match header_spec(b, h) {
        Err(err) => Err(err),
        Ok(hd) => {
            let k: nat = if do_lcs { hd.ncmds as nat } else { 0 };
            match walk(b, buf, hd.is64, hd.endian, hd.lc_off as nat, k) {
                Err(err) => Err(err),
                Ok(w) => Ok((hd, w)),
            }
        },
    }
}

proof fn lemma_walk_err(b: Seq<u8>, buf: MCRef, is64: bool, e: crate::util::Endian, start: nat, i: nat, k: nat)
    requires
        i <= k,
        walk(b, buf, is64, e, start, i) is Err,
    ensures
        walk(b, buf, is64, e, start, k) == walk(b, buf, is64, e, start, i),
    decreases k - i,
{
    if i < k {
        lemma_walk_err(b, buf, is64, e, start, i, (k - 1) as nat);
    }
}

impl MachO {
    pub open spec fn wf(&self) -> bool {
        &&& self.buf.wf()
        &&& tables_wf(self.tables)
        &&& self.nlist_size == if self.header.is64 { 16usize } else { 12usize }
        &&& forall|j: int| 0 <= j < self.load_commands@.len() ==> (#[trigger] self.load_commands@[j]).wf()
            && self.load_commands@[j].cap == self.buf.cap
    }

    /// Whether `self` and `warnings` are what `parse_spec` gives.
    pub open spec fn matches(&self, warnings: Seq<Warning>, p: (Header, WalkV)) -> bool {
        &&& self.header == p.0
        &&& self.load_commands@ == p.1.cmds
        &&& seg_views(self.segments@) == p.1.segs
        &&& sect_views(self.sections@) == p.1.sects
        &&& self.tables == p.1.tables
        &&& warnings == p.1.warnings
    }

    /// The name of the container's CPU type and subtype, if it has one.
    pub fn subtype_desc(&self) -> (r: Option<&'static str>)
        ensures
            r == arch_name(self.header.cputype, subtype_key(self.header.cpusubtype)),
    {
        mach_arch_desc(self.header.cputype, self.header.cpusubtype)
    }

    /// The symbols of the whole symbol table; only the selection of all
    /// symbols is implemented.
    pub fn get_symbol_list(&self, backing: &[u8], source: SymbolSource) -> (r: Result<Vec<Symbol>, MachOError>)
        requires
            self.wf(),
            backing@.len() == self.tables.symtab.cap,
            backing@.len() == self.tables.strtab.cap,
        ensures
            source != SymbolSource::All ==> r == Err::<Vec<Symbol>, MachOError>(MachOError::Unsupported),
            source == SymbolSource::All ==> match symbols_spec(
                backing@.subrange(self.tables.symtab.off as int, self.tables.symtab.off + self.tables.symtab.len),
                backing@.subrange(self.tables.strtab.off as int, self.tables.strtab.off + self.tables.strtab.len),
                0,
                self.tables.symtab.len as nat / self.nlist_size as nat,
                false,
                self.header.is64,
                self.header.endian,
            ) {
                Ok(s) => r is Ok && symbol_views(r->Ok_0@) == s,
                Err(err) => r == Err::<Vec<Symbol>, MachOError>(err),
            },
    {
        if source != SymbolSource::All {
            return Err(MachOError::Unsupported);
        }
        let symtab = self.tables.symtab.get(backing);
        let strtab = self.tables.strtab.get(backing);
        let count: usize = symtab.len() / self.nlist_size;
        proof {
            assert(count * self.nlist_size <= symtab@.len()) by (nonlinear_arith)
                requires count as int == symtab@.len() as int / self.nlist_size as int, self.nlist_size > 0;
        }
        let mut out: Vec<Symbol> = Vec::new();
        let r = push_nlist_symbols(symtab, strtab, 0, count, false, self.header.is64, self.header.endian, &mut out);
        assert(symbol_views(Seq::<Symbol>::empty()) =~= Seq::empty());
        match r {
            Ok(()) => Ok(out),
            Err(err) => Err(err),
        }
    }

    /// Parses the container at `hdr_offset` of region `mc` of `backing`,
    /// with its load commands if `do_lcs` holds. Anomalies that are worked
    /// around come back as warnings.
    pub fn new(backing: &[u8], mc: MCRef, do_lcs: bool, hdr_offset: usize) -> (r: Result<(MachO, Vec<Warning>), MachOError>)
        requires
            mc.wf(),
            backing@.len() == mc.cap,
        ensures
            match parse_spec(backing@.subrange(mc.off as int, mc.off + mc.len), mc, do_lcs, hdr_offset as nat) {
                Ok(p) => r is Ok && r->Ok_0.0.matches(r->Ok_0.1@, p) && r->Ok_0.0.wf() && r->Ok_0.0.buf == mc,
                Err(err) => r == Err::<(MachO, Vec<Warning>), MachOError>(err),
            },
    {
        let b = mc.get(backing);
        let header = match parse_header(b, hdr_offset) {
            Ok(h) => h,
            Err(err) => {
                return Err(err);
            },
        };
        let mut w = Walker {
            next: header.lc_off,
            cmds: Vec::new(),
            segs: Vec::new(),
            sects: Vec::new(),
            tables: new_tables(&mc),
            warnings: Vec::new(),
        };
        let ghost start = header.lc_off as nat;
        proof {
            assert(w@.cmds =~= Seq::empty());
            assert(w@.segs =~= Seq::empty());
            assert(w@.sects =~= Seq::empty());
            assert(w@.warnings =~= Seq::empty());
            assert(walk(b@, mc, header.is64, header.endian, start, 0) == Ok::<WalkV, MachOError>(w@));
        }
        let k: u32 = if do_lcs { header.ncmds } else { 0 };
        let mut i: u32 = 0;
        while i < k
            invariant
                i <= k,
                k == (if do_lcs { header.ncmds } else { 0 }),
                header_spec(b@, hdr_offset as nat) == Ok::<Header, MachOError>(header),
                b@ == backing@.subrange(mc.off as int, mc.off + mc.len),
                start == header.lc_off as nat,
                mc.wf(),
                b@.len() == mc.len,
                w.next <= b@.len(),
                tables_wf(w.tables),
                forall|j: int| 0 <= j < w.cmds@.len() ==> (#[trigger] w.cmds@[j]).wf() && w.cmds@[j].cap == mc.cap,
                walk(b@, mc, header.is64, header.endian, start, i as nat) == Ok::<WalkV, MachOError>(w@),
            decreases k - i,
        {
            let ghost before = w@;
            match w.step(b, &mc, header.is64, header.endian, i as usize) {
                Ok(()) => {},
                Err(err) => {
                    proof {
                        assert(walk(b@, mc, header.is64, header.endian, start, i as nat + 1) == cmd_step(b@, mc, header.is64, header.endian, before, i as nat));
                        lemma_walk_err(b@, mc, header.is64, header.endian, start, i as nat + 1, k as nat);
                    }
                    return Err(err);
                },
            }
            i = i + 1;
            assert(walk(b@, mc, header.is64, header.endian, start, i as nat) == cmd_step(b@, mc, header.is64, header.endian, before, (i - 1) as nat));
        }
        let nlist_size: usize = if header.is64 { 16 } else { 12 };
        let m = MachO {
            header,
            buf: mc,
            load_commands: w.cmds,
            segments: w.segs,
            sections: w.sects,
            nlist_size,
            tables: w.tables,
        };
        Ok((m, w.warnings))
    }
}

} // verus!
