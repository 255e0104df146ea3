//! Bounds-checked views into a backing buffer, and the clamping allocator
//! for tables whose offset and count come from untrusted header fields.

use vstd::prelude::*;

verus! {

/// A view of `len` bytes at `off` of the backing buffer named `handle`,
/// whose length is `cap`. Regions hold no bytes: the buffer is handed to
/// `get` by whoever owns it.
#[derive(Debug, Clone, Copy, PartialEq, Eq, Structural)]
pub struct MCRef {
    pub handle: u64,
    pub cap: usize,
    pub off: usize,
    pub len: usize,
}

/// A region asked for lies outside the region it is cut from.
#[derive(Debug, Clone, Copy, PartialEq, Eq, Structural)]
pub enum RegionError {
    OutOfRange,
}

impl MCRef {
    pub open spec fn wf(&self) -> bool {
        self.off + self.len <= self.cap
    }

    /// The whole of a backing buffer of length `cap`.
    pub fn whole(handle: u64, cap: usize) -> (r: MCRef)
        ensures
            r.wf(),
            r == (MCRef { handle, cap, off: 0, len: cap }),
    {
        MCRef { handle, cap, off: 0, len: cap }
    }

    /// An empty region of the same buffer.
    pub fn empty_of(&self) -> (r: MCRef)
        requires
            self.wf(),
        ensures
            r.wf(),
            r == (MCRef { handle: self.handle, cap: self.cap, off: self.off, len: 0 }),
    {
        MCRef { handle: self.handle, cap: self.cap, off: self.off, len: 0 }
    }

    /// Bytes `from..to` of this region, as a region of the same buffer.
    pub fn slice(&self, from: usize, to: usize) -> (r: Result<MCRef, RegionError>)
        requires
            self.wf(),
        ensures
            (from > self.len || to < from || to - from > self.len - from) <==> r is Err,
            r is Ok ==> r->Ok_0.wf() && r->Ok_0 == (MCRef {
                handle: self.handle,
                cap: self.cap,
                off: (self.off + from) as usize,
                len: (to - from) as usize,
            }),
    {
        if from > self.len || to < from || to - from > self.len - from {
            Err(RegionError::OutOfRange)
        } else {
            Ok(MCRef { handle: self.handle, cap: self.cap, off: self.off + from, len: to - from })
        }
    }

    /// The region's bytes within its backing buffer.
    pub fn get<'a>(&self, backing: &'a [u8]) -> (r: &'a [u8])
        requires
            self.wf(),
            backing@.len() == self.cap,
        ensures
            r@ == backing@.subrange(self.off as int, self.off + self.len),
    {
        &backing[self.off..self.off + self.len]
    }

    /// Where this region starts within `other`, if both view the same
    /// buffer and this region lies inside `other`.
    pub fn offset_in(&self, other: &MCRef) -> (r: Option<usize>)
        requires
            self.wf(),
            other.wf(),
        ensures
            r is Some <==> (self.handle == other.handle && self.cap == other.cap && other.off
                <= self.off && self.off + self.len <= other.off + other.len),
            r is Some ==> r->0 == self.off - other.off,
    {
        if self.handle == other.handle && self.cap == other.cap && other.off <= self.off
            && self.len <= other.len && self.off - other.off <= other.len - self.len {
            Some(self.off - other.off)
        } else {
            None
        }
    }

    pub fn len(&self) -> (r: usize)
        ensures
            r == self.len,
    {
        self.len
    }
}

/// The tables of a container that are located by header fields.
#[derive(Debug, Clone, Copy, PartialEq, Eq, Structural)]
pub enum Table {
    DyldRebase,
    DyldBind,
    DyldWeakBind,
    DyldLazyBind,
    DyldExport,
    SymbolTable,
    StringTable,
    TableOfContents,
    ModuleTable,
    ReferencedSymbols,
    IndirectSymbols,
}

/// A tolerated anomaly, reported and then worked around.
#[derive(Debug, Clone, Copy, PartialEq, Eq, Structural)]
pub enum Warning {
    /// A table starts past the end of the buffer; it is taken as empty.
    TablePastEnd { table: Table, off: u64, count: u64, elm_size: u64, buf_len: u64 },
    /// A table runs past the end of the buffer; its count is cut down.
    TableTruncated { table: Table, off: u64, count: u64, elm_size: u64, buf_len: u64 },
    /// `vmaddr + vmsize` overflows the address width; in 64-bit containers
    /// the size is cut down.
    VmOverflow { is64: bool, vmaddr: u64, vmsize: u64 },
    /// `fileoff + filesize` overflows the address width; in 64-bit
    /// containers the size is cut down.
    FileOverflow { is64: bool, fileoff: u64, filesize: u64 },
    /// A segment or section name longer than 15 bytes was cut to 15.
    NameTooLong { len: usize },
    /// A slice of a fat container lies outside the buffer and is skipped.
    FatSliceOutOfRange { cputype: u32, cpusubtype: u32, offset: u32, size: u32 },
    /// The fat header's architecture table does not fit the buffer.
    FatTableTruncated { nfat: u32 },
}

/// Offset and count of a table after clamping it to a buffer of `len`
/// bytes.
pub open spec fn clamp_table(len: nat, off: nat, count: nat, elm: nat) -> (nat, nat) {
    if off > len {
        (0, 0)
    } else if count * elm > len - off {
        (off, ((len - off) as nat / elm) as nat)
    } else {
        (off, count)
    }
}

/// The region that `file_array` gives for a table.
pub open spec fn table_region(buf: MCRef, off: u64, count: u64, elm: u64) -> MCRef {
    let c = clamp_table(buf.len as nat, off as nat, count as nat, elm as nat);
    MCRef { handle: buf.handle, cap: buf.cap, off: (buf.off + c.0) as usize, len: (c.1 * elm) as usize }
}

pub open spec fn table_warning(table: Table, len: nat, off: u64, count: u64, elm: u64) -> Seq<
    Warning,
> {
    if off > len {
        seq![Warning::TablePastEnd { table, off, count, elm_size: elm, buf_len: len as u64 }]
    } else if count * elm > len - off {
        seq![Warning::TableTruncated { table, off, count, elm_size: elm, buf_len: len as u64 }]
    } else {
        Seq::empty()
    }
}

/// The region of `buf` that holds `count` elements of `elm_size` bytes at
/// `off`. A table starting past the end is empty, one running past it keeps
/// the elements that fit; either way a warning is added.
pub fn file_array(
    buf: &MCRef,
    table: Table,
    off: u64,
    count: u64,
    elm_size: u64,
    warnings: &mut Vec<Warning>,
) -> (r: MCRef)
    requires
        buf.wf(),
        elm_size > 0,
    ensures
        r.wf(),
        r.handle == buf.handle,
        r.cap == buf.cap,
        r.off == buf.off + clamp_table(buf.len as nat, off as nat, count as nat, elm_size as nat).0,
        r.len == clamp_table(buf.len as nat, off as nat, count as nat, elm_size as nat).1
            * elm_size,
        r.len <= buf.len,
        r == table_region(*buf, off, count, elm_size),
        final(warnings)@ == old(warnings)@ + table_warning(
            table,
            buf.len as nat,
            off,
            count,
            elm_size,
        ),
{
    let buf_len: u64 = buf.len as u64;
    let mut o: u64 = off;
    let mut c: u64 = count;
    if off > buf_len {
        warnings.push(
            Warning::TablePastEnd { table, off, count, elm_size, buf_len },
        );
        o = 0;
        c = 0;
    } else if count > (buf_len - off) / elm_size {
        proof {
            lemma_count_gt(count as nat, (buf_len - off) as nat, elm_size as nat);
        }
        warnings.push(
            Warning::TableTruncated { table, off, count, elm_size, buf_len },
        );
        c = (buf_len - off) / elm_size;
    } else {
        proof {
            lemma_count_le(count as nat, (buf_len - off) as nat, elm_size as nat);
        }
    }
    proof {
        lemma_count_fits(c as nat, (buf_len - o) as nat, elm_size as nat);
    }
    let bytes: u64 = c * elm_size;
    assert(warnings@ =~= old(warnings)@ + table_warning(table, buf.len as nat, off, count, elm_size));
    MCRef { handle: buf.handle, cap: buf.cap, off: buf.off + o as usize, len: bytes as usize }
}

proof fn lemma_count_gt(count: nat, room: nat, elm: nat)
    requires
        elm > 0,
        count > room / elm,
    ensures
        count * elm > room,
{
    assert(count * elm > room) by (nonlinear_arith)
        requires
            elm > 0,
            count > room / elm,
    ;
}

proof fn lemma_count_le(count: nat, room: nat, elm: nat)
    requires
        elm > 0,
        count <= room / elm,
    ensures
        count * elm <= room,
{
    assert(count * elm <= room) by (nonlinear_arith)
        requires
            elm > 0,
            count <= room / elm,
    ;
}

proof fn lemma_count_fits(c: nat, room: nat, elm: nat)
    requires
        elm > 0,
        c <= room / elm || c * elm <= room,
    ensures
        c * elm <= room,
{
    if c <= room / elm {
        lemma_count_le(c, room, elm);
    }
}

} // verus!
