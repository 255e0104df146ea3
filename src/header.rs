//! The container header: magic, word width, byte order and architecture.

use vstd::prelude::*;
use crate::util::Endian;
use crate::codec::{pow256, be_val, fields_val, read_fields, read_uint, total, uint_val};

verus! {

/// What can stop a parse, a rewrite or a selection.
#[derive(Debug, Clone, Copy, PartialEq, Eq, Structural)]
pub enum MachOError {
    /// Unrecognised magic or header.
    BadFormat,
    /// A declared region exceeds the buffer, or the command stream is out of step.
    Truncated,
    /// A feature that is not implemented.
    Unsupported,
    /// Contradictory options from the caller.
    UsageError,
    /// No slice of a fat container matches the selection.
    NotFound,
    /// A condition that well-formed data never breaks.
    InternalInvariant,
}

/// Normalised architecture of a container.
#[derive(Debug, Clone, Copy, PartialEq, Eq, Structural)]
pub enum Arch {
    X86,
    X86_64,
    Arm,
    AArch64,
    PowerPC,
    PowerPC64,
    Unknown,
}

pub const MH_MAGIC: u32 = 0xfeedface;
pub const MH_MAGIC_64: u32 = 0xfeedfacf;
pub const MH_CIGAM: u32 = 0xcefaedfe;
pub const MH_CIGAM_64: u32 = 0xcffaedfe;
pub const FAT_MAGIC: u32 = 0xcafebabe;

pub const CPU_ARCH_ABI64: u32 = 0x0100_0000;
pub const CPU_TYPE_ANY: u32 = 0xffff_ffff;
pub const CPU_TYPE_MC680X0: u32 = 6;
pub const CPU_TYPE_X86: u32 = 7;
pub const CPU_TYPE_X86_64: u32 = 0x0100_0007;
pub const CPU_TYPE_HPPA: u32 = 11;
pub const CPU_TYPE_ARM: u32 = 12;
pub const CPU_TYPE_ARM64: u32 = 0x0100_000c;
pub const CPU_TYPE_MC88000: u32 = 13;
pub const CPU_TYPE_SPARC: u32 = 14;
pub const CPU_TYPE_I860: u32 = 15;
pub const CPU_TYPE_POWERPC: u32 = 18;
pub const CPU_TYPE_POWERPC64: u32 = 0x0100_0012;

/// Size of the 32-bit header; the 64-bit one adds a reserved word.
pub const MACH_HEADER_SIZE: usize = 28;

/// A parsed container header.
#[derive(Debug, Clone, Copy, PartialEq, Eq, Structural)]
pub struct Header {
    pub is64: bool,
    pub endian: Endian,
    pub cputype: u32,
    pub cpusubtype: u32,
    pub filetype: u32,
    pub ncmds: u32,
    pub sizeofcmds: u32,
    pub flags: u32,
    pub arch: Arch,
    /// Offset of the first load command.
    pub lc_off: usize,
}

/// The layout of `n` consecutive 32-bit fields.
pub open spec fn words(n: nat) -> Seq<usize> {
    Seq::new(n, |i: int| 4usize)
}

pub proof fn lemma_words_total(n: nat)
    ensures
        total(words(n)) == 4 * n,
        crate::codec::is_layout(words(n)),
    decreases n,
{
    if n > 0 {
        assert(words(n).drop_last() =~= words((n - 1) as nat));
        lemma_words_total((n - 1) as nat);
    }
}

/// Layout of `n` consecutive 32-bit fields.
pub fn words_layout(n: usize) -> (r: Vec<usize>)
    ensures
        r@ == words(n as nat),
        total(r@) == 4 * n,
        crate::codec::is_layout(r@),
{
    let mut r: Vec<usize> = Vec::new();
    let mut i: usize = 0;
    while i < n
        invariant
            i <= n,
            r@ == words(i as nat),
        decreases n - i,
    {
        r.push(4);
        i = i + 1;
        assert(r@ =~= words(i as nat));
    }
    proof {
        lemma_words_total(n as nat);
    }
    r
}

/// Architecture of a CPU type code.
pub open spec fn arch_of(cputype: u32) -> Arch {
    if cputype == CPU_TYPE_X86 {
        Arch::X86
    } else if cputype == CPU_TYPE_X86_64 {
        Arch::X86_64
    } else if cputype == CPU_TYPE_ARM {
        Arch::Arm
    } else if cputype == CPU_TYPE_ARM64 {
        Arch::AArch64
    } else if cputype == CPU_TYPE_POWERPC {
        Arch::PowerPC
    } else if cputype == CPU_TYPE_POWERPC64 {
        Arch::PowerPC64
    } else {
        Arch::Unknown
    }
}

pub fn arch_from_cputype(cputype: u32) -> (r: Arch)
    ensures
        r == arch_of(cputype),
{
    if cputype == CPU_TYPE_X86 {
        Arch::X86
    } else if cputype == CPU_TYPE_X86_64 {
        Arch::X86_64
    } else if cputype == CPU_TYPE_ARM {
        Arch::Arm
    } else if cputype == CPU_TYPE_ARM64 {
        Arch::AArch64
    } else if cputype == CPU_TYPE_POWERPC {
        Arch::PowerPC
    } else if cputype == CPU_TYPE_POWERPC64 {
        Arch::PowerPC64
    } else {
        Arch::Unknown
    }
}

/// Byte order and width selected by a magic read big-endian, if it is one
/// of the four container magics.
pub open spec fn magic_kind(magic: nat) -> Option<(Endian, bool)> {
    if magic == MH_MAGIC {
        Some((Endian::BigEndian, false))
    } else if magic == MH_MAGIC_64 {
        Some((Endian::BigEndian, true))
    } else if magic == MH_CIGAM {
        Some((Endian::LittleEndian, false))
    } else if magic == MH_CIGAM_64 {
        Some((Endian::LittleEndian, true))
    } else {
        None
    }
}

/// The header at offset `h` of `b`.
pub open spec fn header_spec(b: Seq<u8>, h: nat) -> Result<Header, MachOError> {
    if h + MACH_HEADER_SIZE > b.len() {
        Err(MachOError::Truncated)
    } else {
        match magic_kind(be_val(b.subrange(h as int, h + 4int))) {
            None => Err(MachOError::BadFormat),
            Some((endian, is64)) => {
                let lc_off = h + MACH_HEADER_SIZE + if is64 { 4nat } else { 0nat };
                if lc_off > b.len() {
                    Err(MachOError::Truncated)
                } else {
                    let f = fields_val(
                        b.subrange(h as int, h + MACH_HEADER_SIZE as int),
                        words(7),
                        endian,
                    );
                    Ok(
                        Header {
                            is64,
                            endian,
                            cputype: f[1] as u32,
                            cpusubtype: f[2] as u32,
                            filetype: f[3] as u32,
                            ncmds: f[4] as u32,
                            sizeofcmds: f[5] as u32,
                            flags: f[6] as u32,
                            arch: arch_of(f[1] as u32),
                            lc_off: lc_off as usize,
                        },
                    )
                }
            },
        }
    }
}

/// Parses the header at `hdr_offset` of `buf`.
pub fn parse_header(buf: &[u8], hdr_offset: usize) -> (r: Result<Header, MachOError>)
    ensures
        r == header_spec(buf@, hdr_offset as nat),
{
    let n: usize = buf.len();
    if hdr_offset > n || n - hdr_offset < MACH_HEADER_SIZE {
        return Err(MachOError::Truncated);
    }
    let magic = read_uint(buf, hdr_offset, 4, Endian::BigEndian);
    let endian: Endian;
    let is64: bool;
    if magic == 0xfeedface {
        endian = Endian::BigEndian;
        is64 = false;
    } else if magic == 0xfeedfacf {
        endian = Endian::BigEndian;
        is64 = true;
    } else if magic == 0xcefaedfe {
        endian = Endian::LittleEndian;
        is64 = false;
    } else if magic == 0xcffaedfe {
        endian = Endian::LittleEndian;
        is64 = true;
    } else {
        return Err(MachOError::BadFormat);
    }
    let mut lc_off: usize = hdr_offset + MACH_HEADER_SIZE;
    if is64 {
        if n - lc_off < 4 {
            return Err(MachOError::Truncated);
        }
        lc_off = lc_off + 4;
    }
    let ws = words_layout(7);
    let f = read_fields(buf, hdr_offset, ws.as_slice(), endian);
    proof {
        crate::codec::lemma_uint_bound(buf@.subrange(hdr_offset as int, hdr_offset + 4), Endian::BigEndian);
        crate::codec::lemma_pow256(4);
        assert(f@[1] < pow256(4) && f@[2] < pow256(4) && f@[3] < pow256(4));
        assert(f@[4] < pow256(4) && f@[5] < pow256(4) && f@[6] < pow256(4));
    }
    let cputype = f[1] as u32;
    Ok(
        Header {
            is64,
            endian,
            cputype,
            cpusubtype: f[2] as u32,
            filetype: f[3] as u32,
            ncmds: f[4] as u32,
            sizeofcmds: f[5] as u32,
            flags: f[6] as u32,
            arch: arch_from_cputype(cputype),
            lc_off,
        },
    )
}

} // verus!
