//! Names of CPU type and subtype pairs, matched top to bottom.

use vstd::prelude::*;
use crate::header::{CPU_TYPE_ANY, CPU_TYPE_ARM, CPU_TYPE_ARM64, CPU_TYPE_HPPA, CPU_TYPE_I860,
    CPU_TYPE_MC680X0, CPU_TYPE_MC88000, CPU_TYPE_POWERPC, CPU_TYPE_POWERPC64, CPU_TYPE_SPARC,
    CPU_TYPE_X86, CPU_TYPE_X86_64};

verus! {

/// The subtype with its capability bit cleared.
pub open spec fn subtype_key(cpusubtype: u32) -> u32 {
    cpusubtype & 0x7fff_ffff
}

/// The conventional name of a CPU type and (masked) subtype.
pub open spec fn arch_name(ct: u32, st: u32) -> Option<&'static str> {
    if ct == CPU_TYPE_HPPA && st == 0 {
        Some("hppa")
    } else if ct == CPU_TYPE_X86 && st == 3 {
        Some("i386")
    } else if ct == CPU_TYPE_X86_64 && st == 3 {
        Some("x86_64")
    } else if ct == CPU_TYPE_I860 && st == 0 {
        Some("i860")
    } else if ct == CPU_TYPE_MC680X0 && st == 1 {
        Some("m68k")
    } else if ct == CPU_TYPE_MC88000 && st == 0 {
        Some("m88k")
    } else if ct == CPU_TYPE_POWERPC && st == 0 {
        Some("ppc")
    } else if ct == CPU_TYPE_POWERPC64 && st == 0 {
        Some("ppc64")
    } else if ct == CPU_TYPE_SPARC && st == 0 {
        Some("sparc")
    } else if ct == CPU_TYPE_ARM && st == 0 {
        Some("arm")
    } else if ct == CPU_TYPE_ANY && st == 0xffff_ffff {
        Some("any")
    } else if ct == CPU_TYPE_HPPA && st == 1 {
        Some("hppa7100LC")
    } else if ct == CPU_TYPE_MC680X0 && st == 3 {
        Some("m68030")
    } else if ct == CPU_TYPE_MC680X0 && st == 2 {
        Some("m68040")
    } else if ct == CPU_TYPE_X86 && st == 4 {
        Some("i486")
    } else if ct == CPU_TYPE_X86 && st == 132 {
        Some("i486SX")
    } else if ct == CPU_TYPE_X86 && st == 5 {
        Some("pentium")
    } else if ct == CPU_TYPE_X86 && st == 22 {
        Some("pentpro")
    } else if ct == CPU_TYPE_X86 && st == 54 {
        Some("pentIIm3")
    } else if ct == CPU_TYPE_X86 && st == 86 {
        Some("pentIIm5")
    } else if ct == CPU_TYPE_X86 && st == 10 {
        Some("pentium4")
    } else if ct == CPU_TYPE_POWERPC && st == 1 {
        Some("ppc601")
    } else if ct == CPU_TYPE_POWERPC && st == 3 {
        Some("ppc603")
    } else if ct == CPU_TYPE_POWERPC && st == 4 {
        Some("ppc603e")
    } else if ct == CPU_TYPE_POWERPC && st == 5 {
        Some("ppc603ev")
    } else if ct == CPU_TYPE_POWERPC && st == 6 {
        Some("ppc604")
    } else if ct == CPU_TYPE_POWERPC && st == 7 {
        Some("ppc604e")
    } else if ct == CPU_TYPE_POWERPC && st == 9 {
        Some("ppc750")
    } else if ct == CPU_TYPE_POWERPC && st == 10 {
        Some("ppc7400")
    } else if ct == CPU_TYPE_POWERPC && st == 11 {
        Some("ppc7450")
    } else if ct == CPU_TYPE_POWERPC && st == 100 {
        Some("ppc970")
    } else if ct == CPU_TYPE_POWERPC64 && st == 100 {
        Some("ppc970-64")
    } else if ct == CPU_TYPE_ARM && st == 5 {
        Some("armv4t")
    } else if ct == CPU_TYPE_ARM && st == 7 {
        Some("armv5")
    } else if ct == CPU_TYPE_ARM && st == 8 {
        Some("xscale")
    } else if ct == CPU_TYPE_ARM && st == 6 {
        Some("armv6")
    } else if ct == CPU_TYPE_ARM && st == 9 {
        Some("armv7")
    } else if ct == CPU_TYPE_ARM && st == 10 {
        Some("armv7f")
    } else if ct == CPU_TYPE_ARM && st == 11 {
        Some("armv7s")
    } else if ct == CPU_TYPE_ARM && st == 12 {
        Some("armv7k")
    } else if ct == CPU_TYPE_ARM64 && st == 0 {
        Some("arm64")
    } else if ct == CPU_TYPE_ARM64 && st == 1 {
        Some("arm64v8")
    } else if ct == CPU_TYPE_ANY && st == 0 {
        Some("little")
    } else if ct == CPU_TYPE_ANY && st == 1 {
        Some("big")
    } else {
        None
    }
}

/// The conventional name of a CPU type and subtype, if it has one.
pub fn mach_arch_desc(cputype: u32, cpusubtype: u32) -> (r: Option<&'static str>)
    ensures
        r == arch_name(cputype, subtype_key(cpusubtype)),
{
    let ct = cputype;
    let st = cpusubtype & 0x7fff_ffff;
    if ct == CPU_TYPE_HPPA && st == 0 {
        Some("hppa")
    } else if ct == CPU_TYPE_X86 && st == 3 {
        Some("i386")
    } else if ct == CPU_TYPE_X86_64 && st == 3 {
        Some("x86_64")
    } else if ct == CPU_TYPE_I860 && st == 0 {
        Some("i860")
    } else if ct == CPU_TYPE_MC680X0 && st == 1 {
        Some("m68k")
    } else if ct == CPU_TYPE_MC88000 && st == 0 {
        Some("m88k")
    } else if ct == CPU_TYPE_POWERPC && st == 0 {
        Some("ppc")
    } else if ct == CPU_TYPE_POWERPC64 && st == 0 {
        Some("ppc64")
    } else if ct == CPU_TYPE_SPARC && st == 0 {
        Some("sparc")
    } else if ct == CPU_TYPE_ARM && st == 0 {
        Some("arm")
    } else if ct == CPU_TYPE_ANY && st == 0xffff_ffff {
        Some("any")
    } else if ct == CPU_TYPE_HPPA && st == 1 {
        Some("hppa7100LC")
    } else if ct == CPU_TYPE_MC680X0 && st == 3 {
        Some("m68030")
    } else if ct == CPU_TYPE_MC680X0 && st == 2 {
        Some("m68040")
    } else if ct == CPU_TYPE_X86 && st == 4 {
        Some("i486")
    } else if ct == CPU_TYPE_X86 && st == 132 {
        Some("i486SX")
    } else if ct == CPU_TYPE_X86 && st == 5 {
        Some("pentium")
    } else if ct == CPU_TYPE_X86 && st == 22 {
        Some("pentpro")
    } else if ct == CPU_TYPE_X86 && st == 54 {
        Some("pentIIm3")
    } else if ct == CPU_TYPE_X86 && st == 86 {
        Some("pentIIm5")
    } else if ct == CPU_TYPE_X86 && st == 10 {
        Some("pentium4")
    } else if ct == CPU_TYPE_POWERPC && st == 1 {
        Some("ppc601")
    } else if ct == CPU_TYPE_POWERPC && st == 3 {
        Some("ppc603")
    } else if ct == CPU_TYPE_POWERPC && st == 4 {
        Some("ppc603e")
    } else if ct == CPU_TYPE_POWERPC && st == 5 {
        Some("ppc603ev")
    } else if ct == CPU_TYPE_POWERPC && st == 6 {
        Some("ppc604")
    } else if ct == CPU_TYPE_POWERPC && st == 7 {
        Some("ppc604e")
    } else if ct == CPU_TYPE_POWERPC && st == 9 {
        Some("ppc750")
    } else if ct == CPU_TYPE_POWERPC && st == 10 {
        Some("ppc7400")
    } else if ct == CPU_TYPE_POWERPC && st == 11 {
        Some("ppc7450")
    } else if ct == CPU_TYPE_POWERPC && st == 100 {
        Some("ppc970")
    } else if ct == CPU_TYPE_POWERPC64 && st == 100 {
        Some("ppc970-64")
    } else if ct == CPU_TYPE_ARM && st == 5 {
        Some("armv4t")
    } else if ct == CPU_TYPE_ARM && st == 7 {
        Some("armv5")
    } else if ct == CPU_TYPE_ARM && st == 8 {
        Some("xscale")
    } else if ct == CPU_TYPE_ARM && st == 6 {
        Some("armv6")
    } else if ct == CPU_TYPE_ARM && st == 9 {
        Some("armv7")
    } else if ct == CPU_TYPE_ARM && st == 10 {
        Some("armv7f")
    } else if ct == CPU_TYPE_ARM && st == 11 {
        Some("armv7s")
    } else if ct == CPU_TYPE_ARM && st == 12 {
        Some("armv7k")
    } else if ct == CPU_TYPE_ARM64 && st == 0 {
        Some("arm64")
    } else if ct == CPU_TYPE_ARM64 && st == 1 {
        Some("arm64v8")
    } else if ct == CPU_TYPE_ANY && st == 0 {
        Some("little")
    } else if ct == CPU_TYPE_ANY && st == 1 {
        Some("big")
    } else {
        None
    }
}

/// The conventional name of a file-type code.
pub open spec fn filetype_name(ft: u32) -> &'static str {
    if ft == 1 {
        "object"
    } else if ft == 2 {
        "executable"
    } else if ft == 4 {
        "core"
    } else if ft == 6 {
        "dylib"
    } else if ft == 7 {
        "dylinker"
    } else if ft == 8 {
        "bundle"
    } else if ft == 10 {
        "dSYM"
    } else if ft == 11 {
        "kext"
    } else {
        "<unknown filetype>"
    }
}

pub fn filetype_desc(ft: u32) -> (r: &'static str)
    ensures
        r == filetype_name(ft),
{
    if ft == 1 {
        "object"
    } else if ft == 2 {
        "executable"
    } else if ft == 4 {
        "core"
    } else if ft == 6 {
        "dylib"
    } else if ft == 7 {
        "dylinker"
    } else if ft == 8 {
        "bundle"
    } else if ft == 10 {
        "dSYM"
    } else if ft == 11 {
        "kext"
    } else {
        "<unknown filetype>"
    }
}

} // verus!
