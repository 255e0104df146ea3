use macho_util::archname::mach_arch_desc;
use macho_util::codec::{read_fields, read_uint, write_fields, write_uint};
use macho_util::fat::{fat_slices, probe_fat, probe_macho, select_slice};
use macho_util::header::{arch_from_cputype, parse_header, Arch, MachOError};
use macho_util::macho::MachO;
use macho_util::model::{prot_to_u32, u32_to_prot, Prot};
use macho_util::region::{file_array, MCRef, RegionError, Table, Warning};
use macho_util::rewrite::{name_to_macho, Allocations};
use macho_util::symbols::{decode_symbol, push_nlist_symbols, SymbolSource, SymbolValue};
use macho_util::util::Endian;

fn le32(out: &mut Vec<u8>, v: u32) {
    out.extend_from_slice(&v.to_le_bytes());
}

fn le64(out: &mut Vec<u8>, v: u64) {
    out.extend_from_slice(&v.to_le_bytes());
}

fn be32(out: &mut Vec<u8>, v: u32) {
    out.extend_from_slice(&v.to_be_bytes());
}

fn name16(out: &mut Vec<u8>, s: &str) {
    let mut n = [0u8; 16];
    n[..s.len()].copy_from_slice(s.as_bytes());
    out.extend_from_slice(&n);
}

fn nlist64(out: &mut Vec<u8>, strx: u32, ntype: u8, desc: u16, value: u64) {
    le32(out, strx);
    out.push(ntype);
    out.push(0);
    out.extend_from_slice(&desc.to_le_bytes());
    le64(out, value);
}

const SYMOFF: u32 = 256;
const STROFF: u32 = 320;

/// A 64-bit little-endian container: one segment with one section, a
/// symbol table of four entries, and one command of a type the model does
/// not track.
fn sample() -> Vec<u8> {
    let mut b = Vec::new();
    le32(&mut b, 0xfeed_facf);
    le32(&mut b, 0x0100_0007);
    le32(&mut b, 3);
    le32(&mut b, 2);
    le32(&mut b, 3);
    le32(&mut b, 152 + 24 + 16);
    le32(&mut b, 0);
    le32(&mut b, 0);
    // segment command
    le32(&mut b, 0x19);
    le32(&mut b, 152);
    name16(&mut b, "__TEXT");
    le64(&mut b, 0x1000);
    le64(&mut b, 0x1000);
    le64(&mut b, 0);
    le64(&mut b, 0x1000);
    le32(&mut b, 7);
    le32(&mut b, 5);
    le32(&mut b, 1);
    le32(&mut b, 0);
    name16(&mut b, "__text");
    name16(&mut b, "__TEXT");
    le64(&mut b, 0x1100);
    le64(&mut b, 0x10);
    le32(&mut b, 0x100);
    le32(&mut b, 4);
    le32(&mut b, 0);
    le32(&mut b, 0);
    le32(&mut b, 0x8000_0400);
    le32(&mut b, 0);
    le32(&mut b, 0);
    le32(&mut b, 0);
    // symbol table command
    le32(&mut b, 0x2);
    le32(&mut b, 24);
    le32(&mut b, SYMOFF);
    le32(&mut b, 4);
    le32(&mut b, STROFF);
    le32(&mut b, 120);
    // function starts: passed through
    le32(&mut b, 0x26);
    le32(&mut b, 16);
    le32(&mut b, 0x300);
    le32(&mut b, 8);
    b.resize(SYMOFF as usize, 0);
    nlist64(&mut b, 1, 0x01, 0, 0);
    nlist64(&mut b, 8, 0x0b, 0, 100);
    nlist64(&mut b, 15, 0x0f, 0x100, 0x2000);
    nlist64(&mut b, 20, 0x0e, 0x8, 0x1000);
    assert_eq!(b.len(), STROFF as usize);
    let mut strtab = vec![0u8; 120];
    strtab[1..7].copy_from_slice(b"_undef");
    strtab[8..14].copy_from_slice(b"_alias");
    strtab[15..19].copy_from_slice(b"_res");
    strtab[20..26].copy_from_slice(b"_thumb");
    strtab[100..107].copy_from_slice(b"_target");
    b.extend_from_slice(&strtab);
    b
}

fn parse(b: &[u8]) -> (MachO, Vec<Warning>) {
    MachO::new(b, MCRef::whole(1, b.len()), true, 0).unwrap()
}

#[test]
fn header_of_sample() {
    let b = sample();
    let h = parse_header(&b, 0).unwrap();
    assert!(h.is64);
    assert_eq!(h.endian, Endian::LittleEndian);
    assert_eq!(h.arch, Arch::X86_64);
    assert_eq!(h.ncmds, 3);
    assert_eq!(h.lc_off, 32);
}

#[test]
fn header_big_endian_32() {
    let mut b = Vec::new();
    for v in [0xfeed_faceu32, 18, 0, 6, 0, 0, 0] {
        be32(&mut b, v);
    }
    let h = parse_header(&b, 0).unwrap();
    assert!(!h.is64);
    assert_eq!(h.endian, Endian::BigEndian);
    assert_eq!(h.arch, Arch::PowerPC);
    assert_eq!(h.filetype, 6);
    assert_eq!(h.lc_off, 28);
}

#[test]
fn header_truncated() {
    assert_eq!(parse_header(&[0xfe, 0xed, 0xfa, 0xce], 0), Err(MachOError::Truncated));
    let b = sample();
    assert_eq!(parse_header(&b[..30], 0), Err(MachOError::Truncated));
    assert_eq!(parse_header(&b, usize::MAX), Err(MachOError::Truncated));
}

#[test]
fn arch_mapping() {
    assert_eq!(arch_from_cputype(7), Arch::X86);
    assert_eq!(arch_from_cputype(12), Arch::Arm);
    assert_eq!(arch_from_cputype(0x0100_000c), Arch::AArch64);
    assert_eq!(arch_from_cputype(0x0100_0012), Arch::PowerPC64);
    assert_eq!(arch_from_cputype(99), Arch::Unknown);
    assert_eq!(mach_arch_desc(7, 3), Some("i386"));
    assert_eq!(mach_arch_desc(0x0100_0007, 0x8000_0003), Some("x86_64"));
    assert_eq!(mach_arch_desc(12, 9), Some("armv7"));
    assert_eq!(mach_arch_desc(18, 100), Some("ppc970"));
    assert_eq!(mach_arch_desc(12, 99), None);
}

#[test]
fn walk_sample() {
    let b = sample();
    let (m, warnings) = parse(&b);
    assert!(warnings.is_empty());
    assert_eq!(m.load_commands.len(), 3);
    assert_eq!(m.load_commands[0].off, 32);
    assert_eq!(m.load_commands[0].len, 152);
    assert_eq!(m.load_commands[2].off, 32 + 152 + 24);
    assert_eq!(m.segments.len(), 1);
    let s = &m.segments[0];
    assert_eq!(&s.name[..7], b"__TEXT\0");
    assert_eq!(s.vmaddr, 0x1000);
    assert_eq!(s.filesize, 0x1000);
    assert_eq!(s.prot, Prot { r: true, w: false, x: true });
    assert_eq!(s.origin, Some(0));
    assert_eq!(m.sections.len(), 1);
    let x = &m.sections[0];
    assert_eq!(&x.name[..7], b"__text\0");
    assert_eq!(x.addr, 0x1100);
    assert_eq!(x.size, 0x10);
    assert_eq!(x.offset, 0x100);
    assert_eq!(x.seg_idx, 0);
    assert_eq!(m.tables.symtab.off, SYMOFF as usize);
    assert_eq!(m.tables.symtab.len, 64);
    assert_eq!(m.tables.strtab.len, 120);
    assert_eq!(m.nlist_size, 16);
}

#[test]
fn walk_without_commands() {
    let b = sample();
    let (m, _) = MachO::new(&b, MCRef::whole(1, b.len()), false, 0).unwrap();
    assert!(m.load_commands.is_empty());
    assert!(m.segments.is_empty());
}

#[test]
fn walk_zero_size_command_is_fatal() {
    let mut b = sample();
    b[36..40].copy_from_slice(&0u32.to_le_bytes());
    assert_eq!(MachO::new(&b, MCRef::whole(1, b.len()), true, 0).err(), Some(MachOError::Truncated));
}

#[test]
fn walk_past_end_is_fatal() {
    let mut b = sample();
    b[16..20].copy_from_slice(&4u32.to_le_bytes());
    b.truncate(32 + 152 + 24 + 16 + 4);
    assert_eq!(MachO::new(&b, MCRef::whole(1, b.len()), true, 0).err(), Some(MachOError::Truncated));
}

#[test]
fn oversized_symbol_table_is_clamped() {
    let mut b = sample();
    b[32 + 152 + 12..32 + 152 + 16].copy_from_slice(&1000u32.to_le_bytes());
    let (m, warnings) = parse(&b);
    assert_eq!(m.tables.symtab.len, (b.len() - SYMOFF as usize) / 16 * 16);
    assert_eq!(warnings.len(), 1);
    assert!(matches!(warnings[0], Warning::TableTruncated { table: Table::SymbolTable, count: 1000, .. }));
}

#[test]
fn segment_overflow_64_is_clamped() {
    let mut b = sample();
    b[32 + 24..32 + 32].copy_from_slice(&u64::MAX.to_le_bytes());
    let (m, warnings) = parse(&b);
    assert_eq!(m.segments[0].vmaddr, u64::MAX);
    assert_eq!(m.segments[0].vmsize, 0);
    assert_eq!(warnings, vec![Warning::VmOverflow { is64: true, vmaddr: u64::MAX, vmsize: 0x1000 }]);
}

#[test]
fn symbol_classification() {
    let b = sample();
    let (m, _) = parse(&b);
    let syms = m.get_symbol_list(&b, SymbolSource::All).unwrap();
    assert_eq!(syms.len(), 4);
    assert_eq!(syms[0].name, b"_undef".to_vec());
    assert_eq!(syms[0].val, SymbolValue::Undefined);
    assert!(syms[0].is_public);
    assert_eq!(syms[1].val, SymbolValue::ReExport(b"_target".to_vec()));
    assert_eq!(syms[2].val, SymbolValue::Resolver(0x2000));
    assert_eq!(syms[3].val, SymbolValue::Addr(0x1001));
    assert!(!syms[3].is_public);
    assert_eq!(syms[3].private, 48);
    assert_eq!(m.get_symbol_list(&b, SymbolSource::Imported).err(), Some(MachOError::Unsupported));
}

#[test]
fn symbol_weak_and_redacted() {
    let mut symtab = Vec::new();
    nlist64(&mut symtab, 1, 0x0f, 0x80, 0x10);
    nlist64(&mut symtab, 12, 0x0e, 0, 0x20);
    let mut strtab = vec![0u8; 24];
    strtab[1..11].copy_from_slice(b"<redacted>");
    strtab[12..16].copy_from_slice(b"_bar");
    let s = decode_symbol(&symtab, 0, &strtab, true, Endian::LittleEndian).unwrap();
    assert!(s.is_weak);
    assert_eq!(s.val, SymbolValue::Addr(0x10));
    let mut out = Vec::new();
    push_nlist_symbols(&symtab, &strtab, 0, 2, true, true, Endian::LittleEndian, &mut out).unwrap();
    assert_eq!(out.len(), 1);
    assert_eq!(out[0].name, b"_bar".to_vec());
    let mut all = Vec::new();
    push_nlist_symbols(&symtab, &strtab, 0, 2, false, true, Endian::LittleEndian, &mut all).unwrap();
    assert_eq!(all.len(), 2);
}

#[test]
fn indirect_symbol_with_huge_value_fails() {
    let mut symtab = Vec::new();
    nlist64(&mut symtab, 0, 0x0a, 0, 0xffff_ffff);
    assert_eq!(
        decode_symbol(&symtab, 0, &[0u8; 4], true, Endian::LittleEndian).err(),
        Some(MachOError::InternalInvariant)
    );
}

#[test]
fn bounded_array_cases() {
    let buf = MCRef::whole(3, 100);
    let mut w = Vec::new();
    let r = file_array(&buf, Table::StringTable, 10, 5, 4, &mut w);
    assert_eq!((r.off, r.len), (10, 20));
    assert!(w.is_empty());
    let r = file_array(&buf, Table::SymbolTable, 10, 50, 12, &mut w);
    assert_eq!((r.off, r.len), (10, 84));
    assert_eq!(w.len(), 1);
    let r = file_array(&buf, Table::ModuleTable, 101, 1, 1, &mut w);
    assert_eq!(r.len, 0);
    assert!(matches!(w[1], Warning::TablePastEnd { off: 101, .. }));
    let r = file_array(&buf, Table::ModuleTable, 100, u64::MAX, 8, &mut w);
    assert_eq!((r.off, r.len), (100, 0));
    let r = file_array(&buf, Table::TableOfContents, 0, u64::MAX, u64::MAX, &mut w);
    assert_eq!(r.len, 0);
}

#[test]
fn region_slicing() {
    let whole = MCRef::whole(9, 50);
    let a = whole.slice(10, 30).unwrap();
    assert_eq!((a.off, a.len), (10, 20));
    let b = a.slice(5, 10).unwrap();
    assert_eq!((b.off, b.len), (15, 5));
    assert_eq!(a.slice(21, 21), Err(RegionError::OutOfRange));
    assert_eq!(a.slice(0, 21), Err(RegionError::OutOfRange));
    assert_eq!(a.slice(5, 4), Err(RegionError::OutOfRange));
    assert_eq!(b.offset_in(&a), Some(5));
    assert_eq!(a.offset_in(&b), None);
    assert_eq!(b.offset_in(&MCRef::whole(8, 50)), None);
    let data: Vec<u8> = (0..50).collect();
    assert_eq!(b.get(&data), &[15, 16, 17, 18, 19]);
}

#[test]
fn codec_round_trip_both_orders() {
    let layout = [4usize, 1, 1, 2, 8];
    let vals = [0xdead_beefu64, 0x0f, 0x01, 0x0100, 0x0123_4567_89ab_cdef];
    for e in [Endian::LittleEndian, Endian::BigEndian] {
        let mut out = Vec::new();
        write_fields(&mut out, &vals, &layout, e);
        assert_eq!(out.len(), 16);
        assert_eq!(read_fields(&out, 0, &layout, e), vals.to_vec());
    }
    let mut be = Vec::new();
    write_uint(&mut be, 0xfeed_face, 4, Endian::BigEndian);
    assert_eq!(be, vec![0xfe, 0xed, 0xfa, 0xce]);
    assert_eq!(read_uint(&be, 0, 4, Endian::LittleEndian), 0xcefa_edfe);
}

#[test]
fn name_truncation() {
    let mut w = Vec::new();
    let n = name_to_macho(b"__ABCDEFGHIJKLMNOPQR", &mut w);
    assert_eq!(&n[..15], b"__ABCDEFGHIJKLM");
    assert_eq!(n[15], 0);
    assert_eq!(w, vec![Warning::NameTooLong { len: 20 }]);
    let mut w2 = Vec::new();
    let short = name_to_macho(b"__DATA", &mut w2);
    assert_eq!(&short[..7], b"__DATA\0");
    assert!(w2.is_empty());
}

#[test]
fn prot_bits_round_trip() {
    assert_eq!(u32_to_prot(5), Prot { r: true, w: false, x: true });
    assert_eq!(prot_to_u32(Prot { r: true, w: true, x: false }), 3);
}

fn sample_allocations() -> Allocations {
    Allocations {
        dyld_rebase: 0,
        dyld_bind: 0,
        dyld_weak_bind: 0,
        dyld_lazy_bind: 0,
        dyld_export: 0,
        symtab: SYMOFF,
        strtab: STROFF,
        toc: 0,
        modtab: 0,
        extrefsym: 0,
        indirectsym: 0,
        ilocalsym: 0,
        iextdefsym: 0,
        iundefsym: 0,
    }
}

#[test]
fn rewrite_unedited_round_trip() {
    let b = sample();
    let (m, _) = parse(&b);
    let cmds = m.update_cmds(&b, sample_allocations()).unwrap();
    assert_eq!(cmds.len(), 3);
    assert_eq!(cmds[0], b[32..184].to_vec());
    assert_eq!(cmds[1], b[184..208].to_vec());
    assert_eq!(cmds[2], b[208..224].to_vec());
}

#[test]
fn rewrite_moves_tables_and_adds_segment() {
    let b = sample();
    let (mut m, _) = parse(&b);
    let mut extra = m.segments[0];
    let mut w = Vec::new();
    extra.set_name(b"__LINKEDIT_EXTRA_NAME", &mut w);
    extra.origin = None;
    extra.vmaddr = 0x9000;
    m.segments.push(extra);
    let mut a = sample_allocations();
    a.symtab = 0x400;
    let cmds = m.update_cmds(&b, a).unwrap();
    assert_eq!(w.len(), 1);
    assert_eq!(cmds.len(), 4);
    assert_eq!(cmds[0], b[32..184].to_vec());
    assert_eq!(cmds[1].len(), 72);
    assert_eq!(&cmds[1][8..24], b"__LINKEDIT_EXTR\0");
    assert_eq!(u32::from_le_bytes([cmds[2][8], cmds[2][9], cmds[2][10], cmds[2][11]]), 0x400);
    assert_eq!(cmds[3], b[208..224].to_vec());
}

#[test]
fn rewrite_then_parse_again() {
    let b = sample();
    let (mut m, _) = parse(&b);
    m.segments[0].vmsize = 0x2000;
    m.sections[0].size = 0x20;
    let cmds = m.update_cmds(&b, sample_allocations()).unwrap();
    let mut out = b[..32].to_vec();
    for c in &cmds {
        out.extend_from_slice(c);
    }
    out.extend_from_slice(&b[224..]);
    let (m2, _) = parse(&out);
    assert_eq!(m2.segments.len(), 1);
    assert_eq!(m2.segments[0].vmsize, 0x2000);
    assert_eq!(m2.segments[0].name, m.segments[0].name);
    assert_eq!(m2.sections[0].size, 0x20);
    assert_eq!(m2.sections[0].seg_idx, 0);
    assert_eq!(m2.tables, m.tables);
}

fn thin32() -> Vec<u8> {
    let mut b = Vec::new();
    for v in [0xfeed_faceu32, 7, 3, 2, 0, 0, 0] {
        le32(&mut b, v);
    }
    b
}

fn fat_sample() -> Vec<u8> {
    let mut b = Vec::new();
    be32(&mut b, 0xcafe_babe);
    be32(&mut b, 2);
    for v in [0x0100_0007u32, 3, 64, 28, 0] {
        be32(&mut b, v);
    }
    for v in [12u32, 9, 4096, 4096, 0] {
        be32(&mut b, v);
    }
    b.resize(64, 0);
    b.extend_from_slice(&thin32());
    b
}

#[test]
fn fat_container_probe() {
    let b = fat_sample();
    let mut w = Vec::new();
    let slices = fat_slices(&b, &mut w).unwrap();
    assert_eq!(slices.len(), 1);
    assert_eq!(slices[0].index, 0);
    assert_eq!(w.len(), 1);
    let mut w2 = Vec::new();
    let found = probe_fat(&b, MCRef::whole(2, b.len()), &mut w2);
    assert_eq!(found.len(), 1);
    assert_eq!(found[0].slice.unwrap().index, 0);
    assert_eq!(found[0].region.off, 64);
    assert_eq!(w2, vec![Warning::FatSliceOutOfRange { cputype: 12, cpusubtype: 9, offset: 4096, size: 4096 }]);
}

#[test]
fn fat_selection() {
    let b = fat_sample();
    let mc = MCRef::whole(2, b.len());
    let mut w = Vec::new();
    assert_eq!(select_slice(&b, mc, None, None, &mut w), Err(MachOError::UsageError));
    assert_eq!(select_slice(&b, mc, Some(0), Some("x86_64"), &mut w), Err(MachOError::UsageError));
    let r = select_slice(&b, mc, Some(0), None, &mut w).unwrap();
    assert_eq!((r.off, r.len), (64, 28));
    let r = select_slice(&b, mc, None, Some("x86_64"), &mut w).unwrap();
    assert_eq!(r.off, 64);
    assert_eq!(select_slice(&b, mc, None, Some("armv7"), &mut w), Err(MachOError::NotFound));
    assert_eq!(select_slice(&b, mc, Some(1), None, &mut w), Err(MachOError::NotFound));
    let thin = thin32();
    assert_eq!(select_slice(&thin, MCRef::whole(1, thin.len()), Some(0), None, &mut w), Err(MachOError::BadFormat));
}

#[test]
fn magic_rejection() {
    let mut b = vec![0u8, 1, 2, 3];
    b.resize(64, 0);
    let mc = MCRef::whole(5, b.len());
    assert!(probe_macho(&b, mc, None).is_empty());
    let mut w = Vec::new();
    assert!(probe_fat(&b, mc, &mut w).is_empty());
    assert!(w.is_empty());
    assert_eq!(MachO::new(&b, mc, true, 0).err(), Some(MachOError::BadFormat));
    let thin = thin32();
    assert_eq!(probe_macho(&thin, MCRef::whole(1, thin.len()), None).len(), 1);
}

/// A 32-bit big-endian container with a segment without sections, a
/// dynamic-linker info command and a dynamic symbol-table command.
fn sample_be32() -> Vec<u8> {
    let mut b = Vec::new();
    for v in [0xfeed_faceu32, 18, 0, 6, 3, 56 + 48 + 80, 0] {
        be32(&mut b, v);
    }
    for v in [0x1u32, 56] {
        be32(&mut b, v);
    }
    name16(&mut b, "__DATA");
    for v in [0x4000u32, 0x1000, 0x400, 0x100, 3, 3, 0, 0] {
        be32(&mut b, v);
    }
    for v in [0x8000_0022u32, 48, 0x200, 8, 0x208, 8, 0, 0, 0x210, 16, 0x220, 32] {
        be32(&mut b, v);
    }
    for v in [0xbu32, 80, 0, 2, 2, 3, 5, 1, 0x240, 2, 0x250, 0, 0, 0, 0x260, 4, 0, 0, 0x300, 7] {
        be32(&mut b, v);
    }
    b.resize(0x280, 0);
    b
}

#[test]
fn walk_be32_tables() {
    let b = sample_be32();
    let (m, warnings) = parse(&b);
    assert!(warnings.is_empty());
    assert!(!m.header.is64);
    assert_eq!(m.header.arch, Arch::PowerPC);
    assert_eq!(m.segments.len(), 1);
    assert_eq!(m.segments[0].vmaddr, 0x4000);
    assert_eq!(m.segments[0].prot, Prot { r: true, w: true, x: false });
    assert!(m.tables.dyld_info_is_only);
    assert_eq!((m.tables.dyld_rebase.off, m.tables.dyld_rebase.len), (0x200, 8));
    assert_eq!((m.tables.dyld_export.off, m.tables.dyld_export.len), (0x220, 32));
    assert_eq!(m.tables.extdefsym.off, 2);
    assert_eq!(m.tables.undefsym.count, 1);
    assert_eq!((m.tables.toc.off, m.tables.toc.len), (0x240, 16));
    assert_eq!((m.tables.indirectsym.off, m.tables.indirectsym.len), (0x260, 16));
    assert_eq!(m.tables.locrel.count, 7);
    assert_eq!(m.nlist_size, 12);
}

#[test]
fn rewrite_be32_round_trip() {
    let b = sample_be32();
    let (m, _) = parse(&b);
    let a = Allocations {
        dyld_rebase: 0x200,
        dyld_bind: 0x208,
        dyld_weak_bind: 0,
        dyld_lazy_bind: 0x210,
        dyld_export: 0x220,
        symtab: 0,
        strtab: 0,
        toc: 0x240,
        modtab: 0x250,
        extrefsym: 0,
        indirectsym: 0x260,
        ilocalsym: 0,
        iextdefsym: 2,
        iundefsym: 5,
    };
    let cmds = m.update_cmds(&b, a).unwrap();
    assert_eq!(cmds.len(), 3);
    assert_eq!(cmds[0], b[28..84].to_vec());
    assert_eq!(cmds[1], b[84..132].to_vec());
    assert_eq!(cmds[2], b[132..212].to_vec());
}

#[test]
fn rewrite_rejects_32_bit_overflow() {
    let b = sample_be32();
    let (mut m, _) = parse(&b);
    m.segments[0].vmaddr = 0x1_0000_0000;
    let a = Allocations {
        dyld_rebase: 0,
        dyld_bind: 0,
        dyld_weak_bind: 0,
        dyld_lazy_bind: 0,
        dyld_export: 0,
        symtab: 0,
        strtab: 0,
        toc: 0,
        modtab: 0,
        extrefsym: 0,
        indirectsym: 0,
        ilocalsym: 0,
        iextdefsym: 0,
        iundefsym: 0,
    };
    assert_eq!(m.update_cmds(&b, a).err(), Some(MachOError::InternalInvariant));
}

#[test]
fn removed_segment_command_is_dropped() {
    let b = sample();
    let (mut m, _) = parse(&b);
    m.segments.clear();
    m.sections.clear();
    let cmds = m.update_cmds(&b, sample_allocations()).unwrap();
    assert_eq!(cmds.len(), 2);
    assert_eq!(cmds[1], b[208..224].to_vec());
}

#[test]
fn descriptions() {
    let b = sample();
    let (m, _) = parse(&b);
    assert_eq!(m.subtype_desc(), Some("x86_64"));
    assert_eq!(macho_util::archname::filetype_desc(m.header.filetype), "executable");
    assert_eq!(macho_util::archname::filetype_desc(6), "dylib");
    assert_eq!(macho_util::archname::filetype_desc(99), "<unknown filetype>");
}
