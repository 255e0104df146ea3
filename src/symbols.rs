//! Decoding entries of the flat symbol table into classified symbols.

use vstd::prelude::*;
use crate::util::{cstr_bytes, trim_to_null, Endian};
use crate::codec::{fields_val, is_layout, pow256, read_fields, total};
use crate::header::MachOError;

verus! {

pub const N_EXT: u64 = 0x01;
pub const N_TYPE: u64 = 0x0e;
pub const N_UNDF: u64 = 0x0;
pub const N_INDR: u64 = 0xa;
pub const N_ARM_THUMB_DEF: u64 = 0x0008;
pub const N_WEAK_REF: u64 = 0x0040;
pub const N_WEAK_DEF: u64 = 0x0080;
pub const N_SYMBOL_RESOLVER: u64 = 0x0100;

/// What a symbol stands for.
#[derive(Debug, Clone, PartialEq, Eq)]
pub enum SymbolValue {
    Addr(u64),
    Undefined,
    /// An alias of the symbol of this name.
    ReExport(Vec<u8>),
    /// The address of a function that returns the symbol's address.
    Resolver(u64),
}

/// A decoded symbol-table entry.
#[derive(Debug, Clone)]
pub struct Symbol {
    pub name: Vec<u8>,
    pub is_public: bool,
    pub is_weak: bool,
    pub val: SymbolValue,
    /// Offset of the entry within the symbol table.
    pub private: usize,
}

pub enum SymbolValueV {
    Addr(u64),
    Undefined,
    ReExport(Seq<u8>),
    Resolver(u64),
}

pub struct SymbolV {
    pub name: Seq<u8>,
    pub is_public: bool,
    pub is_weak: bool,
    pub val: SymbolValueV,
    pub private: usize,
}

impl View for Symbol {
    type V = SymbolV;

    open spec fn view(&self) -> SymbolV {
        SymbolV {
            name: self.name@,
            is_public: self.is_public,
            is_weak: self.is_weak,
            val: match self.val {
                SymbolValue::Addr(a) => SymbolValueV::Addr(a),
                SymbolValue::Undefined => SymbolValueV::Undefined,
                SymbolValue::ReExport(n) => SymbolValueV::ReExport(n@),
                SymbolValue::Resolver(a) => SymbolValueV::Resolver(a),
            },
            private: self.private,
        }
    }
}

/// Which symbols a caller asks for.
#[derive(Debug, Clone, Copy, PartialEq, Eq, Structural)]
pub enum SymbolSource {
    All,
    Imported,
    Exported,
}

/// Layout of a symbol-table entry: name offset, type, section,
/// descriptor and value.
pub open spec fn nlist_layout(is64: bool) -> Seq<usize> {
    if is64 {
        seq![4usize, 1, 1, 2, 8]
    } else {
        seq![4usize, 1, 1, 2, 4]
    }
}

pub fn nlist_layout_vec(is64: bool) -> (r: Vec<usize>)
    ensures
        r@ == nlist_layout(is64),
        is_layout(r@),
        total(r@) == if is64 { 16nat } else { 12nat },
{
    let r: Vec<usize> = if is64 { vec![4, 1, 1, 2, 8] } else { vec![4, 1, 1, 2, 4] };
    assert(r@ =~= nlist_layout(is64));
    reveal_with_fuel(total, 6);
    r
}

/// The NUL-terminated string at `off` of the string table; empty when
/// `off` lies past its end.
pub open spec fn str_at(strtab: Seq<u8>, off: nat) -> Seq<u8> {
    if off <= strtab.len() {
        cstr_bytes(strtab.skip(off as int))
    } else {
        Seq::empty()
    }
}

pub fn read_str_at(strtab: &[u8], off: u64) -> (r: Vec<u8>)
    ensures
        r@ == str_at(strtab@, off as nat),
{
    if off <= strtab.len() as u64 {
        let rest: &[u8] = &strtab[off as usize..strtab.len()];
        assert(rest@ =~= strtab@.skip(off as int));
        vstd::slice::slice_to_vec(trim_to_null(rest))
    } else {
        Vec::new()
    }
}

/// The symbol that entry `f` (decoded fields) describes, or the failure
/// of an alias whose name offset is out of the 32-bit range.
pub open spec fn classify(f: Seq<u64>, strtab: Seq<u8>, private: usize) -> Result<SymbolV, MachOError> {
    let ntype = f[1] & N_TYPE;
    let desc = f[3];
    let value = f[4];
    let addr = if desc & N_ARM_THUMB_DEF != 0 { value | 1 } else { value };
    let val = if ntype == N_UNDF {
        Ok(SymbolValueV::Undefined)
    } else if ntype == N_INDR {
        if value > 0xffff_fffe {
            Err(MachOError::InternalInvariant)
        } else {
            Ok(SymbolValueV::ReExport(str_at(strtab, value as nat)))
        }
    } else if desc & N_SYMBOL_RESOLVER != 0 {
        Ok(SymbolValueV::Resolver(addr))
    } else {
        Ok(SymbolValueV::Addr(addr))
    };
    match val {
        Err(err) => Err(err),
        Ok(v) => Ok(SymbolV {
            name: str_at(strtab, f[0] as nat),
            is_public: f[1] & N_EXT != 0,
            is_weak: desc & (N_WEAK_REF | N_WEAK_DEF) != 0,
            val: v,
            private,
        }),
    }
}

/// Decodes the entry at `off` of `symtab`.
pub fn decode_symbol(symtab: &[u8], off: usize, strtab: &[u8], is64: bool, e: Endian) -> (r: Result<Symbol, MachOError>)
    requires
        off + (if is64 { 16nat } else { 12nat }) <= symtab@.len(),
    ensures
        match classify(fields_val(symtab@.subrange(off as int, off + (if is64 { 16int } else { 12int })), nlist_layout(is64), e), strtab@, off) {
            Ok(s) => r is Ok && r->Ok_0@ == s,
            Err(err) => r is Err && r->Err_0 == err,
        },
{
    let lay = nlist_layout_vec(is64);
    let f = read_fields(symtab, off, lay.as_slice(), e);
    let ntype = f[1] & N_TYPE;
    let desc = f[3];
    let value = f[4];
    let addr = if desc & N_ARM_THUMB_DEF != 0 { value | 1 } else { value };
    let val = if ntype == N_UNDF {
        SymbolValue::Undefined
    } else if ntype == N_INDR {
        if value > 0xffff_fffe {
            return Err(MachOError::InternalInvariant);
        }
        SymbolValue::ReExport(read_str_at(strtab, value))
    } else if desc & N_SYMBOL_RESOLVER != 0 {
        SymbolValue::Resolver(addr)
    } else {
        SymbolValue::Addr(addr)
    };
    Ok(Symbol {
        name: read_str_at(strtab, f[0]),
        is_public: f[1] & N_EXT != 0,
        is_weak: desc & (N_WEAK_REF | N_WEAK_DEF) != 0,
        val,
        private: off,
    })
}

/// The placeholder name that shared-cache tables give to stripped symbols.
pub open spec fn redacted() -> Seq<u8> {
    seq![60u8, 114, 101, 100, 97, 99, 116, 101, 100, 62]
}

pub fn is_redacted(name: &Vec<u8>) -> (r: bool)
    ensures
        r == (name@ == redacted()),
{
    let lit: Vec<u8> = vec![60u8, 114, 101, 100, 97, 99, 116, 101, 100, 62];
    assert(lit@ =~= redacted());
    if name.len() != lit.len() {
        return false;
    }
    let mut i: usize = 0;
    while i < name.len()
        invariant
            i <= name@.len(),
            name@.len() == lit@.len(),
            lit@ == redacted(),
            forall|j: int| 0 <= j < i ==> name@[j] == lit@[j],
        decreases name@.len() - i,
    {
        if name[i] != lit[i] {
            return false;
        }
        i = i + 1;
    }
    assert(name@ =~= redacted());
    true
}

/// Entry size for a width.
pub open spec fn entry_size(is64: bool) -> nat {
    if is64 { 16 } else { 12 }
}

/// The symbols of entries `start .. start + k`, those named `<redacted>`
/// left out when `skip` holds.
pub open spec fn symbols_spec(symtab: Seq<u8>, strtab: Seq<u8>, start: nat, k: nat, skip: bool, is64: bool, e: Endian) -> Result<Seq<SymbolV>, MachOError>
    decreases k,
{
    if k == 0 {
        Ok(Seq::empty())
    } else {
        match symbols_spec(symtab, strtab, start, (k - 1) as nat, skip, is64, e) {
            Err(err) => Err(err),
            Ok(prev) => {
                let off = (start + k - 1) * entry_size(is64);
                let f = fields_val(symtab.subrange(off as int, off + entry_size(is64)), nlist_layout(is64), e);
                match classify(f, strtab, off as usize) {
                    Err(err) => Err(err),
                    Ok(s) => if skip && s.name == redacted() { Ok(prev) } else { Ok(prev.push(s)) },
                }
            },
        }
    }
}

proof fn lemma_symbols_err(symtab: Seq<u8>, strtab: Seq<u8>, start: nat, i: nat, k: nat, skip: bool, is64: bool, e: Endian)
    requires
        i <= k,
        symbols_spec(symtab, strtab, start, i, skip, is64, e) is Err,
    ensures
        symbols_spec(symtab, strtab, start, k, skip, is64, e) == symbols_spec(symtab, strtab, start, i, skip, is64, e),
    decreases k - i,
{
    if i < k {
        lemma_symbols_err(symtab, strtab, start, i, (k - 1) as nat, skip, is64, e);
    }
}

pub open spec fn symbol_views(s: Seq<Symbol>) -> Seq<SymbolV> {
    s.map_values(|x: Symbol| x@)
}

/// Appends the symbols of entries `start .. start + count` of `symtab`.
pub fn push_nlist_symbols(
    symtab: &[u8],
    strtab: &[u8],
    start: usize,
    count: usize,
    skip_redacted: bool,
    is64: bool,
    e: Endian,
    out: &mut Vec<Symbol>,
) -> (r: Result<(), MachOError>)
    requires
        (start + count) * entry_size(is64) <= symtab@.len(),
    ensures
        match symbols_spec(symtab@, strtab@, start as nat, count as nat, skip_redacted, is64, e) {
            Ok(s) => r is Ok && symbol_views(final(out)@) == symbol_views(old(out)@) + s,
            Err(err) => r == Err::<(), MachOError>(err),
        },
{
    let nl: usize = if is64 { 16 } else { 12 };
    let n: usize = symtab.len();
    let ghost base = symbol_views(out@);
    let mut i: usize = 0;
    while i < count
        invariant
            i <= count,
            nl == entry_size(is64),
            n == symtab@.len(),
            (start + count) * nl <= symtab@.len(),
            base == symbol_views(old(out)@),
            symbols_spec(symtab@, strtab@, start as nat, i as nat, skip_redacted, is64, e) is Ok,
            symbol_views(out@) == base + symbols_spec(symtab@, strtab@, start as nat, i as nat, skip_redacted, is64, e)->Ok_0,
        decreases count - i,
    {
        proof {
            assert((start + i) * nl + nl <= (start + count) * nl) by (nonlinear_arith)
                requires i < count;
        }
        let off: usize = (start + i) * nl;
        let ghost prev = out@;
        match decode_symbol(symtab, off, strtab, is64, e) {
            Err(err) => {
                proof {
                    lemma_symbols_err(symtab@, strtab@, start as nat, i as nat + 1, count as nat, skip_redacted, is64, e);
                }
                return Err(err);
            },
            Ok(s) => {
                if skip_redacted && is_redacted(&s.name) {
                } else {
                    out.push(s);
                    proof {
                        assert(symbol_views(out@) =~= symbol_views(prev).push(s@));
                    }
                }
            },
        }
        i = i + 1;
    }
    Ok(())
}

} // verus!
