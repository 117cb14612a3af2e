use vstd::prelude::*;

verus! {

/// A symbol whose value is this is undefined in its object.
pub const STN_UNDEF: u64 = 0;

/// The address that stands for a symbol declared undefined by an override.
pub const UNDEFINED_SYMBOL_VALUE: u64 = 0xBABECAFE;

/// The name of a `.dynsym` entry.
#[derive(Clone, Debug)]
pub enum SymbolName {
    /// The entry has no name (`st_name` is 0).
    Anonymous,
    /// The entry's name, read from `.dynstr`.
    Named(String),
    /// The name's offset lies outside `.dynstr` or the name is malformed.
    Unreadable,
}

/// One entry of `.dynsym`.
#[derive(Clone, Debug)]
pub struct SymbolEntry {
    pub name: SymbolName,
    pub shndx: u16,
    pub value: u64,
    pub size: u64,
    pub info: u8,
    pub other: u8,
}

/// The dynamic symbol table of an object: its entries, and the raw bytes of
/// `.dynsym`, `.dynstr` and the hash tables that index them.
#[derive(Clone, Debug)]
pub struct DynamicSymbols {
    pub entries: Vec<SymbolEntry>,
    pub symtab: Vec<u8>,
    pub strtab: Vec<u8>,
    pub gnu_hash: Option<Vec<u8>>,
    pub sysv_hash: Option<Vec<u8>>,
    pub big_endian: bool,
    pub is_64: bool,
}

/// A symbol as the linker uses it: `address` is where it lives in this
/// process, absent where the symbol is undefined and no override applies.
#[derive(Clone, Debug)]
pub struct LinkingSymbol {
    pub name: Option<String>,
    pub shndx: u16,
    pub value: u64,
    pub address: Option<u64>,
    pub size: u64,
    pub sym_type: u8,
    pub binding: u8,
    pub visibility: u8,
}

/// The mathematical view of a linking symbol: its name as characters.
pub struct SymbolView {
    pub name: Option<Seq<char>>,
    pub shndx: u16,
    pub value: u64,
    pub address: Option<u64>,
    pub size: u64,
    pub sym_type: u8,
    pub binding: u8,
    pub visibility: u8,
}

impl View for LinkingSymbol {
    type V = SymbolView;

    open spec fn view(&self) -> SymbolView {
        SymbolView {
            name: name_view(self.name),
            shndx: self.shndx,
            value: self.value,
            address: self.address,
            size: self.size,
            sym_type: self.sym_type,
            binding: self.binding,
            visibility: self.visibility,
        }
    }
}

/// The characters of an optional name.
pub open spec fn name_view(n: Option<String>) -> Option<Seq<char>> {
    match n {
        Some(s) => Some(s@),
        None => None,
    }
}

/// The view of an optional linking symbol.
pub open spec fn symbol_view(s: Option<LinkingSymbol>) -> Option<SymbolView> {
    match s {
        Some(x) => Some(x@),
        None => None,
    }
}

/// The symbol type held in the low four bits of `st_info`.
pub open spec fn spec_sym_type(info: u8) -> u8 {
    info & 0xf
}

/// The binding held in the high four bits of `st_info`.
pub open spec fn spec_binding(info: u8) -> u8 {
    info >> 4
}

/// The visibility held in the low two bits of `st_other`.
pub open spec fn spec_visibility(other: u8) -> u8 {
    other & 0x3
}

/// The image address of the file virtual address `o`, for an image placed at
/// `base` whose lowest segment address in the file is `vbase`.
pub open spec fn image_address(base: u64, vbase: u64, o: u64) -> u64 {
    crate::reloc::wrap64(base + o - vbase)
}

/// Translates a file virtual address into the image.
pub fn image_offset(base: u64, vbase: u64, o: u64) -> (r: u64)
    ensures
        r == image_address(base, vbase, o),
{
    base.wrapping_add(o).wrapping_sub(vbase)
}

pub open spec fn spec_from_symbol(
    entry: SymbolEntry,
    name: Option<Seq<char>>,
    base: u64,
    vbase: u64,
) -> SymbolView {
    SymbolView {
        name,
        shndx: entry.shndx,
        value: entry.value,
        address: if entry.value == STN_UNDEF {
            None
        } else {
            Some(image_address(base, vbase, entry.value))
        },
        size: entry.size,
        sym_type: spec_sym_type(entry.info),
        binding: spec_binding(entry.info),
        visibility: spec_visibility(entry.other),
    }
}

pub open spec fn spec_from_override(entry: SymbolEntry, name: Option<Seq<char>>, address: u64) -> SymbolView {
    SymbolView {
        name,
        shndx: entry.shndx,
        value: entry.value,
        address: Some(address),
        size: entry.size,
        sym_type: spec_sym_type(entry.info),
        binding: spec_binding(entry.info),
        visibility: spec_visibility(entry.other),
    }
}

impl LinkingSymbol {
    /// The linking view of a symbol of an image at `mapping_base`; an
    /// undefined symbol has no address.
    pub fn from(symbol: &SymbolEntry, name: Option<String>, mapping_base: u64, virtual_base_address: u64) -> (r:
        LinkingSymbol)
        ensures
            r@ == spec_from_symbol(*symbol, name_view(name), mapping_base, virtual_base_address),
    {
        let address = if symbol.value == STN_UNDEF {
            None
        } else {
            Some(image_offset(mapping_base, virtual_base_address, symbol.value))
        };
        LinkingSymbol {
            name,
            shndx: symbol.shndx,
            value: symbol.value,
            address,
            size: symbol.size,
            sym_type: symbol.info & 0xf,
            binding: symbol.info >> 4,
            visibility: symbol.other & 0x3,
        }
    }

    /// The linking view of a symbol whose address an override supplies.
    pub fn from_override(symbol: &SymbolEntry, name: Option<String>, address: u64) -> (r: LinkingSymbol)
        ensures
            r@ == spec_from_override(*symbol, name_view(name), address),
    {
        LinkingSymbol {
            name,
            shndx: symbol.shndx,
            value: symbol.value,
            address: Some(address),
            size: symbol.size,
            sym_type: symbol.info & 0xf,
            binding: symbol.info >> 4,
            visibility: symbol.other & 0x3,
        }
    }
}

/// What the `.gnu.hash` lookup of `name` gives: `None` where a table cannot
/// be parsed, else the index of the matching `.dynsym` entry, if any.
pub uninterp spec fn gnu_hash_find(
    table: Seq<u8>,
    symtab: Seq<u8>,
    strtab: Seq<u8>,
    big_endian: bool,
    is_64: bool,
    name: Seq<char>,
) -> Option<Option<usize>>;

/// What the `.hash` lookup of `name` gives, in the same form.
pub uninterp spec fn sysv_hash_find(
    table: Seq<u8>,
    symtab: Seq<u8>,
    strtab: Seq<u8>,
    big_endian: bool,
    is_64: bool,
    name: Seq<char>,
) -> Option<Option<usize>>;

/// Relies on elf's `GnuHashTable::new` and `GnuHashTable::find`: parse the
/// `.gnu.hash` bytes and look `name` up against `.dynsym` and `.dynstr`.
/// The result depends on these bytes and the name alone.
#[verifier::external_body]
fn gnu_hash_lookup(
    table: &Vec<u8>,
    symtab: &Vec<u8>,
    strtab: &Vec<u8>,
    big_endian: bool,
    is_64: bool,
    name: &str,
) -> (r: Option<Option<usize>>)
    ensures
        r == gnu_hash_find(table@, symtab@, strtab@, big_endian, is_64, name@),
{
    let endian = if big_endian { elf::endian::AnyEndian::Big } else { elf::endian::AnyEndian::Little };
    let class = if is_64 { elf::file::Class::ELF64 } else { elf::file::Class::ELF32 };
    let hash = elf::hash::GnuHashTable::new(endian, class, table.as_slice()).ok()?;
    let symbols = elf::symbol::SymbolTable::new(endian, class, symtab.as_slice());
    let strings = elf::string_table::StringTable::new(strtab.as_slice());
    hash.find(name.as_bytes(), &symbols, &strings).ok().map(|found| found.map(|(index, _)| index))
}

/// Relies on elf's `SysVHashTable::new` and `SysVHashTable::find`: parse
/// the `.hash` bytes and look `name` up against `.dynsym` and `.dynstr`.
/// The result depends on these bytes and the name alone.
#[verifier::external_body]
fn sysv_hash_lookup(
    table: &Vec<u8>,
    symtab: &Vec<u8>,
    strtab: &Vec<u8>,
    big_endian: bool,
    is_64: bool,
    name: &str,
) -> (r: Option<Option<usize>>)
    ensures
        r == sysv_hash_find(table@, symtab@, strtab@, big_endian, is_64, name@),
{
    let endian = if big_endian { elf::endian::AnyEndian::Big } else { elf::endian::AnyEndian::Little };
    let class = if is_64 { elf::file::Class::ELF64 } else { elf::file::Class::ELF32 };
    let hash = elf::hash::SysVHashTable::new(endian, class, table.as_slice()).ok()?;
    let symbols = elf::symbol::SymbolTable::new(endian, class, symtab.as_slice());
    let strings = elf::string_table::StringTable::new(strtab.as_slice());
    hash.find(name.as_bytes(), &symbols, &strings).ok().map(|found| found.map(|(index, _)| index))
}

/// The index that the hash tables give for `name`: `.gnu.hash` first, then
/// `.hash` where the first has no entry; `None` where a table that is
/// consulted cannot be parsed (the search then stops).
pub open spec fn spec_hash_index(d: DynamicSymbols, name: Seq<char>) -> Option<Option<usize>> {
    let gnu = match d.gnu_hash {
        Some(t) => gnu_hash_find(t@, d.symtab@, d.strtab@, d.big_endian, d.is_64, name),
        None => Some(None),
    };
    match gnu {
        None => None,
        Some(Some(i)) => Some(Some(i)),
        Some(None) => match d.sysv_hash {
            Some(t) => sysv_hash_find(t@, d.symtab@, d.strtab@, d.big_endian, d.is_64, name),
            None => Some(None),
        },
    }
}

/// Looks `name` up in the hash tables of an object.
pub fn hash_index(d: &DynamicSymbols, name: &str) -> (r: Option<Option<usize>>)
    ensures
        r == spec_hash_index(*d, name@),
{
    match &d.gnu_hash {
        Some(t) => {
            match gnu_hash_lookup(t, &d.symtab, &d.strtab, d.big_endian, d.is_64, name) {
                None => {
                    return None;
                },
                Some(Some(i)) => {
                    return Some(Some(i));
                },
                Some(None) => {},
            }
        },
        None => {},
    }
    match &d.sysv_hash {
        Some(t) => sysv_hash_lookup(t, &d.symtab, &d.strtab, d.big_endian, d.is_64, name),
        None => Some(None),
    }
}

} // verus!
