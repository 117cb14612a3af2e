use vstd::prelude::*;

verus! {

/// Relocation types of x86_64.
pub const R_X86_64_NONE: u32 = 0;

pub const R_X86_64_64: u32 = 1;

pub const R_X86_64_PC32: u32 = 2;

pub const R_X86_64_COPY: u32 = 5;

pub const R_X86_64_GLOB_DAT: u32 = 6;

pub const R_X86_64_JUMP_SLOT: u32 = 7;

pub const R_X86_64_RELATIVE: u32 = 8;

/// Relocation types of aarch64.
pub const R_AARCH64_ABS64: u32 = 257;

pub const R_AARCH64_GLOB_DAT: u32 = 1025;

pub const R_AARCH64_JUMP_SLOT: u32 = 1026;

pub const R_AARCH64_RELATIVE: u32 = 1027;

/// The machine whose relocation semantics apply.
#[derive(Clone, Copy, Debug, PartialEq, Eq)]
pub enum Arch {
    X86_64,
    Aarch64,
}

/// A relocation entry, with or without an addend (0 where it has none).
#[derive(Clone, Copy, Debug, PartialEq, Eq)]
pub struct Relocation {
    pub offset: u64,
    pub rel_type: u32,
    pub symbol: u32,
    pub addend: i64,
}

impl Relocation {
    /// An entry of a `.rel` table, which carries no addend.
    pub fn from_rel(r_offset: u64, r_type: u32, r_sym: u32) -> (r: Relocation)
        ensures
            r == (Relocation { offset: r_offset, rel_type: r_type, symbol: r_sym, addend: 0 }),
    {
        Relocation { offset: r_offset, rel_type: r_type, symbol: r_sym, addend: 0 }
    }

    /// An entry of a `.rela` table.
    pub fn from_rela(r_offset: u64, r_type: u32, r_sym: u32, r_addend: i64) -> (r: Relocation)
        ensures
            r == (Relocation { offset: r_offset, rel_type: r_type, symbol: r_sym, addend: r_addend }),
    {
        Relocation { offset: r_offset, rel_type: r_type, symbol: r_sym, addend: r_addend }
    }
}

/// What a relocation type computes. `S` is the symbol's address, `A` the
/// addend, `P` the place written, `B` the image base.
#[derive(Clone, Copy, Debug, PartialEq, Eq)]
pub enum RelocationKind {
    /// `S + A`, 64 bits.
    SymbolPlusAddend,
    /// `S + A - P`, 32 bits.
    PcRelative32,
    /// `S`, 64 bits.
    SymbolOnly,
    /// `B + A`, 64 bits.
    BasePlusAddend,
    /// Nothing to write.
    NoOp,
    /// A type this loader does not implement; it is skipped.
    Unsupported,
}

/// A write into memory that a relocation or the PLT set-up asks for.
#[derive(Clone, Copy, Debug, PartialEq, Eq)]
pub enum MemoryWrite {
    Word64 { address: u64, value: u64 },
    Word32 { address: u64, value: u32 },
}

pub open spec fn spec_kind(arch: Arch, t: u32) -> RelocationKind {
    match arch {
        Arch::X86_64 => {
            if t == R_X86_64_64 {
                RelocationKind::SymbolPlusAddend
            } else if t == R_X86_64_PC32 {
                RelocationKind::PcRelative32
            } else if t == R_X86_64_GLOB_DAT || t == R_X86_64_JUMP_SLOT {
                RelocationKind::SymbolOnly
            } else if t == R_X86_64_RELATIVE {
                RelocationKind::BasePlusAddend
            } else if t == R_X86_64_NONE || t == R_X86_64_COPY {
                RelocationKind::NoOp
            } else {
                RelocationKind::Unsupported
            }
        },
        Arch::Aarch64 => {
            if t == R_AARCH64_ABS64 || t == R_AARCH64_GLOB_DAT || t == R_AARCH64_JUMP_SLOT {
                RelocationKind::SymbolPlusAddend
            } else if t == R_AARCH64_RELATIVE {
                RelocationKind::BasePlusAddend
            } else {
                RelocationKind::Unsupported
            }
        },
    }
}

/// Whether a relocation of this kind reads its symbol's address.
pub open spec fn needs_symbol(k: RelocationKind) -> bool {
    k == RelocationKind::SymbolPlusAddend || k == RelocationKind::PcRelative32 || k
        == RelocationKind::SymbolOnly
}

/// The kind of a relocation type on a machine.
pub fn relocation_kind(arch: Arch, rel_type: u32) -> (r: RelocationKind)
    ensures
        r == spec_kind(arch, rel_type),
{
    match arch {
        Arch::X86_64 => {
            if rel_type == R_X86_64_64 {
                RelocationKind::SymbolPlusAddend
            } else if rel_type == R_X86_64_PC32 {
                RelocationKind::PcRelative32
            } else if rel_type == R_X86_64_GLOB_DAT || rel_type == R_X86_64_JUMP_SLOT {
                RelocationKind::SymbolOnly
            } else if rel_type == R_X86_64_RELATIVE {
                RelocationKind::BasePlusAddend
            } else if rel_type == R_X86_64_NONE || rel_type == R_X86_64_COPY {
                RelocationKind::NoOp
            } else {
                RelocationKind::Unsupported
            }
        },
        Arch::Aarch64 => {
            if rel_type == R_AARCH64_ABS64 || rel_type == R_AARCH64_GLOB_DAT || rel_type
                == R_AARCH64_JUMP_SLOT {
                RelocationKind::SymbolPlusAddend
            } else if rel_type == R_AARCH64_RELATIVE {
                RelocationKind::BasePlusAddend
            } else {
                RelocationKind::Unsupported
            }
        },
    }
}

/// `x` reduced to 64 bits, for `x` within one turn of the 64-bit range.
pub open spec fn wrap64(x: int) -> u64 {
    if x > u64::MAX {
        (x - 0x1_0000_0000_0000_0000) as u64
    } else if x < 0 {
        (x + 0x1_0000_0000_0000_0000) as u64
    } else {
        x as u64
    }
}

/// The address `addr + addend` in 64-bit arithmetic.
pub open spec fn spec_add_addend(addr: u64, addend: i64) -> u64 {
    wrap64(addr + addend)
}

/// Adds a signed addend to an address, wrapping as machine addresses do.
pub fn add_addend(addr: u64, addend: i64) -> (r: u64)
    ensures
        r == spec_add_addend(addr, addend),
{
    addr.wrapping_add_signed(addend)
}

/// The write that a relocation of kind `kind` makes at `target`, given the
/// image base and, where the kind needs one, the symbol's address.
pub open spec fn spec_relocation_write(
    kind: RelocationKind,
    target: u64,
    image_base: u64,
    addend: i64,
    symbol: u64,
) -> Option<MemoryWrite> {
    match kind {
        RelocationKind::SymbolPlusAddend => Some(
            MemoryWrite::Word64 { address: target, value: spec_add_addend(symbol, addend) },
        ),
        RelocationKind::PcRelative32 => Some(
            MemoryWrite::Word32 {
                address: target,
                value: (wrap64(spec_add_addend(symbol, addend) - target) % 0x1_0000_0000) as u32,
            },
        ),
        RelocationKind::SymbolOnly => Some(MemoryWrite::Word64 { address: target, value: symbol }),
        RelocationKind::BasePlusAddend => Some(
            MemoryWrite::Word64 { address: target, value: spec_add_addend(image_base, addend) },
        ),
        RelocationKind::NoOp => None,
        RelocationKind::Unsupported => None,
    }
}

/// Computes the write of one relocation; `symbol` is ignored by the kinds
/// that do not need it.
pub fn relocation_write(kind: RelocationKind, target: u64, image_base: u64, addend: i64, symbol: u64) -> (r:
    Option<MemoryWrite>)
    ensures
        r == spec_relocation_write(kind, target, image_base, addend, symbol),
{
    match kind {
        RelocationKind::SymbolPlusAddend => Some(
            MemoryWrite::Word64 { address: target, value: add_addend(symbol, addend) },
        ),
        RelocationKind::PcRelative32 => {
            let full = add_addend(symbol, addend).wrapping_sub(target);
            Some(MemoryWrite::Word32 { address: target, value: (full % 0x1_0000_0000) as u32 })
        },
        RelocationKind::SymbolOnly => Some(MemoryWrite::Word64 { address: target, value: symbol }),
        RelocationKind::BasePlusAddend => Some(
            MemoryWrite::Word64 { address: target, value: add_addend(image_base, addend) },
        ),
        RelocationKind::NoOp => None,
        RelocationKind::Unsupported => None,
    }
}

} // verus!
