use jni_loader::jni::{DynamicInfo, GotPlt, LoaderSet, ObjectInfo, PltInstall, ET_DYN, JNI};
use jni_loader::mmap::{MemoryMapping, Segment, PF_R, PF_W, PT_LOAD};
use jni_loader::reloc::{
    add_addend, relocation_kind, relocation_write, Arch, MemoryWrite, Relocation, RelocationKind, R_AARCH64_ABS64,
    R_AARCH64_RELATIVE, R_X86_64_64, R_X86_64_COPY, R_X86_64_GLOB_DAT, R_X86_64_JUMP_SLOT, R_X86_64_PC32,
    R_X86_64_RELATIVE,
};
use jni_loader::symbols::{DynamicSymbols, LinkingSymbol, SymbolEntry, SymbolName, UNDEFINED_SYMBOL_VALUE};
use jni_loader::Error;

// A symbol: name, value (0 for an import), size.
type Sym = (&'static str, u64, u64);

fn sysv_hash_table(exported: &[u32], nsyms: u32) -> Vec<u8> {
    let mut t = Vec::new();
    t.extend_from_slice(&1u32.to_le_bytes());
    t.extend_from_slice(&nsyms.to_le_bytes());
    let first = exported.first().copied().unwrap_or(0);
    t.extend_from_slice(&first.to_le_bytes());
    let mut chain = vec![0u32; nsyms as usize];
    for w in exported.windows(2) {
        chain[w[0] as usize] = w[1];
    }
    for c in chain {
        t.extend_from_slice(&c.to_le_bytes());
    }
    t
}

fn gnu_hash(name: &str) -> u32 {
    let mut h: u32 = 5381;
    for b in name.bytes() {
        h = h.wrapping_mul(33).wrapping_add(b as u32);
    }
    h
}

// A .gnu.hash table with one bucket that holds exactly symbol 1.
fn gnu_hash_table(name: &str) -> Vec<u8> {
    let mut t = Vec::new();
    for v in [1u32, 1, 1, 6] {
        t.extend_from_slice(&v.to_le_bytes());
    }
    t.extend_from_slice(&u64::MAX.to_le_bytes());
    t.extend_from_slice(&1u32.to_le_bytes());
    t.extend_from_slice(&(gnu_hash(name) | 1).to_le_bytes());
    t
}

fn dynamic_symbols(syms: &[Sym], use_gnu: bool) -> DynamicSymbols {
    let mut strtab = vec![0u8];
    let mut symtab = vec![0u8; 24];
    let mut entries = vec![SymbolEntry { name: SymbolName::Anonymous, shndx: 0, value: 0, size: 0, info: 0, other: 0 }];
    let mut exported = Vec::new();
    for (i, (name, value, size)) in syms.iter().enumerate() {
        let off = strtab.len() as u32;
        strtab.extend_from_slice(name.as_bytes());
        strtab.push(0);
        let shndx: u16 = if *value == 0 { 0 } else { 1 };
        let info: u8 = (1 << 4) | 2;
        symtab.extend_from_slice(&off.to_le_bytes());
        symtab.push(info);
        symtab.push(0);
        symtab.extend_from_slice(&shndx.to_le_bytes());
        symtab.extend_from_slice(&value.to_le_bytes());
        symtab.extend_from_slice(&size.to_le_bytes());
        entries.push(SymbolEntry { name: SymbolName::Named(name.to_string()), shndx, value: *value, size: *size, info, other: 0 });
        exported.push(i as u32 + 1);
    }
    let n = entries.len() as u32;
    let gnu = if use_gnu { Some(gnu_hash_table(syms[0].0)) } else { None };
    DynamicSymbols {
        entries,
        symtab,
        strtab,
        gnu_hash: gnu,
        sysv_hash: Some(sysv_hash_table(&exported, n)),
        big_endian: false,
        is_64: true,
    }
}

fn info(syms: &[Sym], dyn_relocations: Vec<Relocation>, rela_plt: Vec<Relocation>, needed: &[&str]) -> ObjectInfo {
    ObjectInfo {
        e_type: ET_DYN,
        arch: Arch::X86_64,
        segments: vec![Segment {
            p_type: PT_LOAD,
            p_flags: PF_R | PF_W,
            p_offset: 0,
            p_vaddr: 0,
            p_filesz: 0x5000,
            p_memsz: 0x5000,
            p_align: 0x1000,
        }],
        dynamic: Some(DynamicInfo { needed: needed.iter().map(|s| s.to_string()).collect(), runpath: None }),
        symbols: Some(dynamic_symbols(syms, false)),
        dyn_relocations,
        rel_plt: vec![],
        rela_plt,
        got_plt: None,
    }
}

fn loader(path: &str, info: ObjectInfo, base: u64) -> JNI {
    JNI::new(path.to_string(), info, MemoryMapping { base, size: 0x5000 }, 0x1000, 0x9000)
}

fn w64(address: u64, value: u64) -> MemoryWrite {
    MemoryWrite::Word64 { address, value }
}

#[test]
fn addend_wraps() {
    assert_eq!(add_addend(0x1000, -0x10), 0xff0);
    assert_eq!(add_addend(0x1000, 0x10), 0x1010);
    assert_eq!(add_addend(0x10, -0x20), u64::MAX - 0xf);
    assert_eq!(add_addend(u64::MAX, 1), 0);
}

#[test]
fn relocation_table() {
    assert_eq!(relocation_kind(Arch::X86_64, R_X86_64_64), RelocationKind::SymbolPlusAddend);
    assert_eq!(relocation_kind(Arch::X86_64, R_X86_64_PC32), RelocationKind::PcRelative32);
    assert_eq!(relocation_kind(Arch::X86_64, R_X86_64_GLOB_DAT), RelocationKind::SymbolOnly);
    assert_eq!(relocation_kind(Arch::X86_64, R_X86_64_JUMP_SLOT), RelocationKind::SymbolOnly);
    assert_eq!(relocation_kind(Arch::X86_64, R_X86_64_RELATIVE), RelocationKind::BasePlusAddend);
    assert_eq!(relocation_kind(Arch::X86_64, R_X86_64_COPY), RelocationKind::NoOp);
    assert_eq!(relocation_kind(Arch::X86_64, 37), RelocationKind::Unsupported);
    assert_eq!(relocation_kind(Arch::Aarch64, R_AARCH64_ABS64), RelocationKind::SymbolPlusAddend);
    assert_eq!(relocation_kind(Arch::Aarch64, R_AARCH64_RELATIVE), RelocationKind::BasePlusAddend);
    assert_eq!(
        relocation_write(RelocationKind::PcRelative32, 0x1000, 0, -4, 0x3000),
        Some(MemoryWrite::Word32 { address: 0x1000, value: 0x1ffc })
    );
    assert_eq!(
        relocation_write(RelocationKind::PcRelative32, 0x3000, 0, 0, 0x1000),
        Some(MemoryWrite::Word32 { address: 0x3000, value: 0xffff_e000 })
    );
    assert_eq!(relocation_write(RelocationKind::SymbolPlusAddend, 8, 0, 4, 0x100), Some(w64(8, 0x104)));
    assert_eq!(relocation_write(RelocationKind::SymbolOnly, 8, 0, 4, 0x100), Some(w64(8, 0x100)));
    assert_eq!(relocation_write(RelocationKind::BasePlusAddend, 8, 0x7000, 0x20, 0x100), Some(w64(8, 0x7020)));
    assert_eq!(relocation_write(RelocationKind::NoOp, 8, 0, 0, 0), None);
}

#[test]
fn name_and_base_address() {
    let mut i = info(&[], vec![], vec![], &[]);
    i.segments.insert(0, Segment { p_type: 6, p_flags: 0, p_offset: 0, p_vaddr: 0x40, p_filesz: 0, p_memsz: 0, p_align: 8 });
    i.segments[1].p_vaddr = 0x10000;
    let j = loader("/opt/libs/libmath.so", i, 0x7f00_0000);
    assert_eq!(j.name, "libmath.so");
    assert_eq!(j.base_virtual_address, 0x10000);
    assert_eq!(j.get_offset(0x10040), 0x7f00_0040);
}

#[test]
fn prepare_rejects_non_shared_objects() {
    let mut i = info(&[], vec![], vec![], &[]);
    i.e_type = 2;
    assert_eq!(JNI::prepare(&i, 0x1000).unwrap_err(), Error::NotDynamicObject);
    let mut i2 = info(&[], vec![], vec![], &[]);
    i2.segments.clear();
    assert!(matches!(JNI::prepare(&i2, 0x1000), Err(Error::MemoryMapFailed(_))));
    let i3 = info(&[], vec![], vec![], &[]);
    assert_eq!(JNI::prepare(&i3, 0x1000).unwrap().size, 0x5000);
    let mut i4 = info(&[], vec![], vec![], &[]);
    i4.dynamic = None;
    assert_eq!(JNI::prepare(&i4, 0x1000).unwrap_err(), Error::NoDynamicSection);
}

#[test]
fn linking_symbol_views() {
    let e = SymbolEntry { name: SymbolName::Anonymous, shndx: 3, value: 0x1100, size: 8, info: 0x12, other: 2 };
    let s = LinkingSymbol::from(&e, None, 0x7000_0000, 0x1000);
    assert_eq!(s.address, Some(0x7000_0100));
    assert_eq!((s.sym_type, s.binding, s.visibility), (2, 1, 2));
    let u = SymbolEntry { value: 0, ..e.clone() };
    assert_eq!(LinkingSymbol::from(&u, None, 0x7000_0000, 0x1000).address, None);
    assert_eq!(LinkingSymbol::from_override(&u, None, 0x42).address, Some(0x42));
}

// Override a native callback: libpower imports m_cube; an override binds it.
#[test]
fn override_binds_callback() {
    let mut set = LoaderSet::new();
    let math = set.add(loader("/t/libmath.so", info(&[("m_cube", 0x1100, 16)], vec![], vec![], &[]), 0x10_0000));
    let power_info = info(
        &[("m_cube", 0, 0), ("test_libpower", 0x1200, 32)],
        vec![],
        vec![Relocation::from_rela(0x4018, R_X86_64_JUMP_SLOT, 1, 0)],
        &["libmath.so", "libc.so.6"],
    );
    let power = set.add(loader("/t/libpower.so", power_info, 0x20_0000));
    set.add_dependency(power, "libc.so.6", None);
    set.add_dependency(power, "libmath.so", Some(math));
    set.override_symbol(power, "m_cube", Some(0xdead_0000));
    let mut writes = Vec::new();
    set.initialize(power, None, &mut writes);
    assert_eq!(writes, vec![w64(0x20_4018, 0xdead_0000)]);
    assert_eq!(set.get_symbol(power, "test_libpower"), Some((0x20_1200, 32)));
}

// Symbol resolution via dependency, through .hash and through .gnu.hash;
// the importer's own .hash lists the symbol as undefined.
#[test]
fn resolves_through_dependency() {
    for use_gnu in [false, true] {
        let mut set = LoaderSet::new();
        let mut math_info = info(&[("pow_int", 0x1100, 16)], vec![], vec![], &[]);
        math_info.symbols = Some(dynamic_symbols(&[("pow_int", 0x1100, 16)], use_gnu));
        let math = set.add(loader("/t/libmath.so", math_info, 0x10_0000));
        let power_info = info(
            &[("pow_int", 0, 0)],
            vec![Relocation::from_rela(0x3000, R_X86_64_GLOB_DAT, 1, 0), Relocation::from_rela(0x3008, R_X86_64_64, 1, 8)],
            vec![],
            &["libmath.so"],
        );
        let power = set.add(loader("/t/libpower.so", power_info, 0x20_0000));
        set.add_dependency(power, "libmath.so", Some(math));
        assert_eq!(set.get_symbol(math, "pow_int"), Some((0x10_1100, 16)));
        assert_eq!(set.get_symbol(power, "pow_int"), Some((0x10_1100, 16)));
        assert_eq!(set.get_symbol(power, "missing"), None);
        assert_eq!(set.dlsym(power, "missing"), UNDEFINED_SYMBOL_VALUE);
        let mut writes = Vec::new();
        set.initialize(power, None, &mut writes);
        assert_eq!(writes, vec![w64(0x20_3000, 0x10_1100), w64(0x20_3008, 0x10_1108)]);
    }
}

// A dependency registered as absent, with its symbol overridden.
#[test]
fn missing_dependency_tolerated_by_override() {
    let mut set = LoaderSet::new();
    let i = info(&[("printf", 0, 0)], vec![], vec![Relocation::from_rela(0x4000, R_X86_64_JUMP_SLOT, 1, 0)], &["libc.so.6"]);
    let a = set.add(loader("/t/libwrapper.so", i, 0x30_0000));
    set.add_dependency(a, "libc.so.6", None);
    set.override_symbol(a, "printf", Some(0x5555_0000));
    let mut writes = Vec::new();
    set.initialize(a, None, &mut writes);
    assert_eq!(writes, vec![w64(0x30_4000, 0x5555_0000)]);
    assert!(set.initialized[a]);
}

#[test]
fn undefined_override_gives_sentinel() {
    let mut set = LoaderSet::new();
    let i = info(&[("gone", 0, 0)], vec![Relocation::from_rela(0x4000, R_X86_64_GLOB_DAT, 1, 0)], vec![], &[]);
    let a = set.add(loader("/t/liba.so", i, 0x30_0000));
    set.override_symbol(a, "gone", None);
    let mut writes = Vec::new();
    set.initialize(a, None, &mut writes);
    assert_eq!(writes, vec![w64(0x30_4000, UNDEFINED_SYMBOL_VALUE)]);
}

#[test]
fn unresolved_relocation_is_skipped() {
    let mut set = LoaderSet::new();
    let i = info(
        &[("nowhere", 0, 0)],
        vec![Relocation::from_rela(0x4000, R_X86_64_GLOB_DAT, 1, 0), Relocation::from_rela(0x4008, R_X86_64_RELATIVE, 0, 0x10)],
        vec![],
        &[],
    );
    let a = set.add(loader("/t/liba.so", i, 0x30_0000));
    let mut writes = Vec::new();
    set.initialize(a, None, &mut writes);
    assert_eq!(writes, vec![w64(0x30_4008, 0x30_0010)]);
}

// Two loaders of one file keep separate state.
#[test]
fn independent_instances() {
    let mut set = LoaderSet::new();
    let rel = vec![Relocation::from_rela(0x4000, R_X86_64_RELATIVE, 0, 0x2000)];
    let one = set.add(loader("/t/libstore.so", info(&[], rel.clone(), vec![], &[]), 0x40_0000));
    let two = set.add(loader("/t/libstore.so", info(&[], rel, vec![], &[]), 0x50_0000));
    let mut writes = Vec::new();
    set.initialize(one, None, &mut writes);
    set.initialize(two, None, &mut writes);
    assert_eq!(writes, vec![w64(0x40_4000, 0x40_2000), w64(0x50_4000, 0x50_2000)]);
}

// Diamond: A->B, A->C, B->C; C is initialized once, before B, and B before A.
#[test]
fn diamond_initializes_each_once() {
    let mut set = LoaderSet::new();
    let mk = |base: u64| info(&[], vec![Relocation::from_rela(0x4000, R_X86_64_RELATIVE, 0, 1)], vec![], &[]);
    let c = set.add(loader("/t/libc_.so", mk(0), 0x10_0000));
    let b = set.add(loader("/t/libb.so", mk(0), 0x20_0000));
    let a = set.add(loader("/t/liba.so", mk(0), 0x30_0000));
    set.add_dependency(b, "libc_.so", Some(c));
    set.add_dependency(a, "libb.so", Some(b));
    set.add_dependency(a, "libc_.so", Some(c));
    let mut writes = Vec::new();
    set.initialize(a, None, &mut writes);
    assert_eq!(writes, vec![w64(0x10_4000, 0x10_0001), w64(0x20_4000, 0x20_0001), w64(0x30_4000, 0x30_0001)]);
    assert!(set.initialized[a] && set.initialized[b] && set.initialized[c]);
    let mut again = Vec::new();
    set.initialize(a, None, &mut again);
    set.initialize(c, None, &mut again);
    assert!(again.is_empty());
}

#[test]
fn load_dependencies_once() {
    let mut set = LoaderSet::new();
    let i = info(&[], vec![], vec![], &["libc.so.6", "libm.so.6", "libc.so.6", "libz.so"]);
    let a = set.add(loader("/t/liba.so", i, 0x30_0000));
    set.add_dependency(a, "libm.so.6", None);
    let pending = set.load_dependencies(a).unwrap();
    assert_eq!(pending, vec!["libc.so.6", "libz.so"]);
    assert!(set.objects[a].loaded_dependencies);
    assert!(set.load_dependencies(a).unwrap().is_empty());
    let mut no_dynamic = info(&[], vec![], vec![], &[]);
    no_dynamic.dynamic = None;
    let b = set.add(loader("/t/libb.so", no_dynamic, 0x40_0000));
    assert_eq!(set.load_dependencies(b).unwrap_err(), Error::NoDynamicSection);
    assert!(set.load_dependencies(b).unwrap().is_empty());
}

#[test]
fn lazy_plt_slots_and_callback() {
    let mut set = LoaderSet::new();
    let mut i = info(
        &[("puts", 0, 0)],
        vec![],
        vec![Relocation::from_rela(0x4018, R_X86_64_JUMP_SLOT, 1, 0)],
        &[],
    );
    i.got_plt = Some(GotPlt { address: 0x4000, entries: vec![0x3e00, 0, 0, 0x1036] });
    let a = set.add(loader("/t/liba.so", i, 0x30_0000));
    set.override_symbol(a, "puts", Some(0x6000_0000));
    let plt = PltInstall { trampoline: 0xa000 };
    let mut writes = Vec::new();
    set.initialize(a, Some(plt), &mut writes);
    assert_eq!(
        writes,
        vec![w64(0x30_4000, 0xCAFEBABE), w64(0x30_4008, 0x9000), w64(0x30_4010, 0xa000), w64(0x30_4018, 0x30_1036)]
    );
    assert_eq!(set.plt_callback(a, 0), Some((w64(0x30_4018, 0x6000_0000), 0x6000_0000)));
    assert_eq!(set.plt_callback(a, 1), None);
}
