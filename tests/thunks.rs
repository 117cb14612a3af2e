use jni_loader::debug::{LibraryRegistry, RegistryError};
use jni_loader::dlfcn::{thunk_mapping_size, thunk_patches, ThunkLayout};
use jni_loader::reloc::MemoryWrite;
use jni_loader::DlopenSymbols;

const LAYOUT: ThunkLayout = ThunkLayout { trampoline_size: 64, loader_offset: 0, callback_offset: 8, code_offset: 16 };

#[test]
fn thunk_entries() {
    assert_eq!(thunk_mapping_size(&LAYOUT, 0x1000), 0x1000);
    let s = DlopenSymbols::new(0x7000_0000, 0x1000, &LAYOUT);
    assert_eq!((s.dlopen, s.dlsym, s.dlclose), (0x7000_0010, 0x7000_0050, 0x7000_0090));
}

#[test]
fn thunk_slot_patches() {
    let p = thunk_patches(0x1000, &LAYOUT, 0xaaaa, &vec![1, 2, 3]);
    let w = |address, value| MemoryWrite::Word64 { address, value };
    assert_eq!(p, vec![w(0x1000, 0xaaaa), w(0x1008, 1), w(0x1040, 0xaaaa), w(0x1048, 2), w(0x1080, 0xaaaa), w(0x1088, 3)]);
}

#[test]
fn registry_add_remove() {
    let mut r = LibraryRegistry::new();
    assert_eq!(r.add_library(0x1000, "liba.so"), Ok(()));
    assert_eq!(r.add_library(0x2000, "libb.so"), Ok(()));
    assert_eq!(r.add_library(0x1000, "liba2.so"), Ok(()));
    assert_eq!(r.add_library(0x3000, "bad\0name"), Err(RegistryError::InteriorNul));
    assert_eq!(r.entries, vec![(0x1000, "liba2.so".to_string()), (0x2000, "libb.so".to_string())]);
    r.remove_library(0x1000);
    r.remove_library(0x9000);
    assert_eq!(r.entries, vec![(0x2000, "libb.so".to_string())]);
}

#[test]
fn thunk_mapping_with_large_pages() {
    assert_eq!(thunk_mapping_size(&LAYOUT, 0x20000), 0x20000);
    assert_eq!(thunk_mapping_size(&LAYOUT, 0x40), 0xc0);
}
