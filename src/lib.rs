pub mod mmap;
pub mod reloc;
pub mod symbols;
pub mod jni;
pub mod locate;
pub mod dlfcn;
pub mod debug;

pub use jni::{Error, LoaderSet, JNI};
pub use locate::locate_library;
pub use mmap::MemoryMapping;
pub use dlfcn::DlopenSymbols;
