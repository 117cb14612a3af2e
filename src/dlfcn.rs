use vstd::prelude::*;

use crate::reloc::MemoryWrite;

verus! {

/// Where a copy of the dl-API trampoline keeps its two patched slots and
/// where its code starts, relative to the copy.
#[derive(Clone, Copy, Debug, PartialEq, Eq)]
pub struct ThunkLayout {
    pub trampoline_size: u64,
    pub loader_offset: u64,
    pub callback_offset: u64,
    pub code_offset: u64,
}

/// The fabricated `dlopen`, `dlsym` and `dlclose` thunks: one mapping that
/// holds three copies of the trampoline, and the entry point of each copy.
#[derive(Clone, Copy, Debug, PartialEq, Eq)]
pub struct DlopenSymbols {
    pub mapping_base: u64,
    pub mapping_size: u64,
    pub dlopen: u64,
    pub dlsym: u64,
    pub dlclose: u64,
}

/// A layout whose slots and code lie inside one copy.
pub open spec fn layout_fits(l: ThunkLayout) -> bool {
    &&& l.loader_offset + 8 <= l.trampoline_size
    &&& l.callback_offset + 8 <= l.trampoline_size
    &&& l.code_offset < l.trampoline_size
    &&& 3 * l.trampoline_size <= u64::MAX
}

/// The size of the mapping: three copies, rounded up to the page.
pub fn thunk_mapping_size(layout: &ThunkLayout, page_size: u64) -> (r: u64)
    requires
        layout_fits(*layout),
        page_size > 0,
        3 * layout.trampoline_size + page_size - 1 <= u64::MAX,
    ensures
        r == crate::mmap::spec_align_up(3 * layout.trampoline_size, page_size as int),
        r >= 3 * layout.trampoline_size,
{
    crate::mmap::align_up(3 * layout.trampoline_size, page_size)
}

/// The entry address of copy `k`.
pub open spec fn thunk_entry(base: u64, l: ThunkLayout, k: int) -> int {
    base + k * l.trampoline_size + l.code_offset
}

impl DlopenSymbols {
    /// The thunks of a mapping at `mapping_base`: copy 0 is `dlopen`, copy 1
    /// `dlsym`, copy 2 `dlclose`.
    pub fn new(mapping_base: u64, mapping_size: u64, layout: &ThunkLayout) -> (r: DlopenSymbols)
        requires
            layout_fits(*layout),
            mapping_base + 3 * layout.trampoline_size <= u64::MAX,
        ensures
            r.mapping_base == mapping_base,
            r.mapping_size == mapping_size,
            r.dlopen == thunk_entry(mapping_base, *layout, 0),
            r.dlsym == thunk_entry(mapping_base, *layout, 1),
            r.dlclose == thunk_entry(mapping_base, *layout, 2),
    {
        let size = layout.trampoline_size;
        DlopenSymbols {
            mapping_base,
            mapping_size,
            dlopen: mapping_base + layout.code_offset,
            dlsym: mapping_base + size + layout.code_offset,
            dlclose: mapping_base + 2 * size + layout.code_offset,
        }
    }
}

/// The slot writes that make the three copies call back into the loader:
/// each copy gets the loader's address and its own callback.
pub open spec fn spec_thunk_patches(base: u64, l: ThunkLayout, loader: u64, callbacks: Seq<u64>) -> Seq<MemoryWrite> {
    Seq::new(
        6,
        |i: int|
            if i % 2 == 0 {
                MemoryWrite::Word64 { address: (base + (i / 2) * l.trampoline_size + l.loader_offset) as u64, value: loader }
            } else {
                MemoryWrite::Word64 {
                    address: (base + (i / 2) * l.trampoline_size + l.callback_offset) as u64,
                    value: callbacks[i / 2],
                }
            },
    )
}

/// Computes the slot writes for the three copies; `callbacks` are the
/// `dlopen`, `dlsym` and `dlclose` handlers, in that order.
pub fn thunk_patches(mapping_base: u64, layout: &ThunkLayout, loader: u64, callbacks: &Vec<u64>) -> (r: Vec<
    MemoryWrite,
>)
    requires
        layout_fits(*layout),
        mapping_base + 3 * layout.trampoline_size <= u64::MAX,
        callbacks@.len() == 3,
    ensures
        r@ == spec_thunk_patches(mapping_base, *layout, loader, callbacks@),
{
    let mut out: Vec<MemoryWrite> = Vec::new();
    let mut k: u64 = 0;
    while k < 3
        invariant
            0 <= k <= 3,
            layout_fits(*layout),
            mapping_base + 3 * layout.trampoline_size <= u64::MAX,
            callbacks@.len() == 3,
            out@ =~= spec_thunk_patches(mapping_base, *layout, loader, callbacks@).take(2 * k as int),
        decreases 3 - k,
    {
        let copy = mapping_base + k * layout.trampoline_size;
        proof {
            assert(k * layout.trampoline_size <= 3 * layout.trampoline_size) by (nonlinear_arith)
                requires
                    k <= 3,
            ;
            assert((2 * k as int) / 2 == k);
            assert((2 * k as int + 1) / 2 == k);
        }
        out.push(MemoryWrite::Word64 { address: copy + layout.loader_offset, value: loader });
        out.push(MemoryWrite::Word64 { address: copy + layout.callback_offset, value: callbacks[k as usize] });
        k = k + 1;
    }
    out
}

} // verus!
