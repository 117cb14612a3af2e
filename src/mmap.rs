use vstd::prelude::*;

verus! {

/// Program-header type of a loadable segment.
pub const PT_LOAD: u32 = 1;

/// Segment flag: executable.
pub const PF_X: u32 = 1;

/// Segment flag: writable.
pub const PF_W: u32 = 2;

/// Segment flag: readable.
pub const PF_R: u32 = 4;

/// Page protection bits, as `mmap` and `mprotect` take them.
pub const PROT_NONE: u32 = 0;

pub const PROT_READ: u32 = 1;

pub const PROT_WRITE: u32 = 2;

pub const PROT_EXEC: u32 = 4;

/// One program-header entry of an ELF file.
#[derive(Clone, Copy, Debug, PartialEq, Eq)]
pub struct Segment {
    pub p_type: u32,
    pub p_flags: u32,
    pub p_offset: u64,
    pub p_vaddr: u64,
    pub p_filesz: u64,
    pub p_memsz: u64,
    pub p_align: u64,
}

/// A memory operation on the reserved image range. Offsets are relative to
/// the start of the reservation.
#[derive(Clone, Copy, Debug, PartialEq, Eq)]
pub enum MapOp {
    /// Map `size` bytes of the file, starting at `file_offset`, privately.
    MapFile { offset: u64, size: u64, prot: u32, file_offset: u64 },
    /// Map `size` bytes of fresh zero pages.
    MapAnonymous { offset: u64, size: u64, prot: u32 },
    /// Change the protection of `size` bytes.
    Protect { offset: u64, size: u64, prot: u32 },
    /// Write `size` zero bytes.
    Zero { offset: u64, size: u64 },
}

/// How to build the image of one object: the size of the range to reserve
/// (with no access), then the operations to perform on it, in order.
#[derive(Clone, Debug)]
pub struct MappingPlan {
    pub size: u64,
    pub ops: Vec<MapOp>,
}

/// Why no image can be built from a set of program headers.
#[derive(Clone, Copy, Debug, PartialEq, Eq)]
pub enum PlanError {
    /// There is no PT_LOAD segment.
    NoLoadSegments,
    /// A PT_LOAD segment asks for an alignment above the page size.
    AlignmentTooLarge,
    /// The PT_LOAD segments are not ascending and disjoint, a file size
    /// exceeds a memory size, or an end lies beyond the address space.
    BadLayout,
}

/// A reserved and populated image: `size` bytes starting at `base`.
#[derive(Clone, Copy, Debug, PartialEq, Eq)]
pub struct MemoryMapping {
    pub base: u64,
    pub size: u64,
}

pub open spec fn spec_align_down(addr: int, page: int) -> int {
    addr - addr % page
}

pub open spec fn spec_align_up(addr: int, page: int) -> int {
    spec_align_down(addr + page - 1, page)
}

proof fn lemma_align_down(addr: int, page: int)
    requires
        addr >= 0,
        page > 0,
    ensures
        0 <= addr % page < page,
        addr % page <= addr,
        (addr - addr % page) % page == 0,
{
    vstd::arithmetic::div_mod::lemma_fundamental_div_mod(addr, page);
    vstd::arithmetic::div_mod::lemma_mod_bound(addr, page);
    vstd::arithmetic::div_mod::lemma_div_pos_is_pos(addr, page);
    vstd::arithmetic::mul::lemma_mul_nonnegative(page, addr / page);
    vstd::arithmetic::div_mod::lemma_mod_multiples_basic(addr / page, page);
    vstd::arithmetic::mul::lemma_mul_is_commutative(page, addr / page);
}

/// Rounding a multiple of the page down or up leaves it as it is; rounding
/// is monotonic.
proof fn lemma_align_facts(a: int, b: int, page: int)
    requires
        0 <= a,
        0 <= b,
        page > 0,
    ensures
        a % page == 0 ==> spec_align_down(a, page) == a,
        a % page == 0 ==> spec_align_up(a, page) == a,
        a <= b ==> spec_align_down(a, page) <= spec_align_down(b, page),
        a <= b ==> spec_align_up(a, page) <= spec_align_up(b, page),
        a <= spec_align_up(a, page) < a + page,
        spec_align_up(a, page) % page == 0,
        spec_align_down(a, page) % page == 0,
        a <= b && b % page == 0 ==> spec_align_up(a, page) <= b,
        spec_align_down(a, page) < b && a % page == 0 ==> a <= spec_align_down(b, page),
{
    lemma_align_down(a, page);
    lemma_align_down(b, page);
    lemma_align_down(a + page - 1, page);
    lemma_align_down(b + page - 1, page);
    if a <= b {
        vstd::arithmetic::div_mod::lemma_fundamental_div_mod(a, page);
        vstd::arithmetic::div_mod::lemma_fundamental_div_mod(b, page);
        vstd::arithmetic::div_mod::lemma_div_is_ordered(a, b, page);
        vstd::arithmetic::mul::lemma_mul_inequality(a / page, b / page, page);
        vstd::arithmetic::mul::lemma_mul_is_commutative(page, a / page);
        vstd::arithmetic::mul::lemma_mul_is_commutative(page, b / page);
        vstd::arithmetic::div_mod::lemma_fundamental_div_mod(a + page - 1, page);
        vstd::arithmetic::div_mod::lemma_fundamental_div_mod(b + page - 1, page);
        vstd::arithmetic::div_mod::lemma_div_is_ordered(a + page - 1, b + page - 1, page);
        vstd::arithmetic::mul::lemma_mul_inequality((a + page - 1) / page, (b + page - 1) / page, page);
        vstd::arithmetic::mul::lemma_mul_is_commutative(page, (a + page - 1) / page);
        vstd::arithmetic::mul::lemma_mul_is_commutative(page, (b + page - 1) / page);
    }
    if a % page == 0 {
        vstd::arithmetic::div_mod::lemma_fundamental_div_mod(a, page);
        let q = a / page;
        assert(a == page * q);
        vstd::arithmetic::mul::lemma_mul_is_commutative(page, q);
        vstd::arithmetic::div_mod::lemma_mod_multiples_vanish(q, page - 1, page);
        vstd::arithmetic::div_mod::lemma_small_mod((page - 1) as nat, page as nat);
    }
    if a <= b && b % page == 0 {
        lemma_align_down(b + page - 1, page);
        vstd::arithmetic::div_mod::lemma_fundamental_div_mod(b, page);
        let q = b / page;
        vstd::arithmetic::mul::lemma_mul_is_commutative(page, q);
        vstd::arithmetic::div_mod::lemma_mod_multiples_vanish(q, page - 1, page);
        vstd::arithmetic::div_mod::lemma_small_mod((page - 1) as nat, page as nat);
    }
    if spec_align_down(a, page) < b && a % page == 0 {
        lemma_align_down(b, page);
        let d = spec_align_down(b, page);
        if d < a {
            vstd::arithmetic::div_mod::lemma_fundamental_div_mod(a, page);
            vstd::arithmetic::div_mod::lemma_fundamental_div_mod(d, page);
            vstd::arithmetic::div_mod::lemma_fundamental_div_mod(b, page);
            vstd::arithmetic::div_mod::lemma_mod_multiples_basic(a / page, page);
            assert(d == page * (d / page));
            assert(a == page * (a / page));
            vstd::arithmetic::mul::lemma_mul_strict_inequality_converse(d / page, a / page, page);
            vstd::arithmetic::mul::lemma_mul_is_commutative(page, d / page);
            vstd::arithmetic::mul::lemma_mul_is_commutative(page, a / page);
            vstd::arithmetic::mul::lemma_mul_inequality(d / page + 1, a / page, page);
            vstd::arithmetic::mul::lemma_mul_is_distributive_add(page, d / page, 1);
        }
    }
}

/// Rounds `addr` down to a multiple of `page_size`.
pub fn align_down(addr: u64, page_size: u64) -> (r: u64)
    requires
        page_size > 0,
    ensures
        r == spec_align_down(addr as int, page_size as int),
        r % page_size == 0,
        r <= addr,
        addr - r < page_size,
{
    proof {
        lemma_align_down(addr as int, page_size as int);
    }
    addr - addr % page_size
}

/// Rounds `addr` up to a multiple of `page_size`.
pub fn align_up(addr: u64, page_size: u64) -> (r: u64)
    requires
        page_size > 0,
        addr + page_size - 1 <= u64::MAX,
    ensures
        r == spec_align_up(addr as int, page_size as int),
        r % page_size == 0,
        addr <= r,
        r - addr < page_size,
{
    proof {
        lemma_align_facts(addr as int, addr as int, page_size as int);
    }
    align_down(addr + (page_size - 1), page_size)
}


/// The distance between two multiples of the page is a multiple of the page.
proof fn lemma_multiples_gap(a: int, b: int, page: int)
    requires
        0 <= b < a,
        page > 0,
        a % page == 0,
        b % page == 0,
    ensures
        a - b >= page,
        (a - b) % page == 0,
{
    vstd::arithmetic::div_mod::lemma_fundamental_div_mod(a, page);
    vstd::arithmetic::div_mod::lemma_fundamental_div_mod(b, page);
    let qa = a / page;
    let qb = b / page;
    assert(a == page * qa);
    assert(b == page * qb);
    vstd::arithmetic::mul::lemma_mul_is_distributive_sub(page, qa, qb);
    if qa <= qb {
        vstd::arithmetic::mul::lemma_mul_inequality(qa, qb, page);
        vstd::arithmetic::mul::lemma_mul_is_commutative(page, qa);
        vstd::arithmetic::mul::lemma_mul_is_commutative(page, qb);
    }
    vstd::arithmetic::mul::lemma_mul_inequality(1, qa - qb, page);
    vstd::arithmetic::mul::lemma_mul_is_commutative(page, qa - qb);
    vstd::arithmetic::div_mod::lemma_mod_multiples_basic(qa - qb, page);
}

/// An address off the page grid rounds up to the page after the one it
/// rounds down to.
proof fn lemma_align_up_unaligned(v: int, page: int)
    requires
        0 <= v,
        page > 0,
        v % page != 0,
    ensures
        spec_align_up(v, page) == spec_align_down(v, page) + page,
{
    vstd::arithmetic::div_mod::lemma_fundamental_div_mod(v, page);
    let q = v / page;
    let r = v % page;
    lemma_align_down(v, page);
    vstd::arithmetic::mul::lemma_mul_is_distributive_add(page, q, 1);
    vstd::arithmetic::div_mod::lemma_fundamental_div_mod_converse(v + page - 1, page, q + 1, r - 1);
}

/// The PT_LOAD entries of a program-header table, in table order.
pub open spec fn load_segments(s: Seq<Segment>) -> Seq<Segment>
    decreases s.len(),
{
    if s.len() == 0 {
        Seq::empty()
    } else {
        let rest = load_segments(s.drop_last());
        if s.last().p_type == PT_LOAD {
            rest.push(s.last())
        } else {
            rest
        }
    }
}

/// Every PT_LOAD segment's alignment is at most the page size.
pub open spec fn alignments_fit(l: Seq<Segment>, page: int) -> bool {
    forall|i: int| 0 <= i < l.len() ==> #[trigger] l[i].p_align <= page
}

/// The file part of a segment lies within its memory part, and its end,
/// rounded up to the page, is an address.
pub open spec fn segment_fits(s: Segment, page: int) -> bool {
    &&& s.p_filesz <= s.p_memsz
    &&& s.p_vaddr + s.p_memsz + page <= u64::MAX
}

/// The segments fit and come in ascending order of address without overlap.
pub open spec fn layout_fits(l: Seq<Segment>, page: int) -> bool {
    &&& forall|i: int| 0 <= i < l.len() ==> segment_fits(#[trigger] l[i], page)
    &&& forall|i: int|
        0 <= i < l.len() - 1 ==> #[trigger] l[i].p_vaddr + l[i].p_memsz <= l[i + 1].p_vaddr
}

/// The start of a segment's page range.
pub open spec fn seg_start(s: Segment, page: int) -> int {
    spec_align_down(s.p_vaddr as int, page)
}

/// The end of a segment's page range.
pub open spec fn seg_end(s: Segment, page: int) -> int {
    spec_align_up(s.p_vaddr + s.p_memsz, page)
}

/// The protection that a segment's flags ask for.
pub open spec fn spec_prot(flags: u32) -> u32 {
    (if flags & PF_R == PF_R {
        PROT_READ
    } else {
        0
    }) | (if flags & PF_W == PF_W {
        PROT_WRITE
    } else {
        0
    }) | (if flags & PF_X == PF_X {
        PROT_EXEC
    } else {
        0
    })
}

/// The size of the range to reserve for well-laid-out segments.
pub open spec fn image_span(l: Seq<Segment>, page: int) -> int {
    seg_end(l.last(), page) - seg_start(l[0], page)
}

/// Operation `op` stays within `size` bytes.
pub open spec fn op_within(op: MapOp, size: int) -> bool {
    match op {
        MapOp::MapFile { offset, size: n, .. } => offset + n <= size,
        MapOp::MapAnonymous { offset, size: n, .. } => offset + n <= size,
        MapOp::Protect { offset, size: n, .. } => offset + n <= size,
        MapOp::Zero { offset, size: n } => offset + n <= size,
    }
}

/// Ascending, disjoint segments are ordered pairwise, not only neighbours.
proof fn lemma_layout_ordered(l: Seq<Segment>, page: int, i: int, j: int)
    requires
        layout_fits(l, page),
        0 <= i < j < l.len(),
    ensures
        l[i].p_vaddr + l[i].p_memsz <= l[j].p_vaddr,
    decreases j - i,
{
    if j > i + 1 {
        lemma_layout_ordered(l, page, i, j - 1);
        assert(l[j - 1].p_vaddr + l[j - 1].p_memsz <= l[j].p_vaddr);
    }
}

/// The protection bits for a segment's flags.
pub fn segment_prot(flags: u32) -> (r: u32)
    ensures
        r == spec_prot(flags),
{
    let read: u32 = if flags & PF_R == PF_R {
        PROT_READ
    } else {
        0
    };
    let write: u32 = if flags & PF_W == PF_W {
        PROT_WRITE
    } else {
        0
    };
    let exec: u32 = if flags & PF_X == PF_X {
        PROT_EXEC
    } else {
        0
    };
    read | write | exec
}


/// The error, if any, that a set of PT_LOAD segments gives.
pub open spec fn plan_error(l: Seq<Segment>, page: int) -> Option<PlanError> {
    if !alignments_fit(l, page) {
        Some(PlanError::AlignmentTooLarge)
    } else if l.len() == 0 {
        Some(PlanError::NoLoadSegments)
    } else if !layout_fits(l, page) {
        Some(PlanError::BadLayout)
    } else {
        None
    }
}

/// The PT_LOAD segments of a program-header table, and whether their
/// alignments fit the page.
fn collect_loads(segments: &Vec<Segment>, page: u64) -> (r: (Vec<Segment>, bool))
    ensures
        r.0@ == load_segments(segments@),
        r.1 == alignments_fit(r.0@, page as int),
{
    let ghost pg = page as int;
    let mut loads: Vec<Segment> = Vec::new();
    let mut aligned = true;
    let mut i: usize = 0;
    while i < segments.len()
        invariant
            0 <= i <= segments@.len(),
            pg == page as int,
            loads@ == load_segments(segments@.take(i as int)),
            aligned == alignments_fit(loads@, pg),
        decreases segments@.len() - i,
    {
        let seg = segments[i];
        proof {
            assert(segments@.take(i as int + 1).drop_last() =~= segments@.take(i as int));
            assert(segments@.take(i as int + 1).last() == seg);
        }
        if seg.p_type == PT_LOAD {
            let ghost before = loads@;
            let fits = seg.p_align <= page;
            loads.push(seg);
            proof {
                assert(loads@ == before.push(seg));
                if aligned && fits {
                    assert forall|j: int| 0 <= j < loads@.len() implies #[trigger] loads@[j].p_align
                        <= pg by {
                        if j < before.len() {
                            assert(loads@[j] == before[j]);
                        }
                    }
                } else if !fits {
                    assert(loads@[before.len() as int].p_align > pg);
                } else {
                    let w = choose|w: int| 0 <= w < before.len() && !(#[trigger] before[w].p_align <= pg);
                    assert(loads@[w] == before[w]);
                }
            }
            aligned = aligned && fits;
        }
        i = i + 1;
    }
    proof {
        assert(segments@.take(segments@.len() as int) =~= segments@);
    }
    (loads, aligned)
}

/// Whether the segments fit and come in ascending, disjoint order.
fn check_layout(loads: &Vec<Segment>, page: u64) -> (r: bool)
    ensures
        r == layout_fits(loads@, page as int),
{
    let ghost pg = page as int;
    let n = loads.len();
    let mut k: usize = 0;
    while k < n
        invariant
            0 <= k <= n,
            n == loads@.len(),
            pg == page as int,
            forall|j: int| 0 <= j < k ==> segment_fits(#[trigger] loads@[j], pg),
            forall|j: int|
                0 <= j < k && j < n - 1 ==> #[trigger] loads@[j].p_vaddr + loads@[j].p_memsz
                    <= loads@[j + 1].p_vaddr,
        decreases n - k,
    {
        let seg = loads[k];
        if seg.p_filesz > seg.p_memsz || seg.p_memsz > u64::MAX - seg.p_vaddr || page > u64::MAX
            - (seg.p_vaddr + seg.p_memsz) {
            assert(!segment_fits(loads@[k as int], pg));
            return false;
        }
        assert(segment_fits(loads@[k as int], pg));
        if k + 1 < n && seg.p_vaddr + seg.p_memsz > loads[k + 1].p_vaddr {
            assert(!(loads@[k as int].p_vaddr + loads@[k as int].p_memsz <= loads@[k + 1].p_vaddr));
            return false;
        }
        k = k + 1;
    }
    true
}

/// The walk back from segment `j - 1` over the earlier segments whose page
/// range reaches past `map_start`: whether there is one, and `acc` joined
/// with their protections.
pub open spec fn overlap_walk(l: Seq<Segment>, j: int, map_start: int, page: int, acc: u32) -> (bool, u32)
    decreases j,
{
    if j <= 0 {
        (false, acc)
    } else if seg_end(l[j - 1], page) > map_start {
        (true, overlap_walk(l, j - 1, map_start, page, acc | spec_prot(l[j - 1].p_flags)).1)
    } else {
        (false, acc)
    }
}

/// The file part of segment `k`: the mapping of its pages from the file,
/// then the zeroing of what follows its data in the last file page, with
/// write access granted around it where the segment lacks it.
pub open spec fn file_ops(l: Seq<Segment>, k: int, page: int) -> Seq<MapOp> {
    let s = l[k];
    let base = seg_start(l[0], page);
    let v = s.p_vaddr as int;
    let data_end = v + s.p_filesz;
    let map_start = spec_align_down(v, page);
    let data_top = spec_align_up(data_end, page);
    let prot = spec_prot(s.p_flags);
    let start = map_start - base;
    let data_size = data_top - map_start;
    let zero_len = data_top - data_end;
    let last_page = start + data_size - page;
    let read_only = prot & PROT_WRITE != PROT_WRITE;
    if s.p_filesz == 0 || data_size <= 0 {
        Seq::empty()
    } else {
        seq![
            MapOp::MapFile {
                offset: start as u64,
                size: data_size as u64,
                prot,
                file_offset: spec_align_down(s.p_offset as int, page) as u64,
            },
        ] + if zero_len <= 0 {
            Seq::empty()
        } else {
            (if read_only {
                seq![MapOp::Protect { offset: last_page as u64, size: page as u64, prot: prot | PROT_WRITE }]
            } else {
                Seq::empty()
            }) + seq![MapOp::Zero { offset: (data_end - base) as u64, size: zero_len as u64 }] + (if read_only {
                seq![MapOp::Protect { offset: last_page as u64, size: page as u64, prot }]
            } else {
                Seq::empty()
            })
        }
    }
}

/// Where the zero pages of segment `k` start: after its last file page; for
/// a segment without file data, at its first page unless earlier segments
/// share that page (their mapping already holds it, zeroed beyond their
/// data).
pub open spec fn anon_start(l: Seq<Segment>, k: int, page: int) -> int {
    let s = l[k];
    let map_start = seg_start(s, page);
    if s.p_filesz == 0 && !overlap_walk(l, k, map_start, page, spec_prot(s.p_flags)).0 {
        map_start
    } else {
        spec_align_up(s.p_vaddr + s.p_filesz, page)
    }
}

/// The zero pages that complete segment `k` beyond its file pages.
pub open spec fn anon_ops(l: Seq<Segment>, k: int, page: int) -> Seq<MapOp> {
    let s = l[k];
    let base = seg_start(l[0], page);
    let start = anon_start(l, k, page);
    let alloc_top = seg_end(s, page);
    if start < alloc_top {
        seq![
            MapOp::MapAnonymous {
                offset: (start - base) as u64,
                size: (alloc_top - start) as u64,
                prot: spec_prot(s.p_flags),
            },
        ]
    } else {
        Seq::empty()
    }
}

/// The protection of the first page of segment `k` where earlier segments
/// share it: the union of all their protections.
pub open spec fn overlap_ops(l: Seq<Segment>, k: int, page: int) -> Seq<MapOp> {
    let map_start = seg_start(l[k], page);
    let w = overlap_walk(l, k, map_start, page, spec_prot(l[k].p_flags));
    if w.0 {
        seq![MapOp::Protect { offset: (map_start - seg_start(l[0], page)) as u64, size: page as u64, prot: w.1 }]
    } else {
        Seq::empty()
    }
}

/// The operations for segment `k`.
pub open spec fn segment_ops(l: Seq<Segment>, k: int, page: int) -> Seq<MapOp> {
    file_ops(l, k, page) + anon_ops(l, k, page) + overlap_ops(l, k, page)
}

/// The operations for the first `k` segments.
pub open spec fn ops_upto(l: Seq<Segment>, k: int, page: int) -> Seq<MapOp>
    decreases k,
{
    if k <= 0 {
        Seq::empty()
    } else {
        ops_upto(l, k - 1, page) + segment_ops(l, k - 1, page)
    }
}

/// The operations of the plan for the PT_LOAD segments `l`.
pub open spec fn plan_ops(l: Seq<Segment>, page: int) -> Seq<MapOp> {
    ops_upto(l, l.len() as int, page)
}

/// Whether earlier segments reach into the first page of segment `k`, and the
/// union of their protections with `prot`. The walk stops at the first
/// earlier segment that ends before that page.
fn overlapping_prot(loads: &Vec<Segment>, k: usize, map_start: u64, prot: u32, page: u64) -> (r: (bool, u32))
    requires
        layout_fits(loads@, page as int),
        0 <= k < loads@.len(),
        page > 0,
        map_start == seg_start(loads@[k as int], page as int),
    ensures
        r.0 ==> loads@[k as int].p_vaddr % page != 0,
        r == overlap_walk(loads@, k as int, map_start as int, page as int, prot),
{
    let ghost pg = page as int;
    let ghost l = loads@;
    let v = loads[k].p_vaddr;
    let mut have_overlaps = false;
    let mut overlapped_prot = prot;
    let mut j: usize = k;
    let mut stop = false;
    while j > 0 && !stop
        invariant
            0 <= j <= k < l.len(),
            loads@ == l,
            layout_fits(l, pg),
            pg == page,
            page > 0,
            v == l[k as int].p_vaddr,
            map_start as int == spec_align_down(v as int, pg),
            have_overlaps ==> v % page != 0,
            stop ==> j > 0 && !(seg_end(l[j - 1], pg) > map_start),
            overlap_walk(l, k as int, map_start as int, pg, prot) == (have_overlaps || overlap_walk(
                l,
                j as int,
                map_start as int,
                pg,
                overlapped_prot,
            ).0, overlap_walk(l, j as int, map_start as int, pg, overlapped_prot).1),
        decreases j + if stop { 0int } else { 1int },
    {
        let prev = loads[j - 1];
        proof {
            assert(segment_fits(l[j - 1], pg));
            lemma_layout_ordered(l, pg, j - 1, k as int);
            lemma_align_facts(prev.p_vaddr + prev.p_memsz, v as int, pg);
        }
        let prev_top = align_up(prev.p_vaddr + prev.p_memsz, page);
        if prev_top > map_start {
            have_overlaps = true;
            overlapped_prot = overlapped_prot | segment_prot(prev.p_flags);
            j = j - 1;
        } else {
            stop = true;
        }
    }
    (have_overlaps, overlapped_prot)
}

/// Appends the operations for segment `k` to `ops`.
fn plan_segment(loads: &Vec<Segment>, k: usize, base: u64, size: u64, page: u64, ops: &mut Vec<MapOp>)
    requires
        layout_fits(loads@, page as int),
        0 <= k < loads@.len(),
        page > 0,
        base as int == seg_start(loads@[0], page as int),
        base + size == seg_end(loads@.last(), page as int),
    ensures
        final(ops)@.len() >= old(ops)@.len(),
        forall|i: int| 0 <= i < old(ops)@.len() ==> final(ops)@[i] == old(ops)@[i],
        forall|i: int|
            old(ops)@.len() <= i < final(ops)@.len() ==> op_within(#[trigger] final(ops)@[i], size as int),
        final(ops)@ == old(ops)@ + segment_ops(loads@, k as int, page as int),
{
    let ghost pg = page as int;
    let ghost ops0 = ops@;
    let ghost l = loads@;
    let ghost n = l.len();
    let ghost start_len = ops@.len();
    let first = loads[0];
    let last = loads[loads.len() - 1];
    let seg = loads[k];
    let v = seg.p_vaddr;
    proof {
        assert(segment_fits(l[k as int], pg));
        assert(segment_fits(l[n - 1], pg));
        if k > 0 {
            lemma_layout_ordered(l, pg, 0, k as int);
        }
        if k < n - 1 {
            lemma_layout_ordered(l, pg, k as int, n - 1);
        }
    }
    let data_end = v + seg.p_filesz;
    let alloc_end = v + seg.p_memsz;
    let map_start = align_down(v, page);
    let data_top = align_up(data_end, page);
    let alloc_top = align_up(alloc_end, page);
    proof {
        lemma_align_facts(first.p_vaddr as int, v as int, pg);
        lemma_align_facts(data_end as int, alloc_end as int, pg);
        lemma_align_facts(alloc_end as int, last.p_vaddr + last.p_memsz, pg);
        lemma_align_facts(v as int, data_end as int, pg);
    }
    let start = map_start - base;
    let prot = segment_prot(seg.p_flags);
    let data_size = data_top - map_start;
    let (have_overlaps, overlapped_prot) = overlapping_prot(loads, k, map_start, prot, page);
    if seg.p_filesz > 0 && data_size > 0 {
        proof {
            lemma_multiples_gap(data_top as int, map_start as int, pg);
        }
        ops.push(MapOp::MapFile { offset: start, size: data_size, prot, file_offset: align_down(seg.p_offset, page) });
        let zero_len = data_top - data_end;
        if zero_len > 0 {
            let last_page = start + data_size - page;
            if prot & PROT_WRITE != PROT_WRITE {
                ops.push(MapOp::Protect { offset: last_page, size: page, prot: prot | PROT_WRITE });
            }
            ops.push(MapOp::Zero { offset: data_end - base, size: zero_len });
            if prot & PROT_WRITE != PROT_WRITE {
                ops.push(MapOp::Protect { offset: last_page, size: page, prot });
            }
        }
    }
    assert(ops@ =~= ops0 + file_ops(l, k as int, pg));
    let ghost ops1 = ops@;
    let zero_start = if seg.p_filesz == 0 && !have_overlaps {
        map_start
    } else {
        data_top
    };
    if zero_start < alloc_top {
        ops.push(MapOp::MapAnonymous { offset: zero_start - base, size: alloc_top - zero_start, prot });
    }
    assert(ops@ =~= ops1 + anon_ops(l, k as int, pg));
    let ghost ops2 = ops@;
    if have_overlaps {
        proof {
            lemma_align_up_unaligned(v as int, pg);
            lemma_align_facts(v as int, alloc_end as int, pg);
        }
        ops.push(MapOp::Protect { offset: start, size: page, prot: overlapped_prot });
    }
    assert(ops@ =~= ops2 + overlap_ops(l, k as int, pg));
    assert(ops@ =~= ops0 + segment_ops(l, k as int, pg));
}

/// Plans the image of an object from its program headers: one reservation
/// that spans every PT_LOAD segment, then for each segment in table order
/// the file mapping, the zeroing of the tail of its last file page (made
/// writable for the moment where the segment is not), the zero pages that
/// complete its memory size, and the protection of a first page shared with
/// earlier segments, which gets the union of their protections. A segment
/// without file data maps nothing from the file.
pub fn plan_mapping(segments: &Vec<Segment>, page_size: u64) -> (r: Result<MappingPlan, PlanError>)
    requires
        page_size > 0,
    ensures
        ({
            let l = load_segments(segments@);
            match r {
                Err(e) => plan_error(l, page_size as int) == Some(e),
                Ok(plan) => {
                    &&& plan_error(l, page_size as int) is None
                    &&& plan.size == image_span(l, page_size as int)
                    &&& plan.ops@ == plan_ops(l, page_size as int)
                    &&& forall|i: int|
                        0 <= i < plan.ops@.len() ==> op_within(#[trigger] plan.ops@[i], plan.size as int)
                },
            }
        }),
{
    let page = page_size;
    let ghost pg = page as int;
    let (loads, aligned) = collect_loads(segments, page);
    if !aligned {
        return Err(PlanError::AlignmentTooLarge);
    }
    let n = loads.len();
    if n == 0 {
        return Err(PlanError::NoLoadSegments);
    }
    if !check_layout(&loads, page) {
        return Err(PlanError::BadLayout);
    }
    let ghost l = loads@;
    let first = loads[0];
    let last = loads[n - 1];
    proof {
        assert(segment_fits(l[n - 1], pg));
        if n > 1 {
            lemma_layout_ordered(l, pg, 0, n - 1);
        }
        lemma_align_facts(first.p_vaddr as int, last.p_vaddr + last.p_memsz, pg);
    }
    let base = align_down(first.p_vaddr, page);
    let end = align_up(last.p_vaddr + last.p_memsz, page);
    let size = end - base;
    let mut ops: Vec<MapOp> = Vec::new();
    let mut k: usize = 0;
    while k < n
        invariant
            0 <= k <= n,
            n == l.len(),
            loads@ == l,
            layout_fits(l, pg),
            pg == page,
            page > 0,
            base as int == seg_start(l[0], pg),
            base + size == seg_end(l.last(), pg),
            forall|i: int| 0 <= i < ops@.len() ==> op_within(#[trigger] ops@[i], size as int),
            ops@ == ops_upto(l, k as int, pg),
        decreases n - k,
    {
        plan_segment(&loads, k, base, size, page, &mut ops);
        k = k + 1;
    }
    Ok(MappingPlan { size, ops })
}


/// The protection that the last of `ops` to set one gave the page at offset
/// `p`, if any did.
pub open spec fn page_prot_opt(ops: Seq<MapOp>, p: int) -> Option<u32>
    decreases ops.len(),
{
    if ops.len() == 0 {
        None
    } else {
        match ops.last() {
            MapOp::MapFile { offset, size, prot, .. } if offset <= p < offset + size => Some(prot),
            MapOp::MapAnonymous { offset, size, prot } if offset <= p < offset + size => Some(prot),
            MapOp::Protect { offset, size, prot } if offset <= p < offset + size => Some(prot),
            _ => page_prot_opt(ops.drop_last(), p),
        }
    }
}

/// The protection of the page at offset `p` of a reservation, made with no
/// access, after `ops`.
pub open spec fn page_prot(ops: Seq<MapOp>, p: int) -> u32 {
    match page_prot_opt(ops, p) {
        Some(x) => x,
        None => PROT_NONE,
    }
}

/// Whether segment `s`'s page range covers address `a`.
pub open spec fn covers(s: Segment, a: int, page: int) -> bool {
    seg_start(s, page) <= a < seg_end(s, page)
}

/// The union of the protections of the first `k` segments whose page range
/// covers address `a`.
pub open spec fn covering_prot(l: Seq<Segment>, k: int, a: int, page: int) -> u32
    decreases k,
{
    if k <= 0 {
        0
    } else {
        covering_prot(l, k - 1, a, page) | if covers(l[k - 1], a, page) {
            spec_prot(l[k - 1].p_flags)
        } else {
            0
        }
    }
}

proof fn lemma_or(a: u32, b: u32, c: u32)
    ensures
        a | 0 == a,
        0 | a == a,
        a | b == b | a,
        (a | b) | c == a | (b | c),
{
    assert(a | 0 == a) by (bit_vector);
    assert(0 | a == a) by (bit_vector);
    assert(a | b == b | a) by (bit_vector);
    assert((a | b) | c == a | (b | c)) by (bit_vector);
}

proof fn lemma_page_prot_concat(a: Seq<MapOp>, b: Seq<MapOp>, p: int)
    ensures
        page_prot_opt(a + b, p) == match page_prot_opt(b, p) {
            Some(x) => Some(x),
            None => page_prot_opt(a, p),
        },
    decreases b.len(),
{
    if b.len() == 0 {
        assert(a + b =~= a);
    } else {
        assert((a + b).drop_last() =~= a + b.drop_last());
        assert((a + b).last() == b.last());
        lemma_page_prot_concat(a, b.drop_last(), p);
    }
}

proof fn lemma_page_prot_single(op: MapOp, p: int)
    ensures
        page_prot_opt(seq![op], p) == match op {
            MapOp::MapFile { offset, size, prot, .. } => if offset <= p < offset + size {
                Some(prot)
            } else {
                None
            },
            MapOp::MapAnonymous { offset, size, prot } => if offset <= p < offset + size {
                Some(prot)
            } else {
                None
            },
            MapOp::Protect { offset, size, prot } => if offset <= p < offset + size {
                Some(prot)
            } else {
                None
            },
            MapOp::Zero { .. } => None,
        },
{
    assert(seq![op].drop_last() =~= Seq::<MapOp>::empty());
    assert(seq![op].last() == op);
    assert(page_prot_opt(Seq::<MapOp>::empty(), p) == None::<u32>);
}

/// Page ranges of earlier segments end no later than those of later ones,
/// and start no later.
proof fn lemma_seg_monotone(l: Seq<Segment>, page: int, i: int, j: int)
    requires
        layout_fits(l, page),
        page > 0,
        0 <= i < j < l.len(),
    ensures
        seg_end(l[i], page) <= seg_end(l[j], page),
        seg_start(l[i], page) <= seg_start(l[j], page),
        seg_end(l[i], page) <= spec_align_up(l[j].p_vaddr as int, page),
{
    lemma_layout_ordered(l, page, i, j);
    lemma_align_facts(l[i].p_vaddr + l[i].p_memsz, l[j].p_vaddr as int, page);
    lemma_align_facts(l[j].p_vaddr as int, l[j].p_vaddr + l[j].p_memsz, page);
    lemma_align_facts(l[i].p_vaddr as int, l[j].p_vaddr as int, page);
    lemma_align_facts(l[i].p_vaddr + l[i].p_memsz, l[j].p_vaddr + l[j].p_memsz, page);
}

proof fn lemma_covering_zero(l: Seq<Segment>, k: int, a: int, page: int)
    requires
        forall|j: int| 0 <= j < k ==> !covers(#[trigger] l[j], a, page),
    ensures
        covering_prot(l, k, a, page) == 0,
    decreases k,
{
    if k > 0 {
        lemma_covering_zero(l, k - 1, a, page);
        lemma_or(0, 0, 0);
    }
}

proof fn lemma_walk(l: Seq<Segment>, page: int, k: int, j: int, acc: u32)
    requires
        layout_fits(l, page),
        page > 0,
        0 <= j <= k < l.len(),
    ensures
        overlap_walk(l, j, seg_start(l[k], page), page, acc).1 == acc | covering_prot(
            l,
            j,
            seg_start(l[k], page),
            page,
        ),
        overlap_walk(l, j, seg_start(l[k], page), page, acc).0 == (j > 0 && seg_end(l[j - 1], page) > seg_start(
            l[k],
            page,
        )),
        !overlap_walk(l, j, seg_start(l[k], page), page, acc).0 ==> covering_prot(l, j, seg_start(l[k], page), page)
            == 0,
    decreases j,
{
    let ms = seg_start(l[k], page);
    lemma_or(acc, 0, 0);
    if j > 0 {
        let p = spec_prot(l[j - 1].p_flags);
        if j - 1 < k {
            lemma_seg_monotone(l, page, j - 1, k);
        }
        if seg_end(l[j - 1], page) > ms {
            lemma_walk(l, page, k, j - 1, acc | p);
            lemma_or(acc, p, covering_prot(l, j - 1, ms, page));
            lemma_or(p, covering_prot(l, j - 1, ms, page), 0);
            assert(covers(l[j - 1], ms, page));
        } else {
            assert forall|i: int| 0 <= i < j implies !covers(#[trigger] l[i], ms, page) by {
                if i < j - 1 {
                    lemma_seg_monotone(l, page, i, j - 1);
                }
            }
            lemma_covering_zero(l, j, ms, page);
        }
    } else {
        lemma_covering_zero(l, j, ms, page);
    }
}


/// The facts about one segment's addresses that the proofs below use.
proof fn lemma_segment_addresses(l: Seq<Segment>, page: int, k: int)
    requires
        layout_fits(l, page),
        page > 0,
        0 <= k < l.len(),
    ensures
        ({
            let s = l[k];
            let v = s.p_vaddr as int;
            let ms = seg_start(s, page);
            let data_top = spec_align_up(v + s.p_filesz, page);
            let alloc_top = seg_end(s, page);
            &&& 0 <= seg_start(l[0], page) <= ms <= v
            &&& ms % page == 0 && data_top % page == 0 && alloc_top % page == 0
            &&& seg_start(l[0], page) % page == 0
            &&& v + s.p_filesz <= data_top <= alloc_top
            &&& data_top < v + s.p_filesz + page
            &&& v + s.p_memsz <= alloc_top <= u64::MAX
            &&& (data_top < v + s.p_memsz || alloc_top == data_top)
            &&& spec_align_up(v, page) <= ms + page
            &&& (v % page != 0 ==> spec_align_up(v, page) == ms + page)
            &&& spec_align_up(v, page) <= alloc_top
            &&& data_top >= ms
            &&& spec_align_down(s.p_offset as int, page) <= s.p_offset
        }),
{
    let s = l[k];
    let v = s.p_vaddr as int;
    assert(segment_fits(s, page));
    assert(segment_fits(l[0], page));
    if k > 0 {
        lemma_seg_monotone(l, page, 0, k);
    }
    lemma_align_facts(v, v + s.p_filesz, page);
    lemma_align_facts(v + s.p_filesz, v + s.p_memsz, page);
    lemma_align_facts(v, v + s.p_memsz, page);
    lemma_align_facts(l[0].p_vaddr as int, v, page);
    lemma_align_down(l[0].p_vaddr as int, page);
    lemma_align_facts(s.p_offset as int, s.p_offset as int, page);
    lemma_align_facts(v + s.p_memsz, v + s.p_memsz, page);
    if v % page != 0 {
        lemma_align_up_unaligned(v, page);
    }
    if !(data_top_lt(s, page)) {
        lemma_align_facts(v + s.p_memsz, spec_align_up(v + s.p_filesz, page), page);
    }
}

spec fn data_top_lt(s: Segment, page: int) -> bool {
    spec_align_up(s.p_vaddr + s.p_filesz, page) < s.p_vaddr + s.p_memsz
}

/// The page protections that the operations of segment `k` leave: on its
/// page range, the union over the segments up to `k` that cover the page;
/// elsewhere, none.
#[verifier::rlimit(60)]
proof fn lemma_segment_prot(l: Seq<Segment>, page: int, k: int, p: int)
    requires
        layout_fits(l, page),
        page > 0,
        0 <= k < l.len(),
        0 <= p,
        p % page == 0,
    ensures
        covers(l[k], seg_start(l[0], page) + p, page) ==> page_prot_opt(segment_ops(l, k, page), p) == Some(
            covering_prot(l, k + 1, seg_start(l[0], page) + p, page),
        ),
        !covers(l[k], seg_start(l[0], page) + p, page) ==> page_prot_opt(segment_ops(l, k, page), p) is None,
{
    lemma_segment_addresses(l, page, k);
    let s = l[k];
    let base = seg_start(l[0], page);
    let a = base + p;
    let v = s.p_vaddr as int;
    let data_end = v + s.p_filesz;
    let alloc_end = v + s.p_memsz;
    let ms = spec_align_down(v, page);
    let data_top = spec_align_up(data_end, page);
    let alloc_top = spec_align_up(alloc_end, page);
    let prot = spec_prot(s.p_flags);
    let start = ms - base;
    let ds = data_top - ms;
    let zl = data_top - data_end;
    let last = start + ds - page;
    let read_only = prot & PROT_WRITE != PROT_WRITE;
    vstd::arithmetic::div_mod::lemma_add_mod_noop(base, p, page);
    vstd::arithmetic::div_mod::lemma_small_mod(0, page as nat);
    assert(a % page == 0);
    // The file part.
    let f = file_ops(l, k, page);
    let fd = s.p_filesz > 0 && ds > 0;
    let f_val: Option<u32> = if fd && start <= p < start + ds {
        Some(prot)
    } else {
        None
    };
    if !fd {
        assert(f =~= Seq::<MapOp>::empty());
        assert(page_prot_opt(f, p) == f_val);
    } else {
        lemma_multiples_gap(data_top, ms, page);
        let mf = MapOp::MapFile {
            offset: start as u64,
            size: ds as u64,
            prot,
            file_offset: spec_align_down(s.p_offset as int, page) as u64,
        };
        lemma_page_prot_single(mf, p);
        if zl <= 0 {
            assert(f =~= seq![mf] + Seq::<MapOp>::empty());
            lemma_page_prot_concat(seq![mf], Seq::<MapOp>::empty(), p);
            assert(page_prot_opt(Seq::<MapOp>::empty(), p) == None::<u32>);
        } else {
            let grant = MapOp::Protect { offset: last as u64, size: page as u64, prot: prot | PROT_WRITE };
            let z = MapOp::Zero { offset: (data_end - base) as u64, size: zl as u64 };
            let restore = MapOp::Protect { offset: last as u64, size: page as u64, prot };
            let first: Seq<MapOp> = if read_only {
                seq![grant]
            } else {
                Seq::empty()
            };
            let second: Seq<MapOp> = if read_only {
                seq![restore]
            } else {
                Seq::empty()
            };
            let tail = first + seq![z] + second;
            assert(f =~= seq![mf] + tail);
            lemma_page_prot_single(grant, p);
            lemma_page_prot_single(z, p);
            lemma_page_prot_single(restore, p);
            assert(page_prot_opt(Seq::<MapOp>::empty(), p) == None::<u32>);
            lemma_page_prot_concat(first, seq![z], p);
            lemma_page_prot_concat(first + seq![z], second, p);
            lemma_page_prot_concat(seq![mf], tail, p);
        }
        assert(page_prot_opt(f, p) == f_val);
    }
    // The zero pages.
    let w = overlap_walk(l, k, ms, page, prot);
    lemma_walk(l, page, k, k, prot);
    if w.0 {
        lemma_seg_monotone(l, page, k - 1, k);
        assert(v % page != 0) by {
            if v % page == 0 {
                lemma_align_facts(v, v, page);
                lemma_align_facts(l[k - 1].p_vaddr + l[k - 1].p_memsz, v, page);
                lemma_layout_ordered(l, page, k - 1, k);
            }
        }
    }
    let n = anon_ops(l, k, page);
    let zs = anon_start(l, k, page);
    let n_val: Option<u32> = if zs <= a < alloc_top {
        Some(prot)
    } else {
        None
    };
    if zs < alloc_top {
        lemma_page_prot_single(n[0], p);
        assert(n =~= seq![n[0]]);
    } else {
        assert(n =~= Seq::<MapOp>::empty());
        assert(page_prot_opt(Seq::<MapOp>::empty(), p) == None::<u32>);
    }
    assert(page_prot_opt(n, p) == n_val);
    // The shared first page.
    let o = overlap_ops(l, k, page);
    let o_val: Option<u32> = if w.0 && start <= p < start + page {
        Some(w.1)
    } else {
        None
    };
    if w.0 {
        lemma_page_prot_single(o[0], p);
        assert(o =~= seq![o[0]]);
    } else {
        assert(o =~= Seq::<MapOp>::empty());
        assert(page_prot_opt(Seq::<MapOp>::empty(), p) == None::<u32>);
    }
    assert(page_prot_opt(o, p) == o_val);
    lemma_page_prot_concat(f, n, p);
    lemma_page_prot_concat(f + n, o, p);
    assert(segment_ops(l, k, page) == f + n + o);
    lemma_or(prot, covering_prot(l, k, ms, page), 0);
    lemma_or(covering_prot(l, k, ms, page), prot, 0);
    if covers(s, a, page) {
        if a == ms {
            if !w.0 {
                lemma_or(0, prot, 0);
            }
        } else {
            lemma_multiples_gap(a, ms, page);
            assert forall|j: int| 0 <= j < k implies !covers(#[trigger] l[j], a, page) by {
                lemma_seg_monotone(l, page, j, k);
            }
            lemma_covering_zero(l, k, a, page);
            lemma_or(0, prot, 0);
        }
    }
}

proof fn lemma_prot_upto(l: Seq<Segment>, page: int, k: int, p: int)
    requires
        layout_fits(l, page),
        page > 0,
        0 <= k <= l.len(),
        0 <= p,
        p % page == 0,
    ensures
        page_prot(ops_upto(l, k, page), p) == covering_prot(l, k, seg_start(l[0], page) + p, page),
    decreases k,
{
    if k > 0 {
        lemma_prot_upto(l, page, k - 1, p);
        lemma_page_prot_concat(ops_upto(l, k - 1, page), segment_ops(l, k - 1, page), p);
        lemma_segment_prot(l, page, k - 1, p);
        lemma_or(covering_prot(l, k - 1, seg_start(l[0], page) + p, page), 0, 0);
    } else {
        assert(page_prot_opt(Seq::<MapOp>::empty(), p) == None::<u32>);
    }
}

/// After the plan of a well-laid-out object is carried out, each page of
/// the image carries the union of the protections of every PT_LOAD segment
/// whose page range covers it, and no access where none does.
pub proof fn page_protection_is_union(segments: Seq<Segment>, page: int, p: int)
    requires
        page > 0,
        plan_error(load_segments(segments), page) is None,
        0 <= p < image_span(load_segments(segments), page),
        p % page == 0,
    ensures
        ({
            let l = load_segments(segments);
            page_prot(plan_ops(l, page), p) == covering_prot(l, l.len() as int, seg_start(l[0], page) + p, page)
        }),
{
    let l = load_segments(segments);
    lemma_prot_upto(l, page, l.len() as int, p);
}


/// What the last of `ops` to set the byte at offset `b` put there, if any
/// did: `Some(o)` for the file's byte at offset `o`, `None` for zero.
pub open spec fn byte_write(ops: Seq<MapOp>, b: int) -> Option<Option<int>>
    decreases ops.len(),
{
    if ops.len() == 0 {
        None
    } else {
        match ops.last() {
            MapOp::MapFile { offset, size, file_offset, .. } if offset <= b < offset + size => Some(
                Some(file_offset + (b - offset)),
            ),
            MapOp::MapAnonymous { offset, size, .. } if offset <= b < offset + size => Some(None),
            MapOp::Zero { offset, size } if offset <= b < offset + size => Some(None),
            _ => byte_write(ops.drop_last(), b),
        }
    }
}

/// What the byte at offset `b` of a reservation holds after `ops`: the
/// file's byte at the given offset, or zero (`None`).
pub open spec fn byte_source(ops: Seq<MapOp>, b: int) -> Option<int> {
    match byte_write(ops, b) {
        Some(x) => x,
        None => None,
    }
}

proof fn lemma_byte_concat(a: Seq<MapOp>, b: Seq<MapOp>, x: int)
    ensures
        byte_write(a + b, x) == match byte_write(b, x) {
            Some(y) => Some(y),
            None => byte_write(a, x),
        },
    decreases b.len(),
{
    if b.len() == 0 {
        assert(a + b =~= a);
    } else {
        assert((a + b).drop_last() =~= a + b.drop_last());
        assert((a + b).last() == b.last());
        lemma_byte_concat(a, b.drop_last(), x);
    }
}

proof fn lemma_byte_single(op: MapOp, x: int)
    ensures
        byte_write(seq![op], x) == match op {
            MapOp::MapFile { offset, size, file_offset, .. } => if offset <= x < offset + size {
                Some(Some(file_offset + (x - offset)))
            } else {
                None
            },
            MapOp::MapAnonymous { offset, size, .. } => if offset <= x < offset + size {
                Some(None)
            } else {
                None
            },
            MapOp::Zero { offset, size } => if offset <= x < offset + size {
                Some(None)
            } else {
                None
            },
            MapOp::Protect { .. } => None,
        },
{
    assert(seq![op].drop_last() =~= Seq::<MapOp>::empty());
    assert(seq![op].last() == op);
    assert(byte_write(Seq::<MapOp>::empty(), x) == None::<Option<int>>);
}

/// The bytes that the operations of segment `k` write: the file from its
/// first page to the end of its data, zero from there to the end of its
/// memory size, nothing outside its page range.
#[verifier::rlimit(60)]
proof fn lemma_segment_bytes(l: Seq<Segment>, page: int, k: int, x: int)
    requires
        layout_fits(l, page),
        page > 0,
        0 <= k < l.len(),
    ensures
        ({
            let s = l[k];
            let a = seg_start(l[0], page) + x;
            let ms = seg_start(s, page);
            let data_top = spec_align_up(s.p_vaddr + s.p_filesz, page);
            let w = byte_write(segment_ops(l, k, page), x);
            &&& (a < ms || a >= seg_end(s, page)) ==> w is None
            &&& s.p_filesz > 0 && ms <= a < s.p_vaddr + s.p_filesz ==> w == Some(
                Some(spec_align_down(s.p_offset as int, page) + (a - ms)),
            )
            &&& s.p_filesz > 0 && s.p_vaddr + s.p_filesz <= a < seg_end(s, page) ==> w == Some(None::<int>)
            &&& s.p_filesz == 0 && !shares_first_page(l, k, page) && ms <= a < seg_end(s, page) ==> w == Some(
                None::<int>,
            )
            &&& s.p_filesz == 0 && shares_first_page(l, k, page) && ms <= a < data_top ==> w is None
            &&& s.p_filesz == 0 && shares_first_page(l, k, page) && data_top <= a < seg_end(s, page) ==> w == Some(
                None::<int>,
            )
            &&& shares_first_page(l, k, page) ==> k > 0 && s.p_vaddr as int % page != 0 && seg_end(l[k - 1], page)
                == ms + page && data_top >= ms + page
        }),
{
    lemma_segment_addresses(l, page, k);
    let s = l[k];
    let base = seg_start(l[0], page);
    let a = base + x;
    let v = s.p_vaddr as int;
    let data_end = v + s.p_filesz;
    let alloc_end = v + s.p_memsz;
    let ms = spec_align_down(v, page);
    let data_top = spec_align_up(data_end, page);
    let alloc_top = spec_align_up(alloc_end, page);
    let prot = spec_prot(s.p_flags);
    let start = ms - base;
    let ds = data_top - ms;
    let zl = data_top - data_end;
    let last = start + ds - page;
    let read_only = prot & PROT_WRITE != PROT_WRITE;
    let fo = spec_align_down(s.p_offset as int, page);
    lemma_align_down(s.p_offset as int, page);
    let f = file_ops(l, k, page);
    let fd = s.p_filesz > 0 && ds > 0;
    let f_val: Option<Option<int>> = if fd && zl > 0 && data_end - base <= x < data_top - base {
        Some(None)
    } else if fd && start <= x < start + ds {
        Some(Some(fo + (x - start)))
    } else {
        None
    };
    if !fd {
        assert(f =~= Seq::<MapOp>::empty());
        assert(byte_write(Seq::<MapOp>::empty(), x) == None::<Option<int>>);
    } else {
        lemma_multiples_gap(data_top, ms, page);
        let mf = MapOp::MapFile { offset: start as u64, size: ds as u64, prot, file_offset: fo as u64 };
        lemma_byte_single(mf, x);
        if zl <= 0 {
            assert(f =~= seq![mf] + Seq::<MapOp>::empty());
            lemma_byte_concat(seq![mf], Seq::<MapOp>::empty(), x);
            assert(byte_write(Seq::<MapOp>::empty(), x) == None::<Option<int>>);
        } else {
            let grant = MapOp::Protect { offset: last as u64, size: page as u64, prot: prot | PROT_WRITE };
            let z = MapOp::Zero { offset: (data_end - base) as u64, size: zl as u64 };
            let restore = MapOp::Protect { offset: last as u64, size: page as u64, prot };
            let first: Seq<MapOp> = if read_only {
                seq![grant]
            } else {
                Seq::empty()
            };
            let second: Seq<MapOp> = if read_only {
                seq![restore]
            } else {
                Seq::empty()
            };
            let tail = first + seq![z] + second;
            assert(f =~= seq![mf] + tail);
            lemma_byte_single(grant, x);
            lemma_byte_single(z, x);
            lemma_byte_single(restore, x);
            assert(byte_write(Seq::<MapOp>::empty(), x) == None::<Option<int>>);
            lemma_byte_concat(first, seq![z], x);
            lemma_byte_concat(first + seq![z], second, x);
            lemma_byte_concat(seq![mf], tail, x);
        }
    }
    assert(byte_write(f, x) == f_val);
    let wk = overlap_walk(l, k, ms, page, prot);
    lemma_walk(l, page, k, k, prot);
    if wk.0 {
        lemma_seg_monotone(l, page, k - 1, k);
        lemma_layout_ordered(l, page, k - 1, k);
        assert(segment_fits(l[k - 1], page));
        lemma_align_facts(l[k - 1].p_vaddr + l[k - 1].p_memsz, v, page);
        assert(v % page != 0) by {
            if v % page == 0 {
                lemma_align_facts(v, v, page);
            }
        }
        lemma_align_facts(v, data_end, page);
        lemma_multiples_gap(seg_end(l[k - 1], page), ms, page);
    }
    assert(shares_first_page(l, k, page) == wk.0);
    let n = anon_ops(l, k, page);
    let zs = anon_start(l, k, page);
    let n_val: Option<Option<int>> = if zs <= a < alloc_top {
        Some(None)
    } else {
        None
    };
    if zs < alloc_top {
        lemma_byte_single(n[0], x);
        assert(n =~= seq![n[0]]);
    } else {
        assert(n =~= Seq::<MapOp>::empty());
        assert(byte_write(Seq::<MapOp>::empty(), x) == None::<Option<int>>);
    }
    assert(byte_write(n, x) == n_val);
    let o = overlap_ops(l, k, page);
    if wk.0 {
        lemma_byte_single(o[0], x);
        assert(o =~= seq![o[0]]);
    } else {
        assert(o =~= Seq::<MapOp>::empty());
        assert(byte_write(Seq::<MapOp>::empty(), x) == None::<Option<int>>);
    }
    assert(byte_write(o, x) is None);
    lemma_byte_concat(f, n, x);
    lemma_byte_concat(f + n, o, x);
    assert(segment_ops(l, k, page) == f + n + o);
}

/// Earlier segments reach into the first page of segment `k`.
pub open spec fn shares_first_page(l: Seq<Segment>, k: int, page: int) -> bool {
    k > 0 && seg_end(l[k - 1], page) > seg_start(l[k], page)
}

/// Each segment's offset in the file and address in memory agree modulo
/// the page.
pub open spec fn offsets_congruent(l: Seq<Segment>, page: int) -> bool {
    forall|i: int| 0 <= i < l.len() ==> (#[trigger] l[i]).p_offset as int % page == l[i].p_vaddr as int % page
}

/// Where the file part of a segment reaches into the first page of a later
/// one with file data, both place the file at the same distance from memory.
pub open spec fn shared_pages_agree(l: Seq<Segment>, page: int) -> bool {
    forall|i: int, j: int|
        0 <= i < j < l.len() && l[j].p_filesz > 0 && #[trigger] l[i].p_vaddr + l[i].p_filesz > seg_start(
            #[trigger] l[j],
            page,
        ) ==> l[i].p_vaddr - l[i].p_offset == l[j].p_vaddr - l[j].p_offset
}

/// No later segment with file data has its first page reach back into the
/// part of a segment beyond its file size: mapping that page from the file
/// would cover those bytes.
pub open spec fn tails_unshared(l: Seq<Segment>, page: int) -> bool {
    forall|i: int, j: int|
        0 <= i < j < l.len() && #[trigger] l[i].p_filesz < l[i].p_memsz && l[j].p_filesz > 0 ==> l[i].p_vaddr
            + l[i].p_memsz <= seg_start(#[trigger] l[j], page)
}

proof fn lemma_file_step(l: Seq<Segment>, page: int, m: int, i: int, a: int)
    requires
        layout_fits(l, page),
        page > 0,
        0 <= i <= m < l.len(),
        l[i].p_vaddr <= a < l[i].p_vaddr + l[i].p_filesz,
        l[m].p_offset as int % page == l[m].p_vaddr as int % page,
        i < m && a >= seg_start(l[m], page) && l[m].p_filesz > 0 ==> l[i].p_vaddr - l[i].p_offset == l[m].p_vaddr
            - l[m].p_offset,
    ensures
        i == m || (a >= seg_start(l[m], page) && l[m].p_filesz > 0) ==> byte_write(
            segment_ops(l, m, page),
            a - seg_start(l[0], page),
        ) == Some(Some(l[i].p_offset + (a - l[i].p_vaddr))),
        i < m && !(a >= seg_start(l[m], page) && l[m].p_filesz > 0) ==> byte_write(
            segment_ops(l, m, page),
            a - seg_start(l[0], page),
        ) is None,
{
    lemma_segment_bytes(l, page, m, a - seg_start(l[0], page));
    lemma_segment_addresses(l, page, m);
    if i < m {
        lemma_layout_ordered(l, page, i, m);
        assert(segment_fits(l[i], page));
        if a >= seg_start(l[m], page) && l[m].p_filesz == 0 {
            lemma_seg_monotone(l, page, i, m);
            if i < m - 1 {
                lemma_seg_monotone(l, page, i, m - 1);
            }
            lemma_align_facts(a, l[i].p_vaddr + l[i].p_memsz, page);
            assert(shares_first_page(l, m, page));
        }
    }
}

#[verifier::rlimit(60)]
proof fn lemma_file_bytes_upto(l: Seq<Segment>, page: int, k: int, i: int, a: int)
    requires
        layout_fits(l, page),
        page > 0,
        l.len() > 0,
        offsets_congruent(l, page),
        shared_pages_agree(l, page),
        0 <= i < k <= l.len(),
        l[i].p_vaddr <= a < l[i].p_vaddr + l[i].p_filesz,
    ensures
        byte_write(ops_upto(l, k, page), a - seg_start(l[0], page)) == Some(
            Some(l[i].p_offset + (a - l[i].p_vaddr)),
        ),
    decreases k,
{
    let x = a - seg_start(l[0], page);
    let m = k - 1;
    lemma_byte_concat(ops_upto(l, m, page), segment_ops(l, m, page), x);
    assert(l[m].p_offset as int % page == l[m].p_vaddr as int % page);
    if i < m && a >= seg_start(l[m], page) && l[m].p_filesz > 0 {
        assert(l[i].p_vaddr + l[i].p_filesz > seg_start(l[m], page));
    }
    lemma_file_step(l, page, m, i, a);
    if i < m {
        lemma_file_bytes_upto(l, page, m, i, a);
    }
}

/// After the first `k` segments, the bytes from the end of the last one's
/// data to the end of its page range read as zero.
#[verifier::rlimit(60)]
proof fn lemma_zero_range(l: Seq<Segment>, page: int, k: int, a: int)
    requires
        layout_fits(l, page),
        page > 0,
        1 <= k <= l.len(),
        l[k - 1].p_vaddr + l[k - 1].p_filesz <= a < seg_end(l[k - 1], page),
    ensures
        byte_write(ops_upto(l, k, page), a - seg_start(l[0], page)) == Some(None::<int>),
    decreases k,
{
    let x = a - seg_start(l[0], page);
    let m = k - 1;
    lemma_byte_concat(ops_upto(l, m, page), segment_ops(l, m, page), x);
    lemma_segment_bytes(l, page, m, x);
    lemma_segment_addresses(l, page, m);
    let s = l[m];
    if s.p_filesz == 0 && shares_first_page(l, m, page) && a < spec_align_up(s.p_vaddr + s.p_filesz, page) {
        lemma_layout_ordered(l, page, m - 1, m);
        lemma_align_facts(s.p_vaddr as int, s.p_vaddr as int, page);
        lemma_align_up_unaligned(s.p_vaddr as int, page);
        lemma_zero_range(l, page, m, a);
    }
}

#[verifier::rlimit(60)]
proof fn lemma_tail_bytes_upto(l: Seq<Segment>, page: int, k: int, i: int, a: int)
    requires
        layout_fits(l, page),
        page > 0,
        l.len() > 0,
        tails_unshared(l, page),
        0 <= i < k <= l.len(),
        l[i].p_vaddr + l[i].p_filesz <= a < l[i].p_vaddr + l[i].p_memsz,
    ensures
        byte_write(ops_upto(l, k, page), a - seg_start(l[0], page)) == Some(None::<int>),
    decreases k,
{
    let x = a - seg_start(l[0], page);
    let m = k - 1;
    lemma_segment_addresses(l, page, i);
    if i == m {
        lemma_zero_range(l, page, k, a);
    } else {
        lemma_byte_concat(ops_upto(l, m, page), segment_ops(l, m, page), x);
        lemma_segment_bytes(l, page, m, x);
        lemma_segment_addresses(l, page, m);
        lemma_tail_bytes_upto(l, page, m, i, a);
        lemma_layout_ordered(l, page, i, m);
        assert(l[i].p_filesz < l[i].p_memsz);
        if l[m].p_filesz > 0 {
            assert(l[i].p_vaddr + l[i].p_memsz <= seg_start(l[m], page));
        }
    }
}

/// After the plan is carried out, and before any relocation, every byte of
/// a PT_LOAD segment's file part reads as the file's byte, where offsets
/// and addresses agree modulo the page and segments that share a page place
/// the file alike.
pub proof fn file_bytes_are_mapped(segments: Seq<Segment>, page: int, i: int, a: int)
    requires
        page > 0,
        plan_error(load_segments(segments), page) is None,
        offsets_congruent(load_segments(segments), page),
        shared_pages_agree(load_segments(segments), page),
        0 <= i < load_segments(segments).len(),
        load_segments(segments)[i].p_vaddr <= a < load_segments(segments)[i].p_vaddr + load_segments(
            segments,
        )[i].p_filesz,
    ensures
        ({
            let l = load_segments(segments);
            byte_source(plan_ops(l, page), a - seg_start(l[0], page)) == Some(l[i].p_offset + (a - l[i].p_vaddr))
        }),
{
    let l = load_segments(segments);
    lemma_file_bytes_upto(l, page, l.len() as int, i, a);
}

/// After the plan is carried out, and before any relocation, every byte of
/// a PT_LOAD segment between its file size and its memory size reads as
/// zero, where no later segment with file data has its first page reach
/// back into that part.
pub proof fn memory_tail_reads_zero(segments: Seq<Segment>, page: int, i: int, a: int)
    requires
        page > 0,
        plan_error(load_segments(segments), page) is None,
        tails_unshared(load_segments(segments), page),
        0 <= i < load_segments(segments).len(),
        load_segments(segments)[i].p_vaddr + load_segments(segments)[i].p_filesz <= a < load_segments(
            segments,
        )[i].p_vaddr + load_segments(segments)[i].p_memsz,
    ensures
        ({
            let l = load_segments(segments);
            byte_source(plan_ops(l, page), a - seg_start(l[0], page)) is None
        }),
{
    let l = load_segments(segments);
    lemma_tail_bytes_upto(l, page, l.len() as int, i, a);
}

/// Every address of every PT_LOAD segment's memory lies in the image span,
/// counted from the first segment's page start.
pub proof fn segment_address_in_span(segments: Seq<Segment>, page: int, i: int, a: int)
    requires
        page > 0,
        plan_error(load_segments(segments), page) is None,
        0 <= i < load_segments(segments).len(),
        load_segments(segments)[i].p_vaddr <= a < load_segments(segments)[i].p_vaddr + load_segments(
            segments,
        )[i].p_memsz,
    ensures
        ({
            let l = load_segments(segments);
            seg_start(l[0], page) <= a < seg_start(l[0], page) + image_span(l, page)
        }),
{
    let l = load_segments(segments);
    let n = l.len() as int;
    lemma_segment_addresses(l, page, i);
    if i < n - 1 {
        lemma_seg_monotone(l, page, i, n - 1);
    }
}

} // verus!
