use jni_loader::mmap::{
    align_down, align_up, plan_mapping, segment_prot, MapOp, PlanError, Segment, PF_R, PF_W, PF_X, PROT_EXEC,
    PROT_READ, PROT_WRITE, PT_LOAD,
};

const PAGE: u64 = 0x1000;

fn load(flags: u32, offset: u64, vaddr: u64, filesz: u64, memsz: u64) -> Segment {
    Segment {
        p_type: PT_LOAD,
        p_flags: flags,
        p_offset: offset,
        p_vaddr: vaddr,
        p_filesz: filesz,
        p_memsz: memsz,
        p_align: PAGE,
    }
}

#[test]
fn align_values() {
    assert_eq!(align_down(0x1234, PAGE), 0x1000);
    assert_eq!(align_down(0x2000, PAGE), 0x2000);
    assert_eq!(align_up(0x1234, PAGE), 0x2000);
    assert_eq!(align_up(0x2000, PAGE), 0x2000);
    assert_eq!(align_up(0, PAGE), 0);
}

#[test]
fn prot_from_flags() {
    assert_eq!(segment_prot(PF_R | PF_X), PROT_READ | PROT_EXEC);
    assert_eq!(segment_prot(PF_R | PF_W), PROT_READ | PROT_WRITE);
    assert_eq!(segment_prot(0), 0);
}

#[test]
fn plan_two_segments() {
    let segments = vec![
        Segment { p_type: 6, p_flags: PF_R, p_offset: 0x40, p_vaddr: 0x40, p_filesz: 0x100, p_memsz: 0x100, p_align: 8 },
        load(PF_R | PF_X, 0, 0, 0x1234, 0x1234),
        load(PF_R | PF_W, 0x1e10, 0x2e10, 0x200, 0x200),
    ];
    let plan = plan_mapping(&segments, PAGE).unwrap();
    assert_eq!(plan.size, 0x4000);
    assert_eq!(
        plan.ops,
        vec![
            MapOp::MapFile { offset: 0, size: 0x2000, prot: PROT_READ | PROT_EXEC, file_offset: 0 },
            MapOp::Protect { offset: 0x1000, size: PAGE, prot: PROT_READ | PROT_EXEC | PROT_WRITE },
            MapOp::Zero { offset: 0x1234, size: 0x2000 - 0x1234 },
            MapOp::Protect { offset: 0x1000, size: PAGE, prot: PROT_READ | PROT_EXEC },
            MapOp::MapFile { offset: 0x2000, size: 0x2000, prot: PROT_READ | PROT_WRITE, file_offset: 0x1000 },
            MapOp::Zero { offset: 0x3010, size: 0x4000 - 0x3010 },
        ]
    );
}

#[test]
fn plan_shared_page_gets_union() {
    let segments = vec![load(PF_R | PF_X, 0, 0, 0x800, 0x800), load(PF_R | PF_W, 0x900, 0x900, 0x100, 0x100)];
    let plan = plan_mapping(&segments, PAGE).unwrap();
    assert_eq!(plan.size, 0x1000);
    assert_eq!(
        *plan.ops.last().unwrap(),
        MapOp::Protect { offset: 0, size: PAGE, prot: PROT_READ | PROT_WRITE | PROT_EXEC }
    );
}

#[test]
fn plan_bss_two_pages() {
    let segments = vec![load(PF_R | PF_W, 0, 0, 0x1000, 0x3000)];
    let plan = plan_mapping(&segments, PAGE).unwrap();
    assert_eq!(plan.size, 0x3000);
    assert_eq!(
        plan.ops,
        vec![
            MapOp::MapFile { offset: 0, size: 0x1000, prot: PROT_READ | PROT_WRITE, file_offset: 0 },
            MapOp::MapAnonymous { offset: 0x1000, size: 0x2000, prot: PROT_READ | PROT_WRITE },
        ]
    );
}

#[test]
fn plan_errors() {
    assert_eq!(plan_mapping(&vec![], PAGE).unwrap_err(), PlanError::NoLoadSegments);
    let mut big = load(PF_R, 0, 0, 0x10, 0x10);
    big.p_align = 0x20000;
    assert_eq!(plan_mapping(&vec![big], PAGE).unwrap_err(), PlanError::AlignmentTooLarge);
    let unordered = vec![load(PF_R, 0x2000, 0x2000, 0x10, 0x10), load(PF_R, 0, 0, 0x10, 0x10)];
    assert_eq!(plan_mapping(&unordered, PAGE).unwrap_err(), PlanError::BadLayout);
    let file_past_memory = vec![load(PF_R, 0, 0, 0x20, 0x10)];
    assert_eq!(plan_mapping(&file_past_memory, PAGE).unwrap_err(), PlanError::BadLayout);
}

// Carries a plan out on a model of the reservation: a protection per page
// and, per byte, the file offset it shows (None for zero).
fn simulate(size: u64, ops: &[MapOp]) -> (Vec<u32>, Vec<Option<u64>>) {
    let mut prots = vec![0u32; (size / PAGE) as usize];
    let mut bytes = vec![None; size as usize];
    for op in ops {
        match *op {
            MapOp::MapFile { offset, size, prot, file_offset } => {
                for b in offset..offset + size {
                    bytes[b as usize] = Some(file_offset + (b - offset));
                }
                for p in offset / PAGE..(offset + size) / PAGE {
                    prots[p as usize] = prot;
                }
            },
            MapOp::MapAnonymous { offset, size, prot } => {
                for b in offset..offset + size {
                    bytes[b as usize] = None;
                }
                for p in offset / PAGE..(offset + size) / PAGE {
                    prots[p as usize] = prot;
                }
            },
            MapOp::Protect { offset, size, prot } => {
                for p in offset / PAGE..(offset + size) / PAGE {
                    prots[p as usize] = prot;
                }
            },
            MapOp::Zero { offset, size } => {
                for b in offset..offset + size {
                    bytes[b as usize] = None;
                }
            },
        }
    }
    (prots, bytes)
}

#[test]
fn carried_out_plan_matches_segments() {
    let segments = vec![
        load(PF_R | PF_X, 0, 0, 0x1800, 0x1800),
        load(PF_R | PF_W, 0x1900, 0x1900, 0x300, 0x2000),
        load(PF_R, 0x4000, 0x4000, 0x10, 0x10),
    ];
    let plan = plan_mapping(&segments, PAGE).unwrap();
    let (prots, bytes) = simulate(plan.size, &plan.ops);
    assert_eq!(prots, vec![PROT_READ | PROT_EXEC, PROT_READ | PROT_EXEC | PROT_WRITE, PROT_READ | PROT_WRITE, PROT_READ | PROT_WRITE, PROT_READ]);
    for s in &segments {
        for a in s.p_vaddr..s.p_vaddr + s.p_filesz {
            assert_eq!(bytes[a as usize], Some(s.p_offset + (a - s.p_vaddr)));
        }
        for a in s.p_vaddr + s.p_filesz..s.p_vaddr + s.p_memsz {
            assert_eq!(bytes[a as usize], None);
        }
    }
}

#[test]
fn segment_without_file_data_keeps_earlier_zeros() {
    let segments = vec![load(PF_R | PF_W, 0, 0, 0x10, 0x100), load(PF_R | PF_W, 0x200, 0x200, 0, 0x100)];
    let plan = plan_mapping(&segments, PAGE).unwrap();
    assert!(plan.ops.iter().filter(|op| matches!(op, MapOp::MapFile { .. })).count() == 1);
    let (prots, bytes) = simulate(plan.size, &plan.ops);
    assert_eq!(prots, vec![PROT_READ | PROT_WRITE]);
    for a in 0x10..0x300 {
        assert_eq!(bytes[a], None);
    }
    let alone = vec![load(PF_R, 0x200, 0x200, 0, 0x1000)];
    let plan = plan_mapping(&alone, PAGE).unwrap();
    assert_eq!(plan.ops, vec![MapOp::MapAnonymous { offset: 0, size: 0x2000, prot: PROT_READ }]);
}
