use baremetal::error::EraseError;
use baremetal::region::{GenericMemRegion, MemRegion, ReramRegion};
use baremetal::traversal::{MemoryTraversal, WritePlan, WriteStep};

const BIO_IMEM: [(usize, usize); 4] = [
    (0x5012_5000, 4096),
    (0x5012_6000, 4096),
    (0x5012_7000, 4096),
    (0x5012_8000, 4096),
];

fn two_small_blocks() -> MemoryTraversal {
    MemoryTraversal::from_blocks(vec![
        MemRegion::Generic(GenericMemRegion::new(0x100, 8)),
        MemRegion::Generic(GenericMemRegion::new(0x200, 8)),
    ])
}

fn bytes(from: u8, n: usize) -> Vec<u8> {
    (0..n).map(|i| from.wrapping_add(i as u8)).collect()
}

fn summary(plan: &WritePlan) -> Vec<(usize, u32, Vec<u8>)> {
    plan.writes.iter().map(|w| (w.block, w.region.start(), w.data.clone())).collect()
}

#[test]
fn chip_area_layout() {
    let t = MemoryTraversal::new(0x6000_0000, &BIO_IMEM);
    assert_eq!(t.len(), 0x0036_1000 + 4 * 4096);
    assert_eq!(t.peek(), 0x6007_9000);
    let blocks = t.all_blocks();
    assert_eq!(blocks.len(), 5);
    assert_eq!(blocks[0].min_update_size(), 32);
    assert_eq!(blocks[1].start(), 0x5012_5000);
    assert_eq!(blocks[4].end(), 0x5012_9000);
    assert_eq!(blocks[4].min_update_size(), 4);
}

#[test]
fn short_data_is_held() {
    let mut t = two_small_blocks();
    let plan = t.write_slice(&[1, 2, 3]);
    assert_eq!(plan.result, Ok(()));
    assert_eq!(plan.taken, 3);
    assert!(plan.writes.is_empty());
    assert_eq!(t.len(), 16);
    assert_eq!(t.peek(), 0x100);
}

#[test]
fn held_bytes_are_completed_to_a_unit() {
    let mut t = two_small_blocks();
    t.write_slice(&[1, 2, 3]);
    let plan = t.write_slice(&[4, 5, 6]);
    assert_eq!(plan.result, Ok(()));
    assert_eq!(plan.taken, 3);
    // The unit completed from held bytes is followed by the write of what of the
    // data makes whole units, here none.
    assert_eq!(summary(&plan), vec![(0, 0x100, vec![1, 2, 3, 4]), (0, 0x104, vec![])]);
    assert_eq!(t.len(), 12);
    assert_eq!(t.peek(), 0x104);
}

#[test]
fn whole_units_are_written_at_once() {
    let mut t = two_small_blocks();
    let data = bytes(10, 7);
    let plan = t.write_slice(&data);
    assert_eq!(plan.result, Ok(()));
    assert_eq!(summary(&plan), vec![(0, 0x100, bytes(10, 4))]);
    assert_eq!(t.len(), 12);
}

#[test]
fn writes_run_on_into_the_next_region() {
    let mut t = two_small_blocks();
    let data = bytes(0, 14);
    let plan = t.write_slice(&data);
    assert_eq!(plan.result, Ok(()));
    assert_eq!(plan.taken, 14);
    assert_eq!(
        summary(&plan),
        vec![(0, 0x100, bytes(0, 8)), (1, 0x200, bytes(8, 4))]
    );
    assert_eq!(t.len(), 4);
    assert_eq!(t.peek(), 0x204);
}

#[test]
fn full_area_runs_out_of_memory() {
    let mut t = two_small_blocks();
    let data = bytes(0, 20);
    let plan = t.write_slice(&data);
    assert_eq!(plan.result, Err(EraseError::OutOfMemory));
    assert_eq!(plan.taken, 16);
    assert_eq!(
        summary(&plan),
        vec![(0, 0x100, bytes(0, 8)), (1, 0x200, bytes(8, 8))]
    );
    assert_eq!(t.len(), 0);
}

#[test]
fn exactly_full_area_still_takes_short_data() {
    let mut t = two_small_blocks();
    let plan = t.write_slice(&bytes(0, 16));
    assert_eq!(plan.result, Ok(()));
    let plan = t.write_slice(&[1, 2, 3]);
    assert_eq!(plan.result, Ok(()));
    assert_eq!(plan.taken, 3);
    assert!(plan.writes.is_empty());
    let plan = t.write_slice(&[4]);
    assert_eq!(plan.result, Err(EraseError::OutOfMemory));
    assert_eq!(plan.taken, 0);
}

#[test]
fn advance_block_stops_at_the_last_region() {
    let mut t = two_small_blocks();
    assert_eq!(t.advance_block(), Ok(()));
    assert_eq!(t.peek(), 0x200);
    assert_eq!(t.advance_block(), Err(EraseError::OutOfMemory));
    assert_eq!(t.peek(), 0x200);
}

#[test]
fn a_full_region_hands_over_to_the_next() {
    // One row of RRAM, then word memory.
    let reram = ReramRegion::new(0x0037_9FE0, 0x6000_0000);
    assert_eq!(reram.len(), 32);
    let mut t = MemoryTraversal::from_blocks(vec![
        MemRegion::Reram(reram),
        MemRegion::Generic(GenericMemRegion::new(0x100, 64)),
    ]);
    assert_eq!(t.peek(), 0x603D_9FE0);
    assert_eq!(t.write_slice(&bytes(0, 32)).result, Ok(()));
    // The next address to fill is in the next region.
    assert_eq!(t.peek(), 0x100);
    let plan = t.write_slice(&bytes(32, 20));
    assert_eq!(plan.result, Ok(()));
    assert_eq!(summary(&plan), vec![(1, 0x100, bytes(32, 20))]);
    assert_eq!(t.peek(), 0x114);
}

#[test]
fn held_bytes_move_on_with_the_stream() {
    let reram = ReramRegion::new(0x0037_9FC0, 0x6000_0000);
    assert_eq!(reram.len(), 64);
    let mut t = MemoryTraversal::from_blocks(vec![
        MemRegion::Reram(reram),
        MemRegion::Generic(GenericMemRegion::new(0x100, 64)),
    ]);
    let plan = t.write_slice(&bytes(0, 40));
    assert_eq!(summary(&plan), vec![(0, 0x603D_9FC0, bytes(0, 32))]);
    let plan = t.write_slice(&bytes(40, 30));
    assert_eq!(plan.result, Ok(()));
    assert_eq!(plan.taken, 30);
    assert_eq!(
        summary(&plan),
        vec![(0, 0x603D_9FE0, bytes(32, 32)), (1, 0x100, bytes(64, 4))]
    );
    assert_eq!(t.len(), 60);
    assert_eq!(t.peek(), 0x104);
}

#[test]
fn empty_leading_regions_are_passed_over() {
    let t = MemoryTraversal::from_blocks(vec![
        MemRegion::Generic(GenericMemRegion::new(0x100, 0)),
        MemRegion::Generic(GenericMemRegion::new(0x200, 8)),
    ]);
    assert_eq!(t.peek(), 0x200);
    let t = MemoryTraversal::from_blocks(vec![MemRegion::Generic(GenericMemRegion::new(0x100, 0))]);
    let mut t = t;
    let plan = t.write_slice(&[1, 2, 3, 4]);
    assert_eq!(plan.result, Err(EraseError::OutOfMemory));
    assert_eq!(plan.taken, 0);
    assert!(plan.writes.is_empty());
}

#[test]
fn step_by_step_write_leaves_the_region_until_reported() {
    let mut t = two_small_blocks();
    assert!(matches!(t.write_step(&[1, 2, 3], 0), WriteStep::Held));
    match t.write_step(&[4, 5, 6], 0) {
        WriteStep::Write { block, region, data, next } => {
            assert_eq!(block, 0);
            assert_eq!(region.start(), 0x100);
            assert_eq!(data, vec![1, 2, 3, 4]);
            assert_eq!(next, 1);
            // Not reported yet: the region is where it was.
            assert_eq!(t.peek(), 0x100);
            t.write_done(data.len());
            assert_eq!(t.peek(), 0x104);
        }
        other => panic!("unexpected step {:?}", other),
    }
    match t.write_step(&[4, 5, 6], 1) {
        WriteStep::Write { data, next, .. } => {
            assert!(data.is_empty());
            assert_eq!(next, 1);
            t.write_done(0);
        }
        other => panic!("unexpected step {:?}", other),
    }
    match t.write_step(&[4, 5, 6], 1) {
        WriteStep::Held => {}
        other => panic!("unexpected step {:?}", other),
    }
    assert_eq!(t.len(), 12);
}

#[test]
fn step_fails_once_the_last_region_is_full() {
    let mut t = MemoryTraversal::from_blocks(vec![MemRegion::Generic(GenericMemRegion::new(0x100, 4))]);
    match t.write_step(&[1, 2, 3, 4, 5, 6, 7, 8], 0) {
        WriteStep::Write { data, next, .. } => {
            assert_eq!(data, vec![1, 2, 3, 4]);
            assert_eq!(next, 4);
            t.write_done(4);
        }
        other => panic!("unexpected step {:?}", other),
    }
    assert!(matches!(
        t.write_step(&[1, 2, 3, 4, 5, 6, 7, 8], 4),
        WriteStep::Failed(EraseError::OutOfMemory)
    ));
}

#[test]
fn remaining_length_fits() {
    let t = MemoryTraversal::new(0x6000_0000, &BIO_IMEM);
    assert!(t.len_fits());
    let t = two_small_blocks();
    assert!(t.len_fits());
}
