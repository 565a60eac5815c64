//! Concrete instances of the properties proved in `baremetal::laws`.
use baremetal::region::{GenericMemRegion, MemRegion};
use baremetal::traversal::MemoryTraversal;

fn blocks() -> MemoryTraversal {
    MemoryTraversal::from_blocks(vec![
        MemRegion::Generic(GenericMemRegion::new(0x100, 12)),
        MemRegion::Generic(GenericMemRegion::new(0x200, 12)),
    ])
}

/// Address of every byte written, in write order.
fn image(writes: &[(u32, Vec<u8>)]) -> Vec<(u32, u8)> {
    let mut out = Vec::new();
    for (addr, data) in writes {
        for (i, b) in data.iter().enumerate() {
            out.push((addr + i as u32, *b));
        }
    }
    out
}

#[test]
fn split_writes_lay_out_like_one_write() {
    let data: Vec<u8> = (0u8..22).collect();

    let mut once = blocks();
    let plan = once.write_slice(&data);
    assert_eq!(plan.result, Ok(()));
    let one: Vec<(u32, Vec<u8>)> =
        plan.writes.iter().map(|w| (w.region.start(), w.data.clone())).collect();

    let mut twice = blocks();
    let mut two: Vec<(u32, Vec<u8>)> = Vec::new();
    for chunk in [&data[..5], &data[5..]] {
        let plan = twice.write_slice(chunk);
        assert_eq!(plan.result, Ok(()));
        two.extend(plan.writes.iter().map(|w| (w.region.start(), w.data.clone())));
    }
    assert_eq!(image(&one), image(&two));
    assert_eq!(once.len(), twice.len());
    assert_eq!(once.peek(), twice.peek());

    // Byte k of the stream lands at the k-th address of the regions, in order.
    let expected: Vec<(u32, u8)> = (0u32..20)
        .map(|k| (if k < 12 { 0x100 + k } else { 0x200 + k - 12 }, k as u8))
        .collect();
    assert_eq!(image(&one), expected);
}

#[test]
fn capacity_drops_by_the_bytes_written() {
    let mut t = blocks();
    let before = t.len();
    let plan = t.write_slice(&[1u8; 9]);
    let written: usize = plan.writes.iter().map(|w| w.data.len()).sum();
    assert_eq!(written, 8);
    assert_eq!(t.len() + written, before);
}

#[test]
fn region_starts_stay_word_aligned() {
    let mut t = blocks();
    for n in [1usize, 3, 5, 7, 2] {
        t.write_slice(&vec![0u8; n]);
        for b in t.all_blocks() {
            assert_eq!(b.start() % b.min_update_size() as u32, 0);
        }
    }
}

#[test]
fn peek_is_the_next_address_while_the_region_has_room() {
    let mut t = blocks();
    let plan = t.write_slice(&[0u8; 8]);
    assert_eq!(plan.writes[0].region.start(), 0x100);
    assert_eq!(t.peek(), 0x108);
    let plan = t.write_slice(&[0u8; 4]);
    assert_eq!(plan.writes[0].region.start(), 0x108);
}

#[test]
fn split_writes_end_in_the_same_state() {
    let data: Vec<u8> = (0u8..26).collect();
    for cut in 0..=data.len() {
        let mut once = blocks();
        let plan = once.write_slice(&data);
        let mut twice = blocks();
        let p1 = twice.write_slice(&data[..cut]);
        let p2 = twice.write_slice(&data[cut..]);
        assert_eq!(p1.result, Ok(()));
        assert_eq!(plan.result.is_ok(), p2.result.is_ok());
        assert_eq!(once.peek(), twice.peek());
        assert_eq!(once.len(), twice.len());
        let mut bytes: Vec<u8> = Vec::new();
        for w in p1.writes.iter().chain(p2.writes.iter()) {
            bytes.extend_from_slice(&w.data);
        }
        let one: Vec<u8> = plan.writes.iter().flat_map(|w| w.data.clone()).collect();
        assert_eq!(bytes, one);
    }
}

#[test]
fn many_calls_lay_out_the_joined_stream() {
    let data: Vec<u8> = (0u8..23).collect();
    let mut t = blocks();
    let mut writes: Vec<(u32, Vec<u8>)> = Vec::new();
    let mut from = 0;
    for n in [1usize, 2, 0, 6, 3, 9, 2] {
        assert!(t.has_room_for(n));
        let plan = t.write_slice(&data[from..from + n]);
        assert_eq!(plan.result, Ok(()));
        writes.extend(plan.writes.iter().map(|w| (w.region.start(), w.data.clone())));
        from += n;
    }
    assert_eq!(from, 23);
    // The first 20 bytes are written in stream order; the last 3, less than a
    // unit, are held.
    assert_eq!(t.len(), 4);
    let expected: Vec<(u32, u8)> = (0u32..20)
        .map(|k| (if k < 12 { 0x100 + k } else { 0x200 + k - 12 }, k as u8))
        .collect();
    assert_eq!(image(&writes), expected);
    // One more byte completes the held unit, which fills the last region.
    let plan = t.write_slice(&[23]);
    assert_eq!(plan.result, Ok(()));
    assert_eq!(plan.writes[0].data, vec![20, 21, 22, 23]);
    assert_eq!(plan.writes[0].region.start(), 0x208);
    assert_eq!(t.len(), 0);
}
