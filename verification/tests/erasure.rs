use baremetal::erasure::{key_from_bytes, Erasure};
use baremetal::error::EraseError;

const BIO_IMEM: [(usize, usize); 4] = [
    (0x5012_5000, 4096),
    (0x5012_6000, 4096),
    (0x5012_7000, 4096),
    (0x5012_8000, 4096),
];

#[test]
fn new_erasure_covers_rram_and_bio_memories() {
    let e = Erasure::new(0x6000_0000, &BIO_IMEM);
    assert_eq!(e.len(), 0x0036_1000 + 0x4000);
    assert_eq!(e.peek(), 0x6007_9000);
    assert_eq!(e.bytes_written(), 0);
}

#[test]
fn erasure_counts_bytes_and_advances() {
    let mut e = Erasure::new(0x6000_0000, &BIO_IMEM);
    let plan = e.write_slice(&[0xA5; 40]);
    assert_eq!(plan.result, Ok(()));
    assert_eq!(plan.writes.len(), 1);
    assert_eq!(plan.writes[0].region.start(), 0x6007_9000);
    assert_eq!(plan.writes[0].data, vec![0xA5; 32]);
    assert_eq!(e.bytes_written(), 40);
    assert_eq!(e.len(), 0x0036_1000 + 0x4000 - 32);
    assert_eq!(e.peek(), 0x6007_9020);
    let plan = e.write_slice(&[0x5A; 24]);
    assert_eq!(plan.writes.len(), 2);
    assert!(plan.writes[1].data.is_empty());
    assert_eq!(plan.writes[0].region.start(), 0x6007_9020);
    let mut row = vec![0xA5; 8];
    row.extend_from_slice(&[0x5A; 24]);
    assert_eq!(plan.writes[0].data, row);
    assert_eq!(e.bytes_written(), 64);
    assert_eq!(e.peek(), 0x6007_9040);
}

#[test]
fn erasure_fills_rram_then_bio_memory() {
    let mut e = Erasure::new(0x6000_0000, &BIO_IMEM);
    let rram = vec![0u8; 0x0036_1000];
    let plan = e.write_slice(&rram);
    assert_eq!(plan.result, Ok(()));
    // The next address to fill is the first BIO memory.
    assert_eq!(e.peek(), 0x5012_5000);
    assert_eq!(e.len(), 0x4000);
    let plan = e.write_slice(&[1, 2, 3, 4, 5, 6, 7, 8]);
    assert_eq!(plan.result, Ok(()));
    assert_eq!(plan.writes.len(), 1);
    assert_eq!(plan.writes[0].block, 1);
    assert_eq!(plan.writes[0].region.start(), 0x5012_5000);
    assert_eq!(plan.writes[0].data, vec![1, 2, 3, 4, 5, 6, 7, 8]);
    assert_eq!(e.peek(), 0x5012_5008);
}

#[test]
fn sixteen_byte_chunks_fill_every_region() {
    let mut e = Erasure::new(0x6000_0000, &BIO_IMEM);
    let total = e.len();
    let mut written: Vec<(u32, usize)> = Vec::new();
    for i in 0..total / 16 {
        assert!(e.has_room_for(16));
        let chunk = [(i % 251) as u8; 16];
        let plan = e.write_slice(&chunk);
        assert_eq!(plan.result, Ok(()));
        for w in plan.writes.iter() {
            written.push((w.region.start(), w.data.len()));
        }
    }
    assert_eq!(e.len(), 0);
    assert_eq!(e.bytes_written(), total);
    let sum: usize = written.iter().map(|(_, n)| *n).sum();
    assert_eq!(sum, total);
    assert!(!e.has_room_for(4));
    assert!(e.has_room_for(3));
}

#[test]
fn room_for_data_past_the_end() {
    let mut e = Erasure::new(0x6000_0000, &[(0x100, 32)]);
    assert!(e.has_room_for(0x0036_1000 + 32));
    assert!(e.has_room_for(0x0036_1000 + 35));
    assert!(!e.has_room_for(0x0036_1000 + 36));
    let plan = e.write_slice(&vec![7u8; 0x0036_1000 + 32]);
    assert_eq!(plan.result, Ok(()));
    assert_eq!(e.len(), 0);
    assert!(!e.has_room_for(4));
    assert_eq!(e.bytes_written(), 0x0036_1000 + 32);
}

#[test]
fn key_is_sixteen_bytes() {
    let key: Vec<u8> = (0u8..16).collect();
    let k = key_from_bytes(&key).unwrap();
    assert_eq!(k, [0, 1, 2, 3, 4, 5, 6, 7, 8, 9, 10, 11, 12, 13, 14, 15]);
    assert_eq!(key_from_bytes(&key[..15]), Err(EraseError::InternalError));
    assert_eq!(key_from_bytes(&[0u8; 17]), Err(EraseError::InternalError));
}
