use baremetal::error::EraseError;
use baremetal::region::{GenericMemRegion, MemRegion, ReramRegion};

#[test]
fn generic_region_reports_its_span() {
    let r = GenericMemRegion::new(0x5012_5000, 4096);
    assert_eq!(r.start(), 0x5012_5000);
    assert_eq!(r.end(), 0x5012_6000);
    assert_eq!(r.len(), 4096);
    assert_eq!(r.min_update_size(), 4);
}

#[test]
fn generic_region_checks_writes() {
    let r = GenericMemRegion::new(0x1000, 16);
    assert_eq!(r.check_write(3), Err(EraseError::BadAlignment));
    assert_eq!(r.check_write(20), Err(EraseError::MemoryInUse));
    assert_eq!(r.check_write(18), Err(EraseError::BadAlignment));
    assert_eq!(r.check_write(16), Ok(()));
    assert_eq!(r.check_write(0), Ok(()));
}

#[test]
fn generic_region_advances() {
    let mut r = GenericMemRegion::new(0x1000, 16);
    assert_eq!(r.advance(20), Err(EraseError::Unavailable));
    assert_eq!(r.start(), 0x1000);
    assert_eq!(r.advance(8), Ok(()));
    assert_eq!(r.start(), 0x1008);
    assert_eq!(r.end(), 0x1010);
    assert_eq!(r.len(), 8);
    assert_eq!(r.advance(8), Ok(()));
    assert_eq!(r.len(), 0);
    assert_eq!(r.advance(1), Err(EraseError::Unavailable));
}

#[test]
fn generic_region_readback() {
    assert_eq!(GenericMemRegion::confirm_readback(&[1, 2, 3, 4], &[1, 2, 3, 4]), Ok(()));
    assert_eq!(
        GenericMemRegion::confirm_readback(&[1, 2, 3, 4], &[1, 2, 0, 4]),
        Err(EraseError::AccessDenied)
    );
    assert_eq!(GenericMemRegion::confirm_readback(&[], &[]), Ok(()));
}

#[test]
fn reram_region_follows_the_baremetal_image() {
    let r = ReramRegion::new(102400, 0x6000_0000);
    assert_eq!(r.start(), 0x6007_9000);
    assert_eq!(r.end(), 0x603D_A000);
    assert_eq!(r.len(), 0x0036_1000);
    assert_eq!(r.min_update_size(), 32);
    assert_eq!(r.offset(), 0x0007_9000);
}

#[test]
fn reram_region_start_is_rounded_up_to_a_row() {
    let r = ReramRegion::new(1, 0x6000_0000);
    assert_eq!(r.start(), 0x6006_0020);
    let r = ReramRegion::new(31, 0x6000_0000);
    assert_eq!(r.start(), 0x6006_0020);
    let r = ReramRegion::new(32, 0x6000_0000);
    assert_eq!(r.start(), 0x6006_0020);
    let r = ReramRegion::new(33, 0x6000_0000);
    assert_eq!(r.start(), 0x6006_0040);
}

#[test]
fn reram_region_checks_writes() {
    let mut r = ReramRegion::new(102400, 0x6000_0000);
    assert_eq!(r.check_write(4), Err(EraseError::BadAlignment));
    assert_eq!(r.check_write(64), Ok(()));
    assert_eq!(r.check_write(0x0036_1000 + 32), Err(EraseError::MemoryInUse));
    assert_eq!(r.advance(64), Ok(()));
    assert_eq!(r.start(), 0x6007_9040);
    assert_eq!(r.offset(), 0x0007_9040);
    assert_eq!(ReramRegion::confirm_written(32, 32), Ok(()));
    assert_eq!(ReramRegion::confirm_written(31, 32), Err(EraseError::InternalError));
}

#[test]
fn mem_region_dispatches_by_kind() {
    let mut g = MemRegion::Generic(GenericMemRegion::new(0x100, 8));
    let mut m = MemRegion::Reram(ReramRegion::new(102400, 0x6000_0000));
    assert_eq!(g.min_update_size(), 4);
    assert_eq!(m.min_update_size(), 32);
    assert_eq!(g.check_write(4), Ok(()));
    assert_eq!(m.check_write(4), Err(EraseError::BadAlignment));
    assert_eq!(g.advance(4), Ok(()));
    assert_eq!(g.start(), 0x104);
    assert_eq!(g.len(), 4);
    assert_eq!(m.advance(32), Ok(()));
    assert_eq!(m.start(), 0x6007_9020);
    assert_eq!(m.end(), 0x603D_A000);
}

#[test]
fn generic_region_fits() {
    assert!(GenericMemRegion::fits(0x1000, 16));
    assert!(!GenericMemRegion::fits(0x1002, 16));
    assert!(!GenericMemRegion::fits(0x1000, 6));
    assert!(!GenericMemRegion::fits(0xFFFF_FFF0, 0x20));
    assert!(GenericMemRegion::fits(0xFFFF_FFF0, 0x0C));
}

#[test]
fn reram_region_fits() {
    assert!(ReramRegion::fits(102400, 0x6000_0000));
    // A reservation that runs past the end of the storage area.
    assert!(!ReramRegion::fits(0x0040_0000, 0x6000_0000));
    // A storage area that ends past the 32-bit address space.
    assert!(!ReramRegion::fits(0, 0xFFFF_0000));
    // Exactly one row left.
    assert!(ReramRegion::fits(0x0037_9FE0, 0x6000_0000));
    // The start, 0x603D_A001, is before the end, 0x603D_A010, but rounding it up
    // to a row passes the end.
    assert!(!ReramRegion::fits(0x0037_A001, 0x6000_0010));
    assert!(ReramRegion::fits(0x0037_9FF1, 0x6000_0010));
    let r = ReramRegion::new(102400, 0x6000_0000);
    assert_eq!(r.rram_base(), 0x6000_0000);
}

#[test]
fn reram_region_ends_on_a_row() {
    assert!(ReramRegion::ends_on_row(0x6000_0000));
    assert!(!ReramRegion::ends_on_row(0x6000_0010));
    assert!(ReramRegion::ends_on_row(0x6000_0020));
}
