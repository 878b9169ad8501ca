use dungers::{RangeAlloc, RangeAllocError};

#[test]
fn allocate() {
    let mut ra = RangeAlloc::new(0..100 as u32);
    let _ = ra.allocate(10);
    assert_eq!(ra.free_ranges(), &[10..100]);
}

#[test]
fn deallocate_right() {
    let mut ra = RangeAlloc::new(0..100 as u32);

    // leave exactly 5..10 free
    assert_eq!(ra.allocate(5), Ok(0..5));
    assert_eq!(ra.allocate(5), Ok(5..10));
    assert_eq!(ra.allocate(90), Ok(10..100));
    ra.deallocate(5..10);
    assert_eq!(ra.free_ranges(), &[5..10]);

    // right
    ra.deallocate(10..20);
    assert_eq!(ra.free_ranges(), &[5..20]);
}

#[test]
fn deallocate_left() {
    let mut ra = RangeAlloc::new(0..100 as u32);

    // leave exactly 20..96 free
    assert_eq!(ra.allocate(20), Ok(0..20));
    assert_eq!(ra.allocate(76), Ok(20..96));
    assert_eq!(ra.allocate(4), Ok(96..100));
    ra.deallocate(20..96);
    assert_eq!(ra.free_ranges(), &[20..96]);

    // left
    ra.deallocate(10..20);
    assert_eq!(ra.free_ranges(), &[10..96]);
}

#[test]
fn deallocate_defragment() {
    let mut ra = RangeAlloc::new(0..100 as u32);

    let _ = ra.allocate(10).unwrap();
    let r1 = ra.allocate(20).unwrap();
    let r2 = ra.allocate(30).unwrap();

    ra.deallocate(r1);
    ra.deallocate(r2);

    assert_eq!(ra.free_ranges(), &[10..100]);
}

#[test]
fn allocate_full_range() {
    let mut ra = RangeAlloc::new(0..100 as u32);
    assert_eq!(ra.allocate(100), Ok(0..100));
    assert!(ra.free_ranges().is_empty());
}

#[test]
fn allocate_out_of_bounds() {
    let mut ra = RangeAlloc::new(0..100 as u32);
    assert!(ra.allocate(101).is_err());
}

#[test]
fn allocate_exhausted() {
    let mut ra = RangeAlloc::new(0..100 as u32);
    assert_eq!(ra.allocate(100), Ok(0..100));
    assert_eq!(ra.allocate(1), Err(RangeAllocError));
}

#[test]
fn best_fit_picks_the_shortest_range_that_fits() {
    let mut ra = RangeAlloc::new(0..100 as u32);
    let a = ra.allocate(10).unwrap();
    let _ = ra.allocate(5).unwrap();
    let b = ra.allocate(3).unwrap();
    let _ = ra.allocate(2).unwrap();
    // free: 20..100, then 0..10 and 15..18 come back
    ra.deallocate(a);
    ra.deallocate(b);
    assert_eq!(ra.free_ranges(), &[0..10, 15..18, 20..100]);
    let fit = ra.find_best_fit(3).unwrap();
    assert_eq!(fit.range, 15..18);
    assert_eq!(ra.allocate(3), Ok(15..18));
    assert_eq!(ra.allocate(4), Ok(0..4));
    assert_eq!(ra.free_ranges(), &[4..10, 20..100]);
    assert!(ra.find_best_fit(81).is_none());
    let fit = ra.find_best_fit(7).unwrap();
    assert_eq!(ra.allocate_best_fit(7, fit), 20..27);
}

#[test]
fn deallocate_joins_both_neighbours() {
    let mut ra = RangeAlloc::new(10..40 as u32);
    let a = ra.allocate(10).unwrap();
    let b = ra.allocate(10).unwrap();
    let c = ra.allocate(10).unwrap();
    ra.deallocate(a);
    ra.deallocate(c);
    assert_eq!(ra.free_ranges(), &[10..20, 30..40]);
    ra.deallocate(b);
    assert_eq!(ra.free_ranges(), &[10..40]);
}

#[test]
fn merged_free_range_fits_a_long_allocation() {
    let mut ra = RangeAlloc::new(0..100 as u32);
    let _ = ra.allocate(10).unwrap();
    let r1 = ra.allocate(20).unwrap();
    let r2 = ra.allocate(30).unwrap();
    ra.deallocate(r2);
    ra.deallocate(r1);
    let fit = ra.find_best_fit(90).unwrap();
    assert_eq!(fit.range(), &(10..100));
    assert_eq!(ra.allocate(90), Ok(10..100));
    assert!(ra.free_ranges().is_empty());
}
