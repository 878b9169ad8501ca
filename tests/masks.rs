use dungers::get_bit_for_bit_num;
use dungers::masks::{bit_write_mask, extra_mask};

#[test]
fn bit_for_bit_num() {
    assert_eq!(get_bit_for_bit_num(0), 1);
    assert_eq!(get_bit_for_bit_num(5), 32);
    assert_eq!(get_bit_for_bit_num(63), 1 << 63);
    assert_eq!(get_bit_for_bit_num(64), 1);
}

#[test]
fn extra_masks() {
    assert_eq!(extra_mask(0), 0);
    assert_eq!(extra_mask(1), 1);
    assert_eq!(extra_mask(12), 0xfff);
    assert_eq!(extra_mask(63), u64::MAX >> 1);
    assert_eq!(extra_mask(64), u64::MAX);
}

#[test]
fn write_masks() {
    assert_eq!(bit_write_mask(0, 0), u64::MAX);
    assert_eq!(bit_write_mask(4, 8), !0xff0);
    assert_eq!(bit_write_mask(60, 8), 0x0fff_ffff_ffff_ffff);
    assert_eq!(bit_write_mask(0, 64), 0);
    assert_eq!(bit_write_mask(63, 1), u64::MAX >> 1);
}
