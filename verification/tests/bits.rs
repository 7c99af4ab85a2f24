use rhubarb::bits::{bit_at, bit_range};
use rhubarb::paging::PageTableFlags;

#[test]
fn range_smoke() {
    let num: u64 = 43;
    assert_eq!(bit_range(num, 64, 5, 31) as u16, 1);

    let num: u8 = 0b_0011_0101;
    assert_eq!(bit_range(num as u64, 8, 0, 0), 0b_000001);
    assert_eq!(bit_range(num as u64, 8, 0, 3), 0b_000101);
    assert_eq!(bit_range(num as u64, 8, 2, 6), 0b_001101);
    assert_eq!(bit_range(num as u64, 8, 0, 8), 0b_110101);

    let num: u32 = 0b_1001_0001;
    assert_eq!(bit_range(num as u64, 32, 4, 4), 0b_010000);
    assert_eq!(bit_range(num as u64, 32, 0, 3), 0b_000001);
    assert_eq!(bit_range(num as u64, 32, 2, 2 + 32), 0b_100100);
    assert_eq!(bit_range(num as u64, 32, 0, 5), 0b_010001);

    const NUM: u16 = 0b_1011_1111_0000_1101;
    assert_eq!(bit_range(NUM as u64, 16, 1, 9) as u8, 0b_1000_0110);
    assert_eq!(bit_range(NUM as u64, 16, 8, 8 + 8) as u8, 0b_1011_1111);
    assert_eq!(bit_range(NUM as u64, 16, 4, 12) as u8, 0b_1111_0000);

    const SOURCE_NUM: u32 = 0x_FEFE_FEFE;
    const RANGE_START: u32 = 2;
    const RANGE_END: u32 = 7;
    let ranged_num = bit_range(SOURCE_NUM as u64, 32, RANGE_START, RANGE_END) as u32;
    assert_eq!(ranged_num, 31);
    assert_eq!(bit_at(ranged_num as u64, 0), true);
    assert_eq!(bit_at(ranged_num as u64, 1), true);
    assert_eq!(bit_at(ranged_num as u64, 2), true);
    assert_eq!(bit_at(ranged_num as u64, 3), true);
    assert_eq!(bit_at(ranged_num as u64, 4), true);
    assert_eq!(bit_at(ranged_num as u64, 5), false);
}

#[test]
fn flags_smoke() {
    let a = PageTableFlags::from_bits(1 << 0);
    let b = PageTableFlags::from_bits(1 << 2);
    let c = PageTableFlags::from_bits(1 << 7);
    let all = PageTableFlags::from_bits(0 | 1 << 0 | 1 << 2 | 1 << 7);

    assert_eq!(all, a.union(b).union(c));

    assert_eq!(a.union(b).bits(), 0b0000_0101);
    assert_eq!(b.union(c).bits(), 0b1000_0100);
    assert_eq!(a.union(c).bits(), 0b1000_0001);
}

#[test]
fn field_smoke() {
    let test_caps: u64 = (43 << 32) + (29 << 16) + (1 << 13) + (0 << 15) + (7 << 8) + (2 << 0);

    assert_eq!(bit_range(test_caps, 64, 32, 64) as u32, 43);
    assert_eq!(bit_range(test_caps, 64, 16, 32) as u16, 29);
    assert_eq!(bit_at(test_caps, 15), false);
    assert_eq!(bit_at(test_caps, 13), true);
    assert_eq!(bit_range(test_caps, 64, 8, 13) as u8, 7);
    assert_eq!(bit_range(test_caps, 64, 0, 8) as u8, 2);
}
