use snarkos_ledger::locators::{block_locator_heights, floor_log2_u32};

fn strictly_decreasing(v: &[u32]) -> bool {
    v.windows(2).all(|w| w[0] > w[1])
}

#[test]
fn locators_of_genesis() {
    assert_eq!(block_locator_heights(0), vec![0]);
}

#[test]
fn locators_of_small_ledgers_are_every_height() {
    assert_eq!(block_locator_heights(1), vec![1, 0]);
    assert_eq!(block_locator_heights(10), vec![10, 9, 8, 7, 6, 5, 4, 3, 2, 1, 0]);
    assert_eq!(block_locator_heights(11), vec![11, 10, 9, 8, 7, 6, 5, 4, 3, 2, 1, 0]);
    let all: Vec<u32> = (0..=63).rev().collect();
    assert_eq!(block_locator_heights(63), all);
}

#[test]
fn locators_at_64_skip_height_one() {
    let mut expected: Vec<u32> = (2..=64).rev().collect();
    expected.push(0);
    assert_eq!(block_locator_heights(64), expected);
}

#[test]
fn locators_of_100_blocks() {
    let mut expected: Vec<u32> = (91..=100).rev().collect();
    let mut h = 90;
    while h > 0 {
        expected.push(h);
        h -= 2;
    }
    expected.push(0);
    assert_eq!(block_locator_heights(100), expected);
}

#[test]
fn locators_of_200_blocks_use_a_doubling_step() {
    let v = block_locator_heights(200);
    assert_eq!(v.len(), 59);
    assert_eq!(&v[..12], &[200, 199, 198, 197, 196, 195, 194, 193, 192, 191, 190, 188]);
    assert_eq!(&v[56..], &[8, 4, 0]);
}

#[test]
fn locators_of_1000_blocks() {
    let v = block_locator_heights(1000);
    assert_eq!(v.len(), 64);
    assert_eq!(&v[10..16], &[990, 988, 984, 976, 960, 941]);
    assert_eq!(&v[60..], &[86, 67, 48, 0]);
}

#[test]
fn locators_of_a_million_blocks() {
    let v = block_locator_heights(1_000_000);
    assert_eq!(v.len(), 64);
    assert_eq!(&v[10..20], &[999_990, 999_988, 999_984, 999_976, 999_960, 999_928, 999_864, 999_736, 999_480, 998_968]);
    assert_eq!(&v[61..], &[49_624, 24_824, 0]);
}

#[test]
fn locators_at_the_largest_height() {
    let v = block_locator_heights(u32::MAX);
    assert_eq!(v.len(), 64);
    assert_eq!(v[0], u32::MAX);
    assert_eq!(&v[61..], &[308_203_684, 154_101_849, 0]);
}

#[test]
fn locators_start_at_the_height_end_at_genesis_and_decrease() {
    for h in [0u32, 1, 5, 10, 11, 50, 63, 64, 65, 100, 250, 5000, 16_777_223, 123_456_789, u32::MAX] {
        let v = block_locator_heights(h);
        assert!(!v.is_empty());
        assert!(v.len() <= 64);
        assert_eq!(v[0], h);
        assert_eq!(*v.last().unwrap(), 0);
        assert!(strictly_decreasing(&v));
    }
}

#[test]
fn floor_log2_values() {
    assert_eq!(floor_log2_u32(0), 0);
    assert_eq!(floor_log2_u32(1), 0);
    assert_eq!(floor_log2_u32(2), 1);
    assert_eq!(floor_log2_u32(3), 1);
    assert_eq!(floor_log2_u32(4), 2);
    assert_eq!(floor_log2_u32(1023), 9);
    assert_eq!(floor_log2_u32(1024), 10);
    assert_eq!(floor_log2_u32(u32::MAX), 31);
}
