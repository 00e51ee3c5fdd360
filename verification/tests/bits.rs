use glass_rs::Glass;

#[test]
fn test_find_next_set_bit() {
    let glass = Glass::new();
    let mask = 0b0001_0010;
    assert_eq!(glass.find_next_set_bit(mask, 0), Some(1));
    assert_eq!(glass.find_next_set_bit(mask, 2), Some(4));
    assert_eq!(glass.find_next_set_bit(mask, 5), None);
}

#[test]
fn test_find_prev_set_bit() {
    let glass = Glass::new();
    let mask = 0b0001_0010;
    assert_eq!(glass.find_prev_set_bit(mask, 64), Some(4));
    assert_eq!(glass.find_prev_set_bit(mask, 4), Some(1));
    assert_eq!(glass.find_prev_set_bit(mask, 1), None);
}

#[test]
fn test_bit_scans_on_edges() {
    let glass = Glass::new();
    assert_eq!(glass.find_next_set_bit(0, 0), None);
    assert_eq!(glass.find_next_set_bit(u64::MAX, 63), Some(63));
    assert_eq!(glass.find_next_set_bit(u64::MAX, 64), None);
    assert_eq!(glass.find_prev_set_bit(u64::MAX, 0), None);
    assert_eq!(glass.find_prev_set_bit(1 << 63, 64), Some(63));
    assert_eq!(glass.find_prev_set_bit(1, 64), Some(0));
}
