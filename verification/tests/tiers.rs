//! Scenarios that cross the tier boundary and exercise the edge cases the
//! contracts call out.
use glass_rs::Glass;

#[test]
fn test_empty_book() {
    let mut glass = Glass::new();
    assert!(glass.min().is_none());
    assert!(glass.max().is_none());
    assert_eq!(glass.get(7), None);
    assert_eq!(glass.remove(7), None);
    assert_eq!(glass.remove_by_index(0), None);
    assert_eq!(glass.compute_buy_cost(100), 0);
    assert_eq!(glass.buy_shares(100), 0);
    assert_eq!(glass.min_key(), u32::MAX);
    assert_eq!(glass.max_key(), 0);
    assert_eq!(glass.threshold(), u32::MAX);
}

#[test]
fn test_insert_zero_deletes() {
    let mut glass = Glass::new();
    glass.insert(5, 7);
    assert_eq!(glass.glass_size(), 1);
    glass.insert(5, 0);
    assert_eq!(glass.get(5), None);
    assert_eq!(glass.glass_size(), 0);
    assert_eq!(glass.remove(5), None);
}

#[test]
fn test_remove_absent_leaves_book_unchanged() {
    let mut glass = Glass::new();
    glass.insert(10, 100);
    glass.insert(20, 200);
    assert_eq!(glass.remove(15), None);
    assert_eq!(glass.glass_size(), 2);
    assert_eq!(glass.get(10), Some(100));
    assert_eq!(glass.get(20), Some(200));
    assert_eq!(glass.min(), Some((10, 100)));
    assert_eq!(glass.max(), Some((20, 200)));
}

#[test]
fn test_update_value_to_zero_deletes() {
    let mut glass = Glass::new();
    glass.insert(9, 4);
    assert!(glass.update_value(9, |_v| 0));
    assert_eq!(glass.get(9), None);
    assert_eq!(glass.glass_size(), 0);
}

#[test]
fn test_quote_matches_buy() {
    let mut glass = Glass::new();
    glass.insert(10, 500);
    glass.insert(20, 600);
    glass.insert(30, 700);
    let quote = glass.compute_buy_cost(900);
    let paid = glass.buy_shares(900);
    assert_eq!(quote, paid);
    assert_eq!(paid, 10 * 500 + 20 * 400);
    assert_eq!(glass.get(10), None);
    assert_eq!(glass.get(20), Some(200));
    assert_eq!(glass.get(30), Some(700));
}

#[test]
fn test_threshold_after_overflow() {
    let mut glass = Glass::new();
    for i in 0..4106u32 {
        glass.insert(i, 1);
    }
    assert_eq!(glass.glass_size(), 4096);
    assert_eq!(glass.preempt_len(), 10);
    assert_eq!(glass.threshold(), 4096);
    assert_eq!(glass.remove(0), Some(1));
    assert_eq!(glass.glass_size(), 4096);
    assert_eq!(glass.preempt_len(), 9);
    assert_eq!(glass.get(4096), Some(1));
    assert_eq!(glass.threshold(), 4097);
}

#[test]
fn test_cross_tier_max() {
    let mut glass = Glass::new();
    for i in 0..4096u32 {
        glass.insert(i * 2, 1);
    }
    glass.insert(9000, 1);
    assert_eq!(glass.glass_size(), 4096);
    assert_eq!(glass.preempt_len(), 1);
    assert_eq!(glass.get(9000), Some(1));
    assert_eq!(glass.max(), Some((9000, 1)));
    assert_eq!(glass.max_key(), 8190);
}

#[test]
fn test_evict_keeps_smallest_primary() {
    let mut glass = Glass::new();
    for i in 1..=4096u32 {
        glass.insert(i * 10, 1);
    }
    assert_eq!(glass.glass_size(), 4096);
    assert_eq!(glass.preempt_len(), 0);
    glass.insert(5, 42);
    assert_eq!(glass.glass_size(), 4096);
    assert_eq!(glass.preempt_len(), 1);
    assert_eq!(glass.get(5), Some(42));
    assert_eq!(glass.get(40960), Some(1));
    assert_eq!(glass.min(), Some((5, 42)));
    assert_eq!(glass.max(), Some((40960, 1)));
    assert_eq!(glass.threshold(), 40960);
}

#[test]
fn test_rank_across_tiers() {
    let mut glass = Glass::new();
    for i in 0..4100u32 {
        glass.insert(i, 1);
    }
    assert_eq!(glass.remove_by_index(4098), Some((4098, 1)));
    assert_eq!(glass.get(4098), None);
    assert_eq!(glass.get(4099), Some(1));
    assert_eq!(glass.remove_by_index(4099), None);
}

#[test]
fn test_buy_across_tiers() {
    let mut glass = Glass::new();
    for i in 0..4100u32 {
        glass.insert(i, 1);
    }
    let quote = glass.compute_buy_cost(4100);
    let mut expected: u64 = 0;
    for i in 0..4100u64 {
        expected += i;
    }
    assert_eq!(quote, expected);
    let paid = glass.buy_shares(4100);
    assert_eq!(paid, expected);
    assert_eq!(glass.glass_size(), 0);
    assert_eq!(glass.preempt_len(), 0);
}

#[test]
fn test_cost_saturates() {
    let mut glass = Glass::new();
    glass.insert(4000000000, u64::MAX);
    assert_eq!(glass.compute_buy_cost(u64::MAX), u64::MAX);
}

#[test]
fn test_update_value_in_preempt() {
    let mut glass = Glass::new();
    for i in 0..4106u32 {
        glass.insert(i, 1);
    }
    assert!(glass.update_value(4100, |v| v + 5));
    assert_eq!(glass.get(4100), Some(6));
    assert!(glass.update_value(4105, |_v| 0));
    assert_eq!(glass.get(4105), None);
    assert_eq!(glass.preempt_len(), 9);
    assert_eq!(glass.glass_size(), 4096);
}
