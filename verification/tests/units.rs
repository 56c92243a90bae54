use resource_control::arith::{available_quota, mul_div, sat_add, sat_sub};
use resource_control::io_stats::{IoBytes, IoRateTracker};
use resource_control::limiter::{
    GroupStatistics, QuotaLimiter, RateLimit, ResourceLimiter, ResourceType,
};
use resource_control::registry::ResourceGroupManager;
use resource_control::worker::{sort_groups, GroupStats};

#[test]
fn mul_div_rounds_down_and_saturates() {
    assert_eq!(mul_div(7, 3, 2), 10);
    assert_eq!(mul_div(0, 1000, 7), 0);
    assert_eq!(mul_div(u64::MAX, u64::MAX, 1), u64::MAX);
    assert_eq!(mul_div(1_000_000, 1000, 1000), 1_000_000);
}

#[test]
fn saturating_helpers() {
    assert_eq!(sat_add(u64::MAX, 1), u64::MAX);
    assert_eq!(sat_add(2, 3), 5);
    assert_eq!(sat_sub(2, 3), 0);
    assert_eq!(sat_sub(3, 2), 1);
}

#[test]
fn available_quota_formula() {
    // 0.9 * (total - used + consumed), floored at 0.1 * total
    assert_eq!(available_quota(8_000_000, 0, 0), 7_200_000);
    assert_eq!(available_quota(8_000_000, 8_000_000, 0), 800_000);
    assert_eq!(available_quota(10_000, 9_500, 0), 1_000);
    assert_eq!(available_quota(10_000, 9_500, 2_000), 2_250);
    // foreground overshoot beyond the cap still leaves the 10% floor
    assert_eq!(available_quota(10_000, 50_000, 0), 1_000);
}

#[test]
fn consume_prices_wait_at_the_current_limit() {
    let mut q = QuotaLimiter::new();
    q.consume(500);
    let s = q.get_statistics();
    assert_eq!(s.total_consumed, 500);
    assert_eq!(s.total_wait_dur_us, 0);
    q.set_rate_limit(RateLimit::Limited(1_800_000));
    q.consume(1_200_000);
    let s = q.get_statistics();
    assert_eq!(s.total_consumed, 1_200_500);
    // 1.2e6 units at 1.8e6 units/s stall for two thirds of a second
    assert_eq!(s.total_wait_dur_us, 666_666);
    q.set_rate_limit(RateLimit::Limited(0));
    q.consume(1);
    assert_eq!(q.get_statistics().total_wait_dur_us, u64::MAX);
}

#[test]
fn statistics_delta_clamps_resets() {
    let cur = GroupStatistics { total_consumed: 50, total_wait_dur_us: 10 };
    let prev = GroupStatistics { total_consumed: 80, total_wait_dur_us: 4 };
    let d = cur.saturating_delta(&prev);
    assert_eq!(d.total_consumed, 0);
    assert_eq!(d.total_wait_dur_us, 6);
    let rate = GroupStatistics { total_consumed: 10_000, total_wait_dur_us: 500 }.per_second(5000);
    assert_eq!(rate.total_consumed, 2000);
    assert_eq!(rate.total_wait_dur_us, 100);
}

#[test]
fn sub_limiters_are_independent() {
    let mut l = ResourceLimiter::new();
    l.set_rate_limit(ResourceType::Cpu, RateLimit::Limited(7));
    assert_eq!(l.get_rate_limit(ResourceType::Cpu), RateLimit::Limited(7));
    assert_eq!(l.get_rate_limit(ResourceType::Io), RateLimit::Unlimited);
    l.consume(30, 40);
    assert_eq!(l.get_statistics(ResourceType::Cpu).total_consumed, 30);
    assert_eq!(l.get_statistics(ResourceType::Io).total_consumed, 40);
}

#[test]
fn registry_add_replace_and_lookup() {
    let mut m = ResourceGroupManager::new();
    m.add_resource_group("a".to_string(), 5, false);
    assert!(m.get_resource_limiter(&"a".to_string()).is_none());
    assert!(m.get_resource_limiter(&"missing".to_string()).is_none());
    m.add_resource_group("a".to_string(), 5, true);
    assert!(m.get_resource_limiter(&"a".to_string()).is_some());
    assert!(m.consume(&"a".to_string(), 10, 20));
    assert!(!m.consume(&"missing".to_string(), 10, 20));
    // a group configured out of the background set loses its limiter
    m.add_resource_group("a".to_string(), 7, false);
    assert!(m.get_resource_limiter(&"a".to_string()).is_none());
    assert_eq!(m.groups.len(), 1);
    assert_eq!(m.groups[0].ru_quota, 7);
}

#[test]
fn sort_orders_by_per_unit_ask_with_position_ties() {
    let zero = GroupStatistics { total_consumed: 0, total_wait_dur_us: 0 };
    let a = GroupStats { idx: 0, ru_quota: 2, stats: zero, expected_cost: 6 };  // 3 per unit
    let b = GroupStats { idx: 1, ru_quota: 4, stats: zero, expected_cost: 4 };  // 1 per unit
    let c = GroupStats { idx: 2, ru_quota: 1, stats: zero, expected_cost: 3 };  // 3 per unit
    let sorted = sort_groups(&vec![a, b, c]);
    assert_eq!(sorted[0].idx, 1);
    // equal per-unit asks keep registry order
    assert_eq!(sorted[1].idx, 0);
    assert_eq!(sorted[2].idx, 2);
}

#[test]
fn io_tracker_enforces_minimum_interval() {
    let start = vec![IoBytes { read: 0, write: 0 }, IoBytes { read: 100, write: 0 }];
    let mut tr = IoRateTracker::new(start, 0);
    // too soon: no usage reported, baseline kept
    let cur = vec![IoBytes { read: 500, write: 500 }, IoBytes { read: 100, write: 0 }];
    assert_eq!(tr.observe(99, &cur), 0);
    // after the interval: clamped growth divided by elapsed time
    let cur = vec![IoBytes { read: 600, write: 400 }, IoBytes { read: 50, write: 300 }];
    // deltas: (600 + 400) + (0 + 300) = 1300 bytes over 2 s
    assert_eq!(tr.observe(2000, &cur), 650);
    // baseline advanced
    let cur2 = vec![IoBytes { read: 700, write: 400 }, IoBytes { read: 50, write: 300 }];
    assert_eq!(tr.observe(3000, &cur2), 100);
}
