use resource_control::limiter::{RateLimit, ResourceType, ResourceUsageStats};
use resource_control::registry::ResourceGroupManager;
use resource_control::worker::GroupQuotaAdjustWorker;

fn cpu_stats(cpu_used_cores: f64) -> ResourceUsageStats {
    ResourceUsageStats {
        total_quota: 8_000_000,
        current_used: (cpu_used_cores * 1_000_000.0) as u64,
    }
}

fn io_stats(io_used: f64) -> ResourceUsageStats {
    ResourceUsageStats { total_quota: 10_000, current_used: io_used as u64 }
}

fn check(val: f64, expected: f64) {
    assert!(
        expected * 0.99 < val && val < expected * 1.01,
        "actual: {}, expected: {}",
        val,
        expected
    );
}

fn limit_value(l: RateLimit) -> f64 {
    match l {
        RateLimit::Unlimited => f64::INFINITY,
        RateLimit::Limited(v) => v as f64,
    }
}

fn check_limiter(worker: &GroupQuotaAdjustWorker, name: &str, cpu: f64, io: f64) {
    let l = worker
        .resource_ctl
        .get_resource_limiter(&name.to_string())
        .expect("group participates");
    check(limit_value(l.cpu_limiter.rate_limit), cpu * 1_000_000.0);
    check(limit_value(l.io_limiter.rate_limit), io);
}

fn tick(worker: &mut GroupQuotaAdjustWorker, now_ms: &mut u64, dur_ms: u64, cpu: f64, io: f64) {
    *now_ms += dur_ms;
    worker.adjust_quota(*now_ms, Some(cpu_stats(cpu)), Some(io_stats(io)));
}

#[test]
fn test_adjust_resource_limiter() {
    let mut resource_ctl = ResourceGroupManager::new();
    resource_ctl.add_resource_group("default".to_string(), 2000, true);
    let rg1 = "test".to_string();
    resource_ctl.add_resource_group(rg1.clone(), 1000, false);
    assert!(resource_ctl.get_resource_limiter(&rg1).is_none());

    let limiter = resource_ctl
        .get_resource_limiter(&"default".to_string())
        .expect("default participates");
    assert!(matches!(limiter.cpu_limiter.rate_limit, RateLimit::Unlimited));
    assert!(matches!(limiter.io_limiter.rate_limit, RateLimit::Unlimited));

    let mut worker = GroupQuotaAdjustWorker::new(resource_ctl, 0);
    let mut now_ms: u64 = 0;
    let default = "default".to_string();

    tick(&mut worker, &mut now_ms, 1000, 0.0, 0.0);
    check_limiter(&worker, "default", 7.2, 9000.0);

    tick(&mut worker, &mut now_ms, 1000, 4.0, 2000.0);
    check_limiter(&worker, "default", 3.6, 7200.0);

    worker.resource_ctl.consume(&default, 2_000_000, 2000);
    tick(&mut worker, &mut now_ms, 1000, 6.0, 4000.0);
    check_limiter(&worker, "default", 3.6, 7200.0);

    tick(&mut worker, &mut now_ms, 1000, 8.0, 9500.0);
    check_limiter(&worker, "default", 0.8, 1000.0);

    worker.resource_ctl.consume(&default, 2_000_000, 2000);
    tick(&mut worker, &mut now_ms, 1000, 7.5, 9500.0);
    check_limiter(&worker, "default", 2.25, 2250.0);

    worker.resource_ctl.consume(&default, 10_000_000, 10_000);
    tick(&mut worker, &mut now_ms, 5000, 7.5, 9500.0);
    check_limiter(&worker, "default", 2.25, 2250.0);

    // re-adding the default group keeps its limiter, counters and all
    let before = *worker
        .resource_ctl
        .get_resource_limiter(&default)
        .expect("default participates");
    worker
        .resource_ctl
        .add_resource_group("default".to_string(), 2000, true);
    let after = *worker
        .resource_ctl
        .get_resource_limiter(&default)
        .expect("default still participates");
    assert_eq!(before, after);

    worker
        .resource_ctl
        .add_resource_group("background".to_string(), 1000, true);

    tick(&mut worker, &mut now_ms, 1000, 5.0, 7000.0);
    check_limiter(&worker, "default", 1.8, 1800.0);
    check_limiter(&worker, "background", 0.9, 900.0);

    worker.resource_ctl.consume(&default, 1_200_000, 1200);
    worker
        .resource_ctl
        .consume(&"background".to_string(), 1_800_000, 1800);
    tick(&mut worker, &mut now_ms, 1000, 6.0, 5000.0);
    check_limiter(&worker, "default", 2.4, 3600.0);
    check_limiter(&worker, "background", 2.1, 3600.0);
}

#[test]
fn frozen_clock_second_tick_is_noop() {
    let mut m = ResourceGroupManager::new();
    m.add_resource_group("default".to_string(), 100, true);
    let mut worker = GroupQuotaAdjustWorker::new(m, 0);
    worker.adjust_quota(1000, Some(cpu_stats(0.0)), Some(io_stats(0.0)));
    let first = *worker
        .resource_ctl
        .get_resource_limiter(&"default".to_string())
        .unwrap();
    check(limit_value(first.cpu_limiter.rate_limit), 7_200_000.0);
    // same clock value: gated by the one-second debounce
    worker.adjust_quota(1000, Some(cpu_stats(4.0)), Some(io_stats(4000.0)));
    let second = *worker
        .resource_ctl
        .get_resource_limiter(&"default".to_string())
        .unwrap();
    assert_eq!(first, second);
}

#[test]
fn short_interval_tick_changes_nothing() {
    let mut m = ResourceGroupManager::new();
    m.add_resource_group("default".to_string(), 100, true);
    let mut worker = GroupQuotaAdjustWorker::new(m, 0);
    worker.adjust_quota(999, Some(cpu_stats(0.0)), Some(io_stats(0.0)));
    let l = worker
        .resource_ctl
        .get_resource_limiter(&"default".to_string())
        .unwrap();
    assert!(matches!(l.cpu_limiter.rate_limit, RateLimit::Unlimited));
    assert!(matches!(l.io_limiter.rate_limit, RateLimit::Unlimited));
    assert_eq!(worker.last_adjust_time_ms, 999);
}

#[test]
fn unlimited_quota_uncaps_every_group() {
    let mut m = ResourceGroupManager::new();
    m.add_resource_group("a".to_string(), 10, true);
    m.add_resource_group("b".to_string(), 20, true);
    let mut worker = GroupQuotaAdjustWorker::new(m, 0);
    worker.adjust_quota(1000, Some(cpu_stats(1.0)), Some(io_stats(100.0)));
    // both dimensions bounded: finite limits everywhere
    for name in ["a", "b"] {
        let l = worker
            .resource_ctl
            .get_resource_limiter(&name.to_string())
            .unwrap();
        assert!(matches!(l.cpu_limiter.rate_limit, RateLimit::Limited(_)));
        assert!(matches!(l.io_limiter.rate_limit, RateLimit::Limited(_)));
    }
    // an unbounded dimension uncaps all its sub-limiters
    worker.adjust_quota(
        2000,
        Some(ResourceUsageStats { total_quota: 0, current_used: 0 }),
        Some(io_stats(100.0)),
    );
    for name in ["a", "b"] {
        let l = worker
            .resource_ctl
            .get_resource_limiter(&name.to_string())
            .unwrap();
        assert!(matches!(l.cpu_limiter.rate_limit, RateLimit::Unlimited));
        assert!(matches!(l.io_limiter.rate_limit, RateLimit::Limited(_)));
    }
}

#[test]
fn low_load_hysteresis_freezes_second_tick() {
    let mut m = ResourceGroupManager::new();
    m.add_resource_group("default".to_string(), 100, true);
    let mut worker = GroupQuotaAdjustWorker::new(m, 0);
    // first low-load tick still adjusts and raises the sticky flag
    worker.adjust_quota(1000, Some(cpu_stats(0.5)), Some(io_stats(500.0)));
    let first = *worker
        .resource_ctl
        .get_resource_limiter(&"default".to_string())
        .unwrap();
    assert!(worker.is_last_time_low_load_cpu);
    assert!(worker.is_last_time_low_load_io);
    // write something recognizable, then tick low again: untouched
    worker.adjust_quota(2000, Some(cpu_stats(0.4)), Some(io_stats(400.0)));
    let second = *worker
        .resource_ctl
        .get_resource_limiter(&"default".to_string())
        .unwrap();
    assert_eq!(first.cpu_limiter.rate_limit, second.cpu_limiter.rate_limit);
    assert_eq!(first.io_limiter.rate_limit, second.io_limiter.rate_limit);
    // load rises past 10%: the loop adjusts again
    worker.adjust_quota(3000, Some(cpu_stats(4.0)), Some(io_stats(400.0)));
    let third = *worker
        .resource_ctl
        .get_resource_limiter(&"default".to_string())
        .unwrap();
    assert_ne!(second.cpu_limiter.rate_limit, third.cpu_limiter.rate_limit);
}

#[test]
fn failed_measurement_skips_only_that_dimension() {
    let mut m = ResourceGroupManager::new();
    m.add_resource_group("default".to_string(), 100, true);
    let mut worker = GroupQuotaAdjustWorker::new(m, 0);
    worker.adjust_quota(1000, None, Some(io_stats(0.0)));
    let l = worker
        .resource_ctl
        .get_resource_limiter(&"default".to_string())
        .unwrap();
    assert!(matches!(l.cpu_limiter.rate_limit, RateLimit::Unlimited));
    check(limit_value(l.io_limiter.rate_limit), 9000.0);
}

#[test]
fn surplus_total_never_exceeds_available() {
    // scenario with two groups and zero demand: the split is exactly
    // weight-proportional and sums to the available headroom
    let mut m = ResourceGroupManager::new();
    m.add_resource_group("a".to_string(), 300, true);
    m.add_resource_group("b".to_string(), 100, true);
    let mut worker = GroupQuotaAdjustWorker::new(m, 0);
    worker.adjust_quota(1000, Some(cpu_stats(4.0)), Some(io_stats(5000.0)));
    let la = worker
        .resource_ctl
        .get_resource_limiter(&"a".to_string())
        .unwrap();
    let a_cpu = limit_value(la.cpu_limiter.rate_limit);
    let a_io = limit_value(la.io_limiter.rate_limit);
    let lb = worker
        .resource_ctl
        .get_resource_limiter(&"b".to_string())
        .unwrap();
    let b_cpu = limit_value(lb.cpu_limiter.rate_limit);
    let b_io = limit_value(lb.io_limiter.rate_limit);
    // available cpu: 0.9 * (8 - 4) cores; io: 0.9 * (10000 - 5000)
    check(a_cpu + b_cpu, 3_600_000.0);
    check(a_io + b_io, 4500.0);
    check(a_cpu, 2_700_000.0);
    check(b_cpu, 900_000.0);
    assert!(a_cpu + b_cpu <= 3_600_000.0 + 1.0);
    assert!(a_io + b_io <= 4500.0 + 1.0);
}

#[test]
fn resource_type_names() {
    assert_eq!(ResourceType::Cpu.name(), "cpu");
    assert_eq!(ResourceType::Io.name(), "io");
}
