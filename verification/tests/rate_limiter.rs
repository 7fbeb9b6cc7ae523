//! Tests of the bandwidth ceiling.

use galaxdb_storage::rate_limiter::{LatencyReport, RateLimiter};

/// A limiter with the fractions that its rates follow.
struct TestLimiter {
    limiter: RateLimiter,
    calibration: f64,
    reduction: f64,
}

impl TestLimiter {
    fn with_fractions(bandwidth: u64, calibration: f64, reduction: f64) -> Self {
        let rate = (bandwidth as f64 * calibration) as u64;
        TestLimiter { limiter: RateLimiter::new(rate), calibration, reduction }
    }

    fn calibrate(&mut self, bandwidth: u64) {
        self.limiter.calibrate((bandwidth as f64 * self.calibration) as u64);
    }

    fn adjust_from_latency(&mut self, report: &LatencyReport) -> Option<u64> {
        let reduction = (self.limiter.max_rate() as f64 * self.reduction) as u64;
        self.limiter.adjust_from_latency(report, reduction)
    }

    fn max_rate(&self) -> u64 {
        self.limiter.max_rate()
    }

    fn current_ceiling(&self) -> u64 {
        self.limiter.current_ceiling()
    }

    fn is_throttled(&self) -> bool {
        self.limiter.is_throttled()
    }
}

/// A limiter for a known bandwidth.
fn test_limiter(bandwidth: u64) -> TestLimiter {
    TestLimiter::with_fractions(bandwidth, 0.70, 0.30)
}

/// A report that triggers throttling.
fn throttle_report() -> LatencyReport {
    LatencyReport {
        hp_p99_us: 300,
        bk_p99_us: 500,
        hp_idle_baseline_us: 100,
        consecutive_exceeded: 3,
        should_throttle: true,
    }
}

/// A report that indicates normal latency.
fn normal_report() -> LatencyReport {
    LatencyReport {
        hp_p99_us: 100,
        bk_p99_us: 200,
        hp_idle_baseline_us: 100,
        consecutive_exceeded: 0,
        should_throttle: false,
    }
}

// Calibration tests

#[test]
fn new_limiter_uses_default_calibration() {
    let limiter = test_limiter(1_000_000_000); // 1 GB/s
    // 70% of 1 GB/s = 700 MB/s
    assert_eq!(limiter.max_rate(), 700_000_000);
    assert_eq!(limiter.current_ceiling(), 700_000_000);
    assert!(!limiter.is_throttled());
}

#[test]
fn calibrate_sets_rate_to_70_percent_of_measured() {
    let mut limiter = test_limiter(1_000_000_000);
    // Re-calibrate with a different measured bandwidth
    limiter.calibrate(2_000_000_000); // 2 GB/s
    // 70% of 2 GB/s = 1.4 GB/s
    assert_eq!(limiter.max_rate(), 1_400_000_000);
    assert_eq!(limiter.current_ceiling(), 1_400_000_000);
    assert!(!limiter.is_throttled());
}

#[test]
fn calibrate_resets_throttled_state() {
    let mut limiter = test_limiter(1_000_000_000);
    // Throttle first
    limiter.adjust_from_latency(&throttle_report());
    assert!(limiter.is_throttled());

    // Calibrate should reset throttled state
    limiter.calibrate(1_000_000_000);
    assert!(!limiter.is_throttled());
    assert_eq!(limiter.current_ceiling(), 700_000_000);
}

#[test]
fn calibrate_with_zero_bandwidth() {
    let limiter = test_limiter(0);
    assert_eq!(limiter.max_rate(), 0);
    assert_eq!(limiter.current_ceiling(), 0);
}

// Dynamic ceiling adjustment tests

#[test]
fn adjust_from_latency_lowers_ceiling_on_throttle() {
    let mut limiter = test_limiter(1_000_000_000);
    // max_rate = 700_000_000
    limiter.adjust_from_latency(&throttle_report());

    assert!(limiter.is_throttled());
    // Ceiling should be 70% of max_rate = 700_000_000 * 0.70 = 490_000_000
    let expected = 700_000_000 - (700_000_000.0 * 0.30) as u64;
    assert_eq!(limiter.current_ceiling(), expected);
}

#[test]
fn adjust_from_latency_does_not_double_throttle() {
    let mut limiter = test_limiter(1_000_000_000);
    limiter.adjust_from_latency(&throttle_report());
    let ceiling_after_first = limiter.current_ceiling();

    // Second throttle should not reduce further
    limiter.adjust_from_latency(&throttle_report());
    assert_eq!(limiter.current_ceiling(), ceiling_after_first);
}

#[test]
fn adjust_from_latency_restores_ceiling_on_normal() {
    let mut limiter = test_limiter(1_000_000_000);
    // Throttle
    limiter.adjust_from_latency(&throttle_report());
    assert!(limiter.is_throttled());
    let throttled_ceiling = limiter.current_ceiling();
    assert!(throttled_ceiling < 700_000_000);

    // Restore
    limiter.adjust_from_latency(&normal_report());
    assert!(!limiter.is_throttled());
    assert_eq!(limiter.current_ceiling(), 700_000_000);
}

#[test]
fn adjust_from_latency_noop_when_already_normal() {
    let mut limiter = test_limiter(1_000_000_000);
    // Not throttled, normal report should be a no-op
    limiter.adjust_from_latency(&normal_report());
    assert!(!limiter.is_throttled());
    assert_eq!(limiter.current_ceiling(), 700_000_000);
}

#[test]
fn throttle_restore_cycle() {
    let mut limiter = test_limiter(1_000_000_000);

    // Cycle 1: throttle to restore
    limiter.adjust_from_latency(&throttle_report());
    assert!(limiter.is_throttled());
    limiter.adjust_from_latency(&normal_report());
    assert!(!limiter.is_throttled());
    assert_eq!(limiter.current_ceiling(), 700_000_000);

    // Cycle 2: throttle to restore again
    limiter.adjust_from_latency(&throttle_report());
    assert!(limiter.is_throttled());
    let expected = 700_000_000 - (700_000_000.0 * 0.30) as u64;
    assert_eq!(limiter.current_ceiling(), expected);
    limiter.adjust_from_latency(&normal_report());
    assert!(!limiter.is_throttled());
    assert_eq!(limiter.current_ceiling(), 700_000_000);
}

#[test]
fn report_with_consecutive_below_3_does_not_throttle() {
    let mut limiter = test_limiter(1_000_000_000);
    let report = LatencyReport {
        hp_p99_us: 300,
        bk_p99_us: 500,
        hp_idle_baseline_us: 100,
        consecutive_exceeded: 2,
        should_throttle: false, // Only 2 consecutive, not 3
    };
    limiter.adjust_from_latency(&report);
    assert!(!limiter.is_throttled());
    assert_eq!(limiter.current_ceiling(), 700_000_000);
}

// Other fractions

#[test]
fn custom_config_fractions() {
    let mut limiter = TestLimiter::with_fractions(500_000_000, 0.50, 0.20);
    // 50% of 500 MB/s = 250 MB/s
    assert_eq!(limiter.max_rate(), 250_000_000);

    // Throttle: reduce by 20%
    limiter.adjust_from_latency(&throttle_report());
    let expected = 250_000_000 - (250_000_000.0 * 0.20) as u64;
    assert_eq!(limiter.current_ceiling(), expected);
}

#[test]
fn a_change_of_the_ceiling_is_reported_once() {
    let mut limiter = test_limiter(1_000_000_000);
    assert_eq!(limiter.adjust_from_latency(&normal_report()), None);
    assert_eq!(limiter.adjust_from_latency(&throttle_report()), Some(490_000_000));
    assert_eq!(limiter.adjust_from_latency(&throttle_report()), None);
    assert_eq!(limiter.adjust_from_latency(&normal_report()), Some(700_000_000));
}

#[test]
fn a_ceiling_does_not_fall_below_nothing() {
    let mut limiter = RateLimiter::new(10);
    assert_eq!(limiter.adjust_from_latency(&throttle_report(), 11), Some(0));
    assert_eq!(limiter.current_ceiling(), 0);
    assert_eq!(limiter.max_rate(), 10);
}
