use lv::jobs::{format_tag, generator_text, idle_ms, throttle_ms, worker_count, worker_runs, JobStats, Layer};

#[test]
fn layer_names() {
    assert_eq!(Layer::Hash.name(), "hash");
    assert_eq!(Layer::Exif.name(), "exif");
}

#[test]
fn stats_rate_calculation() {
    let now: u64 = 10_000;
    let mut stats = JobStats::new(now);
    stats.done = 100;
    // Force the snapshot to 0 so that the delta is 100
    stats.rate_snapshot = 0;
    // The last sample was one second ago
    stats.rate_time_ms = now - 1000;
    stats.update_rate(now);
    // 100 jobs in 1 second = 6000/min, x10 = 60000
    let rpm = stats.jobs_per_min;
    assert!(rpm > 0, "should compute positive rate");
    assert_eq!(rpm, 60000);
}

#[test]
fn stats_last_error() {
    let mut stats = JobStats::new(0);
    assert!(stats.last_error().is_empty());
    stats.record_fail("test error");
    assert_eq!(stats.last_error(), "test error");
    stats.record_fail("newer error");
    assert_eq!(stats.last_error(), "newer error");
}

#[test]
fn last_error_truncated_to_120_chars() {
    let mut stats = JobStats::new(0);
    let long: String = std::iter::repeat('é').take(200).collect();
    stats.record_fail(&long);
    assert_eq!(stats.last_error().chars().count(), 120);
    assert_eq!(stats.failed, 1);
}

#[test]
fn rate_not_sampled_within_half_second() {
    let mut stats = JobStats::new(1000);
    stats.done = 50;
    stats.update_rate(1400);
    assert_eq!(stats.jobs_per_min, 0);
    assert_eq!(stats.rate_snapshot, 50);
    assert_eq!(stats.rate_time_ms, 1000);
}

#[test]
fn throttle_factors() {
    assert_eq!(throttle_ms(1000, true), 250);
    assert_eq!(throttle_ms(1000, false), 2300);
    assert_eq!(throttle_ms(10_000, false), 5000);
    assert_eq!(idle_ms(true), 3000);
    assert_eq!(idle_ms(false), 10000);
}

#[test]
fn worker_pool_size() {
    assert_eq!(worker_count(1), 1);
    assert_eq!(worker_count(4), 2);
    assert_eq!(worker_count(16), 4);
    assert!(worker_runs(0, false));
    assert!(!worker_runs(1, false));
    assert!(worker_runs(1, true));
}

#[test]
fn format_tags() {
    assert_eq!(format_tag("jpeg"), "JPEG");
    assert_eq!(format_tag("tif"), "TIFF");
    assert_eq!(format_tag("webp"), "WebP");
    assert_eq!(format_tag("heic"), "Unknown");
}

#[test]
fn generator_text_forms() {
    assert_eq!(generator_text("a cat", ""), Some("a cat".to_string()));
    assert_eq!(generator_text("", "sdxl"), Some("model: sdxl".to_string()));
    assert_eq!(generator_text("a cat", "sdxl"), Some("a cat\n\nmodel: sdxl".to_string()));
    assert_eq!(generator_text("", ""), None);
}
