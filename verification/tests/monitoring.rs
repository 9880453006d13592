use kcm::health::HealthStatus;
use kcm::logging::{format_log_line, get_log_level, level_of_code, set_log_level, should_log, LogLevel};
use kcm::metrics::Metrics;

#[test]
fn test_logging_level() {
    set_log_level(LogLevel::Warn);
    assert_eq!(get_log_level(), LogLevel::Warn);
    set_log_level(LogLevel::Debug);
    assert_eq!(get_log_level(), LogLevel::Debug);
}

#[test]
fn test_metrics_record_query() {
    let mut metrics = Metrics::new();
    metrics.record_query(100, true);
    metrics.record_query(200, true);
    metrics.record_query(50, false);
    let snap = metrics.counters();
    assert_eq!(snap.queries_total, 3);
    assert_eq!(snap.queries_failed, 1);
    let avg_query_latency_ms = snap.query_duration_sum_ms as f64 / snap.queries_total as f64;
    assert!((avg_query_latency_ms - 116.67).abs() < 1.0);
}

#[test]
fn test_metrics_record_insert() {
    let mut metrics = Metrics::new();
    metrics.record_insert(true);
    metrics.record_insert(true);
    metrics.record_insert(false);
    let snap = metrics.counters();
    assert_eq!(snap.inserts_total, 3);
    assert_eq!(snap.inserts_failed, 1);
}

// Own tests.

#[test]
fn filter_codes_read_as_levels() {
    assert_eq!(level_of_code(0), LogLevel::Info);
    assert_eq!(level_of_code(1), LogLevel::Error);
    assert_eq!(level_of_code(2), LogLevel::Warn);
    assert_eq!(level_of_code(3), LogLevel::Info);
    assert_eq!(level_of_code(4), LogLevel::Debug);
    assert_eq!(level_of_code(5), LogLevel::Trace);
    assert_eq!(level_of_code(9), LogLevel::Info);
}

#[test]
fn level_order_and_names() {
    assert!(should_log(LogLevel::Error, LogLevel::Warn));
    assert!(should_log(LogLevel::Warn, LogLevel::Warn));
    assert!(!should_log(LogLevel::Info, LogLevel::Warn));
    assert!(should_log(LogLevel::Trace, LogLevel::Trace));
    assert_eq!(LogLevel::Error.rank(), 0);
    assert_eq!(LogLevel::Trace.rank(), 4);
    assert_eq!(LogLevel::Debug.to_string(), "DEBUG");
}

#[test]
fn formatted_line() {
    assert_eq!(format_log_line(1700000000, LogLevel::Info, "started"), "[1700000000] [INFO] started");
    assert_eq!(format_log_line(0, LogLevel::Error, ""), "[0] [ERROR] ");
}

#[test]
fn metrics_counters() {
    let mut m = Metrics::new();
    m.record_query(100, true);
    m.record_query(200, true);
    m.record_query(50, false);
    m.record_insert(true);
    m.record_insert(false);
    for _ in 0..7 {
        m.record_cache_hit();
    }
    for _ in 0..3 {
        m.record_cache_miss();
    }
    m.record_inference(5);
    m.update_memory_estimate(4096);
    m.update_schema_stats(10, 8, 2);
    let c = m.counters();
    assert_eq!(c.queries_total, 3);
    assert_eq!(c.queries_failed, 1);
    assert_eq!(c.query_duration_sum_ms, 350);
    assert_eq!(c.inserts_total, 2);
    assert_eq!(c.inserts_failed, 1);
    assert_eq!(c.cache_hits, 7);
    assert_eq!(c.cache_misses, 3);
    assert_eq!(c.inferences_total, 1);
    assert_eq!(c.facts_inferred, 5);
    assert_eq!(c.estimated_memory_bytes, 4096);
    assert_eq!((c.total_facts, c.active_facts, c.tombstone_count), (10, 8, 2));
}

#[test]
fn duration_sum_wraps() {
    let mut m = Metrics::new();
    m.record_query(u64::MAX, true);
    m.record_query(2, true);
    assert_eq!(m.counters().query_duration_sum_ms, 1);
}

#[test]
fn health_words() {
    assert_eq!(HealthStatus::Healthy.word(), "healthy");
    assert_eq!(HealthStatus::Degraded.to_json(), "{\"status\":\"degraded\"}");
    assert_eq!(HealthStatus::Unhealthy.word(), "unhealthy");
}
