use statsd_metrics::recorder::PlainRecorder;
use statsd_metrics::registry::{MetricKind, Registry};
use statsd_metrics::statsd::encode;

#[test]
fn same_name_different_kind_gets_a_distinct_identifier() {
    let mut rec = PlainRecorder::new();
    let c = rec.register_counter("requests");
    let g = rec.register_gauge("requests");
    assert_ne!(c, g);
    assert_eq!(rec.register_counter("requests"), c);
    assert_eq!(rec.register_gauge("requests"), g);
}

#[test]
fn repeated_registration_creates_one_entry() {
    let mut registry = Registry::new();
    let first = registry.get_or_create(MetricKind::Counter, "hits".to_string());
    for _ in 0..10 {
        let again = registry.get_or_create(MetricKind::Counter, "hits".to_string());
        assert_eq!(again, first);
    }
    assert_eq!(registry.len(), 1);
}

#[test]
fn counter_reads_the_sum_of_its_increments() {
    let mut rec = PlainRecorder::new();
    let c = rec.register_counter("work");
    let deltas: [u64; 5] = [1, 10, 100, 1000, 10000];
    for d in deltas {
        rec.increment_counter(c, d);
    }
    assert_eq!(rec.registry().read_counter(c), Some(11111));
}

#[test]
fn counter_wraps_on_overflow() {
    let mut rec = PlainRecorder::new();
    let c = rec.register_counter("wrap");
    rec.increment_counter(c, u64::MAX);
    rec.increment_counter(c, 3);
    assert_eq!(rec.registry().read_counter(c), Some(2));
}

#[test]
fn gauge_keeps_only_the_last_write() {
    let mut rec = PlainRecorder::new();
    let g = rec.register_gauge("temperature");
    rec.update_gauge(g, format!("{}", 1.5_f64));
    rec.update_gauge(g, format!("{}", -2.25_f64));
    rec.update_gauge(g, format!("{}", 98.6_f64));
    assert_eq!(rec.registry().read_gauge(g), Some("98.6".to_string()));
}

#[test]
fn a_foreign_identifier_is_reported_not_found() {
    let mut other = PlainRecorder::new();
    let _ = other.register_counter("first");
    let foreign = other.register_counter("second");

    let mut rec = PlainRecorder::new();
    let own = rec.register_counter("only");
    rec.increment_counter(own, 4);
    let before = encode(rec.registry());

    assert_eq!(rec.registry().read_counter(foreign), None);
    assert_eq!(rec.registry().read_gauge(foreign), None);
    assert_eq!(rec.registry().read_histogram(foreign), None);
    rec.increment_counter(foreign, 7);
    rec.update_gauge(foreign, "1".to_string());
    rec.record_histogram(foreign, 7);
    assert_eq!(encode(rec.registry()), before);
}

#[test]
fn a_kind_mismatched_identifier_is_reported_not_found() {
    let mut registry = Registry::new();
    let c = registry.get_or_create(MetricKind::Counter, "mixed".to_string());
    assert_eq!(registry.read_gauge(c), None);
    assert_eq!(registry.read_histogram(c), None);
    assert!(!registry.update_gauge(c, "5".to_string()));
    assert!(!registry.record_histogram(c, 5));
    assert!(registry.increment_counter(c, 5));
    assert_eq!(registry.read_counter(c), Some(5));
}

#[test]
fn snapshot_lists_every_entry_with_its_value() {
    let mut rec = PlainRecorder::new();
    let c = rec.register_counter("spam");
    let g = rec.register_gauge("eggs");
    let h = rec.register_histogram("sizes");
    rec.increment_counter(c, 12);
    rec.update_gauge(g, format!("{}", 2.5_f64));
    rec.record_histogram(h, 8);

    let snap = rec.registry().snapshot();
    assert_eq!(snap.len(), 3);
    assert_eq!(snap[0].kind, MetricKind::Counter);
    assert_eq!(snap[0].name, "spam");
    assert_eq!(snap[1].kind, MetricKind::Gauge);
    assert_eq!(snap[1].name, "eggs");
    assert_eq!(snap[2].kind, MetricKind::Histogram);
    assert_eq!(snap[2].name, "sizes");
    assert_eq!(rec.registry().read_counter(c), Some(12));
    assert_eq!(rec.registry().read_gauge(g), Some("2.5".to_string()));
    assert_eq!(rec.registry().read_histogram(h), Some(vec![8]));
}

#[test]
fn a_fresh_gauge_reads_zero_text() {
    let mut registry = Registry::new();
    let g = registry.get_or_create(MetricKind::Gauge, "fresh".to_string());
    assert_eq!(registry.read_gauge(g), Some("0".to_string()));
}

#[test]
fn handle_operations_respect_their_kind() {
    let mut h = statsd_metrics::registry::Handle::counter();
    assert_eq!(h.read_counter(), Some(0));
    assert!(h.increment_counter(41));
    assert!(h.increment_counter(1));
    assert_eq!(h.read_counter(), Some(42));
    assert!(!h.update_gauge("9".to_string()));
    assert!(!h.record_histogram(9));
    assert_eq!(h.read_gauge(), None);
    assert_eq!(h.read_histogram(), None);

    let mut g = statsd_metrics::registry::Handle::gauge();
    assert_eq!(g.read_gauge(), Some("0".to_string()));
    assert!(g.update_gauge("7.5".to_string()));
    assert_eq!(g.read_gauge(), Some("7.5".to_string()));
    assert!(!g.increment_counter(1));

    let mut hist = statsd_metrics::registry::Handle::histogram();
    assert_eq!(hist.read_histogram(), Some(Vec::new()));
    assert!(hist.record_histogram(3));
    assert!(hist.record_histogram(1));
    assert_eq!(hist.read_histogram(), Some(vec![3, 1]));
}
