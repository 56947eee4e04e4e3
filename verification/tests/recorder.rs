use statsd_metrics::recorder::PlainRecorder;

#[test]
fn test_counter() {
    let mut rec = PlainRecorder::new();

    let c0 = rec.register_counter("spam.ham");
    let c1 = rec.register_counter("spam.eggs");
    let c2 = rec.register_counter("spam.ham");
    assert_eq!(c0, c2);
    assert_ne!(c0, c1);

    rec.increment_counter(c0, 1);
    assert_eq!(rec.registry().read_counter(c0), Some(1));
    rec.increment_counter(c0, 2);
    assert_eq!(rec.registry().read_counter(c0), Some(3));
}

#[test]
fn test_register_gauge() {
    let mut rec = PlainRecorder::new();

    let g0 = rec.register_gauge("spam.ham");
    let g1 = rec.register_gauge("spam.eggs");
    let g2 = rec.register_gauge("spam.ham");
    assert_eq!(g0, g2);
    assert_ne!(g0, g1);

    rec.update_gauge(g0, format!("{}", 7.0_f64));
    assert_eq!(rec.registry().read_gauge(g0).unwrap().parse::<f64>().unwrap(), 7.0);
    rec.update_gauge(g0, format!("{}", 3.0_f64));
    assert_eq!(rec.registry().read_gauge(g0).unwrap().parse::<f64>().unwrap(), 3.0);
}
