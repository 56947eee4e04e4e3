use statsd_metrics::recorder::PlainRecorder;
use statsd_metrics::statsd::{chunk_payload, encode, export_datagrams, remaining_after};

#[test]
fn test_export_counter() {
    let mut rec = PlainRecorder::new();

    let c0 = rec.register_counter("spam");
    let out = encode(rec.registry());
    assert_eq!(out, b"spam:0|c\n".to_vec());

    rec.increment_counter(c0, 1);
    let out = encode(rec.registry());
    assert_eq!(out, b"spam:1|c\n".to_vec());
}

#[test]
fn test_export_gauge() {
    let mut rec = PlainRecorder::new();

    let g0 = rec.register_gauge("spam");
    let out = encode(rec.registry());
    assert_eq!(out, b"spam:0|g\n".to_vec());

    rec.update_gauge(g0, format!("{}", 42.0_f64));
    let out = encode(rec.registry());
    assert_eq!(out, b"spam:42|g\n".to_vec());

    rec.update_gauge(g0, format!("{}", 3.3_f64));
    let out = encode(rec.registry());
    assert_eq!(out, b"spam:3.3|g\n".to_vec());
}

#[test]
fn test_send() {
    let mut rec = PlainRecorder::new();

    let c0 = rec.register_counter("spam");
    let c1 = rec.register_counter("ham");
    let g0 = rec.register_gauge("eggs");
    rec.increment_counter(c0, 3);
    rec.increment_counter(c1, 7);
    rec.update_gauge(g0, format!("{}", 11.0_f64));

    let datagrams = export_datagrams(rec.registry(), 512);
    let mut received: Vec<u8> = Vec::new();
    for chunk in &datagrams {
        received.extend_from_slice(chunk.as_slice());
    }
    let data = std::str::from_utf8(received.as_slice()).unwrap();
    let mut lines: Vec<String> = data.lines().map(String::from).collect();
    lines.sort();
    let expected = ["eggs:11|g", "ham:7|c", "spam:3|c"];
    assert_eq!(lines, expected);
}

#[test]
fn empty_registry_encodes_to_nothing() {
    let rec = PlainRecorder::new();
    assert_eq!(encode(rec.registry()), Vec::<u8>::new());
    assert_eq!(export_datagrams(rec.registry(), 512).len(), 0);
}

#[test]
fn histograms_are_not_exported() {
    let mut rec = PlainRecorder::new();
    let h0 = rec.register_histogram("latency");
    let c0 = rec.register_counter("requests");
    rec.record_histogram(h0, 5);
    rec.record_histogram(h0, 9);
    rec.increment_counter(c0, 2);
    assert_eq!(encode(rec.registry()), b"requests:2|c\n".to_vec());
    assert_eq!(rec.registry().read_histogram(h0), Some(vec![5, 9]));
}

#[test]
fn chunks_break_only_at_line_boundaries() {
    let mut rec = PlainRecorder::new();
    for i in 0..40 {
        let id = rec.register_counter(&format!("metric.number.{}", i));
        rec.increment_counter(id, 1_000_000 + i);
    }
    let payload = encode(rec.registry());
    assert!(payload.len() > 64);

    let chunks = export_datagrams(rec.registry(), 64);
    assert!(chunks.len() > 1);
    let mut rejoined: Vec<u8> = Vec::new();
    for chunk in &chunks {
        assert!(!chunk.is_empty());
        assert_eq!(*chunk.last().unwrap(), b'\n');
        assert!(chunk.len() <= 64);
        rejoined.extend_from_slice(chunk.as_slice());
    }
    assert_eq!(rejoined, payload);
    for pair in chunks.windows(2) {
        assert!(pair[0].len() + pair[1].len() > 64);
    }
}

#[test]
fn an_oversized_line_is_sent_whole() {
    let mut rec = PlainRecorder::new();
    let long_name = "x".repeat(100);
    let id = rec.register_counter(&long_name);
    rec.increment_counter(id, 1);
    let short = rec.register_counter("s");
    rec.increment_counter(short, 2);

    let chunks = export_datagrams(rec.registry(), 64);
    let payload = encode(rec.registry());
    let mut rejoined: Vec<u8> = Vec::new();
    for chunk in &chunks {
        assert_eq!(*chunk.last().unwrap(), b'\n');
        let inner_newlines = chunk[..chunk.len() - 1].iter().filter(|&&b| b == b'\n').count();
        if chunk.len() > 64 {
            assert_eq!(inner_newlines, 0);
        }
        rejoined.extend_from_slice(chunk.as_slice());
    }
    assert_eq!(rejoined, payload);
}

#[test]
fn chunking_keeps_every_byte_in_order() {
    let payload = b"aa:1|c\nbb:2|c\ncc:3|c\n".to_vec();
    let chunks = chunk_payload(&payload, 10);
    let mut rejoined: Vec<u8> = Vec::new();
    for chunk in &chunks {
        assert_eq!(*chunk.last().unwrap(), b'\n');
        rejoined.extend_from_slice(chunk.as_slice());
    }
    assert_eq!(rejoined, payload);
    assert_eq!(chunks.len(), 3);
}

#[test]
fn remaining_after_short_write_is_the_suffix() {
    let chunk = b"spam:3|c\nham:7|c\n".to_vec();
    let rest = remaining_after(&chunk, 9);
    assert_eq!(rest, b"ham:7|c\n".to_vec());
    let all_sent = remaining_after(&chunk, chunk.len());
    assert!(all_sent.is_empty());
    let none_sent = remaining_after(&chunk, 0);
    assert_eq!(none_sent, chunk);
}

#[test]
fn non_ascii_names_encode_as_utf8() {
    let mut rec = PlainRecorder::new();
    let c = rec.register_counter("caf\u{e9}.hits");
    rec.increment_counter(c, 2);
    assert_eq!(encode(rec.registry()), "caf\u{e9}.hits:2|c\n".as_bytes().to_vec());
}

#[test]
fn negative_gauge_values_encode_with_their_sign() {
    let mut rec = PlainRecorder::new();
    let g = rec.register_gauge("depth");
    rec.update_gauge(g, format!("{}", -2.25_f64));
    assert_eq!(encode(rec.registry()), b"depth:-2.25|g\n".to_vec());
}
