use statsd::buckets::{Buckets, CounterSample};
use statsd::metric::{parse, Decimal};

fn to_f64(d: Decimal) -> f64 {
    d.mantissa as f64 / 10f64.powi(d.scale.clamp(-400, 400) as i32)
}

fn counter_total(samples: &[CounterSample]) -> f64 {
    samples.iter().map(|s| to_f64(s.value) / to_f64(s.rate)).sum()
}

fn add(b: &mut Buckets, line: &str) {
    b.add_metric_at(parse(line.as_bytes()).unwrap(), 100);
}

fn reply(b: &mut Buckets, line: &str, now: i64) -> (String, bool) {
    let (r, close) = b.management_line_at(line.as_bytes(), now);
    (String::from_utf8(r).unwrap(), close)
}

#[test]
fn new_store_is_empty() {
    let b = Buckets::new_at(42);
    assert_eq!(b.counters.len(), 0);
    assert_eq!(b.gauges.len(), 0);
    assert_eq!(b.timers.len(), 0);
    assert_eq!(b.histograms.len(), 0);
    assert_eq!(b.server_start_time, 42);
    assert_eq!(b.total_messages, 0);
    assert_eq!(b.bad_messages, 0);
}

#[test]
fn counter_samples_sum_in_any_order() {
    let mut a = Buckets::new_at(0);
    add(&mut a, "c:1|c|@0.5");
    add(&mut a, "c:3|c");
    add(&mut a, "other:9|g");
    add(&mut a, "c:2|c|@0.25");
    let mut b = Buckets::new_at(0);
    add(&mut b, "c:2|c|@0.25");
    add(&mut b, "other:9|g");
    add(&mut b, "c:1|c|@0.5");
    add(&mut b, "c:3|c");
    let ta = counter_total(a.counters.get(b"c").unwrap());
    let tb = counter_total(b.counters.get(b"c").unwrap());
    assert_eq!(ta, 13.0);
    assert_eq!(tb, 13.0);
}

#[test]
fn gauge_keeps_last_value() {
    let mut b = Buckets::new_at(0);
    add(&mut b, "g:1|g");
    add(&mut b, "x:5|c");
    add(&mut b, "y:7|g");
    add(&mut b, "g:2|g");
    assert_eq!(b.gauges.get(b"g"), Some(Decimal { mantissa: 2, scale: 0 }));
    assert_eq!(b.gauges.get(b"y"), Some(Decimal { mantissa: 7, scale: 0 }));
}

#[test]
fn timers_and_histograms_keep_arrival_order() {
    let mut b = Buckets::new_at(0);
    add(&mut b, "t:3|ms");
    add(&mut b, "h:9|h");
    add(&mut b, "t:1|ms");
    add(&mut b, "t:2|ms");
    let t: Vec<i64> = b.timers.get(b"t").unwrap().iter().map(|d| d.mantissa).collect();
    assert_eq!(t, vec![3, 1, 2]);
    assert_eq!(b.histograms.get(b"h").unwrap().len(), 1);
    assert!(b.timers.get(b"h").is_none());
    assert_eq!(b.total_messages, 4);
    assert_eq!(b.last_message, 100);
}

#[test]
fn flush_empties_maps_and_keeps_counts() {
    let mut b = Buckets::new_at(0);
    add(&mut b, "a:1|c");
    add(&mut b, "b:1|g");
    add(&mut b, "c:1|ms");
    add(&mut b, "d:1|h");
    b.record_bad();
    b.flush();
    assert_eq!(b.counters.len(), 0);
    assert_eq!(b.gauges.len(), 0);
    assert_eq!(b.timers.len(), 0);
    assert_eq!(b.histograms.len(), 0);
    assert_eq!(b.total_messages, 5);
    assert_eq!(b.bad_messages, 1);
    assert!(b.counters.get(b"a").is_none());
    assert!(b.gauges.get(b"b").is_none());
}

#[test]
fn clear_counters_touches_only_counters() {
    let mut b = Buckets::new_at(0);
    add(&mut b, "a:1|c");
    add(&mut b, "b:1|g");
    add(&mut b, "c:1|ms");
    add(&mut b, "d:1|h");
    assert_eq!(reply(&mut b, "clear counters", 0), ("Counters cleared.".to_string(), false));
    assert_eq!(b.counters.len(), 0);
    assert_eq!(b.gauges.len(), 1);
    assert_eq!(b.timers.len(), 1);
    assert_eq!(b.histograms.len(), 1);
}

#[test]
fn clear_each_other_map() {
    let mut b = Buckets::new_at(0);
    add(&mut b, "b:1|g");
    add(&mut b, "c:1|ms");
    add(&mut b, "d:1|h");
    assert_eq!(reply(&mut b, "clear gauges", 0).0, "Gauges cleared.");
    assert_eq!(b.gauges.len(), 0);
    assert_eq!(reply(&mut b, "clear timers", 0).0, "Timers cleared.");
    assert_eq!(b.timers.len(), 0);
    assert_eq!(b.histograms.len(), 1);
    assert_eq!(reply(&mut b, "  clear   histograms  ", 0).0, "Histograms cleared.");
    assert_eq!(b.histograms.len(), 0);
}

#[test]
fn quit_ends_with_end() {
    let mut b = Buckets::new_at(0);
    assert_eq!(reply(&mut b, "quit", 0), ("END".to_string(), true));
}

#[test]
fn clear_errors() {
    let mut b = Buckets::new_at(0);
    add(&mut b, "a:1|c");
    assert_eq!(reply(&mut b, "clear", 0), ("ERROR: need something to clear!".to_string(), false));
    assert_eq!(
        reply(&mut b, "clear sets", 0),
        ("ERROR: Nothing named 'sets' to clear.".to_string(), false)
    );
    assert_eq!(b.counters.len(), 1);
}

#[test]
fn unknown_command_is_named() {
    let mut b = Buckets::new_at(0);
    assert_eq!(reply(&mut b, "frob x", 0), ("ERROR: Unknown command: frob".to_string(), false));
    assert_eq!(reply(&mut b, "", 0), ("ERROR: Unknown command: ".to_string(), false));
}

#[test]
fn stats_reports_uptime_and_counts() {
    let mut b = Buckets::new_at(1000);
    add(&mut b, "a:1|c");
    add(&mut b, "a:1|c");
    b.record_bad();
    let (text, close) = reply(&mut b, "stats", 1125);
    assert_eq!(text, "uptime: 125 s\nbad_messages: 1\ntotal_messages: 3");
    assert!(!close);
    let (text, _) = reply(&mut b, "stats", 900);
    assert!(text.starts_with("uptime: 0 s\n"));
}
