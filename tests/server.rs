use statsd::buckets::{Buckets, CounterSample};
use statsd::metric::Decimal;
use statsd::server::{handle_datagram_at, handle_event, Backend, Event, Received};

fn to_f64(d: Decimal) -> f64 {
    d.mantissa as f64 / 10f64.powi(d.scale.clamp(-400, 400) as i32)
}

fn counter_total(samples: &[CounterSample]) -> f64 {
    samples.iter().map(|s| to_f64(s.value) / to_f64(s.rate)).sum()
}

#[derive(Default)]
struct Recorder {
    counters: Vec<(Vec<u8>, f64)>,
    gauges: Vec<(Vec<u8>, f64)>,
    timers: Vec<(Vec<u8>, Vec<f64>)>,
    flushes: usize,
}

impl Backend for Recorder {
    fn received(&self) -> Received {
        Received::new()
    }

    fn flush_buckets(&mut self, buckets: &Buckets) {
        self.flushes += 1;
        for i in 0..buckets.counters.len() {
            let total = counter_total(buckets.counters.values_at(i));
            self.counters.push((buckets.counters.key_at(i).clone(), total));
        }
        for i in 0..buckets.gauges.len() {
            let v = to_f64(buckets.gauges.value_at(i));
            self.gauges.push((buckets.gauges.key_at(i).clone(), v));
        }
        for i in 0..buckets.timers.len() {
            let v = buckets.timers.values_at(i).iter().map(|d| to_f64(*d)).collect();
            self.timers.push((buckets.timers.key_at(i).clone(), v));
        }
    }
}

fn datagram(b: &mut Buckets, sinks: &mut Vec<Recorder>, bytes: &[u8]) {
    let r: Option<()> = handle_event(b, sinks, Event::InboundDatagram(bytes.to_vec()));
    assert!(r.is_none());
}

#[test]
fn end_to_end_flush_reaches_sinks() {
    let mut b = Buckets::new_at(0);
    let mut sinks = vec![Recorder::default(), Recorder::default()];
    datagram(&mut b, &mut sinks, b"foo:5|c");
    datagram(&mut b, &mut sinks, b"foo:5|c");
    datagram(&mut b, &mut sinks, b"bar:2.5|g");
    datagram(&mut b, &mut sinks, b"baz:100|ms");
    datagram(&mut b, &mut sinks, b"baz:200|ms");
    let r: Option<()> = handle_event(&mut b, &mut sinks, Event::FlushTick);
    assert!(r.is_none());
    for s in &sinks {
        assert_eq!(s.flushes, 1);
        assert_eq!(s.counters, vec![(b"foo".to_vec(), 10.0)]);
        assert_eq!(s.gauges, vec![(b"bar".to_vec(), 2.5)]);
        assert_eq!(s.timers, vec![(b"baz".to_vec(), vec![100.0, 200.0])]);
    }
    assert_eq!(b.counters.len(), 0);
    assert_eq!(b.timers.len(), 0);
    assert_eq!(b.total_messages, 5);
}

#[test]
fn stats_after_three_datagrams() {
    let mut b = Buckets::new_at(0);
    let mut sinks: Vec<Recorder> = Vec::new();
    datagram(&mut b, &mut sinks, b"foo:5|c");
    datagram(&mut b, &mut sinks, b"bar:2.5|g");
    datagram(&mut b, &mut sinks, b"baz:100|ms");
    let (r, close) = b.management_line_at(b"stats", 0);
    let text = String::from_utf8(r).unwrap();
    assert!(text.contains("total_messages: 3"));
    assert!(!close);
}

#[test]
fn bad_datagrams_are_counted() {
    let mut b = Buckets::new_at(0);
    assert!(!handle_datagram_at(&mut b, b"garbage", 7));
    assert!(!handle_datagram_at(&mut b, &[0xff, 0xfe, b':', b'1', b'|', b'c'], 7));
    assert!(!handle_datagram_at(&mut b, b"x:1|c|@0", 7));
    assert!(handle_datagram_at(&mut b, b"x:1|c", 9));
    assert_eq!(b.bad_messages, 3);
    assert_eq!(b.total_messages, 4);
    assert_eq!(b.last_message, 9);
    assert_eq!(b.counters.len(), 1);
}

#[test]
fn interleaved_senders_lose_no_counts() {
    let mut b = Buckets::new_at(0);
    let senders: Vec<Vec<String>> = (0..4)
        .map(|s| (0..25).map(|i| format!("k{}:{}|c", s % 2, i % 3 + 1)).collect())
        .collect();
    let mut expected = [0.0f64; 2];
    for i in 0..25 {
        for (s, lines) in senders.iter().enumerate() {
            assert!(handle_datagram_at(&mut b, lines[i].as_bytes(), i as i64));
            expected[s % 2] += (i % 3 + 1) as f64;
        }
    }
    assert_eq!(b.total_messages, 100);
    assert_eq!(counter_total(b.counters.get(b"k0").unwrap()), expected[0]);
    assert_eq!(counter_total(b.counters.get(b"k1").unwrap()), expected[1]);
}

#[test]
fn connection_event_is_handed_back() {
    let mut b = Buckets::new_at(0);
    let mut sinks: Vec<Recorder> = Vec::new();
    let r = handle_event(&mut b, &mut sinks, Event::InboundConnection(17u32));
    assert_eq!(r, Some(17));
    assert_eq!(b.total_messages, 0);
}

#[test]
fn clock_backed_calls_work() {
    let mut b = Buckets::new();
    assert_eq!(b.server_start_time, b.last_message);
    b.add_metric(statsd::metric::parse(b"n:1|h").unwrap());
    assert_eq!(b.total_messages, 1);
    let (r, close) = b.do_management_line(b"quit");
    assert_eq!(r, b"END".to_vec());
    assert!(close);
}
