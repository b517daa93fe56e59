use vstd::prelude::*;

use crate::bucket::{appended, SeqBucket, ValueBucket};
use crate::clock::now_seconds;
use crate::bucket::bytes_eq;
use crate::metric::{Decimal, Metric, MetricKind, MetricView};
use crate::text::{dec_text, first_word, next_word, push_all, second_word, text, u64_text};
use vstd::string::StringSliceAdditionalSpecFns;

verus! {

/// One counter sample: the value seen and the rate it was sampled at. The
/// counter's total is the sum of `value / rate` over its samples.
#[derive(Clone, Copy, Debug, PartialEq, Eq, Structural)]
pub struct CounterSample {
    pub value: Decimal,
    pub rate: Decimal,
}

/// `n + 1`, held at the largest `u64`.
pub open spec fn inc(n: u64) -> u64 {
    if n < u64::MAX {
        (n + 1) as u64
    } else {
        n
    }
}

fn inc_exec(n: u64) -> (r: u64)
    ensures
        r == inc(n),
{
    if n < u64::MAX {
        n + 1
    } else {
        n
    }
}

/// The map that a `clear` command names.
#[derive(Clone, Copy, Debug, PartialEq, Eq, Structural)]
pub enum Target {
    Counters,
    Gauges,
    Histograms,
    Timers,
}

/// The bytes of a string.
pub open spec fn lit(s: &str) -> Seq<u8> {
    s.spec_bytes()
}

/// The map that an administrative line clears, if it clears one.
pub open spec fn clear_target(line: Seq<u8>) -> Option<Target> {
    let w = second_word(line);
    if first_word(line) != lit("clear") {
        None
    } else if w == lit("counters") {
        Some(Target::Counters)
    } else if w == lit("gauges") {
        Some(Target::Gauges)
    } else if w == lit("histograms") {
        Some(Target::Histograms)
    } else if w == lit("timers") {
        Some(Target::Timers)
    } else {
        None
    }
}

/// Whole seconds from `start` to `now`; 0 if the clock went back.
pub open spec fn uptime(start: i64, now: i64) -> nat {
    if now > start {
        (now - start) as nat
    } else {
        0
    }
}

/// The report that `stats` gives.
pub open spec fn stats_text(up: nat, bad: nat, total: nat) -> Seq<u8> {
    lit("uptime: ") + dec_text(up) + lit(" s\nbad_messages: ") + dec_text(bad) + lit(
        "\ntotal_messages: ",
    ) + dec_text(total)
}

/// The response to an administrative line, and whether the connection is to
/// be closed after it: `stats` reports; `clear <map>` confirms; `quit` ends.
pub open spec fn management_reply(line: Seq<u8>, up: nat, bad: nat, total: nat) -> (Seq<u8>, bool) {
    let w1 = first_word(line);
    let w2 = second_word(line);
    if w1 == lit("stats") {
        (stats_text(up, bad, total), false)
    } else if w1 == lit("clear") {
        if w2 == lit("counters") {
            (lit("Counters cleared."), false)
        } else if w2 == lit("gauges") {
            (lit("Gauges cleared."), false)
        } else if w2 == lit("histograms") {
            (lit("Histograms cleared."), false)
        } else if w2 == lit("timers") {
            (lit("Timers cleared."), false)
        } else if w2.len() == 0 {
            (lit("ERROR: need something to clear!"), false)
        } else {
            (lit("ERROR: Nothing named '") + w2 + lit("' to clear."), false)
        }
    } else if w1 == lit("quit") {
        (lit("END"), true)
    } else {
        (lit("ERROR: Unknown command: ") + w1, false)
    }
}

/// The words `stats` and `clear` differ.
pub(crate) proof fn lemma_stats_is_not_clear()
    ensures
        lit("stats") != lit("clear"),
{
    broadcast use vstd::string::is_ascii_spec_bytes;

    reveal_strlit("stats");
    reveal_strlit("clear");
    assert(vstd::string::is_ascii("stats"));
    assert(vstd::string::is_ascii("clear"));
    assert(lit("stats")[0] != lit("clear")[0]);
}

fn uptime_exec(start: i64, now: i64) -> (r: u64)
    ensures
        r == uptime(start, now),
{
    if now > start {
        ((now as i128) - (start as i128)) as u64
    } else {
        0
    }
}

/// Whether `w` is the word `s`.
fn is_word(w: &Vec<u8>, s: &str) -> (r: bool)
    ensures
        r == (w@ == lit(s)),
{
    let t = text(s);
    bytes_eq(w.as_slice(), t.as_slice())
}

/// The counters after `m` is added.
pub open spec fn counters_after(c: Map<Seq<u8>, Seq<CounterSample>>, m: MetricView) -> Map<
    Seq<u8>,
    Seq<CounterSample>,
> {
    match m.kind {
        MetricKind::Counter(rate) => appended(c, m.name, CounterSample { value: m.value, rate }),
        _ => c,
    }
}

/// The gauges after `m` is added.
pub open spec fn gauges_after(g: Map<Seq<u8>, Decimal>, m: MetricView) -> Map<Seq<u8>, Decimal> {
    match m.kind {
        MetricKind::Gauge => g.insert(m.name, m.value),
        _ => g,
    }
}

/// The timers after `m` is added.
pub open spec fn timers_after(t: Map<Seq<u8>, Seq<Decimal>>, m: MetricView) -> Map<
    Seq<u8>,
    Seq<Decimal>,
> {
    match m.kind {
        MetricKind::Timer => appended(t, m.name, m.value),
        _ => t,
    }
}

/// The histograms after `m` is added.
pub open spec fn histograms_after(h: Map<Seq<u8>, Seq<Decimal>>, m: MetricView) -> Map<
    Seq<u8>,
    Seq<Decimal>,
> {
    match m.kind {
        MetricKind::Histogram => appended(h, m.name, m.value),
        _ => h,
    }
}

/// The main storage of the server: every sample received since the last
/// flush, keyed by metric name, and counts that survive flushes.
pub struct Buckets {
    pub counters: SeqBucket<CounterSample>,
    pub gauges: ValueBucket<Decimal>,
    pub histograms: SeqBucket<Decimal>,
    pub timers: SeqBucket<Decimal>,
    pub server_start_time: i64,
    pub last_message: i64,
    pub bad_messages: u64,
    pub total_messages: u64,
}

impl Buckets {
    pub open spec fn wf(&self) -> bool {
        &&& self.counters.wf()
        &&& self.gauges.wf()
        &&& self.histograms.wf()
        &&& self.timers.wf()
    }

    /// The maps are unchanged from `o`.
    pub open spec fn same_maps(&self, o: &Buckets) -> bool {
        &&& self.counters@ == o.counters@
        &&& self.gauges@ == o.gauges@
        &&& self.histograms@ == o.histograms@
        &&& self.timers@ == o.timers@
    }

    /// The maps are those of `o` with `m` added to the map of its kind.
    pub open spec fn added(&self, o: &Buckets, m: MetricView) -> bool {
        &&& self.counters@ == counters_after(o.counters@, m)
        &&& self.gauges@ == gauges_after(o.gauges@, m)
        &&& self.timers@ == timers_after(o.timers@, m)
        &&& self.histograms@ == histograms_after(o.histograms@, m)
    }

    /// An empty store whose start time is `now`.
    pub fn new_at(now: i64) -> (r: Buckets)
        ensures
            r.wf(),
            r.counters@ == Map::<Seq<u8>, Seq<CounterSample>>::empty(),
            r.gauges@ == Map::<Seq<u8>, Decimal>::empty(),
            r.histograms@ == Map::<Seq<u8>, Seq<Decimal>>::empty(),
            r.timers@ == Map::<Seq<u8>, Seq<Decimal>>::empty(),
            r.server_start_time == now,
            r.last_message == now,
            r.bad_messages == 0,
            r.total_messages == 0,
    {
        Buckets {
            counters: SeqBucket::new(),
            gauges: ValueBucket::new(),
            histograms: SeqBucket::new(),
            timers: SeqBucket::new(),
            server_start_time: now,
            last_message: now,
            bad_messages: 0,
            total_messages: 0,
        }
    }

    /// An empty store that starts now.
    pub fn new() -> (r: Buckets)
        ensures
            r.wf(),
            r.counters@ == Map::<Seq<u8>, Seq<CounterSample>>::empty(),
            r.gauges@ == Map::<Seq<u8>, Decimal>::empty(),
            r.histograms@ == Map::<Seq<u8>, Seq<Decimal>>::empty(),
            r.timers@ == Map::<Seq<u8>, Seq<Decimal>>::empty(),
            r.server_start_time == r.last_message,
            r.bad_messages == 0,
            r.total_messages == 0,
    {
        Buckets::new_at(now_seconds())
    }

    /// Empties all four maps at once; the counts and times are kept.
    pub fn flush(&mut self)
        requires
            old(self).wf(),
        ensures
            final(self).wf(),
            final(self).counters@ == Map::<Seq<u8>, Seq<CounterSample>>::empty(),
            final(self).gauges@ == Map::<Seq<u8>, Decimal>::empty(),
            final(self).histograms@ == Map::<Seq<u8>, Seq<Decimal>>::empty(),
            final(self).timers@ == Map::<Seq<u8>, Seq<Decimal>>::empty(),
            final(self).server_start_time == old(self).server_start_time,
            final(self).last_message == old(self).last_message,
            final(self).bad_messages == old(self).bad_messages,
            final(self).total_messages == old(self).total_messages,
    {
        self.counters.clear();
        self.gauges.clear();
        self.histograms.clear();
        self.timers.clear();
    }

    /// Adds `metric` to the map of its kind at time `now`: a counter sample is
    /// appended to the counter's samples, a gauge is overwritten, a timer or
    /// histogram value is appended to its sequence.
    pub fn add_metric_at(&mut self, metric: Metric, now: i64)
        requires
            old(self).wf(),
        ensures
            final(self).wf(),
            final(self).added(old(self), metric@),
            final(self).server_start_time == old(self).server_start_time,
            final(self).last_message == now,
            final(self).bad_messages == old(self).bad_messages,
            final(self).total_messages == inc(old(self).total_messages),
    {
        let key = metric.name.as_slice();
        match metric.kind {
            MetricKind::Counter(rate) => {
                self.counters.append(key, CounterSample { value: metric.value, rate });
            },
            MetricKind::Gauge => {
                self.gauges.set(key, metric.value);
            },
            MetricKind::Timer => {
                self.timers.append(key, metric.value);
            },
            MetricKind::Histogram => {
                self.histograms.append(key, metric.value);
            },
        }
        self.last_message = now;
        self.total_messages = inc_exec(self.total_messages);
    }

    /// Adds `metric` to the map of its kind, stamped with the current time.
    pub fn add_metric(&mut self, metric: Metric)
        requires
            old(self).wf(),
        ensures
            final(self).wf(),
            final(self).added(old(self), metric@),
            final(self).server_start_time == old(self).server_start_time,
            final(self).bad_messages == old(self).bad_messages,
            final(self).total_messages == inc(old(self).total_messages),
    {
        let now = now_seconds();
        self.add_metric_at(metric, now);
    }

    /// Counts one inbound message that was not a metric.
    pub fn record_bad(&mut self)
        requires
            old(self).wf(),
        ensures
            final(self).wf(),
            final(self).same_maps(old(self)),
            final(self).server_start_time == old(self).server_start_time,
            final(self).last_message == old(self).last_message,
            final(self).bad_messages == inc(old(self).bad_messages),
            final(self).total_messages == inc(old(self).total_messages),
    {
        self.bad_messages = inc_exec(self.bad_messages);
        self.total_messages = inc_exec(self.total_messages);
    }

    /// Acts on one line of the administrative protocol at time `now`. Returns
    /// the response and whether to close the connection after it. Only a
    /// `clear` of a known map changes the store, and only that map.
    pub fn management_line_at(&mut self, line: &[u8], now: i64) -> (r: (Vec<u8>, bool))
        requires
            old(self).wf(),
        ensures
            final(self).wf(),
            (r.0@, r.1) == management_reply(
                line@,
                uptime(old(self).server_start_time, now),
                old(self).bad_messages as nat,
                old(self).total_messages as nat,
            ),
            final(self).counters@ == if clear_target(line@) == Some(Target::Counters) {
                Map::<Seq<u8>, Seq<CounterSample>>::empty()
            } else {
                old(self).counters@
            },
            final(self).gauges@ == if clear_target(line@) == Some(Target::Gauges) {
                Map::<Seq<u8>, Decimal>::empty()
            } else {
                old(self).gauges@
            },
            final(self).histograms@ == if clear_target(line@) == Some(Target::Histograms) {
                Map::<Seq<u8>, Seq<Decimal>>::empty()
            } else {
                old(self).histograms@
            },
            final(self).timers@ == if clear_target(line@) == Some(Target::Timers) {
                Map::<Seq<u8>, Seq<Decimal>>::empty()
            } else {
                old(self).timers@
            },
            final(self).server_start_time == old(self).server_start_time,
            final(self).last_message == old(self).last_message,
            final(self).bad_messages == old(self).bad_messages,
            final(self).total_messages == old(self).total_messages,
    {
        proof {
            lemma_stats_is_not_clear();
        }
        let (w1, e1) = next_word(line, 0);
        let (w2, _e2) = next_word(line, e1);
        if is_word(&w1, "stats") {
            let mut v = text("uptime: ");
            let up = u64_text(uptime_exec(self.server_start_time, now));
            push_all(&mut v, up.as_slice());
            let t = text(" s\nbad_messages: ");
            push_all(&mut v, t.as_slice());
            let bad = u64_text(self.bad_messages);
            push_all(&mut v, bad.as_slice());
            let t = text("\ntotal_messages: ");
            push_all(&mut v, t.as_slice());
            let total = u64_text(self.total_messages);
            push_all(&mut v, total.as_slice());
            (v, false)
        } else if is_word(&w1, "clear") {
            if is_word(&w2, "counters") {
                self.counters.clear();
                (text("Counters cleared."), false)
            } else if is_word(&w2, "gauges") {
                self.gauges.clear();
                (text("Gauges cleared."), false)
            } else if is_word(&w2, "histograms") {
                self.histograms.clear();
                (text("Histograms cleared."), false)
            } else if is_word(&w2, "timers") {
                self.timers.clear();
                (text("Timers cleared."), false)
            } else if w2.len() == 0 {
                (text("ERROR: need something to clear!"), false)
            } else {
                let mut v = text("ERROR: Nothing named '");
                push_all(&mut v, w2.as_slice());
                let t = text("' to clear.");
                push_all(&mut v, t.as_slice());
                (v, false)
            }
        } else if is_word(&w1, "quit") {
            (text("END"), true)
        } else {
            let mut v = text("ERROR: Unknown command: ");
            push_all(&mut v, w1.as_slice());
            (v, false)
        }
    }

    /// Acts on one line of the administrative protocol, with the uptime
    /// measured by the current time.
    pub fn do_management_line(&mut self, line: &[u8]) -> (r: (Vec<u8>, bool))
        requires
            old(self).wf(),
        ensures
            final(self).wf(),
            exists|up: nat|
                (r.0@, r.1) == management_reply(
                    line@,
                    up,
                    old(self).bad_messages as nat,
                    old(self).total_messages as nat,
                ),
            final(self).counters@ == if clear_target(line@) == Some(Target::Counters) {
                Map::<Seq<u8>, Seq<CounterSample>>::empty()
            } else {
                old(self).counters@
            },
            final(self).gauges@ == if clear_target(line@) == Some(Target::Gauges) {
                Map::<Seq<u8>, Decimal>::empty()
            } else {
                old(self).gauges@
            },
            final(self).histograms@ == if clear_target(line@) == Some(Target::Histograms) {
                Map::<Seq<u8>, Seq<Decimal>>::empty()
            } else {
                old(self).histograms@
            },
            final(self).timers@ == if clear_target(line@) == Some(Target::Timers) {
                Map::<Seq<u8>, Seq<Decimal>>::empty()
            } else {
                old(self).timers@
            },
            final(self).server_start_time == old(self).server_start_time,
            final(self).last_message == old(self).last_message,
            final(self).bad_messages == old(self).bad_messages,
            final(self).total_messages == old(self).total_messages,
    {
        let now = now_seconds();
        self.management_line_at(line, now)
    }
}

} // verus!
