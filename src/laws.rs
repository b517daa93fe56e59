//! Properties of the store that relate several operations.
use vstd::prelude::*;

use crate::bucket::appended;
use crate::buckets::{lemma_stats_is_not_clear, clear_target, lit, management_reply, counters_after, gauges_after, histograms_after, inc, timers_after, CounterSample};
use crate::buckets::Target;
use crate::text::{first_word, second_word};
use crate::metric::{find_exp, has_sign, all_digits, kind_at, number_at, unit_rate, find_in, lemma_find_in_bounds, pow10, spec_parse, Decimal, MetricKind, MetricView, COLON, PIPE};

verus! {

/// The counters after each of `ms` is added, in order.
pub open spec fn counters_after_all(
    c: Map<Seq<u8>, Seq<CounterSample>>,
    ms: Seq<MetricView>,
) -> Map<Seq<u8>, Seq<CounterSample>>
    decreases ms.len(),
{
    if ms.len() == 0 {
        c
    } else {
        counters_after(counters_after_all(c, ms.drop_last()), ms.last())
    }
}

/// The gauges after each of `ms` is added, in order.
pub open spec fn gauges_after_all(g: Map<Seq<u8>, Decimal>, ms: Seq<MetricView>) -> Map<
    Seq<u8>,
    Decimal,
>
    decreases ms.len(),
{
    if ms.len() == 0 {
        g
    } else {
        gauges_after(gauges_after_all(g, ms.drop_last()), ms.last())
    }
}

/// The timers after each of `ms` is added, in order.
pub open spec fn timers_after_all(t: Map<Seq<u8>, Seq<Decimal>>, ms: Seq<MetricView>) -> Map<
    Seq<u8>,
    Seq<Decimal>,
>
    decreases ms.len(),
{
    if ms.len() == 0 {
        t
    } else {
        timers_after(timers_after_all(t, ms.drop_last()), ms.last())
    }
}

/// The histograms after each of `ms` is added, in order.
pub open spec fn histograms_after_all(h: Map<Seq<u8>, Seq<Decimal>>, ms: Seq<MetricView>) -> Map<
    Seq<u8>,
    Seq<Decimal>,
>
    decreases ms.len(),
{
    if ms.len() == 0 {
        h
    } else {
        histograms_after(histograms_after_all(h, ms.drop_last()), ms.last())
    }
}

/// The values of the samples of kind `kind` named `k` among `ms`, in order.
pub open spec fn values_of(ms: Seq<MetricView>, kind: MetricKind, k: Seq<u8>) -> Seq<Decimal>
    decreases ms.len(),
{
    if ms.len() == 0 {
        Seq::empty()
    } else {
        let rest = values_of(ms.drop_last(), kind, k);
        if ms.last().kind == kind && ms.last().name == k {
            rest.push(ms.last().value)
        } else {
            rest
        }
    }
}

/// The sequence under `k`, empty if there is none.
pub open spec fn seq_or_empty<T>(m: Map<Seq<u8>, Seq<T>>, k: Seq<u8>) -> Seq<T> {
    if m.contains_key(k) {
        m[k]
    } else {
        Seq::empty()
    }
}

/// Two maps hold the same names, each with the same samples in some order.
pub open spec fn same_samples(
    a: Map<Seq<u8>, Seq<CounterSample>>,
    b: Map<Seq<u8>, Seq<CounterSample>>,
) -> bool {
    &&& a.dom() == b.dom()
    &&& forall|k: Seq<u8>| #[trigger] a.contains_key(k) ==> a[k].to_multiset() == b[k].to_multiset()
}

/// A line with no `:`, or with no `|` at all, is no metric.
pub proof fn parse_needs_separators(s: Seq<u8>)
    requires
        (forall|i: int| 0 <= i < s.len() ==> s[i] != COLON) || (forall|i: int|
            0 <= i < s.len() ==> s[i] != PIPE),
    ensures
        spec_parse(s) is None,
{
    let n = s.len() as int;
    lemma_find_absent(s, 0, n, COLON);
    lemma_find_in_bounds(s, 0, n, COLON);
    let colon = find_in(s, 0, n, COLON);
    if colon < n {
        lemma_find_absent(s, colon + 1, n, PIPE);
    }
}

proof fn lemma_find_absent(s: Seq<u8>, from: int, to: int, c: u8)
    requires
        0 <= from,
        to <= s.len(),
    ensures
        (forall|i: int| from <= i < to ==> s[i] != c) ==> find_in(s, from, to, c) == to
            || from > to,
        find_in(s, from, to, c) < to ==> s[find_in(s, from, to, c)] == c,
    decreases to - from,
{
    if from < to && s[from] != c {
        lemma_find_absent(s, from + 1, to, c);
    }
}

/// Adding two metrics in either order leaves every counter with the same
/// samples, so any total over a counter's samples, such as the sum of
/// `value / rate`, does not depend on the order of arrival.
pub proof fn counter_order_irrelevant(
    c: Map<Seq<u8>, Seq<CounterSample>>,
    a: MetricView,
    b: MetricView,
)
    ensures
        same_samples(
            counters_after(counters_after(c, a), b),
            counters_after(counters_after(c, b), a),
        ),
{
    broadcast use vstd::seq_lib::to_multiset_build;

    let x = counters_after(counters_after(c, a), b);
    let y = counters_after(counters_after(c, b), a);
    assert(x.dom() =~= y.dom());
    assert forall|k: Seq<u8>| #[trigger] x.contains_key(k) implies x[k].to_multiset()
        == y[k].to_multiset() by {
        if let (MetricKind::Counter(ra), MetricKind::Counter(rb)) = (a.kind, b.kind) {
            if a.name == k && b.name == k {
                let sa = CounterSample { value: a.value, rate: ra };
                let sb = CounterSample { value: b.value, rate: rb };
                let base = seq_or_empty(c, k);
                assert(x[k] =~= base.push(sa).push(sb));
                assert(y[k] =~= base.push(sb).push(sa));
                assert(x[k].to_multiset() =~= y[k].to_multiset());
            }
        }
    }
}

/// After a gauge is set, it keeps that value through any submissions that do
/// not set the same gauge, and a later setting replaces it.
pub proof fn gauge_last_write_wins(
    g: Map<Seq<u8>, Decimal>,
    k: Seq<u8>,
    v1: Decimal,
    ms: Seq<MetricView>,
    v2: Decimal,
)
    requires
        forall|i: int|
            0 <= i < ms.len() ==> !((#[trigger] ms[i]).kind == MetricKind::Gauge && ms[i].name
                == k),
    ensures
        ({
            let first = MetricView { name: k, value: v1, kind: MetricKind::Gauge };
            let between = gauges_after_all(gauges_after(g, first), ms);
            between.contains_key(k) && between[k] == v1
        }),
        ({
            let first = MetricView { name: k, value: v1, kind: MetricKind::Gauge };
            let last = MetricView { name: k, value: v2, kind: MetricKind::Gauge };
            gauges_after(gauges_after_all(gauges_after(g, first), ms), last)[k] == v2
        }),
    decreases ms.len(),
{
    if ms.len() > 0 {
        let ms0 = ms.drop_last();
        assert forall|i: int|
            0 <= i < ms0.len() implies !((#[trigger] ms0[i]).kind == MetricKind::Gauge
            && ms0[i].name == k) by {
            assert(ms0[i] == ms[i]);
        }
        gauge_last_write_wins(g, k, v1, ms0, v2);
        assert(!(ms[ms.len() - 1].kind == MetricKind::Gauge && ms[ms.len() - 1].name == k));
    }
}

/// A timer's values are those it had, followed by the values of the timer
/// samples submitted for it, in the order submitted: one value per sample.
pub proof fn timers_keep_arrival_order(
    t: Map<Seq<u8>, Seq<Decimal>>,
    ms: Seq<MetricView>,
    k: Seq<u8>,
)
    ensures
        seq_or_empty(timers_after_all(t, ms), k) == seq_or_empty(t, k) + values_of(
            ms,
            MetricKind::Timer,
            k,
        ),
    decreases ms.len(),
{
    if ms.len() == 0 {
        assert(seq_or_empty(t, k) + Seq::<Decimal>::empty() =~= seq_or_empty(t, k));
    } else {
        let ms0 = ms.drop_last();
        timers_keep_arrival_order(t, ms0, k);
        let prev = timers_after_all(t, ms0);
        let m = ms.last();
        if m.kind == MetricKind::Timer && m.name == k {
            assert(seq_or_empty(appended(prev, k, m.value), k) =~= seq_or_empty(prev, k).push(
                m.value,
            ));
            assert((seq_or_empty(t, k) + values_of(ms0, MetricKind::Timer, k)).push(m.value)
                =~= seq_or_empty(t, k) + values_of(ms0, MetricKind::Timer, k).push(m.value));
        }
    }
}

/// A histogram's values are those it had, followed by the values of the
/// histogram samples submitted for it, in the order submitted.
pub proof fn histograms_keep_arrival_order(
    h: Map<Seq<u8>, Seq<Decimal>>,
    ms: Seq<MetricView>,
    k: Seq<u8>,
)
    ensures
        seq_or_empty(histograms_after_all(h, ms), k) == seq_or_empty(h, k) + values_of(
            ms,
            MetricKind::Histogram,
            k,
        ),
    decreases ms.len(),
{
    if ms.len() == 0 {
        assert(seq_or_empty(h, k) + Seq::<Decimal>::empty() =~= seq_or_empty(h, k));
    } else {
        let ms0 = ms.drop_last();
        histograms_keep_arrival_order(h, ms0, k);
        let prev = histograms_after_all(h, ms0);
        let m = ms.last();
        if m.kind == MetricKind::Histogram && m.name == k {
            assert(seq_or_empty(appended(prev, k, m.value), k) =~= seq_or_empty(prev, k).push(
                m.value,
            ));
            assert((seq_or_empty(h, k) + values_of(ms0, MetricKind::Histogram, k)).push(m.value)
                =~= seq_or_empty(h, k) + values_of(ms0, MetricKind::Histogram, k).push(m.value));
        }
    }
}

/// The message count after `n` more messages are each counted once.
pub open spec fn count_after(t: u64, n: nat) -> u64
    decreases n,
{
    if n == 0 {
        t
    } else {
        inc(count_after(t, (n - 1) as nat))
    }
}

/// Counting each of `n` messages once, in any interleaving of their senders,
/// adds exactly `n` to the total while it stays within range: none is lost.
pub proof fn message_count_exact(t: u64, n: nat)
    requires
        t + n <= u64::MAX,
    ensures
        count_after(t, n) == t + n,
    decreases n,
{
    if n > 0 {
        message_count_exact(t, (n - 1) as nat);
    }
}

/// `quit` is answered with `END` and closes the connection; it clears nothing.
pub proof fn quit_ends_connection(line: Seq<u8>, up: nat, bad: nat, total: nat)
    requires
        first_word(line) == lit("quit"),
    ensures
        management_reply(line, up, bad, total) == (lit("END"), true),
        clear_target(line) is None,
{
    broadcast use vstd::string::is_ascii_spec_bytes;

    reveal_strlit("quit");
    reveal_strlit("stats");
    reveal_strlit("clear");
    assert(vstd::string::is_ascii("quit"));
    assert(vstd::string::is_ascii("stats"));
    assert(vstd::string::is_ascii("clear"));
    assert(lit("quit").len() == 4);
    assert(lit("stats").len() == 5);
    assert(lit("clear").len() == 5);
}

/// `clear counters` names the counters map alone, so of the four maps only
/// the counters are emptied by it.
pub proof fn clear_counters_only(line: Seq<u8>, up: nat, bad: nat, total: nat)
    requires
        first_word(line) == lit("clear"),
        second_word(line) == lit("counters"),
    ensures
        clear_target(line) == Some(Target::Counters),
        management_reply(line, up, bad, total) == (lit("Counters cleared."), false),
{
    lemma_stats_is_not_clear();
}

/// A decimal as a fraction (numerator, denominator).
pub open spec fn dec_fraction(d: Decimal) -> (int, int) {
    if d.scale >= 0 {
        (d.mantissa as int, pow10(d.scale as nat) as int)
    } else {
        (d.mantissa * pow10((-d.scale) as nat), 1)
    }
}

/// `value / rate` of a counter sample as a fraction (numerator, denominator).
pub open spec fn sample_fraction(s: CounterSample) -> (int, int) {
    let (vn, vd) = dec_fraction(s.value);
    let (rn, rd) = dec_fraction(s.rate);
    (vn * rd, vd * rn)
}

/// The sum of `value / rate` over `s`, as a fraction.
pub open spec fn counter_sum(s: Seq<CounterSample>) -> (int, int)
    decreases s.len(),
{
    if s.len() == 0 {
        (0, 1)
    } else {
        let (n, d) = counter_sum(s.drop_last());
        let (a, b) = sample_fraction(s.last());
        (n * b + a * d, d * b)
    }
}

/// The sum of `value / rate` over a counter's samples is the same, to the
/// numerator and denominator, whichever of two samples arrives first.
pub proof fn counter_sum_order_irrelevant(base: Seq<CounterSample>, x: CounterSample, y: CounterSample)
    ensures
        counter_sum(base.push(x).push(y)) == counter_sum(base.push(y).push(x)),
{
    assert(base.push(x).push(y).drop_last() =~= base.push(x));
    assert(base.push(y).push(x).drop_last() =~= base.push(y));
    assert(base.push(x).drop_last() =~= base);
    assert(base.push(y).drop_last() =~= base);
    let (n, d) = counter_sum(base);
    let (a, b) = sample_fraction(x);
    let (c, e) = sample_fraction(y);
    assert(counter_sum(base.push(x)) == (n * b + a * d, d * b));
    assert(counter_sum(base.push(y)) == (n * e + c * d, d * e));
    assert(counter_sum(base.push(x).push(y)) == ((n * b + a * d) * e + c * (d * b), (d * b) * e));
    assert(counter_sum(base.push(y).push(x)) == ((n * e + c * d) * b + a * (d * e), (d * e) * b));
    lemma_fraction_swap(n, d, a, b, c, e);
}

proof fn lemma_fraction_swap(n: int, d: int, a: int, b: int, c: int, e: int)
    ensures
        (n * b + a * d) * e + c * (d * b) == (n * e + c * d) * b + a * (d * e),
        (d * b) * e == (d * e) * b,
{
    assert((n * b + a * d) * e == n * b * e + a * d * e) by (nonlinear_arith);
    assert((n * e + c * d) * b == n * e * b + c * d * b) by (nonlinear_arith);
    assert(n * b * e == n * e * b) by (nonlinear_arith);
    assert(c * (d * b) == c * d * b) by (nonlinear_arith);
    assert(a * (d * e) == a * d * e) by (nonlinear_arith);
    assert((d * b) * e == (d * e) * b) by (nonlinear_arith);
}

/// The counter samples named `k` among `ms`, in order.
pub open spec fn samples_of(ms: Seq<MetricView>, k: Seq<u8>) -> Seq<CounterSample>
    decreases ms.len(),
{
    if ms.len() == 0 {
        Seq::empty()
    } else {
        let rest = samples_of(ms.drop_last(), k);
        match ms.last().kind {
            MetricKind::Counter(rate) => if ms.last().name == k {
                rest.push(CounterSample { value: ms.last().value, rate })
            } else {
                rest
            },
            _ => rest,
        }
    }
}

/// A counter's samples are those it had, followed by the counter samples
/// submitted for it, interleaved with anything else, one per submission.
pub proof fn counters_keep_every_sample(
    c: Map<Seq<u8>, Seq<CounterSample>>,
    ms: Seq<MetricView>,
    k: Seq<u8>,
)
    ensures
        seq_or_empty(counters_after_all(c, ms), k) == seq_or_empty(c, k) + samples_of(ms, k),
    decreases ms.len(),
{
    if ms.len() == 0 {
        assert(seq_or_empty(c, k) + Seq::<CounterSample>::empty() =~= seq_or_empty(c, k));
    } else {
        let ms0 = ms.drop_last();
        counters_keep_every_sample(c, ms0, k);
        let prev = counters_after_all(c, ms0);
        let m = ms.last();
        if let MetricKind::Counter(rate) = m.kind {
            if m.name == k {
                let x = CounterSample { value: m.value, rate };
                assert(seq_or_empty(appended(prev, k, x), k) =~= seq_or_empty(prev, k).push(x));
                assert((seq_or_empty(c, k) + samples_of(ms0, k)).push(x) =~= seq_or_empty(c, k)
                    + samples_of(ms0, k).push(x));
            }
        }
    }
}

/// Swapping two neighbouring samples anywhere in a counter's samples leaves
/// the sum of `value / rate` unchanged. Every reordering is a chain of such
/// swaps, so the sum does not depend on the order in which samples arrive.
pub proof fn counter_sum_any_order(
    a: Seq<CounterSample>,
    x: CounterSample,
    y: CounterSample,
    b: Seq<CounterSample>,
)
    ensures
        counter_sum(a.push(x).push(y) + b) == counter_sum(a.push(y).push(x) + b),
    decreases b.len(),
{
    if b.len() == 0 {
        assert(a.push(x).push(y) + b =~= a.push(x).push(y));
        assert(a.push(y).push(x) + b =~= a.push(y).push(x));
        counter_sum_order_irrelevant(a, x, y);
    } else {
        let b0 = b.drop_last();
        counter_sum_any_order(a, x, y, b0);
        assert((a.push(x).push(y) + b).drop_last() =~= a.push(x).push(y) + b0);
        assert((a.push(y).push(x) + b).drop_last() =~= a.push(y).push(x) + b0);
        assert((a.push(x).push(y) + b).last() == b.last());
        assert((a.push(y).push(x) + b).last() == b.last());
    }
}

/// Taking in `ms`, in whatever interleaving of senders it arrived, from a
/// store that had counted `t` messages: while the count stays in range it
/// rises by exactly the number of messages, and every counter holds its old
/// samples followed by one sample per counter message for it. No count and
/// no counter sample is lost.
pub proof fn ingestion_loses_nothing(
    c: Map<Seq<u8>, Seq<CounterSample>>,
    t: u64,
    ms: Seq<MetricView>,
)
    requires
        t + ms.len() <= u64::MAX,
    ensures
        count_after(t, ms.len()) == t + ms.len(),
        forall|k: Seq<u8>|
            #[trigger] seq_or_empty(counters_after_all(c, ms), k) == seq_or_empty(c, k)
                + samples_of(ms, k),
{
    message_count_exact(t, ms.len());
    assert forall|k: Seq<u8>|
        #[trigger] seq_or_empty(counters_after_all(c, ms), k) == seq_or_empty(c, k) + samples_of(
            ms,
            k,
        ) by {
        counters_keep_every_sample(c, ms, k);
    }
}

/// The kind that a type code with no sample rate names.
pub open spec fn code_kind(code: Seq<u8>) -> Option<MetricKind> {
    if code == seq![99u8] {
        Some(MetricKind::Counter(unit_rate()))
    } else if code == seq![103u8] {
        Some(MetricKind::Gauge)
    } else if code == seq![109u8, 115u8] {
        Some(MetricKind::Timer)
    } else if code == seq![104u8] {
        Some(MetricKind::Histogram)
    } else {
        None
    }
}

proof fn lemma_find_at(s: Seq<u8>, from: int, to: int, c: u8, i: int)
    requires
        0 <= from <= i < to <= s.len(),
        s[i] == c,
        forall|j: int| from <= j < i ==> s[j] != c,
    ensures
        find_in(s, from, to, c) == i,
    decreases i - from,
{
    if from < i {
        lemma_find_at(s, from + 1, to, c, i);
    }
}

/// A line `name:value|code`, whose name is not empty and holds no `:`, and
/// whose value and code hold no `|`, parses exactly when its value is a
/// number and its code is `c`, `g`, `ms` or `h`; the metric then has that
/// name, that number, and the kind the code names (a counter with rate 1 for
/// `c`).
pub proof fn parse_reads_fields(name: Seq<u8>, value: Seq<u8>, code: Seq<u8>)
    requires
        name.len() > 0,
        forall|i: int| 0 <= i < name.len() ==> name[i] != COLON,
        forall|i: int| 0 <= i < value.len() ==> value[i] != PIPE,
        forall|i: int| 0 <= i < code.len() ==> code[i] != PIPE,
    ensures
        ({
            let line = name + seq![COLON] + value + seq![PIPE] + code;
            spec_parse(line) == match (number_at(value, 0, value.len() as int), code_kind(code)) {
                (Some(v), Some(k)) => Some(MetricView { name, value: v, kind: k }),
                _ => None,
            }
        }),
{
    let line = name + seq![COLON] + value + seq![PIPE] + code;
    let n = line.len() as int;
    let a = name.len() as int + 1;
    let b = a + value.len();
    assert(line[name.len() as int] == COLON);
    assert forall|j: int| 0 <= j < name.len() implies line[j] != COLON by {
        assert(line[j] == name[j]);
    }
    lemma_find_at(line, 0, n, COLON, name.len() as int);
    assert(line[b] == PIPE);
    assert forall|j: int| a <= j < b implies line[j] != PIPE by {
        assert(line[j] == value[j - a]);
    }
    lemma_find_at(line, a, n, PIPE, b);
    assert forall|j: int| b + 1 <= j < n implies line[j] != PIPE by {
        assert(line[j] == code[j - b - 1]);
    }
    lemma_find_absent(line, b + 1, n, PIPE);
    assert(line.subrange(0, name.len() as int) =~= name);
    assert(line.subrange(b + 1, n) =~= code);
    assert(kind_at(line, b, n) == code_kind(code));
    assert(line.subrange(a, b) =~= value);
    lemma_number_shift(line, a, b);
}

proof fn lemma_find_shift(s: Seq<u8>, t: Seq<u8>, lo: int, x: int, y: int, c: u8)
    requires
        0 <= lo <= x <= y,
        y <= s.len(),
        y - lo <= t.len(),
        forall|i: int| 0 <= i < y - lo ==> s[lo + i] == t[i],
    ensures
        find_in(s, x, y, c) == find_in(t, x - lo, y - lo, c) + lo,
    decreases y - x,
{
    if x < y {
        assert(s[lo + (x - lo)] == t[x - lo]);
        lemma_find_shift(s, t, lo, x + 1, y, c);
    }
}

proof fn lemma_find_exp_shift(s: Seq<u8>, t: Seq<u8>, lo: int, x: int, y: int)
    requires
        0 <= lo <= x <= y,
        y <= s.len(),
        y - lo <= t.len(),
        forall|i: int| 0 <= i < y - lo ==> s[lo + i] == t[i],
    ensures
        find_exp(s, x, y) == find_exp(t, x - lo, y - lo) + lo,
    decreases y - x,
{
    if x < y {
        assert(s[lo + (x - lo)] == t[x - lo]);
        lemma_find_exp_shift(s, t, lo, x + 1, y);
    }
}

/// The number in `s[lo..hi)` depends on those bytes alone.
#[verifier::rlimit(100)]
proof fn lemma_number_shift(s: Seq<u8>, lo: int, hi: int)
    requires
        0 <= lo <= hi <= s.len(),
    ensures
        number_at(s, lo, hi) == number_at(s.subrange(lo, hi), 0, hi - lo),
{
    let t = s.subrange(lo, hi);
    let m = hi - lo;
    assert forall|i: int| 0 <= i < m implies s[lo + i] == t[i] by {}
    let start = if has_sign(s, lo, hi) { lo + 1 } else { lo };
    assert(has_sign(s, lo, hi) == has_sign(t, 0, m));
    lemma_find_exp_shift(s, t, lo, start, hi);
    let epos = find_exp(s, start, hi);
    lemma_find_exp_bounds(s, start, hi);
    lemma_find_shift(s, t, lo, start, epos, crate::metric::DOT);
    let dot = find_in(s, start, epos, crate::metric::DOT);
    lemma_find_in_bounds(s, start, epos, crate::metric::DOT);
    let frac_start = if dot < epos { dot + 1 } else { epos };
    assert(s.subrange(start, dot) =~= t.subrange(start - lo, dot - lo));
    assert(s.subrange(frac_start, epos) =~= t.subrange(frac_start - lo, epos - lo));
    let es = if epos < hi { epos + 1 } else { hi };
    assert(has_sign(s, es, hi) == has_sign(t, es - lo, m));
    let ed = if has_sign(s, es, hi) { es + 1 } else { es };
    assert(s.subrange(ed, hi) =~= t.subrange(ed - lo, m));
    assert(all_digits(s, start, dot) == all_digits(t, start - lo, dot - lo)) by {
        assert forall|i: int| start <= i < dot implies s[i] == #[trigger] t[i - lo] by {}
        if all_digits(t, start - lo, dot - lo) {
            assert forall|i: int| start <= i < dot implies crate::metric::is_digit(#[trigger] s[i]) by {
                assert(s[i] == t[i - lo]);
            }
        }
    }
    assert(all_digits(s, frac_start, epos) == all_digits(t, frac_start - lo, epos - lo)) by {
        assert forall|i: int| frac_start <= i < epos implies s[i] == #[trigger] t[i - lo] by {}
        if all_digits(t, frac_start - lo, epos - lo) {
            assert forall|i: int| frac_start <= i < epos implies crate::metric::is_digit(#[trigger] s[i]) by {
                assert(s[i] == t[i - lo]);
            }
        }
    }
    assert(all_digits(s, ed, hi) == all_digits(t, ed - lo, m)) by {
        assert forall|i: int| ed <= i < hi implies s[i] == #[trigger] t[i - lo] by {}
        if all_digits(t, ed - lo, m) {
            assert forall|i: int| ed <= i < hi implies crate::metric::is_digit(#[trigger] s[i]) by {
                assert(s[i] == t[i - lo]);
            }
        }
    }
    if es < hi {
        assert(s[es] == t[es - lo]);
    }
    if lo < hi {
        assert(s[lo] == t[0]);
    }
}

proof fn lemma_find_exp_bounds(s: Seq<u8>, from: int, to: int)
    requires
        from <= to,
    ensures
        from <= find_exp(s, from, to) <= to,
    decreases to - from,
{
    if from < to && !crate::metric::is_exp_mark(s[from]) {
        lemma_find_exp_bounds(s, from + 1, to);
    }
}

proof fn lemma_sum_push_eq(a: Seq<CounterSample>, b: Seq<CounterSample>, x: CounterSample)
    requires
        counter_sum(a) == counter_sum(b),
    ensures
        counter_sum(a.push(x)) == counter_sum(b.push(x)),
{
    assert(a.push(x).drop_last() =~= a);
    assert(b.push(x).drop_last() =~= b);
}

/// Moving one sample to the end keeps the sum.
proof fn lemma_sum_move_to_end(a: Seq<CounterSample>, x: CounterSample, b: Seq<CounterSample>)
    ensures
        counter_sum(a.push(x) + b) == counter_sum((a + b).push(x)),
    decreases b.len(),
{
    if b.len() == 0 {
        assert(a.push(x) + b =~= (a + b).push(x));
    } else {
        let y = b[0];
        let rest = b.drop_first();
        assert(a.push(x) + b =~= a.push(x).push(y) + rest);
        counter_sum_any_order(a, x, y, rest);
        lemma_sum_move_to_end(a.push(y), x, rest);
        assert(a.push(y) + rest =~= a + b);
    }
}

/// Any two orders of the same counter samples give the same sum of
/// `value / rate`, to the numerator and denominator.
pub proof fn counter_sum_permutation(s1: Seq<CounterSample>, s2: Seq<CounterSample>)
    requires
        s1.to_multiset() == s2.to_multiset(),
    ensures
        counter_sum(s1) == counter_sum(s2),
    decreases s1.len(),
{
    broadcast use vstd::seq_lib::to_multiset_build, vstd::seq_lib::to_multiset_len,
        vstd::seq_lib::to_multiset_contains, vstd::seq_lib::to_multiset_remove;

    if s1.len() == 0 {
        assert(s2.to_multiset().len() == 0);
        assert(s2 =~= s1);
    } else {
        let x = s1.last();
        let r1 = s1.drop_last();
        assert(s1 =~= r1.push(x));
        assert(s1.to_multiset().count(x) > 0);
        assert(s2.to_multiset().contains(x));
        assert(s2.contains(x));
        let i = choose|i: int| 0 <= i < s2.len() && s2[i] == x;
        let r2 = s2.remove(i);
        let pre = s2.subrange(0, i);
        let post = s2.subrange(i + 1, s2.len() as int);
        assert(s2 =~= pre.push(x) + post);
        assert(r2 =~= pre + post);
        lemma_sum_move_to_end(pre, x, post);
        assert(r2.to_multiset() =~= s2.to_multiset().remove(x));
        assert(r1.to_multiset() =~= s1.to_multiset().remove(x));
        counter_sum_permutation(r1, r2);
        lemma_sum_push_eq(r1, r2, x);
    }
}

proof fn lemma_samples_concat(a: Seq<MetricView>, b: Seq<MetricView>, k: Seq<u8>)
    ensures
        samples_of(a + b, k) == samples_of(a, k) + samples_of(b, k),
    decreases b.len(),
{
    if b.len() == 0 {
        assert(a + b =~= a);
        assert(samples_of(a, k) + samples_of(b, k) =~= samples_of(a, k));
    } else {
        let b0 = b.drop_last();
        lemma_samples_concat(a, b0, k);
        assert((a + b).drop_last() =~= a + b0);
        assert((a + b).last() == b.last());
        if let MetricKind::Counter(rate) = b.last().kind {
            if b.last().name == k {
                let x = CounterSample { value: b.last().value, rate };
                assert(samples_of(a, k) + samples_of(b0, k).push(x) =~= (samples_of(a, k)
                    + samples_of(b0, k)).push(x));
            }
        }
    }
}

proof fn lemma_samples_multiset(ms1: Seq<MetricView>, ms2: Seq<MetricView>, k: Seq<u8>)
    requires
        ms1.to_multiset() == ms2.to_multiset(),
    ensures
        samples_of(ms1, k).to_multiset() == samples_of(ms2, k).to_multiset(),
    decreases ms1.len(),
{
    broadcast use vstd::seq_lib::to_multiset_build, vstd::seq_lib::to_multiset_len,
        vstd::seq_lib::to_multiset_contains, vstd::seq_lib::to_multiset_remove,
        vstd::seq_lib::lemma_multiset_commutative;

    if ms1.len() == 0 {
        assert(ms2.to_multiset().len() == 0);
        assert(ms2 =~= ms1);
    } else {
        let x = ms1.last();
        let r1 = ms1.drop_last();
        assert(ms1 =~= r1.push(x));
        assert(ms1.to_multiset().count(x) > 0);
        assert(ms2.contains(x));
        let i = choose|i: int| 0 <= i < ms2.len() && ms2[i] == x;
        let r2 = ms2.remove(i);
        let pre = ms2.subrange(0, i);
        let post = ms2.subrange(i + 1, ms2.len() as int);
        let one = seq![x];
        assert(ms2 =~= pre + one + post);
        assert(r2 =~= pre + post);
        assert(ms1 =~= r1 + one);
        assert(r2.to_multiset() =~= ms2.to_multiset().remove(x));
        assert(r1.to_multiset() =~= ms1.to_multiset().remove(x));
        lemma_samples_multiset(r1, r2, k);
        lemma_samples_concat(r1, one, k);
        lemma_samples_concat(pre + one, post, k);
        lemma_samples_concat(pre, one, k);
        lemma_samples_concat(pre, post, k);
        let sp = samples_of(pre, k);
        let so = samples_of(one, k);
        let sq = samples_of(post, k);
        assert(samples_of(ms2, k).to_multiset() =~= sp.to_multiset().add(so.to_multiset()).add(
            sq.to_multiset(),
        ));
        assert(samples_of(ms1, k).to_multiset() =~= samples_of(r1, k).to_multiset().add(
            so.to_multiset(),
        ));
        assert(samples_of(r2, k).to_multiset() =~= sp.to_multiset().add(sq.to_multiset()));
    }
}

/// Submitting the same metrics in any order, interleaved in any way, from
/// the same counters, leaves every counter with the same sum of
/// `value / rate`: its old samples' sum plus that of the submitted ones.
pub proof fn counter_total_any_order(
    c: Map<Seq<u8>, Seq<CounterSample>>,
    ms1: Seq<MetricView>,
    ms2: Seq<MetricView>,
    k: Seq<u8>,
)
    requires
        ms1.to_multiset() == ms2.to_multiset(),
    ensures
        counter_sum(seq_or_empty(counters_after_all(c, ms1), k)) == counter_sum(
            seq_or_empty(counters_after_all(c, ms2), k),
        ),
{
    broadcast use vstd::seq_lib::lemma_multiset_commutative;

    counters_keep_every_sample(c, ms1, k);
    counters_keep_every_sample(c, ms2, k);
    lemma_samples_multiset(ms1, ms2, k);
    let base = seq_or_empty(c, k);
    assert((base + samples_of(ms1, k)).to_multiset() =~= base.to_multiset().add(
        samples_of(ms1, k).to_multiset(),
    ));
    assert((base + samples_of(ms2, k)).to_multiset() =~= base.to_multiset().add(
        samples_of(ms2, k).to_multiset(),
    ));
    counter_sum_permutation(base + samples_of(ms1, k), base + samples_of(ms2, k));
}

} // verus!
