use vstd::prelude::*;

use crate::buckets::{Buckets, CounterSample};
use crate::clock::now_seconds;
use crate::metric::{Decimal, parse, spec_parse, MetricView};
use vstd::utf8::valid_utf8;

verus! {

/// What the event loop receives from the producers that feed it.
pub enum Event<C> {
    /// The flush interval has passed.
    FlushTick,
    /// A datagram arrived, with the bytes received.
    InboundDatagram(Vec<u8>),
    /// An administrative connection was accepted.
    InboundConnection(C),
}

/// The stores a backend has been handed, oldest first. It exists for proofs
/// only: at run time it holds nothing, and a backend whose code is not
/// verified returns `Received::new()` from `received`.
pub struct Received {
    log: Ghost<Seq<Buckets>>,
}

impl View for Received {
    type V = Seq<Buckets>;

    closed spec fn view(&self) -> Seq<Buckets> {
        self.log@
    }
}

impl Received {
    pub fn new() -> (r: Received)
        ensures
            r@ == Seq::<Buckets>::empty(),
    {
        Received { log: Ghost(Seq::empty()) }
    }
}

/// A destination that receives the aggregated metrics at each flush.
pub trait Backend {
    /// The stores this backend has been handed so far, oldest first.
    spec fn received(&self) -> Received;

    /// Exports the store as it stands before it is cleared. A failure is the
    /// backend's own to report; the flush goes on regardless.
    fn flush_buckets(&mut self, buckets: &Buckets)
        ensures
            final(self).received()@ == old(self).received()@.push(*buckets),
    ;
}

/// Relies on `std::str::from_utf8`: it succeeds exactly on valid UTF-8.
#[verifier::external_body]
fn is_utf8(b: &[u8]) -> (r: bool)
    ensures
        r == valid_utf8(b@),
{
    std::str::from_utf8(b).is_ok()
}

/// The metric that a datagram carries: its bytes must be text and parse.
pub open spec fn datagram_metric(b: Seq<u8>) -> Option<MetricView> {
    if valid_utf8(b) {
        spec_parse(b)
    } else {
        None
    }
}

/// Takes in one datagram at time `now`: a metric is added to the store, any
/// other payload is counted as a bad message. Returns whether it was a metric.
pub fn handle_datagram_at(buckets: &mut Buckets, bytes: &[u8], now: i64) -> (r: bool)
    requires
        old(buckets).wf(),
    ensures
        final(buckets).wf(),
        r == datagram_metric(bytes@) is Some,
        match datagram_metric(bytes@) {
            Some(m) => {
                &&& final(buckets).added(old(buckets), m)
                &&& final(buckets).last_message == now
                &&& final(buckets).bad_messages == old(buckets).bad_messages
            },
            None => {
                &&& final(buckets).same_maps(old(buckets))
                &&& final(buckets).last_message == old(buckets).last_message
                &&& final(buckets).bad_messages == crate::buckets::inc(old(buckets).bad_messages)
            },
        },
        final(buckets).total_messages == crate::buckets::inc(old(buckets).total_messages),
        final(buckets).server_start_time == old(buckets).server_start_time,
{
    if !is_utf8(bytes) {
        buckets.record_bad();
        return false;
    }
    match parse(bytes) {
        Ok(m) => {
            buckets.add_metric_at(m, now);
            true
        },
        Err(_) => {
            buckets.record_bad();
            false
        },
    }
}

/// Handles one event of the loop. A tick hands the store to every backend in
/// order and then empties its maps; a datagram is taken in at the current
/// time; a connection is handed back for the caller to serve.
pub fn handle_event<C, B: Backend>(buckets: &mut Buckets, backends: &mut Vec<B>, event: Event<C>) -> (r:
    Option<C>)
    requires
        old(buckets).wf(),
    ensures
        final(buckets).wf(),
        final(buckets).server_start_time == old(buckets).server_start_time,
        match event {
            Event::FlushTick => {
                &&& r is None
                &&& final(backends)@.len() == old(backends)@.len()
                &&& forall|i: int|
                    0 <= i < old(backends)@.len() ==> (#[trigger] final(backends)@[i]).received()@
                        == old(backends)@[i].received()@.push(*old(buckets))
                &&& final(buckets).counters@ == Map::<Seq<u8>, Seq<CounterSample>>::empty()
                &&& final(buckets).gauges@ == Map::<Seq<u8>, Decimal>::empty()
                &&& final(buckets).histograms@ == Map::<Seq<u8>, Seq<Decimal>>::empty()
                &&& final(buckets).timers@ == Map::<Seq<u8>, Seq<Decimal>>::empty()
                &&& final(buckets).bad_messages == old(buckets).bad_messages
                &&& final(buckets).total_messages == old(buckets).total_messages
                &&& final(buckets).last_message == old(buckets).last_message
            },
            Event::InboundDatagram(b) => {
                &&& r is None
                &&& final(backends)@ == old(backends)@
                &&& final(buckets).total_messages == crate::buckets::inc(
                    old(buckets).total_messages,
                )
                &&& match datagram_metric(b@) {
                    Some(m) => final(buckets).added(old(buckets), m) && final(buckets).bad_messages
                        == old(buckets).bad_messages,
                    None => final(buckets).same_maps(old(buckets)) && final(buckets).bad_messages
                        == crate::buckets::inc(old(buckets).bad_messages)
                        && final(buckets).last_message == old(buckets).last_message,
                }
            },
            Event::InboundConnection(c) => {
                &&& final(backends)@ == old(backends)@
                &&& r == Some(c)
                &&& *final(buckets) == *old(buckets)
            },
        },
{
    match event {
        Event::FlushTick => {
            let mut i: usize = 0;
            while i < backends.len()
                invariant
                    *buckets == *old(buckets),
                    0 <= i <= backends@.len(),
                    backends@.len() == old(backends)@.len(),
                    forall|j: int|
                        0 <= j < i ==> (#[trigger] backends@[j]).received()@ == old(
                            backends,
                        )@[j].received()@.push(*old(buckets)),
                    forall|j: int| i <= j < backends@.len() ==> #[trigger] backends@[j] == old(
                        backends,
                    )@[j],
                decreases backends.len() - i,
            {
                backends[i].flush_buckets(buckets);
                i = i + 1;
            }
            buckets.flush();
            None
        },
        Event::InboundDatagram(b) => {
            let now = now_seconds();
            handle_datagram_at(buckets, b.as_slice(), now);
            None
        },
        Event::InboundConnection(c) => Some(c),
    }
}

} // verus!
