//! From the bearer to the protocols: every segment read goes to the inbound
//! queue of the protocol whose id it carries.

use crate::bearer::{reads_of, Bearer, Event, Wire};
use crate::channel::{EgressHandle, Offer};
use crate::segment::{Inbound, Payload};
use std::collections::HashMap;
use vstd::prelude::*;

verus! {

broadcast use vstd::std_specs::hash::group_hash_axioms;

/// The producing ends of the inbound queues, by protocol id.
pub type DemuxerEgress = HashMap<u16, EgressHandle>;

/// What became of one segment.
pub enum Routed {
    /// The queue of the segment's protocol took the payload.
    Delivered,
    /// No queue is registered under the segment's id; the segment was dropped.
    Unknown,
    /// The queue of the segment's protocol refused the payload, because its
    /// consumer is gone. The payload was dropped and the protocol is no
    /// longer routed; this is the handle that was removed.
    ConsumerGone(EgressHandle),
}

/// How a run of `rx_loop` ended.
pub struct Run {
    /// The bearer's error, if a read failed.
    pub failure: Option<std::io::Error>,
    /// The handles of the protocols that the run stopped routing, by id.
    pub dropped: DemuxerEgress,
}

/// Whether a segment is addressed to protocol `id`.
pub open spec fn addressed_to(id: u16) -> spec_fn(Inbound) -> bool {
    |s: Inbound| s.id == id
}

/// The payloads that a run of segments holds for protocol `id`, one for each
/// segment, in the order of the segments.
pub open spec fn payloads_for(segments: Seq<Inbound>, id: u16) -> Seq<Seq<u8>> {
    segments.filter(addressed_to(id)).map_values(|s: Inbound| s.chunk)
}

/// The record of payloads offered one after the other, all taken.
pub open spec fn accepted(payloads: Seq<Seq<u8>>) -> Seq<Offer> {
    payloads.map_values(|payload: Seq<u8>| Offer { payload, accepted: true })
}

/// How one protocol stands after a run of segments was routed.
///
/// A protocol that was routed before is either still routed or was dropped,
/// not both. It is still routed if and only if its queue took every payload
/// addressed to it: each was offered once, whole, in the order read. It was
/// dropped at the first payload that its queue refused: the payloads before
/// that one were taken, that one was offered and refused, and nothing was
/// offered after it. A protocol that was not routed before is not routed
/// after.
pub open spec fn routed_at(
    before: Map<u16, EgressHandle>,
    after: Map<u16, EgressHandle>,
    dropped: Map<u16, EgressHandle>,
    segments: Seq<Inbound>,
    id: u16,
) -> bool {
    if before.contains_key(id) {
        &&& after.contains_key(id) != dropped.contains_key(id)
        &&& after.contains_key(id) ==> {
            &&& after[id].sender() == before[id].sender()
            &&& after[id].offers() == before[id].offers() + accepted(payloads_for(segments, id))
        }
        &&& dropped.contains_key(id) ==> {
            &&& dropped[id].sender() == before[id].sender()
            &&& exists|j: int|
                {
                    &&& 0 <= j < segments.len()
                    &&& (#[trigger] segments[j]).id == id
                    &&& dropped[id].offers() == (before[id].offers() + accepted(
                        payloads_for(segments.take(j), id),
                    )).push(Offer { payload: segments[j].chunk, accepted: false })
                }
        }
    } else {
        !after.contains_key(id) && !dropped.contains_key(id)
    }
}

/// `routed_at` of every protocol.
pub open spec fn routed(
    before: Map<u16, EgressHandle>,
    after: Map<u16, EgressHandle>,
    dropped: Map<u16, EgressHandle>,
    segments: Seq<Inbound>,
) -> bool {
    forall|id: u16| #[trigger] routed_at(before, after, dropped, segments, id)
}

/// What a run read: `segments`, at most `limit` of them, one after the
/// other. Without a failure it read exactly `limit`. With a failure it read
/// fewer, the failed read came after them and was the last call made of the
/// bearer, and the failure is the bearer's error.
pub open spec fn ran(
    trace_before: Seq<Event>,
    trace_after: Seq<Event>,
    segments: Seq<Inbound>,
    limit: usize,
    failure: Option<std::io::Error>,
) -> bool {
    match failure {
        None => {
            &&& segments.len() == limit
            &&& trace_after == trace_before + reads_of(segments)
        },
        Some(err) => {
            &&& segments.len() < limit
            &&& trace_after == (trace_before + reads_of(segments)).push(Event::ReadFailed(err))
        },
    }
}

/// Acts on what a queue answered to an offer. `handle` is the handle of
/// protocol `id`, taken out of the map for the offer: if the queue took the
/// payload the handle goes back under its id, and if not it stays out and is
/// handed to the caller.
pub fn rx_settle(egress: &mut DemuxerEgress, id: u16, handle: EgressHandle, accepted: bool) -> (outcome:
    Routed)
    ensures
        accepted ==> outcome is Delivered && final(egress)@ == old(egress)@.insert(id, handle),
        !accepted ==> outcome == Routed::ConsumerGone(handle) && final(egress)@ == old(egress)@,
{
    if accepted {
        egress.insert(id, handle);
        Routed::Delivered
    } else {
        Routed::ConsumerGone(handle)
    }
}

/// Routes one segment. A segment for an id that is not registered changes
/// nothing. Otherwise the payload is offered to that protocol's queue, once,
/// whole and as it came. The outcome is `Delivered` if and only if the queue
/// took it, and then only that queue's record has changed. It is
/// `ConsumerGone` if and only if the queue refused it, and then only that
/// protocol's entry is removed, and handed to the caller.
pub fn rx_step(egress: &mut DemuxerEgress, segment: (u16, u32, Payload)) -> (outcome: Routed)
    ensures
        match outcome {
            Routed::Unknown => {
                &&& !old(egress)@.contains_key(segment.0)
                &&& final(egress)@ == old(egress)@
            },
            Routed::Delivered => {
                &&& old(egress)@.contains_key(segment.0)
                &&& final(egress)@.dom() == old(egress)@.dom()
                &&& final(egress)@.remove(segment.0) == old(egress)@.remove(segment.0)
                &&& final(egress)@[segment.0].sender() == old(egress)@[segment.0].sender()
                &&& final(egress)@[segment.0].offers() == old(egress)@[segment.0].offers().push(
                    Offer { payload: segment.2@, accepted: true },
                )
            },
            Routed::ConsumerGone(handle) => {
                &&& old(egress)@.contains_key(segment.0)
                &&& final(egress)@ == old(egress)@.remove(segment.0)
                &&& handle.sender() == old(egress)@[segment.0].sender()
                &&& handle.offers() == old(egress)@[segment.0].offers().push(
                    Offer { payload: segment.2@, accepted: false },
                )
            },
        },
{
    let (id, _timestamp, payload) = segment;
    match egress.remove(&id) {
        None => Routed::Unknown,
        Some(handle) => {
            let mut handle = handle;
            let accepted = handle.offer(payload);
            rx_settle(egress, id, handle, accepted)
        },
    }
}

/// One more segment, routed as `rx_step` does, keeps `routed` true of the
/// longer run.
proof fn lemma_routed_step(
    before: Map<u16, EgressHandle>,
    mid: Map<u16, EgressHandle>,
    after: Map<u16, EgressHandle>,
    dropped_mid: Map<u16, EgressHandle>,
    dropped_after: Map<u16, EgressHandle>,
    segments: Seq<Inbound>,
    next: Inbound,
)
    requires
        routed(before, mid, dropped_mid, segments),
        !mid.contains_key(next.id) ==> after == mid && dropped_after == dropped_mid,
        mid.contains_key(next.id) ==> {
            ||| {
                &&& dropped_after == dropped_mid
                &&& after.dom() == mid.dom()
                &&& after.remove(next.id) == mid.remove(next.id)
                &&& after[next.id].sender() == mid[next.id].sender()
                &&& after[next.id].offers() == mid[next.id].offers().push(
                    Offer { payload: next.chunk, accepted: true },
                )
            }
            ||| {
                &&& after == mid.remove(next.id)
                &&& dropped_after.dom() == dropped_mid.dom().insert(next.id)
                &&& dropped_after.remove(next.id) == dropped_mid.remove(next.id)
                &&& dropped_after[next.id].sender() == mid[next.id].sender()
                &&& dropped_after[next.id].offers() == mid[next.id].offers().push(
                    Offer { payload: next.chunk, accepted: false },
                )
            }
        },
    ensures
        routed(before, after, dropped_after, segments.push(next)),
{
    let longer = segments.push(next);
    assert forall|id: u16| #[trigger] routed_at(before, after, dropped_after, longer, id) by {
        assert(routed_at(before, mid, dropped_mid, segments, id));
        segments.lemma_filter_push(next, addressed_to(id));
        if id != next.id {
            if mid.contains_key(next.id) {
                assert(after.contains_key(id) ==> after.remove(next.id)[id] == mid.remove(
                    next.id,
                )[id]);
                assert(dropped_after.contains_key(id) ==> dropped_after.remove(next.id)[id]
                    == dropped_mid.remove(next.id)[id]);
            }
        } else if mid.contains_key(id) {
            assert(accepted(payloads_for(longer, id)) =~= accepted(
                payloads_for(segments, id),
            ).push(Offer { payload: next.chunk, accepted: true }));
            if !after.contains_key(id) {
                let j = segments.len() as int;
                assert(longer.take(j) =~= segments);
                assert(longer[j].id == id);
            }
        }
        if before.contains_key(id) && dropped_after.contains_key(id) && !(id == next.id
            && mid.contains_key(id)) {
            let j = choose|j: int|
                {
                    &&& 0 <= j < segments.len()
                    &&& (#[trigger] segments[j]).id == id
                    &&& dropped_mid[id].offers() == (before[id].offers() + accepted(
                        payloads_for(segments.take(j), id),
                    )).push(Offer { payload: segments[j].chunk, accepted: false })
                };
            assert(longer.take(j) =~= segments.take(j));
            assert(longer[j] == segments[j]);
        }
    }
}

/// Reads segments from the bearer and routes each as `rx_step` does, until
/// `limit` segments were routed or a read fails. A failed read ends the run
/// at once: it is the last call made of the bearer, its error is the
/// failure reported, and nothing is routed after it. Without a failed read
/// the run reports no failure.
///
/// The handles of the protocols that the run stopped routing are handed to
/// the caller, so that `routed` says of every protocol what its queue was
/// offered and what it answered.
pub fn rx_loop<TBearer: Bearer>(
    bearer: &mut Wire<TBearer>,
    egress: &mut DemuxerEgress,
    limit: usize,
) -> (run: Run)
    ensures
        exists|segments: Seq<Inbound>|
            {
                &&& #[trigger] ran(
                    old(bearer).trace(),
                    final(bearer).trace(),
                    segments,
                    limit,
                    run.failure,
                )
                &&& routed(old(egress)@, final(egress)@, run.dropped@, segments)
            },
{
    let ghost start = bearer.trace();
    let ghost mut seen = Seq::<Inbound>::empty();
    let mut dropped: DemuxerEgress = HashMap::new();
    let mut count: usize = 0;
    while count < limit
        invariant
            count <= limit,
            seen.len() == count,
            start == old(bearer).trace(),
            bearer.trace() == start + reads_of(seen),
            routed(old(egress)@, egress@, dropped@, seen),
        decreases limit - count,
    {
        match bearer.read_segment() {
            Err(err) => {
                assert(ran(start, bearer.trace(), seen, limit, Some(err)));
                return Run { failure: Some(err), dropped };
            },
            Ok(segment) => {
                let ghost next = Inbound { id: segment.0, timestamp: segment.1, chunk: segment.2@ };
                let ghost mid = egress@;
                let ghost dropped_mid = dropped@;
                let id = segment.0;
                match rx_step(egress, segment) {
                    Routed::ConsumerGone(handle) => {
                        dropped.insert(id, handle);
                        assert(dropped@.remove(id) =~= dropped_mid.remove(id));
                    },
                    Routed::Delivered => {},
                    Routed::Unknown => {},
                }
                proof {
                    lemma_routed_step(old(egress)@, mid, egress@, dropped_mid, dropped@, seen, next);
                    seen = seen.push(next);
                }
                count = count + 1;
            },
        }
    }
    assert(ran(start, bearer.trace(), seen, limit, None));
    Run { failure: None, dropped }
}

/// A segment addressed to one protocol takes no part in what any other
/// protocol is sent: with it or without it in the run, wherever it stands,
/// the payloads for the other protocol are the same. So a segment with an id
/// that no protocol is registered under, which `rx_step` drops, changes
/// nothing for the segments before or after it.
pub proof fn lemma_stray_segment_is_ignored(
    head: Seq<Inbound>,
    stray: Inbound,
    tail: Seq<Inbound>,
    id: u16,
)
    requires
        stray.id != id,
    ensures
        payloads_for(head + seq![stray] + tail, id) == payloads_for(head + tail, id),
{
    let addressed = addressed_to(id);
    Seq::filter_distributes_over_add(head + seq![stray], tail, addressed);
    Seq::filter_distributes_over_add(head, seq![stray], addressed);
    Seq::filter_distributes_over_add(head, tail, addressed);
    assert(seq![stray].filter(addressed) =~= Seq::<Inbound>::empty()) by {
        Seq::<Inbound>::empty().lemma_filter_push(stray, addressed);
    }
}

/// A protocol whose consumer went away during a run holds no other protocol
/// back: a protocol whose own queue refused nothing is still routed after
/// the run, and its queue took all the payloads addressed to it, in the
/// order read.
pub proof fn lemma_lost_consumer_spares_others(
    before: Map<u16, EgressHandle>,
    after: Map<u16, EgressHandle>,
    dropped: Map<u16, EgressHandle>,
    segments: Seq<Inbound>,
    gone: u16,
    id: u16,
)
    requires
        routed(before, after, dropped, segments),
        dropped.contains_key(gone),
        before.contains_key(id),
        !dropped.contains_key(id),
    ensures
        id != gone,
        after.contains_key(id),
        after[id].sender() == before[id].sender(),
        after[id].offers() == before[id].offers() + accepted(payloads_for(segments, id)),
{
    assert(routed_at(before, after, dropped, segments, id));
}

} // verus!
