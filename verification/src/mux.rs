//! From the protocols to the bearer: queued payloads are cut into segments
//! and written, one payload for each protocol in each pass.

use crate::bearer::{writes_of, Bearer, Event, Wire};
use crate::channel::{Answer, IngressHandle, Polled};
use crate::segment::{
    chunk_count, lemma_segments_carry_payload, reassemble, segments, Segment,
    MAX_SEGMENT_PAYLOAD_LENGTH,
};
use std::collections::HashMap;
use std::time::Instant;
use vstd::prelude::*;
use vstd::slice::slice_subrange;
use vstd::std_specs::iter::IteratorSpec;

verus! {

broadcast use vstd::std_specs::hash::group_hash_axioms;

/// The consuming ends of the outbound queues, by protocol id.
pub type MuxIngress = HashMap<u16, IngressHandle>;

/// Why a step wrote no payload, or not all of one.
pub enum TxStepError {
    /// The bearer failed on a write.
    BearerError(std::io::Error),
    /// The queue is empty and its producers are gone.
    IngressDisconnected,
    /// The queue is empty for now.
    IngressEmpty,
}

/// The bearer failed part-way through a payload: of the payload's segments
/// the first few were written, in order, then one write failed with `err`,
/// and no call was made of the bearer after it.
pub open spec fn cut_short(
    before: Seq<Event>,
    after: Seq<Event>,
    clock: Instant,
    id: u16,
    payload: Seq<u8>,
    err: std::io::Error,
) -> bool {
    exists|k: int|
        0 <= k < chunk_count(payload.len()) && after == (before + writes_of(
            #[trigger] segments(clock, id, payload).take(k),
        )).push(Event::WriteFailed(err))
}

/// Writes one payload as segments of at most `MAX_SEGMENT_PAYLOAD_LENGTH`
/// bytes, in order, each with the given id and clock. An empty payload makes
/// no call of the bearer and succeeds. The first write that fails ends the
/// call: the result is the bearer's error, and no call is made of the bearer
/// after that write.
pub fn tx_forward<TBearer: Bearer>(
    bearer: &mut Wire<TBearer>,
    ingress_id: u16,
    clock: Instant,
    payload: &[u8],
) -> (r: Result<(), std::io::Error>)
    ensures
        match r {
            Ok(_) => final(bearer).trace() == old(bearer).trace() + writes_of(
                segments(clock, ingress_id, payload@),
            ),
            Err(err) => cut_short(
                old(bearer).trace(),
                final(bearer).trace(),
                clock,
                ingress_id,
                payload@,
                err,
            ),
        },
{
    let len = payload.len();
    let ghost all = segments(clock, ingress_id, payload@);
    let ghost count = chunk_count(payload@.len()) as int;
    let ghost mut done: int = 0;
    let mut start: usize = 0;
    while start < len
        invariant
            len == payload@.len(),
            all == segments(clock, ingress_id, payload@),
            count == chunk_count(payload@.len()),
            0 <= done <= count,
            start == if done < count {
                done * MAX_SEGMENT_PAYLOAD_LENGTH
            } else {
                len as int
            },
            bearer.trace() == old(bearer).trace() + writes_of(all.take(done)),
        decreases len - start,
    {
        let size = if len - start > MAX_SEGMENT_PAYLOAD_LENGTH {
            MAX_SEGMENT_PAYLOAD_LENGTH
        } else {
            len - start
        };
        let part = slice_subrange(payload, start, start + size);
        match bearer.write_segment(clock, ingress_id, part) {
            Err(err) => {
                return Err(err);
            },
            Ok(_) => {},
        }
        proof {
            done = done + 1;
        }
        start = start + size;
    }
    Ok(())
}

/// What a step does with an answer of the queue. A payload is written whole,
/// or cut short by the bearer, whose error is then the step's. With an empty
/// or a disconnected queue no call is made of the bearer and the error says
/// which of the two it was.
pub open spec fn stepped(
    before: Seq<Event>,
    after: Seq<Event>,
    answer: Answer,
    clock: Instant,
    id: u16,
    r: Result<(), TxStepError>,
) -> bool {
    match answer {
        Answer::Payload(payload) => match r {
            Ok(_) => after == before + writes_of(segments(clock, id, payload)),
            Err(TxStepError::BearerError(err)) => cut_short(before, after, clock, id, payload, err),
            Err(_) => false,
        },
        Answer::Empty => r matches Err(TxStepError::IngressEmpty) && after == before,
        Answer::Disconnected => r matches Err(TxStepError::IngressDisconnected) && after == before,
    }
}

/// Acts on what a queue answered, as `stepped` says.
pub fn tx_dispatch<TBearer: Bearer>(
    bearer: &mut Wire<TBearer>,
    ingress_id: u16,
    clock: Instant,
    polled: Polled,
) -> (r: Result<(), TxStepError>)
    ensures
        stepped(old(bearer).trace(), final(bearer).trace(), polled.answer(), clock, ingress_id, r),
{
    match polled {
        Polled::Payload(payload) => {
            match tx_forward(bearer, ingress_id, clock, payload.as_slice()) {
                Ok(_) => Ok(()),
                Err(err) => Err(TxStepError::BearerError(err)),
            }
        },
        Polled::Disconnected => Err(TxStepError::IngressDisconnected),
        Polled::Empty => Err(TxStepError::IngressEmpty),
    }
}

/// The same queue end, asked exactly once more.
pub open spec fn asked_once(was: IngressHandle, is: IngressHandle) -> bool {
    &&& is.receiver() == was.receiver()
    &&& is.answers().len() == was.answers().len() + 1
    &&& is.answers().drop_last() == was.answers()
}

/// Serves one protocol once: asks its queue for a payload, once and without
/// waiting, and acts on the answer as `stepped` says.
pub fn tx_step<TBearer: Bearer>(
    bearer: &mut Wire<TBearer>,
    ingress_id: u16,
    ingress_rx: &mut IngressHandle,
    clock: Instant,
) -> (r: Result<(), TxStepError>)
    ensures
        asked_once(*old(ingress_rx), *final(ingress_rx)),
        stepped(
            old(bearer).trace(),
            final(bearer).trace(),
            final(ingress_rx).answers().last(),
            clock,
            ingress_id,
            r,
        ),
{
    let polled = ingress_rx.poll();
    assert(ingress_rx.answers().drop_last() =~= old(ingress_rx).answers());
    tx_dispatch(bearer, ingress_id, clock, polled)
}

/// What a pass does with a protocol after its step.
pub enum Settled {
    /// A payload was written: the protocol stays.
    Kept,
    /// The queue was empty: the protocol stays, and the pass is idle.
    KeptIdle,
    /// The producers are gone: the protocol is served no longer.
    Dropped,
    /// The bearer failed: the protocol stays, and the pass ends.
    Failed(std::io::Error),
}

/// Acts on the result of a step. `handle` is the handle of protocol `id`,
/// taken out of the map for the step. It goes back under its id unless the
/// step found the producers gone; then it goes among the closed.
pub fn tx_settle(
    ingress: &mut MuxIngress,
    closed: &mut MuxIngress,
    id: u16,
    handle: IngressHandle,
    result: Result<(), TxStepError>,
) -> (settled: Settled)
    ensures
        match result {
            Ok(_) => {
                &&& settled is Kept
                &&& final(ingress)@ == old(ingress)@.insert(id, handle)
                &&& final(closed)@ == old(closed)@
            },
            Err(TxStepError::IngressEmpty) => {
                &&& settled is KeptIdle
                &&& final(ingress)@ == old(ingress)@.insert(id, handle)
                &&& final(closed)@ == old(closed)@
            },
            Err(TxStepError::IngressDisconnected) => {
                &&& settled is Dropped
                &&& final(ingress)@ == old(ingress)@
                &&& final(closed)@ == old(closed)@.insert(id, handle)
            },
            Err(TxStepError::BearerError(err)) => {
                &&& settled == Settled::Failed(err)
                &&& final(ingress)@ == old(ingress)@.insert(id, handle)
                &&& final(closed)@ == old(closed)@
            },
        },
{
    match result {
        Ok(_) => {
            ingress.insert(id, handle);
            Settled::Kept
        },
        Err(TxStepError::IngressEmpty) => {
            ingress.insert(id, handle);
            Settled::KeptIdle
        },
        Err(TxStepError::IngressDisconnected) => {
            closed.insert(id, handle);
            Settled::Dropped
        },
        Err(TxStepError::BearerError(err)) => {
            ingress.insert(id, handle);
            Settled::Failed(err)
        },
    }
}

/// How a pass ended.
pub enum PassOutcome {
    /// No queue was found empty: scan again at once.
    Busy,
    /// At least one queue was found empty: wait a little before the next pass.
    Idle,
    /// The bearer failed on a write: the pass stopped there, for good.
    Failed(std::io::Error),
}

/// What a pass hands back.
pub struct Pass {
    /// How the pass ended.
    pub outcome: PassOutcome,
    /// The handles of the protocols that the pass stopped serving, by id.
    pub closed: MuxIngress,
}

/// The handle of protocol `id` as a pass left it: among those still served,
/// or among the closed.
pub open spec fn handle_at(
    after: Map<u16, IngressHandle>,
    closed: Map<u16, IngressHandle>,
    id: u16,
) -> IngressHandle {
    if after.contains_key(id) {
        after[id]
    } else {
        closed[id]
    }
}

/// The last answer of the queue of `id`, as a pass left its handle.
pub open spec fn answer_at(
    after: Map<u16, IngressHandle>,
    closed: Map<u16, IngressHandle>,
    id: u16,
) -> Answer {
    handle_at(after, closed, id).answers().last()
}

/// The pass came to `id`. A protocol that was registered had its queue asked
/// exactly once, and is now either still served or closed, not both: closed
/// if and only if its queue answered that the producers are gone. An id that
/// was not registered is not registered now.
pub open spec fn served(
    before: Map<u16, IngressHandle>,
    after: Map<u16, IngressHandle>,
    closed: Map<u16, IngressHandle>,
    id: u16,
) -> bool {
    if before.contains_key(id) {
        &&& after.contains_key(id) != closed.contains_key(id)
        &&& asked_once(before[id], handle_at(after, closed, id))
        &&& closed.contains_key(id) <==> answer_at(after, closed, id) is Disconnected
    } else {
        !after.contains_key(id) && !closed.contains_key(id)
    }
}

/// The pass did not come to `id`: its queue was not asked, and registered or
/// not, it is as it was.
pub open spec fn untouched(
    before: Map<u16, IngressHandle>,
    after: Map<u16, IngressHandle>,
    closed: Map<u16, IngressHandle>,
    id: u16,
) -> bool {
    &&& !closed.contains_key(id)
    &&& after.contains_key(id) == before.contains_key(id)
    &&& before.contains_key(id) ==> {
        &&& after[id].receiver() == before[id].receiver()
        &&& after[id].answers() == before[id].answers()
    }
}

/// The pass came to `id`, which was registered, and its queue answered that
/// it was empty.
pub open spec fn found_empty(
    before: Map<u16, IngressHandle>,
    after: Map<u16, IngressHandle>,
    closed: Map<u16, IngressHandle>,
    id: u16,
) -> bool {
    before.contains_key(id) && answer_at(after, closed, id) is Empty
}

/// The segments that a pass wrote for an id it came to: those of the payload
/// that the queue gave, or none if the queue gave none or the id was not
/// registered.
pub open spec fn pass_segments(
    before: Map<u16, IngressHandle>,
    after: Map<u16, IngressHandle>,
    closed: Map<u16, IngressHandle>,
    clock: Instant,
    id: u16,
) -> Seq<Segment> {
    if before.contains_key(id) {
        match answer_at(after, closed, id) {
            Answer::Payload(payload) => segments(clock, id, payload),
            _ => Seq::empty(),
        }
    } else {
        Seq::empty()
    }
}

/// The segments that a pass wrote while it came to the ids of `order`: for
/// each id in turn, the segments of that id's payload, all with one clock.
pub open spec fn pass_written(
    before: Map<u16, IngressHandle>,
    after: Map<u16, IngressHandle>,
    closed: Map<u16, IngressHandle>,
    clock: Instant,
    order: Seq<u16>,
) -> Seq<Segment>
    decreases order.len(),
{
    if order.len() == 0 {
        Seq::empty()
    } else {
        pass_written(before, after, closed, clock, order.drop_last()) + pass_segments(
            before,
            after,
            closed,
            clock,
            order.last(),
        )
    }
}

/// What holds after a pass over the ids of `order`, each once and in that
/// order.
///
/// The pass came to no id outside `order`. If it did not fail, it came to
/// every id of `order`, the only calls it made of the bearer wrote
/// `pass_written`, and it is idle if and only if a queue answered that it
/// was empty. If it failed, it came to the ids before some id of `order`
/// and to that id, whose queue gave a payload that the bearer cut short
/// with the error reported; that protocol is still served, and the pass
/// came to no later id.
pub open spec fn scanned(
    before: Map<u16, IngressHandle>,
    after: Map<u16, IngressHandle>,
    closed: Map<u16, IngressHandle>,
    trace_before: Seq<Event>,
    trace_after: Seq<Event>,
    clock: Instant,
    order: Seq<u16>,
    outcome: PassOutcome,
) -> bool {
    &&& forall|id: u16| !order.contains(id) ==> #[trigger] untouched(before, after, closed, id)
    &&& match outcome {
        PassOutcome::Failed(err) => exists|n: int|
            {
                &&& 0 <= n < order.len()
                &&& forall|m: int|
                    0 <= m <= n ==> served(before, after, closed, #[trigger] order[m])
                &&& forall|m: int|
                    n < m < order.len() ==> untouched(before, after, closed, #[trigger] order[m])
                &&& before.contains_key(order[n])
                &&& #[trigger] answer_at(after, closed, order[n]) matches Answer::Payload(payload)
                &&& cut_short(
                    trace_before + writes_of(
                        pass_written(before, after, closed, clock, order.take(n)),
                    ),
                    trace_after,
                    clock,
                    order[n],
                    payload,
                    err,
                )
            },
        _ => {
            &&& forall|m: int|
                0 <= m < order.len() ==> served(before, after, closed, #[trigger] order[m])
            &&& trace_after == trace_before + writes_of(
                pass_written(before, after, closed, clock, order),
            )
            &&& outcome is Idle <==> exists|n: int|
                0 <= n < order.len() && found_empty(before, after, closed, #[trigger] order[n])
        },
    }
}

/// Two states of the queues in which every id of `order` has the same handle
/// give the same `pass_written`.
proof fn lemma_pass_written_frame(
    before: Map<u16, IngressHandle>,
    after: Map<u16, IngressHandle>,
    closed: Map<u16, IngressHandle>,
    after2: Map<u16, IngressHandle>,
    closed2: Map<u16, IngressHandle>,
    clock: Instant,
    order: Seq<u16>,
)
    requires
        forall|j: int|
            0 <= j < order.len() ==> handle_at(after, closed, #[trigger] order[j]) == handle_at(
                after2,
                closed2,
                order[j],
            ),
    ensures
        pass_written(before, after, closed, clock, order) == pass_written(
            before,
            after2,
            closed2,
            clock,
            order,
        ),
    decreases order.len(),
{
    if order.len() > 0 {
        lemma_pass_written_frame(before, after, closed, after2, closed2, clock, order.drop_last());
    }
}

/// An id that stands at place `i` of a run without repeats stands at no
/// earlier place.
proof fn lemma_not_seen(order: Seq<u16>, i: int)
    requires
        0 <= i < order.len(),
        order.no_duplicates(),
    ensures
        !order.take(i).contains(order[i]),
        forall|m: int| 0 <= m < i ==> #[trigger] order[m] != order[i],
        forall|other: u16|
            !order.take(i + 1).contains(other) ==> other != order[i] && !order.take(i).contains(
                other,
            ),
        forall|m: int| i < m < order.len() ==> !order.take(i + 1).contains(#[trigger] order[m]),
{
    let seen = order.take(i);
    let next = order.take(i + 1);
    if seen.contains(order[i]) {
        let j = choose|j: int| 0 <= j < seen.len() && seen[j] == order[i];
        assert(order[j] == order[i]);
    }
    assert forall|other: u16| !next.contains(other) implies other != order[i] && !seen.contains(
        other,
    ) by {
        if other == order[i] {
            assert(next[i] == other);
        }
        if seen.contains(other) {
            let j = choose|j: int| 0 <= j < seen.len() && seen[j] == other;
            assert(next[j] == other);
        }
    }
    assert forall|m: int| i < m < order.len() implies !next.contains(#[trigger] order[m]) by {
        if next.contains(order[m]) {
            let j = choose|j: int| 0 <= j < next.len() && next[j] == order[m];
            assert(order[j] == order[m]);
        }
    }
}

/// One pass over the given ids, in their order. Each id that is registered
/// has its queue asked once, with `tx_step`, and is settled with
/// `tx_settle`: a protocol whose producers are gone is closed, and the pass
/// goes on with the next id. A bearer error ends the pass at once.
pub fn tx_scan<TBearer: Bearer>(
    bearer: &mut Wire<TBearer>,
    ingress: &mut MuxIngress,
    ids: &Vec<u16>,
    clock: Instant,
) -> (pass: Pass)
    requires
        ids@.no_duplicates(),
    ensures
        scanned(
            old(ingress)@,
            final(ingress)@,
            pass.closed@,
            old(bearer).trace(),
            final(bearer).trace(),
            clock,
            ids@,
            pass.outcome,
        ),
{
    let ghost before = ingress@;
    let ghost start = bearer.trace();
    let ghost order = ids@;
    let mut closed: MuxIngress = HashMap::new();
    let mut idle = false;
    let mut i: usize = 0;
    while i < ids.len()
        invariant
            0 <= i <= ids.len(),
            order == ids@,
            order.no_duplicates(),
            before == old(ingress)@,
            start == old(bearer).trace(),
            forall|m: int| 0 <= m < i ==> served(before, ingress@, closed@, #[trigger] order[m]),
            forall|id: u16|
                !order.take(i as int).contains(id) ==> #[trigger] untouched(
                    before,
                    ingress@,
                    closed@,
                    id,
                ),
            bearer.trace() == start + writes_of(
                pass_written(before, ingress@, closed@, clock, order.take(i as int)),
            ),
            idle <==> exists|n: int|
                0 <= n < i && found_empty(before, ingress@, closed@, #[trigger] order[n]),
        decreases ids.len() - i,
    {
        let id = ids[i];
        let ghost mid = ingress@;
        let ghost closed_mid = closed@;
        let ghost seen = order.take(i as int);
        let ghost next = order.take(i + 1);
        proof {
            lemma_not_seen(order, i as int);
            assert(next.drop_last() =~= seen);
            assert(untouched(before, mid, closed_mid, id));
        }
        let mut failure: Option<std::io::Error> = None;
        match ingress.remove(&id) {
            None => {},
            Some(handle) => {
                let mut handle = handle;
                let result = tx_step(bearer, id, &mut handle, clock);
                match tx_settle(ingress, &mut closed, id, handle, result) {
                    Settled::Kept => {},
                    Settled::KeptIdle => {
                        idle = true;
                    },
                    Settled::Dropped => {},
                    Settled::Failed(err) => {
                        failure = Some(err);
                    },
                }
            },
        }
        proof {
            let after = ingress@;
            let closed_after = closed@;
            assert forall|other: u16| !next.contains(other) implies #[trigger] untouched(
                before,
                after,
                closed_after,
                other,
            ) by {
                assert(untouched(before, mid, closed_mid, other));
            }
            lemma_pass_written_frame(before, mid, closed_mid, after, closed_after, clock, seen);
        }
        match failure {
            Some(err) => {
                return Pass { outcome: PassOutcome::Failed(err), closed };
            },
            None => {},
        }
        i = i + 1;
    }
    assert(order.take(i as int) =~= order);
    if idle {
        Pass { outcome: PassOutcome::Idle, closed }
    } else {
        Pass { outcome: PassOutcome::Busy, closed }
    }
}

/// The ids that are registered, each once, in the order in which the map
/// hands them out.
fn registered(ingress: &MuxIngress) -> (ids: Vec<u16>)
    ensures
        ids@.no_duplicates(),
        ids@.to_set() == ingress@.dom(),
{
    let mut ids: Vec<u16> = Vec::new();
    let keys = ingress.keys();
    let ghost all = keys.remaining().unref();
    for id in it: keys
        invariant
            it.seq().unref() == all,
            ids@ == all.take(it.index()),
    {
        ids.push(*id);
    }
    assert(ids@ =~= all);
    ids
}

/// One pass over every registered protocol: the queue of each is asked
/// once, in an order that the map chooses. It is `tx_scan` over that order.
pub fn tx_pass<TBearer: Bearer>(
    bearer: &mut Wire<TBearer>,
    ingress: &mut MuxIngress,
    clock: Instant,
) -> (pass: Pass)
    ensures
        exists|order: Seq<u16>|
            {
                &&& order.no_duplicates()
                &&& order.to_set() == old(ingress)@.dom()
                &&& #[trigger] scanned(
                    old(ingress)@,
                    final(ingress)@,
                    pass.closed@,
                    old(bearer).trace(),
                    final(bearer).trace(),
                    clock,
                    order,
                    pass.outcome,
                )
            },
{
    let ids = registered(ingress);
    tx_scan(bearer, ingress, &ids, clock)
}

/// What a pass wrote for a run of ids is what it wrote for the first of them
/// followed by what it wrote for the rest.
proof fn lemma_pass_written_split(
    before: Map<u16, IngressHandle>,
    after: Map<u16, IngressHandle>,
    closed: Map<u16, IngressHandle>,
    clock: Instant,
    head: Seq<u16>,
    tail: Seq<u16>,
)
    ensures
        pass_written(before, after, closed, clock, head + tail) == pass_written(
            before,
            after,
            closed,
            clock,
            head,
        ) + pass_written(before, after, closed, clock, tail),
    decreases tail.len(),
{
    if tail.len() > 0 {
        lemma_pass_written_split(before, after, closed, clock, head, tail.drop_last());
        assert((head + tail).drop_last() =~= head + tail.drop_last());
    } else {
    }
}

/// In a pass that did not fail, the payload that a queue gave was written
/// whole: its segments stand in what the pass wrote, in order and with no
/// other segment between them, after what was written for the ids before it
/// and before what was written for the ids after it.
pub proof fn lemma_pass_writes_each_payload_whole(
    before: Map<u16, IngressHandle>,
    after: Map<u16, IngressHandle>,
    closed: Map<u16, IngressHandle>,
    trace_before: Seq<Event>,
    trace_after: Seq<Event>,
    clock: Instant,
    order: Seq<u16>,
    outcome: PassOutcome,
    n: int,
    payload: Seq<u8>,
)
    requires
        scanned(before, after, closed, trace_before, trace_after, clock, order, outcome),
        !(outcome is Failed),
        0 <= n < order.len(),
        before.contains_key(order[n]),
        answer_at(after, closed, order[n]) == Answer::Payload(payload),
    ensures
        trace_after == trace_before + writes_of(
            pass_written(before, after, closed, clock, order.take(n)) + segments(
                clock,
                order[n],
                payload,
            ) + pass_written(before, after, closed, clock, order.skip(n + 1)),
        ),
{
    let head = order.take(n);
    let here = seq![order[n]];
    let tail = order.skip(n + 1);
    assert(order =~= (head + here) + tail);
    lemma_pass_written_split(before, after, closed, clock, head + here, tail);
    lemma_pass_written_split(before, after, closed, clock, head, here);
    assert(here.drop_last() =~= Seq::<u16>::empty());
    assert(pass_written(before, after, closed, clock, Seq::<u16>::empty()) =~= Seq::<
        Segment,
    >::empty());
}

/// A protocol whose producers went away holds no other protocol back. In a
/// pass that did not fail and that found the producers of `gone` gone,
/// `gone` is closed and served no longer; and a protocol whose queue gave a
/// payload in the same pass had it written whole, and is still served.
pub proof fn lemma_closed_queue_spares_others(
    before: Map<u16, IngressHandle>,
    after: Map<u16, IngressHandle>,
    closed: Map<u16, IngressHandle>,
    trace_before: Seq<Event>,
    trace_after: Seq<Event>,
    clock: Instant,
    order: Seq<u16>,
    outcome: PassOutcome,
    gone: int,
    n: int,
    payload: Seq<u8>,
)
    requires
        scanned(before, after, closed, trace_before, trace_after, clock, order, outcome),
        !(outcome is Failed),
        0 <= gone < order.len(),
        before.contains_key(order[gone]),
        answer_at(after, closed, order[gone]) is Disconnected,
        0 <= n < order.len(),
        before.contains_key(order[n]),
        answer_at(after, closed, order[n]) == Answer::Payload(payload),
    ensures
        order[n] != order[gone],
        closed.contains_key(order[gone]),
        !after.contains_key(order[gone]),
        after.contains_key(order[n]),
        !closed.contains_key(order[n]),
        trace_after == trace_before + writes_of(
            pass_written(before, after, closed, clock, order.take(n)) + segments(
                clock,
                order[n],
                payload,
            ) + pass_written(before, after, closed, clock, order.skip(n + 1)),
        ),
{
    lemma_pass_writes_each_payload_whole(
        before,
        after,
        closed,
        trace_before,
        trace_after,
        clock,
        order,
        outcome,
        n,
        payload,
    );
}

/// Where every queue that the pass came to answered that it was empty,
/// `pass_written` is empty.
proof fn lemma_empty_queues_no_segments(
    before: Map<u16, IngressHandle>,
    after: Map<u16, IngressHandle>,
    closed: Map<u16, IngressHandle>,
    clock: Instant,
    order: Seq<u16>,
)
    requires
        forall|m: int|
            0 <= m < order.len() && before.contains_key(#[trigger] order[m]) ==> answer_at(
                after,
                closed,
                order[m],
            ) is Empty,
    ensures
        pass_written(before, after, closed, clock, order) == Seq::<Segment>::empty(),
    decreases order.len(),
{
    if order.len() > 0 {
        lemma_empty_queues_no_segments(before, after, closed, clock, order.drop_last());
    }
}

/// A pass that finds every queue empty makes no call of the bearer, does not
/// fail, and closes no protocol: every protocol that was served is still
/// served, through the same queue end. It is idle if it came to a registered
/// protocol at all. So any number of such passes, one after another, write
/// nothing and lose no protocol.
pub proof fn lemma_empty_pass_writes_nothing(
    before: Map<u16, IngressHandle>,
    after: Map<u16, IngressHandle>,
    closed: Map<u16, IngressHandle>,
    trace_before: Seq<Event>,
    trace_after: Seq<Event>,
    clock: Instant,
    order: Seq<u16>,
    outcome: PassOutcome,
)
    requires
        scanned(before, after, closed, trace_before, trace_after, clock, order, outcome),
        forall|m: int|
            0 <= m < order.len() && before.contains_key(#[trigger] order[m]) ==> answer_at(
                after,
                closed,
                order[m],
            ) is Empty,
    ensures
        trace_after == trace_before,
        !(outcome is Failed),
        outcome is Idle <==> exists|m: int|
            0 <= m < order.len() && before.contains_key(#[trigger] order[m]),
        forall|id: u16| !closed.contains_key(id),
        forall|id: u16| #[trigger]
            before.contains_key(id) ==> after.contains_key(id) && after[id].receiver()
                == before[id].receiver(),
{
    lemma_empty_queues_no_segments(before, after, closed, clock, order);
    assert(trace_before + writes_of(Seq::<Segment>::empty()) =~= trace_before);
    assert(!(outcome is Failed));
    assert forall|id: u16| !closed.contains_key(id) by {
        if order.contains(id) {
            let m = choose|m: int| 0 <= m < order.len() && order[m] == id;
            assert(served(before, after, closed, order[m]));
        } else {
            assert(untouched(before, after, closed, id));
        }
    }
    assert forall|id: u16| #[trigger] before.contains_key(id) implies after.contains_key(id)
        && after[id].receiver() == before[id].receiver() by {
        if order.contains(id) {
            let m = choose|m: int| 0 <= m < order.len() && order[m] == id;
            assert(served(before, after, closed, order[m]));
        } else {
            assert(untouched(before, after, closed, id));
        }
    }
    if outcome is Idle {
        let n = choose|n: int|
            0 <= n < order.len() && found_empty(before, after, closed, #[trigger] order[n]);
        assert(before.contains_key(order[n]));
    }
    if exists|m: int| 0 <= m < order.len() && before.contains_key(#[trigger] order[m]) {
        let m = choose|m: int| 0 <= m < order.len() && before.contains_key(#[trigger] order[m]);
        assert(found_empty(before, after, closed, order[m]));
    }
}

/// Whether a segment carries the id of protocol `id`.
pub open spec fn carrying(id: u16) -> spec_fn(Segment) -> bool {
    |s: Segment| s.id == id
}

/// Of segments that all carry one id, those that carry `id` are all of them
/// or none.
proof fn lemma_filter_one_protocol(run: Seq<Segment>, of: u16, id: u16)
    requires
        forall|i: int| 0 <= i < run.len() ==> (#[trigger] run[i]).id == of,
    ensures
        run.filter(carrying(id)) == if of == id {
            run
        } else {
            Seq::empty()
        },
    decreases run.len(),
{
    if run.len() > 0 {
        lemma_filter_one_protocol(run.drop_last(), of, id);
        run.drop_last().lemma_filter_push(run.last(), carrying(id));
        assert(run.drop_last().push(run.last()) =~= run);
    }
}

/// Every segment that a pass wrote for a protocol carries that protocol's id.
proof fn lemma_pass_segments_carry_id(
    before: Map<u16, IngressHandle>,
    after: Map<u16, IngressHandle>,
    closed: Map<u16, IngressHandle>,
    clock: Instant,
    id: u16,
)
    ensures
        forall|i: int|
            0 <= i < pass_segments(before, after, closed, clock, id).len() ==> (
            #[trigger] pass_segments(before, after, closed, clock, id)[i]).id == id,
{
}

/// An id stands in a run without repeats either before the last place or in
/// the last place, not both.
proof fn lemma_last_of_distinct(order: Seq<u16>, id: u16)
    requires
        order.len() > 0,
        order.no_duplicates(),
    ensures
        order.drop_last().no_duplicates(),
        order.contains(id) <==> order.drop_last().contains(id) || order.last() == id,
        !(order.drop_last().contains(id) && order.last() == id),
{
    let rest = order.drop_last();
    if rest.contains(id) {
        let j = choose|j: int| 0 <= j < rest.len() && rest[j] == id;
        assert(order[j] == id);
    }
    if order.contains(id) && order.last() != id {
        let j = choose|j: int| 0 <= j < order.len() && order[j] == id;
        assert(rest[j] == id);
    }
}

/// A pass keeps the protocols apart: of what it wrote, the segments that
/// carry the id of one protocol are the segments of the one payload that
/// this protocol's queue gave in the pass, whole and in order, and no
/// others. No segment with that id carries bytes of any other payload.
pub proof fn lemma_pass_keeps_protocols_apart(
    before: Map<u16, IngressHandle>,
    after: Map<u16, IngressHandle>,
    closed: Map<u16, IngressHandle>,
    clock: Instant,
    order: Seq<u16>,
    id: u16,
)
    requires
        order.no_duplicates(),
    ensures
        pass_written(before, after, closed, clock, order).filter(carrying(id)) == if order.contains(
            id,
        ) {
            pass_segments(before, after, closed, clock, id)
        } else {
            Seq::empty()
        },
    decreases order.len(),
{
    if order.len() > 0 {
        let rest = order.drop_last();
        let last = order.last();
        let earlier = pass_written(before, after, closed, clock, rest);
        let here = pass_segments(before, after, closed, clock, last);
        lemma_last_of_distinct(order, id);
        lemma_pass_keeps_protocols_apart(before, after, closed, clock, rest, id);
        lemma_pass_segments_carry_id(before, after, closed, clock, last);
        lemma_filter_one_protocol(here, last, id);
        Seq::filter_distributes_over_add(earlier, here, carrying(id));
    }
}

/// The bytes that the record of a bearer shows as written for protocol `id`,
/// in the order written.
pub open spec fn bytes_written(trace: Seq<Event>, id: u16) -> Seq<u8>
    decreases trace.len(),
{
    if trace.len() == 0 {
        Seq::empty()
    } else {
        bytes_written(trace.drop_last(), id) + match trace.last() {
            Event::Written(s) => if s.id == id {
                s.chunk
            } else {
                Seq::empty()
            },
            _ => Seq::empty(),
        }
    }
}

/// The bytes of the payloads among the answers of a queue, in the order
/// given.
pub open spec fn bytes_given(answers: Seq<Answer>) -> Seq<u8>
    decreases answers.len(),
{
    if answers.len() == 0 {
        Seq::empty()
    } else {
        bytes_given(answers.drop_last()) + match answers.last() {
            Answer::Payload(payload) => payload,
            _ => Seq::empty(),
        }
    }
}

/// The bytes written for a protocol in a record made of two parts are those
/// of the first part followed by those of the second.
proof fn lemma_bytes_written_split(head: Seq<Event>, tail: Seq<Event>, id: u16)
    ensures
        bytes_written(head + tail, id) == bytes_written(head, id) + bytes_written(tail, id),
    decreases tail.len(),
{
    if tail.len() > 0 {
        lemma_bytes_written_split(head, tail.drop_last(), id);
        assert((head + tail).drop_last() =~= head + tail.drop_last());
        assert((head + tail).last() == tail.last());
        assert(bytes_written(head + tail, id) =~= bytes_written(head, id) + bytes_written(
            tail,
            id,
        ));
    } else {
        assert(head + tail =~= head);
        assert(bytes_written(head, id) + bytes_written(tail, id) =~= bytes_written(head, id));
    }
}

/// The bytes written for a protocol by a run of accepted writes are the
/// bytes of those segments of the run that carry its id.
proof fn lemma_bytes_of_writes(run: Seq<Segment>, id: u16)
    ensures
        bytes_written(writes_of(run), id) == reassemble(run.filter(carrying(id))),
    decreases run.len(),
{
    if run.len() > 0 {
        let rest = run.drop_last();
        let last = run.last();
        lemma_bytes_of_writes(rest, id);
        rest.lemma_filter_push(last, carrying(id));
        assert(rest.push(last) =~= run);
        assert(writes_of(run).drop_last() =~= writes_of(rest));
        assert(writes_of(run).last() == Event::Written(last));
        if last.id == id {
            let kept = rest.filter(carrying(id));
            assert(kept.push(last).map_values(|s: Segment| s.chunk) =~= kept.map_values(
                |s: Segment| s.chunk,
            ).push(last.chunk));
            kept.map_values(|s: Segment| s.chunk).lemma_flatten_push(last.chunk);
        } else {
            assert(bytes_written(writes_of(rest), id) + Seq::<u8>::empty() =~= bytes_written(
                writes_of(rest),
                id,
            ));
        }
    } else {
        assert(run.filter(carrying(id)) =~= Seq::<Segment>::empty()) by {
            reveal(Seq::filter);
        }
        assert(Seq::<Segment>::empty().map_values(|s: Segment| s.chunk) =~= Seq::<
            Seq<u8>,
        >::empty());
    }
}

/// Passes keep what is written in step with what the queues give. If, before
/// a pass that does not fail, the bytes written under the id of a registered
/// protocol are the bytes of the payloads that its queue gave so far, in the
/// order given, then the same holds after the pass. It holds when nothing
/// was asked and nothing written; so after any number of such passes the
/// bytes written under an id are those that its queue gave, whole and in
/// the order given, and no others.
pub proof fn lemma_pass_keeps_bytes_in_step(
    before: Map<u16, IngressHandle>,
    after: Map<u16, IngressHandle>,
    closed: Map<u16, IngressHandle>,
    trace_before: Seq<Event>,
    trace_after: Seq<Event>,
    clock: Instant,
    order: Seq<u16>,
    outcome: PassOutcome,
    id: u16,
)
    requires
        scanned(before, after, closed, trace_before, trace_after, clock, order, outcome),
        !(outcome is Failed),
        order.no_duplicates(),
        before.contains_key(id),
        bytes_written(trace_before, id) == bytes_given(before[id].answers()),
    ensures
        bytes_written(trace_after, id) == bytes_given(handle_at(after, closed, id).answers()),
{
    let wrote = pass_written(before, after, closed, clock, order);
    lemma_bytes_written_split(trace_before, writes_of(wrote), id);
    lemma_bytes_of_writes(wrote, id);
    lemma_pass_keeps_protocols_apart(before, after, closed, clock, order, id);
    let none = Seq::<Segment>::empty();
    assert(reassemble(none) =~= Seq::<u8>::empty()) by {
        assert(none.map_values(|s: Segment| s.chunk) =~= Seq::<Seq<u8>>::empty());
    }
    if order.contains(id) {
        let m = choose|m: int| 0 <= m < order.len() && order[m] == id;
        assert(served(before, after, closed, order[m]));
        let handle = handle_at(after, closed, id);
        assert(handle.answers().drop_last() == before[id].answers());
        match handle.answers().last() {
            Answer::Payload(payload) => {
                lemma_segments_carry_payload(clock, id, payload);
            },
            _ => {
                assert(bytes_written(trace_before, id) + Seq::<u8>::empty() =~= bytes_written(
                    trace_before,
                    id,
                ));
                assert(bytes_given(before[id].answers()) + Seq::<u8>::empty() =~= bytes_given(
                    before[id].answers(),
                ));
            },
        }
    } else {
        assert(untouched(before, after, closed, id));
        assert(bytes_written(trace_before, id) + Seq::<u8>::empty() =~= bytes_written(
            trace_before,
            id,
        ));
    }
}

} // verus!
