//! The bearer: the transport that segments are written to and read from, and
//! the record of what has happened at it.

use crate::segment::{Inbound, Payload, Segment, MAX_SEGMENT_PAYLOAD_LENGTH};
use std::time::Instant;
use vstd::prelude::*;

verus! {

/// `std::io::Error`: what a bearer fails with. It is handed on and never
/// looked into.
#[verifier::external_type_specification]
#[verifier::external_body]
pub struct ExIoError(std::io::Error);

/// A duplex transport that moves one framed segment at a time.
///
/// An implementation is handed chunks of at most
/// `MAX_SEGMENT_PAYLOAD_LENGTH` bytes, never more. `clone` gives a second
/// handle on the same connection, so that one handle can write while the
/// other reads.
pub trait Bearer: Send + Sync + Sized {
    /// Waits for the next segment and gives its protocol id, its timestamp
    /// and its payload.
    fn read_segment(&mut self) -> Result<(u16, u32, Payload), std::io::Error>;

    /// Writes one segment that carries the given bytes for the given
    /// protocol, stamped with the given clock.
    fn write_segment(
        &mut self,
        clock: Instant,
        protocol_id: u16,
        partial_payload: &[u8],
    ) -> Result<(), std::io::Error>
        requires
            partial_payload@.len() <= MAX_SEGMENT_PAYLOAD_LENGTH,
    ;

    /// A second handle on the same connection.
    fn clone(&self) -> Self;
}

/// One call of the bearer, with its answer.
pub enum Event {
    /// The bearer accepted this segment.
    Written(Segment),
    /// The bearer failed on a write, with this error.
    WriteFailed(std::io::Error),
    /// The bearer gave this segment.
    Read(Inbound),
    /// The bearer failed on a read, with this error.
    ReadFailed(std::io::Error),
}

/// The record of segments written one after the other, all accepted.
pub open spec fn writes_of(segments: Seq<Segment>) -> Seq<Event> {
    segments.map_values(|s: Segment| Event::Written(s))
}

/// The record of segments read one after the other, none failed.
pub open spec fn reads_of(segments: Seq<Inbound>) -> Seq<Event> {
    segments.map_values(|s: Inbound| Event::Read(s))
}

/// The record of one write: the segment if the bearer accepted it, the
/// bearer's error if it did not.
pub open spec fn write_event(
    clock: Instant,
    id: u16,
    chunk: Seq<u8>,
    answer: Result<(), std::io::Error>,
) -> Event {
    match answer {
        Ok(_) => Event::Written(Segment { clock, id, chunk }),
        Err(err) => Event::WriteFailed(err),
    }
}

/// The record of one read: the segment that the bearer gave, or the bearer's
/// error.
pub open spec fn read_event(answer: Result<(u16, u32, Payload), std::io::Error>) -> Event {
    match answer {
        Ok((id, timestamp, payload)) => Event::Read(Inbound { id, timestamp, chunk: payload@ }),
        Err(err) => Event::ReadFailed(err),
    }
}

/// A bearer together with the record of every call made of it and of what
/// it answered, in order.
///
/// The bearer is reached only through `write_segment` and `read_segment`
/// below, each of which makes one call and adds it to the record.
pub struct Wire<TBearer: Bearer> {
    bearer: TBearer,
    trace: Ghost<Seq<Event>>,
}

impl<TBearer: Bearer> Wire<TBearer> {
    /// Every call made of the bearer, with its answer, oldest first.
    pub closed spec fn trace(&self) -> Seq<Event> {
        self.trace@
    }

    /// The bearer inside.
    pub closed spec fn inner(&self) -> TBearer {
        self.bearer
    }

    /// Wraps a bearer of which no call was made yet.
    pub fn new(bearer: TBearer) -> (wire: Self)
        ensures
            wire.inner() == bearer,
            wire.trace() == Seq::<Event>::empty(),
    {
        Wire { bearer, trace: Ghost(Seq::empty()) }
    }

    /// Hands one chunk to the bearer, once, and gives the bearer's answer.
    /// The record grows by that one write: by the segment if the bearer
    /// accepted it, by the bearer's error if it failed.
    pub fn write_segment(
        &mut self,
        clock: Instant,
        protocol_id: u16,
        partial_payload: &[u8],
    ) -> (r: Result<(), std::io::Error>)
        requires
            partial_payload@.len() <= MAX_SEGMENT_PAYLOAD_LENGTH,
        ensures
            final(self).trace() == old(self).trace().push(
                write_event(clock, protocol_id, partial_payload@, r),
            ),
    {
        let answer = self.bearer.write_segment(clock, protocol_id, partial_payload);
        self.note_write(clock, protocol_id, partial_payload, answer)
    }

    /// Enters the bearer's answer to a write in the record and hands the
    /// answer on as it came.
    fn note_write(
        &mut self,
        clock: Instant,
        protocol_id: u16,
        partial_payload: &[u8],
        answer: Result<(), std::io::Error>,
    ) -> (r: Result<(), std::io::Error>)
        ensures
            r == answer,
            final(self).inner() == old(self).inner(),
            final(self).trace() == old(self).trace().push(
                write_event(clock, protocol_id, partial_payload@, answer),
            ),
    {
        proof {
            self.trace@ = self.trace@.push(
                write_event(clock, protocol_id, partial_payload@, answer),
            );
        }
        answer
    }

    /// Asks the bearer for the next segment, once, and gives the bearer's
    /// answer. The record grows by that one read: by the segment, or by the
    /// bearer's error.
    pub fn read_segment(&mut self) -> (r: Result<(u16, u32, Payload), std::io::Error>)
        ensures
            final(self).trace() == old(self).trace().push(read_event(r)),
    {
        let answer = self.bearer.read_segment();
        self.note_read(answer)
    }

    /// Enters the bearer's answer to a read in the record and hands the
    /// answer on as it came.
    fn note_read(&mut self, answer: Result<(u16, u32, Payload), std::io::Error>) -> (r: Result<
        (u16, u32, Payload),
        std::io::Error,
    >)
        ensures
            r == answer,
            final(self).inner() == old(self).inner(),
            final(self).trace() == old(self).trace().push(read_event(answer)),
    {
        proof {
            self.trace@ = self.trace@.push(read_event(answer));
        }
        answer
    }

    /// The bearer inside, to look at.
    pub fn bearer(&self) -> (bearer: &TBearer)
        ensures
            *bearer == self.inner(),
    {
        &self.bearer
    }

    /// Gives the bearer back and ends the record.
    pub fn into_inner(self) -> (bearer: TBearer)
        ensures
            bearer == self.inner(),
    {
        self.bearer
    }
}

} // verus!
