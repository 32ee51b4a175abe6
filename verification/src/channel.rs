//! The queues between a mini-protocol and the multiplexer, and the ends of
//! them that the multiplexer holds.

use crate::segment::Payload;
use std::sync::mpsc::{Receiver, Sender, TryRecvError};
use vstd::prelude::*;

verus! {

/// `std::sync::mpsc::Sender`: the producing end of a queue, opaque here.
#[verifier::external_type_specification]
#[verifier::external_body]
#[verifier::reject_recursive_types(T)]
pub struct ExSender<T>(Sender<T>);

/// `std::sync::mpsc::Receiver`: the consuming end of a queue, opaque here.
#[verifier::external_type_specification]
#[verifier::external_body]
#[verifier::reject_recursive_types(T)]
pub struct ExReceiver<T>(Receiver<T>);

/// What a mini-protocol holds: the end it sends payloads into, and the end it
/// receives payloads from.
pub struct Channel(pub Sender<Payload>, pub Receiver<Payload>);

/// What a queue answers when it is asked for a payload without waiting.
pub enum Polled {
    /// The oldest payload in the queue, now taken out of it.
    Payload(Payload),
    /// Nothing is queued, and a producer is still there.
    Empty,
    /// Nothing is queued, and every producer is gone.
    Disconnected,
}

/// An answer of a queue, as the record keeps it.
pub enum Answer {
    /// The queue gave these bytes.
    Payload(Seq<u8>),
    /// The queue was empty.
    Empty,
    /// The queue was empty and its producers were gone.
    Disconnected,
}

impl Polled {
    /// The answer as the record keeps it.
    pub open spec fn answer(&self) -> Answer {
        match self {
            Polled::Payload(payload) => Answer::Payload(payload@),
            Polled::Empty => Answer::Empty,
            Polled::Disconnected => Answer::Disconnected,
        }
    }
}

/// One payload offered to a queue, and whether the queue took it.
pub struct Offer {
    pub payload: Seq<u8>,
    pub accepted: bool,
}

/// Whether a producing end and a consuming end are the two ends of one
/// queue, so that what is sent into the first comes out of the second.
pub uninterp spec fn paired(tx: Sender<Vec<u8>>, rx: Receiver<Vec<u8>>) -> bool;

/// `std::sync::mpsc::channel`: a new unbounded queue, as its two ends. The
/// two ends returned belong to one queue, the new one.
#[verifier::external_body]
pub(crate) fn channel() -> (ends: (Sender<Payload>, Receiver<Payload>))
    ensures
        paired(ends.0, ends.1),
{
    std::sync::mpsc::channel()
}

/// `Receiver::try_recv`, its three outcomes told apart. Which of them comes
/// depends on the other threads, so nothing is claimed of the result.
#[verifier::external_body]
pub(crate) fn try_recv(rx: &Receiver<Payload>) -> Polled {
    match rx.try_recv() {
        Ok(payload) => Polled::Payload(payload),
        Err(TryRecvError::Empty) => Polled::Empty,
        Err(TryRecvError::Disconnected) => Polled::Disconnected,
    }
}

/// `Sender::send`: true if the queue took the payload, false if the consumer
/// is gone. Which of them comes depends on the other threads, so nothing is
/// claimed of the result.
#[verifier::external_body]
pub(crate) fn send(tx: &Sender<Payload>, payload: Payload) -> bool {
    tx.send(payload).is_ok()
}

/// The consuming end of a protocol's outbound queue, with the record of
/// every answer that the queue gave through it.
pub struct IngressHandle {
    rx: Receiver<Payload>,
    answers: Ghost<Seq<Answer>>,
}

impl IngressHandle {
    /// Every answer that the queue gave through this handle, oldest first.
    pub closed spec fn answers(&self) -> Seq<Answer> {
        self.answers@
    }

    /// The queue end that this handle reads.
    pub closed spec fn receiver(&self) -> Receiver<Payload> {
        self.rx
    }

    /// Wraps the consuming end of a queue that was not asked yet.
    pub fn new(rx: Receiver<Payload>) -> (handle: Self)
        ensures
            handle.answers() == Seq::<Answer>::empty(),
            handle.receiver() == rx,
    {
        IngressHandle { rx, answers: Ghost(Seq::empty()) }
    }

    /// Asks the queue for a payload, once and without waiting, and gives the
    /// queue's answer. The record grows by that answer.
    pub fn poll(&mut self) -> (polled: Polled)
        ensures
            final(self).receiver() == old(self).receiver(),
            final(self).answers() == old(self).answers().push(polled.answer()),
    {
        let answer = try_recv(&self.rx);
        self.note_polled(answer)
    }

    /// Enters the queue's answer in the record and hands the answer on as it
    /// came.
    fn note_polled(&mut self, answer: Polled) -> (polled: Polled)
        ensures
            polled == answer,
            final(self).receiver() == old(self).receiver(),
            final(self).answers() == old(self).answers().push(answer.answer()),
    {
        proof {
            self.answers@ = self.answers@.push(answer.answer());
        }
        answer
    }
}

/// The producing end of a protocol's inbound queue, with the record of every
/// payload offered to the queue through it and of what the queue answered.
pub struct EgressHandle {
    tx: Sender<Payload>,
    offers: Ghost<Seq<Offer>>,
}

impl EgressHandle {
    /// Every payload offered through this handle, with the queue's answer,
    /// oldest first.
    pub closed spec fn offers(&self) -> Seq<Offer> {
        self.offers@
    }

    /// The queue end that this handle writes.
    pub closed spec fn sender(&self) -> Sender<Payload> {
        self.tx
    }

    /// Wraps the producing end of a queue to which nothing was offered yet.
    pub fn new(tx: Sender<Payload>) -> (handle: Self)
        ensures
            handle.offers() == Seq::<Offer>::empty(),
            handle.sender() == tx,
    {
        EgressHandle { tx, offers: Ghost(Seq::empty()) }
    }

    /// Offers a payload to the queue, once, and says whether the queue took
    /// it: false means that the consumer is gone. The record grows by that
    /// offer and its answer.
    pub fn offer(&mut self, payload: Payload) -> (accepted: bool)
        ensures
            final(self).sender() == old(self).sender(),
            final(self).offers() == old(self).offers().push(
                Offer { payload: payload@, accepted },
            ),
    {
        let bytes = Ghost(payload@);
        let answer = send(&self.tx, payload);
        self.note_offered(bytes, answer)
    }

    /// Enters the queue's answer to an offer of `bytes` in the record and
    /// hands the answer on as it came.
    fn note_offered(&mut self, bytes: Ghost<Seq<u8>>, answer: bool) -> (accepted: bool)
        ensures
            accepted == answer,
            final(self).sender() == old(self).sender(),
            final(self).offers() == old(self).offers().push(
                Offer { payload: bytes@, accepted: answer },
            ),
    {
        proof {
            self.offers@ = self.offers@.push(Offer { payload: bytes@, accepted: answer });
        }
        answer
    }
}

} // verus!
