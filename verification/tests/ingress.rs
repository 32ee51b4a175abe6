use pallas_multiplexer::{
    rx_loop, rx_settle, rx_step, Bearer, DemuxerEgress, EgressHandle, Payload, Routed, Wire,
};
use std::collections::{HashMap, VecDeque};
use std::sync::mpsc::{channel, Receiver};
use std::time::Instant;

/// A bearer that hands out the segments it was made with, then fails.
struct Source {
    pending: VecDeque<(u16, u32, Vec<u8>)>,
    reads: usize,
}

impl Source {
    fn of(segments: Vec<(u16, u32, Vec<u8>)>) -> Self {
        Source { pending: segments.into_iter().collect(), reads: 0 }
    }
}

impl Bearer for Source {
    fn read_segment(&mut self) -> Result<(u16, u32, Payload), std::io::Error> {
        self.reads += 1;
        match self.pending.pop_front() {
            Some(segment) => Ok(segment),
            None => Err(std::io::Error::new(std::io::ErrorKind::UnexpectedEof, "bearer closed")),
        }
    }

    fn write_segment(
        &mut self,
        _clock: Instant,
        _protocol_id: u16,
        _partial_payload: &[u8],
    ) -> Result<(), std::io::Error> {
        Err(std::io::Error::new(std::io::ErrorKind::Unsupported, "read only"))
    }

    fn clone(&self) -> Self {
        Source { pending: self.pending.clone(), reads: self.reads }
    }
}

fn route(ids: &[u16]) -> (DemuxerEgress, HashMap<u16, Receiver<Payload>>) {
    let mut egress: DemuxerEgress = HashMap::new();
    let mut consumers = HashMap::new();
    for id in ids {
        let (tx, rx) = channel::<Payload>();
        egress.insert(*id, EgressHandle::new(tx));
        consumers.insert(*id, rx);
    }
    (egress, consumers)
}

fn drain(rx: &Receiver<Payload>) -> Vec<Vec<u8>> {
    let mut got = Vec::new();
    while let Ok(payload) = rx.try_recv() {
        got.push(payload);
    }
    got
}

#[test]
fn offer_delivers_to_its_queue() {
    let (tx, rx) = channel::<Payload>();
    let mut handle = EgressHandle::new(tx);
    assert!(handle.offer(vec![1, 2]));
    assert!(handle.offer(vec![3]));
    assert_eq!(drain(&rx), vec![vec![1, 2], vec![3]]);
}

#[test]
fn offer_to_a_dropped_consumer_is_refused() {
    let (tx, rx) = channel::<Payload>();
    let mut handle = EgressHandle::new(tx);
    drop(rx);
    assert!(!handle.offer(vec![1, 2]));
}

#[test]
fn step_delivers_to_the_protocol_of_the_segment() {
    let (mut egress, consumers) = route(&[2, 3]);
    let outcome = rx_step(&mut egress, (3, 77, b"hello".to_vec()));
    assert!(matches!(outcome, Routed::Delivered));
    assert_eq!(drain(&consumers[&3]), vec![b"hello".to_vec()]);
    assert!(drain(&consumers[&2]).is_empty());
    assert_eq!(egress.len(), 2);
}

#[test]
fn step_drops_a_segment_with_an_unknown_id() {
    let (mut egress, consumers) = route(&[2, 3]);
    let outcome = rx_step(&mut egress, (9, 0, b"stray".to_vec()));
    assert!(matches!(outcome, Routed::Unknown));
    assert!(drain(&consumers[&2]).is_empty());
    assert!(drain(&consumers[&3]).is_empty());
    assert_eq!(egress.len(), 2);
    assert!(egress.contains_key(&2));
    assert!(egress.contains_key(&3));
}

#[test]
fn step_removes_a_protocol_whose_consumer_is_gone() {
    let (mut egress, mut consumers) = route(&[2, 3]);
    drop(consumers.remove(&2));
    let outcome = rx_step(&mut egress, (2, 0, b"lost".to_vec()));
    assert!(matches!(outcome, Routed::ConsumerGone(_)));
    assert!(!egress.contains_key(&2));
    assert!(egress.contains_key(&3));
    let again = rx_step(&mut egress, (2, 0, b"lost again".to_vec()));
    assert!(matches!(again, Routed::Unknown));
}

#[test]
fn step_delivers_an_empty_payload_as_it_is() {
    let (mut egress, consumers) = route(&[1]);
    let outcome = rx_step(&mut egress, (1, 0, Vec::new()));
    assert!(matches!(outcome, Routed::Delivered));
    assert_eq!(drain(&consumers[&1]), vec![Vec::<u8>::new()]);
}

#[test]
fn unknown_id_is_dropped_and_the_next_segment_still_arrives() {
    let (mut egress, consumers) = route(&[7]);
    let source = Source::of(vec![(9, 1, b"stray".to_vec()), (7, 2, b"wanted".to_vec())]);
    let mut wire = Wire::new(source);
    let failure = rx_loop(&mut wire, &mut egress, 2).failure;
    assert!(failure.is_none());
    assert_eq!(drain(&consumers[&7]), vec![b"wanted".to_vec()]);
    assert_eq!(egress.len(), 1);
    assert!(egress.contains_key(&7));
}

#[test]
fn loop_delivers_each_segment_on_its_own_in_the_order_read() {
    let (mut egress, consumers) = route(&[0, 1]);
    let source = Source::of(vec![
        (1, 0, b"b1".to_vec()),
        (0, 0, b"a1".to_vec()),
        (1, 0, b"b2".to_vec()),
        (1, 0, b"b3".to_vec()),
        (0, 0, b"a2".to_vec()),
    ]);
    let mut wire = Wire::new(source);
    assert!(rx_loop(&mut wire, &mut egress, 5).failure.is_none());
    assert_eq!(drain(&consumers[&0]), vec![b"a1".to_vec(), b"a2".to_vec()]);
    assert_eq!(drain(&consumers[&1]), vec![b"b1".to_vec(), b"b2".to_vec(), b"b3".to_vec()]);
}

#[test]
fn loop_reads_no_more_than_the_limit() {
    let (mut egress, consumers) = route(&[0]);
    let source = Source::of(vec![(0, 0, vec![1]), (0, 0, vec![2]), (0, 0, vec![3])]);
    let mut wire = Wire::new(source);
    assert!(rx_loop(&mut wire, &mut egress, 2).failure.is_none());
    assert_eq!(drain(&consumers[&0]), vec![vec![1], vec![2]]);
    assert_eq!(wire.bearer().pending.len(), 1);
    assert!(rx_loop(&mut wire, &mut egress, 1).failure.is_none());
    assert_eq!(drain(&consumers[&0]), vec![vec![3]]);
}

#[test]
fn loop_with_limit_zero_reads_nothing() {
    let (mut egress, consumers) = route(&[0]);
    let mut wire = Wire::new(Source::of(vec![(0, 0, vec![1])]));
    assert!(rx_loop(&mut wire, &mut egress, 0).failure.is_none());
    assert!(drain(&consumers[&0]).is_empty());
    assert_eq!(wire.bearer().pending.len(), 1);
}

#[test]
fn loop_ends_with_the_error_of_the_failed_read() {
    let (mut egress, consumers) = route(&[0]);
    let mut wire = Wire::new(Source::of(vec![(0, 0, vec![1]), (0, 0, vec![2])]));
    let failure = rx_loop(&mut wire, &mut egress, 10).failure;
    assert_eq!(failure.unwrap().kind(), std::io::ErrorKind::UnexpectedEof);
    assert_eq!(drain(&consumers[&0]), vec![vec![1], vec![2]]);
}

#[test]
fn lost_consumer_does_not_hold_the_others_back() {
    let (mut egress, mut consumers) = route(&[0, 1, 2]);
    drop(consumers.remove(&0));
    let source = Source::of(vec![
        (0, 0, b"a1".to_vec()),
        (1, 0, b"b1".to_vec()),
        (0, 0, b"a2".to_vec()),
        (2, 0, b"c1".to_vec()),
        (1, 0, b"b2".to_vec()),
    ]);
    let mut wire = Wire::new(source);
    assert!(rx_loop(&mut wire, &mut egress, 5).failure.is_none());
    assert!(!egress.contains_key(&0));
    assert_eq!(egress.len(), 2);
    assert_eq!(drain(&consumers[&1]), vec![b"b1".to_vec(), b"b2".to_vec()]);
    assert_eq!(drain(&consumers[&2]), vec![b"c1".to_vec()]);
}

#[test]
fn loop_goes_on_when_no_protocol_is_left() {
    let (mut egress, mut consumers) = route(&[0]);
    drop(consumers.remove(&0));
    let mut wire = Wire::new(Source::of(vec![(0, 0, vec![1]), (0, 0, vec![2]), (5, 0, vec![3])]));
    assert!(rx_loop(&mut wire, &mut egress, 3).failure.is_none());
    assert!(egress.is_empty());
    assert!(wire.bearer().pending.is_empty());
}

#[test]
fn wire_read_hands_the_segment_on() {
    let mut wire = Wire::new(Source::of(vec![(4, 99, vec![1, 2, 3])]));
    assert_eq!(wire.read_segment().unwrap(), (4, 99, vec![1, 2, 3]));
    assert!(wire.read_segment().is_err());
}

#[test]
fn settle_puts_the_handle_back_when_the_queue_took_the_payload() {
    let (tx, _rx) = channel::<Payload>();
    let mut egress: DemuxerEgress = HashMap::new();
    let outcome = rx_settle(&mut egress, 4, EgressHandle::new(tx), true);
    assert!(matches!(outcome, Routed::Delivered));
    assert!(egress.contains_key(&4));
}

#[test]
fn settle_hands_the_handle_out_when_the_queue_refused() {
    let (tx, rx) = channel::<Payload>();
    let mut egress: DemuxerEgress = HashMap::new();
    let outcome = rx_settle(&mut egress, 4, EgressHandle::new(tx), false);
    assert!(egress.is_empty());
    match outcome {
        Routed::ConsumerGone(mut handle) => {
            assert!(handle.offer(vec![1]));
            assert_eq!(drain(&rx), vec![vec![1u8]]);
        }
        _ => panic!("expected the handle back"),
    }
}

#[test]
fn step_with_a_live_consumer_delivers_every_time() {
    let (mut egress, consumers) = route(&[5]);
    for round in 0..20u8 {
        let outcome = rx_step(&mut egress, (5, 0, vec![round]));
        assert!(matches!(outcome, Routed::Delivered));
        assert!(egress.contains_key(&5));
    }
    assert_eq!(drain(&consumers[&5]).len(), 20);
}

#[test]
fn loop_reads_until_the_failed_read_and_no_further() {
    let (mut egress, consumers) = route(&[7]);
    let source = Source::of(vec![(9, 0, vec![1, 2, 3]), (7, 0, vec![4, 5])]);
    let mut wire = Wire::new(source);
    let run = rx_loop(&mut wire, &mut egress, 10);
    let err = run.failure.unwrap();
    assert_eq!(err.kind(), std::io::ErrorKind::UnexpectedEof);
    assert_eq!(err.to_string(), "bearer closed");
    assert_eq!(wire.bearer().reads, 3);
    assert!(run.dropped.is_empty());
    assert_eq!(drain(&consumers[&7]), vec![vec![4u8, 5]]);
    assert!(egress.contains_key(&7));
}

#[test]
fn loop_hands_back_the_protocols_it_dropped() {
    let (mut egress, mut consumers) = route(&[1, 2]);
    drop(consumers.remove(&1));
    let source = Source::of(vec![
        (1, 0, vec![0xA]),
        (2, 0, vec![0xB]),
        (1, 0, vec![0xC]),
        (2, 0, vec![0xD]),
    ]);
    let mut wire = Wire::new(source);
    let run = rx_loop(&mut wire, &mut egress, 4);
    assert!(run.failure.is_none());
    assert_eq!(run.dropped.len(), 1);
    assert!(run.dropped.contains_key(&1));
    assert!(!egress.contains_key(&1));
    assert!(egress.contains_key(&2));
    assert_eq!(drain(&consumers[&2]), vec![vec![0xBu8], vec![0xD]]);
    assert_eq!(wire.bearer().reads, 4);
}

#[test]
fn loop_delivers_chunks_one_by_one_in_order() {
    let (mut egress, consumers) = route(&[0, 1]);
    let source = Source::of(vec![
        (1, 0, b"hello-world-".to_vec()),
        (0, 0, b"ping".to_vec()),
        (1, 0, b"that-is-longer-".to_vec()),
        (1, 0, b"than-one-chunk".to_vec()),
    ]);
    let mut wire = Wire::new(source);
    let run = rx_loop(&mut wire, &mut egress, 100);
    assert!(run.failure.is_some());
    assert!(run.dropped.is_empty());
    let got = drain(&consumers[&1]);
    assert_eq!(got.len(), 3);
    assert_eq!(got.concat(), b"hello-world-that-is-longer-than-one-chunk".to_vec());
    assert_eq!(drain(&consumers[&0]), vec![b"ping".to_vec()]);
}
