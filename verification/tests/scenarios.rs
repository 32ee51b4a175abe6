use pallas_multiplexer::{
    rx_loop, tx_pass, Bearer, Channel, Multiplexer, PassOutcome, Payload, Wire,
};
use std::collections::VecDeque;
use std::time::Instant;

/// A bearer in memory: what is written to it can be read from it again, in
/// the same order.
struct Loopback {
    segments: VecDeque<(u16, u32, Vec<u8>)>,
}

impl Loopback {
    fn new() -> Self {
        Loopback { segments: VecDeque::new() }
    }
}

impl Bearer for Loopback {
    fn read_segment(&mut self) -> Result<(u16, u32, Payload), std::io::Error> {
        match self.segments.pop_front() {
            Some(segment) => Ok(segment),
            None => Err(std::io::Error::new(std::io::ErrorKind::UnexpectedEof, "bearer closed")),
        }
    }

    fn write_segment(
        &mut self,
        _clock: Instant,
        protocol_id: u16,
        partial_payload: &[u8],
    ) -> Result<(), std::io::Error> {
        assert!(partial_payload.len() <= 65535);
        self.segments.push_back((protocol_id, 0, partial_payload.to_vec()));
        Ok(())
    }

    fn clone(&self) -> Self {
        Loopback { segments: self.segments.clone() }
    }
}

fn drain(channel: &Channel) -> Vec<Vec<u8>> {
    let mut got = Vec::new();
    while let Ok(payload) = channel.1.try_recv() {
        got.push(payload);
    }
    got
}

fn long_payload() -> Vec<u8> {
    let text = b"hello-world-that-is-longer-than-one-chunk";
    let mut bytes = Vec::new();
    while bytes.len() < 2 * 65535 + 10 {
        bytes.extend_from_slice(text);
    }
    bytes
}

#[test]
fn setup_registers_every_protocol_three_ways() {
    let (_mux, ingress, egress) = Multiplexer::setup(&[0, 1, 5]);
    assert_eq!(ingress.len(), 3);
    assert_eq!(egress.len(), 3);
    for id in [0u16, 1, 5] {
        assert!(ingress.contains_key(&id));
        assert!(egress.contains_key(&id));
    }
}

#[test]
fn setup_of_no_protocol_registers_nothing() {
    let (mut mux, ingress, egress) = Multiplexer::setup(&[]);
    assert!(ingress.is_empty());
    assert!(egress.is_empty());
    assert!(mux.use_channel(0).is_none());
}

#[test]
fn a_channel_is_claimed_once() {
    let (mut mux, _ingress, _egress) = Multiplexer::setup(&[0, 1]);
    assert!(mux.use_channel(0).is_some());
    assert!(mux.use_channel(0).is_none());
    assert!(mux.use_channel(1).is_some());
    assert!(mux.use_channel(1).is_none());
}

#[test]
fn an_id_that_was_not_set_up_cannot_be_claimed() {
    let (mut mux, _ingress, _egress) = Multiplexer::setup(&[0, 1]);
    assert!(mux.use_channel(2).is_none());
    assert!(mux.use_channel(65535).is_none());
    assert!(mux.use_channel(0).is_some());
}

#[test]
fn an_id_given_twice_is_registered_once() {
    let (mut mux, mut ingress, mut egress) = Multiplexer::setup(&[7, 7]);
    assert_eq!(ingress.len(), 1);
    assert_eq!(egress.len(), 1);
    let channel = mux.use_channel(7).unwrap();
    assert!(mux.use_channel(7).is_none());
    channel.0.send(b"x".to_vec()).unwrap();
    let mut wire = Wire::new(Loopback::new());
    assert!(matches!(tx_pass(&mut wire, &mut ingress, Instant::now()).outcome, PassOutcome::Busy));
    assert!(rx_loop(&mut wire, &mut egress, 1).failure.is_none());
    assert_eq!(drain(&channel), vec![b"x".to_vec()]);
}

#[test]
fn the_claimed_channel_feeds_the_outbound_queue() {
    let (mut mux, mut ingress, _egress) = Multiplexer::setup(&[3]);
    let channel = mux.use_channel(3).unwrap();
    channel.0.send(b"out".to_vec()).unwrap();
    let mut wire = Wire::new(Loopback::new());
    assert!(matches!(tx_pass(&mut wire, &mut ingress, Instant::now()).outcome, PassOutcome::Busy));
    assert_eq!(wire.bearer().segments.len(), 1);
    assert_eq!(wire.bearer().segments[0], (3, 0, b"out".to_vec()));
}

#[test]
fn dropping_a_claimed_channel_closes_both_directions() {
    let (mut mux, mut ingress, mut egress) = Multiplexer::setup(&[3, 4]);
    drop(mux.use_channel(3));
    let mut wire = Wire::new(Loopback::new());
    assert!(matches!(tx_pass(&mut wire, &mut ingress, Instant::now()).outcome, PassOutcome::Idle));
    assert!(!ingress.contains_key(&3));
    assert!(ingress.contains_key(&4));
    wire.write_segment(Instant::now(), 3, b"late").unwrap();
    assert!(rx_loop(&mut wire, &mut egress, 1).failure.is_none());
    assert!(!egress.contains_key(&3));
    assert!(egress.contains_key(&4));
}

#[test]
fn ping_and_a_long_payload_cross_the_bearer() {
    let (mut mux, mut ingress, mut egress) = Multiplexer::setup(&[0, 1]);
    let zero = mux.use_channel(0).unwrap();
    let one = mux.use_channel(1).unwrap();
    let long = long_payload();
    assert!(long.len() > 2 * 65535);
    zero.0.send(b"ping".to_vec()).unwrap();
    one.0.send(long.clone()).unwrap();

    let mut wire = Wire::new(Loopback::new());
    assert!(matches!(tx_pass(&mut wire, &mut ingress, Instant::now()).outcome, PassOutcome::Busy));
    assert!(matches!(tx_pass(&mut wire, &mut ingress, Instant::now()).outcome, PassOutcome::Idle));
    let count = wire.bearer().segments.len();
    assert_eq!(count, 1 + (long.len() + 65534) / 65535);

    assert!(rx_loop(&mut wire, &mut egress, count).failure.is_none());
    assert_eq!(drain(&zero), vec![b"ping".to_vec()]);
    let chunks = drain(&one);
    assert_eq!(chunks.len(), count - 1);
    for chunk in &chunks {
        assert!(chunk.len() <= 65535);
    }
    assert_eq!(chunks.concat(), long);
}

#[test]
fn a_segment_for_an_unregistered_id_reaches_nobody() {
    let (mut mux, _ingress, mut egress) = Multiplexer::setup(&[7]);
    let seven = mux.use_channel(7).unwrap();
    let mut wire = Wire::new(Loopback::new());
    wire.write_segment(Instant::now(), 9, b"stray").unwrap();
    assert!(rx_loop(&mut wire, &mut egress, 1).failure.is_none());
    assert!(drain(&seven).is_empty());
    assert!(egress.contains_key(&7));
    wire.write_segment(Instant::now(), 7, b"wanted").unwrap();
    assert!(rx_loop(&mut wire, &mut egress, 1).failure.is_none());
    assert_eq!(drain(&seven), vec![b"wanted".to_vec()]);
}

#[test]
fn two_wires_on_one_bearer_keep_apart() {
    let bearer = Loopback::new();
    let mut writer = Wire::new(Bearer::clone(&bearer));
    let reader = Wire::new(Bearer::clone(&bearer));
    writer.write_segment(Instant::now(), 1, b"x").unwrap();
    assert_eq!(writer.bearer().segments.len(), 1);
    assert!(reader.bearer().segments.is_empty());
}

#[test]
fn what_is_read_for_an_id_arrives_on_the_claimed_channel() {
    let (mut mux, _ingress, mut egress) = Multiplexer::setup(&[11, 12]);
    let eleven = mux.use_channel(11).unwrap();
    let twelve = mux.use_channel(12).unwrap();
    let mut wire = Wire::new(Loopback::new());
    wire.write_segment(Instant::now(), 12, b"in").unwrap();
    let run = rx_loop(&mut wire, &mut egress, 1);
    assert!(run.failure.is_none());
    assert!(run.dropped.is_empty());
    assert_eq!(drain(&twelve), vec![b"in".to_vec()]);
    assert!(drain(&eleven).is_empty());
}
