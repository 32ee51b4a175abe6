//! A protocol multiplexer: many mini-protocols share one bearer, each payload
//! split into segments that carry the protocol's id.

pub mod bearer;
pub mod channel;
pub mod demux;
pub mod multiplexer;
pub mod mux;
pub mod segment;

pub use crate::bearer::{Bearer, Wire};
pub use crate::channel::{Channel, EgressHandle, IngressHandle, Polled};
pub use crate::demux::{rx_loop, rx_settle, rx_step, DemuxerEgress, Routed, Run};
pub use crate::multiplexer::Multiplexer;
pub use crate::mux::{
    tx_dispatch, tx_forward, tx_pass, tx_scan, tx_settle, tx_step, MuxIngress, Pass, PassOutcome,
    Settled, TxStepError,
};
pub use crate::segment::{Payload, MAX_SEGMENT_PAYLOAD_LENGTH};
