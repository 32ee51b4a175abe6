//! The multiplexer seen from the application: setting up the queues of every
//! protocol, and handing each protocol its channel once.

use crate::channel::{channel, paired, Answer, Channel, EgressHandle, IngressHandle, Offer};
use crate::demux::DemuxerEgress;
use crate::mux::MuxIngress;
use std::collections::HashMap;
use vstd::prelude::*;

verus! {

broadcast use vstd::std_specs::hash::group_hash_axioms;

/// The channels that no protocol has claimed yet, by protocol id.
pub struct Multiplexer {
    io_handles: HashMap<u16, Channel>,
}

impl View for Multiplexer {
    type V = Map<u16, Channel>;

    closed spec fn view(&self) -> Map<u16, Channel> {
        self.io_handles@
    }
}

/// Claiming `id` from a registry: the channel registered under it, if there
/// is one, and the registry without it.
pub open spec fn claim(registry: Map<u16, Channel>, id: u16) -> (Option<Channel>, Map<u16, Channel>) {
    if registry.contains_key(id) {
        (Some(registry[id]), registry.remove(id))
    } else {
        (None, registry)
    }
}

/// A channel can be claimed once: the first claim of a registered id gives
/// its channel, and a second claim of the same id finds nothing. A claim
/// leaves every other id as it was.
pub proof fn lemma_claim_once(registry: Map<u16, Channel>, id: u16, other: u16)
    ensures
        registry.contains_key(id) ==> claim(registry, id).0 == Some(registry[id]),
        claim(claim(registry, id).1, id).0 is None,
        other != id ==> claim(claim(registry, id).1, other).0 == claim(registry, other).0,
{
}

/// The claim of an id that was not among the protocols set up finds nothing,
/// and changes nothing.
pub proof fn lemma_claim_of_unregistered_id(
    protocols: Seq<u16>,
    registry: Map<u16, Channel>,
    id: u16,
)
    requires
        registry.dom() == protocols.to_set(),
        !protocols.contains(id),
    ensures
        claim(registry, id) == (None::<Channel>, registry),
{
}

/// How the queues of protocol `id` are wired. What the application sends
/// into its channel comes out of the handle of the outbound side, and what
/// is offered to the handle of the inbound side comes out of the
/// application's channel. Neither handle has been used yet.
pub open spec fn wired(
    registry: Map<u16, Channel>,
    ingress: Map<u16, IngressHandle>,
    egress: Map<u16, EgressHandle>,
    id: u16,
) -> bool {
    &&& paired(registry[id].0, ingress[id].receiver())
    &&& paired(egress[id].sender(), registry[id].1)
    &&& ingress[id].answers() == Seq::<Answer>::empty()
    &&& egress[id].offers() == Seq::<Offer>::empty()
}

impl Multiplexer {
    /// Creates, for each of the given ids, an outbound and an inbound queue,
    /// and sorts their ends three ways: the application's ends into the
    /// registry of channels, the consuming end of the outbound queue into
    /// the first map, the producing end of the inbound queue into the
    /// second. Every protocol is wired as `wired` says.
    ///
    /// An id that is given twice is registered once, with the queues created
    /// for its last occurrence.
    pub fn setup(protocols: &[u16]) -> (plumbed: (Multiplexer, MuxIngress, DemuxerEgress))
        ensures
            plumbed.0@.dom() == protocols@.to_set(),
            plumbed.1@.dom() == protocols@.to_set(),
            plumbed.2@.dom() == protocols@.to_set(),
            forall|id: u16|
                protocols@.contains(id) ==> #[trigger] wired(
                    plumbed.0@,
                    plumbed.1@,
                    plumbed.2@,
                    id,
                ),
    {
        let mut io_handles: HashMap<u16, Channel> = HashMap::new();
        let mut ingress: MuxIngress = HashMap::new();
        let mut egress: DemuxerEgress = HashMap::new();
        let mut i: usize = 0;
        while i < protocols.len()
            invariant
                0 <= i <= protocols.len(),
                io_handles@.dom() == protocols@.take(i as int).to_set(),
                ingress@.dom() == protocols@.take(i as int).to_set(),
                egress@.dom() == protocols@.take(i as int).to_set(),
                forall|id: u16|
                    io_handles@.contains_key(id) ==> #[trigger] wired(
                        io_handles@,
                        ingress@,
                        egress@,
                        id,
                    ),
            decreases protocols.len() - i,
        {
            let id = protocols[i];
            let ghost registry_mid = io_handles@;
            let ghost ingress_mid = ingress@;
            let ghost egress_mid = egress@;
            let (demux_tx, demux_rx) = channel();
            let (mux_tx, mux_rx) = channel();
            io_handles.insert(id, Channel(mux_tx, demux_rx));
            ingress.insert(id, IngressHandle::new(mux_rx));
            egress.insert(id, EgressHandle::new(demux_tx));
            proof {
                let seen = protocols@.take(i as int);
                assert(protocols@.take(i + 1) =~= seen.push(id));
                seen.lemma_push_to_set_commute(id);
                assert forall|other: u16| io_handles@.contains_key(other) implies #[trigger] wired(
                    io_handles@,
                    ingress@,
                    egress@,
                    other,
                ) by {
                    if other != id {
                        assert(wired(registry_mid, ingress_mid, egress_mid, other));
                    }
                }
            }
            i = i + 1;
        }
        assert(protocols@.take(i as int) =~= protocols@);
        (Multiplexer { io_handles }, ingress, egress)
    }

    /// Hands out the channel of a protocol and forgets it. `None` says that no
    /// channel is registered under the id: it was never set up, or it was
    /// claimed before.
    pub fn use_channel(&mut self, protocol_id: u16) -> (handle: Option<Channel>)
        ensures
            (handle, final(self)@) == claim(old(self)@, protocol_id),
    {
        self.io_handles.remove(&protocol_id)
    }
}

} // verus!
