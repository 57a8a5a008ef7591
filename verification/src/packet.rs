//! The packets that travel between nodes, and the source-routing header
//! that carries a packet's whole route.
use vstd::prelude::*;

use crate::kinds::NodeType;

verus! {

/// Payload bytes a fragment carries.
pub const FRAGMENT_DSIZE: usize = 128;

/// The whole route of a packet and the position reached on it.
#[derive(Debug, Clone)]
pub struct SourceRoutingHeader {
    pub hop_index: usize,
    pub hops: Vec<u8>,
}

impl SourceRoutingHeader {
    pub fn new(hops: Vec<u8>, hop_index: usize) -> (r: Self)
        ensures
            r.hops@ == hops@,
            r.hop_index == hop_index,
    {
        SourceRoutingHeader { hop_index, hops }
    }

    /// A header with no hops.
    pub fn empty_route() -> (r: Self)
        ensures
            r.hops@ == Seq::<u8>::empty(),
            r.hop_index == 0,
    {
        SourceRoutingHeader { hop_index: 0, hops: Vec::new() }
    }

    /// The first hop, where the packet started.
    pub fn source(&self) -> (r: Option<u8>)
        ensures
            r == if self.hops@.len() > 0 {
                Some(self.hops@[0])
            } else {
                None
            },
    {
        if self.hops.len() > 0 {
            Some(self.hops[0])
        } else {
            None
        }
    }

    /// The last hop, where the packet is going.
    pub fn destination(&self) -> (r: Option<u8>)
        ensures
            r == if self.hops@.len() > 0 {
                Some(self.hops@.last())
            } else {
                None
            },
    {
        if self.hops.len() > 0 {
            Some(self.hops[self.hops.len() - 1])
        } else {
            None
        }
    }

    /// The hop at the current position.
    pub fn current_hop(&self) -> (r: Option<u8>)
        ensures
            r == if self.hop_index < self.hops@.len() {
                Some(self.hops@[self.hop_index as int])
            } else {
                None
            },
    {
        if self.hop_index < self.hops.len() {
            Some(self.hops[self.hop_index])
        } else {
            None
        }
    }

    /// The hop after the current position.
    pub fn next_hop(&self) -> (r: Option<u8>)
        ensures
            r == if self.hop_index + 1 < self.hops@.len() {
                Some(self.hops@[self.hop_index + 1])
            } else {
                None
            },
    {
        if self.hop_index < self.hops.len() && self.hop_index + 1 < self.hops.len() {
            Some(self.hops[self.hop_index + 1])
        } else {
            None
        }
    }

    /// The hop before the current position.
    pub fn previous_hop(&self) -> (r: Option<u8>)
        ensures
            r == if 1 <= self.hop_index && self.hop_index - 1 < self.hops@.len() {
                Some(self.hops@[self.hop_index - 1])
            } else {
                None
            },
    {
        if self.hop_index >= 1 && self.hop_index - 1 < self.hops.len() {
            Some(self.hops[self.hop_index - 1])
        } else {
            None
        }
    }

    /// The route travelled backwards, positioned at its second hop.
    pub fn reversed_from_second(&self) -> (r: Self)
        ensures
            r.hops@ == self.hops@.reverse(),
            r.hop_index == 1,
    {
        let mut hops: Vec<u8> = Vec::new();
        let mut i = self.hops.len();
        while i > 0
            invariant
                i <= self.hops@.len(),
                hops@ == self.hops@.subrange(i as int, self.hops@.len() as int).reverse(),
            decreases i,
        {
            i = i - 1;
            hops.push(self.hops[i]);
            assert(hops@ =~= self.hops@.subrange(i as int, self.hops@.len() as int).reverse());
        }
        assert(self.hops@.subrange(0, self.hops@.len() as int) =~= self.hops@);
        SourceRoutingHeader { hop_index: 1, hops }
    }
}

/// One piece of a message: its position among the pieces, how many pieces
/// there are, and up to `FRAGMENT_DSIZE` payload bytes (`length` of them used).
#[derive(Debug, Clone, Copy)]
pub struct Fragment {
    pub fragment_index: u64,
    pub total_n_fragments: u64,
    pub length: u8,
    pub data: [u8; 128],
}

#[derive(Debug, Clone, Copy)]
pub struct Ack {
    pub fragment_index: u64,
}

#[derive(Debug, Clone, Copy, PartialEq, Eq, Structural)]
pub enum NackType {
    ErrorInRouting(u8),
    DestinationIsDrone,
    Dropped,
    UnexpectedRecipient(u8),
}

#[derive(Debug, Clone, Copy)]
pub struct Nack {
    pub fragment_index: u64,
    pub nack_type: NackType,
}

/// A topology-discovery request and the trace of the nodes it went through.
#[derive(Debug, Clone)]
pub struct FloodRequest {
    pub flood_id: u64,
    pub initiator_id: u8,
    pub path_trace: Vec<(u8, NodeType)>,
}

/// The answer to a flood request, carrying the full trace back.
#[derive(Debug, Clone)]
pub struct FloodResponse {
    pub flood_id: u64,
    pub path_trace: Vec<(u8, NodeType)>,
}

#[derive(Debug, Clone)]
pub enum PacketType {
    MsgFragment(Fragment),
    Ack(Ack),
    Nack(Nack),
    FloodRequest(FloodRequest),
    FloodResponse(FloodResponse),
}

#[derive(Debug, Clone)]
pub struct Packet {
    pub pack_type: PacketType,
    pub routing_header: SourceRoutingHeader,
    pub session_id: u64,
}

impl Packet {
    pub fn new_fragment(routing_header: SourceRoutingHeader, session_id: u64, fragment: Fragment) -> (r: Packet)
        ensures
            r.pack_type == PacketType::MsgFragment(fragment),
            r.routing_header == routing_header,
            r.session_id == session_id,
    {
        Packet { pack_type: PacketType::MsgFragment(fragment), routing_header, session_id }
    }

    pub fn new_ack(routing_header: SourceRoutingHeader, session_id: u64, fragment_index: u64) -> (r: Packet)
        ensures
            r.pack_type == PacketType::Ack(Ack { fragment_index }),
            r.routing_header == routing_header,
            r.session_id == session_id,
    {
        Packet { pack_type: PacketType::Ack(Ack { fragment_index }), routing_header, session_id }
    }

    pub fn new_nack(routing_header: SourceRoutingHeader, session_id: u64, nack: Nack) -> (r: Packet)
        ensures
            r.pack_type == PacketType::Nack(nack),
            r.routing_header == routing_header,
            r.session_id == session_id,
    {
        Packet { pack_type: PacketType::Nack(nack), routing_header, session_id }
    }

    pub fn new_flood_request(routing_header: SourceRoutingHeader, session_id: u64, flood_request: FloodRequest) -> (r: Packet)
        ensures
            r.pack_type == PacketType::FloodRequest(flood_request),
            r.routing_header == routing_header,
            r.session_id == session_id,
    {
        Packet { pack_type: PacketType::FloodRequest(flood_request), routing_header, session_id }
    }
}

/// What a drone reports to the simulation controller.
#[derive(Debug, Clone)]
pub enum DroneEvent {
    PacketSent(Packet),
    PacketDropped(Packet),
    ControllerShortcut(Packet),
}

} // verus!
