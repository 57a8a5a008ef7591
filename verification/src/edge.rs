//! Logic every edge node (client or server) shares: answering a flood.
use vstd::prelude::*;

use crate::packet::{FloodRequest, FloodResponse, Nack, NackType, Packet, PacketType, SourceRoutingHeader};

verus! {

/// The ids of a trace, in order.
pub open spec fn trace_ids(t: Seq<(u8, crate::kinds::NodeType)>) -> Seq<u8> {
    t.map_values(|p: (u8, crate::kinds::NodeType)| p.0)
}

/// The route back to `initiator` along `trace`: the trace's ids backwards,
/// then the initiator when the trace does not start with it.
pub open spec fn route_back(initiator: u8, trace: Seq<(u8, crate::kinds::NodeType)>) -> Seq<u8> {
    let back = trace_ids(trace).reverse();
    if trace[0].0 != initiator {
        back.push(initiator)
    } else {
        back
    }
}

/// The route of the answer to a flood.
pub open spec fn response_route(flood: FloodRequest) -> Seq<u8> {
    route_back(flood.initiator_id, flood.path_trace@)
}

/// Packet `p` answers the flood with id `flood_id`, initiator `initiator`
/// and trace `trace`: a flood response with that id and trace, on the route
/// back to the initiator at position `hop_index`, in the session numbered by
/// the flood id.
pub open spec fn answers_flood(
    p: Packet,
    flood_id: u64,
    initiator: u8,
    trace: Seq<(u8, crate::kinds::NodeType)>,
    hop_index: usize,
) -> bool {
    &&& p.pack_type matches PacketType::FloodResponse(resp) && resp.flood_id == flood_id && resp.path_trace@ == trace
    &&& p.routing_header.hops@ == route_back(initiator, trace)
    &&& p.routing_header.hop_index == hop_index
    &&& p.session_id == flood_id
}

/// `step` is what moving `packet` one hop on gives: the packet with its
/// position advanced, handed to the hop at the new position, or kept when
/// the route ends there.
pub open spec fn step_of(packet: Packet, step: ForwardStep) -> bool {
    let i = packet.routing_header.hop_index + 1;
    let moved = |p: Packet|
        p.pack_type == packet.pack_type && p.session_id == packet.session_id && p.routing_header.hops@
            == packet.routing_header.hops@ && p.routing_header.hop_index == i;
    if i < packet.routing_header.hops@.len() {
        step matches ForwardStep::Forward(p, next) && moved(p) && next == packet.routing_header.hops@[i]
    } else {
        step matches ForwardStep::NoNextHop(p) && moved(p)
    }
}

/// `step` moves the answer to a flood (id `flood_id`, initiator
/// `initiator`, trace `trace`) one hop from the start of its route.
pub open spec fn answer_step(step: ForwardStep, flood_id: u64, initiator: u8, trace: Seq<(u8, crate::kinds::NodeType)>) -> bool {
    let route = route_back(initiator, trace);
    if 1 < route.len() {
        step matches ForwardStep::Forward(p, next) && answers_flood(p, flood_id, initiator, trace, 1) && next == route[1]
    } else {
        step matches ForwardStep::NoNextHop(p) && answers_flood(p, flood_id, initiator, trace, 1)
    }
}

/// The packet that answers a flood request: a flood response with the same
/// id and trace, routed back along the trace from its start (hop index 0),
/// in the session numbered by the flood id.
pub fn flood_response_packet(flood: FloodRequest) -> (r: Packet)
    requires
        flood.path_trace@.len() > 0,
    ensures
        answers_flood(r, flood.flood_id, flood.initiator_id, flood.path_trace@, 0),
{
    let n = flood.path_trace.len();
    let mut hops: Vec<u8> = Vec::new();
    let mut i = n;
    while i > 0
        invariant
            i <= n == flood.path_trace@.len(),
            hops@ == trace_ids(flood.path_trace@).subrange(i as int, n as int).reverse(),
        decreases i,
    {
        i = i - 1;
        hops.push(flood.path_trace[i].0);
        assert(hops@ =~= trace_ids(flood.path_trace@).subrange(i as int, n as int).reverse());
    }
    assert(trace_ids(flood.path_trace@).subrange(0, n as int) =~= trace_ids(flood.path_trace@));
    if flood.path_trace[0].0 != flood.initiator_id {
        hops.push(flood.initiator_id);
    }
    let trace = copy_trace(&flood.path_trace);
    let resp = FloodResponse { flood_id: flood.flood_id, path_trace: trace };
    Packet {
        pack_type: PacketType::FloodResponse(resp),
        routing_header: SourceRoutingHeader { hop_index: 0, hops },
        session_id: flood.flood_id,
    }
}

/// A copy of a trace.
pub fn copy_trace(t: &Vec<(u8, crate::kinds::NodeType)>) -> (r: Vec<(u8, crate::kinds::NodeType)>)
    ensures
        r@ == t@,
{
    let mut out: Vec<(u8, crate::kinds::NodeType)> = Vec::new();
    let mut i: usize = 0;
    while i < t.len()
        invariant
            0 <= i <= t@.len(),
            out@ == t@.take(i as int),
        decreases t@.len() - i,
    {
        out.push(t[i]);
        assert(out@ =~= t@.take(i + 1));
        i = i + 1;
    }
    assert(t@.take(i as int) =~= t@);
    out
}

/// The ack of fragment `fragment_index` of a packet that reached its
/// destination: routed back along the reversed route from its second hop,
/// in the packet's session; with that second hop, the neighbour to hand it to.
pub fn ack_packet(packet: &Packet, fragment_index: u64) -> (r: (Packet, u8))
    requires
        packet.routing_header.hops@.len() >= 2,
    ensures
        r.0.pack_type == PacketType::Ack(crate::packet::Ack { fragment_index }),
        r.0.routing_header.hops@ == packet.routing_header.hops@.reverse(),
        r.0.routing_header.hop_index == 1,
        r.0.session_id == packet.session_id,
        r.1 == packet.routing_header.hops@.reverse()[1],
{
    let srh = packet.routing_header.reversed_from_second();
    let next = srh.hops[1];
    (Packet::new_ack(srh, packet.session_id, fragment_index), next)
}

/// Where a packet passing through an edge node goes next.
#[derive(Debug, Clone)]
pub enum ForwardStep {
    /// The packet, one hop further on, and the neighbour to hand it to.
    Forward(Packet, u8),
    /// The route ends here although this node is not its destination.
    NoNextHop(Packet),
}

/// Moves a packet that is not for this node one hop on along its route.
pub fn forward_step(packet: Packet) -> (r: ForwardStep)
    requires
        packet.routing_header.hop_index < usize::MAX,
    ensures
        step_of(packet, r),
{
    let mut packet = packet;
    packet.routing_header.hop_index = packet.routing_header.hop_index + 1;
    let i = packet.routing_header.hop_index;
    if i < packet.routing_header.hops.len() {
        let next = packet.routing_header.hops[i];
        ForwardStep::Forward(packet, next)
    } else {
        ForwardStep::NoNextHop(packet)
    }
}

/// A nack of the given type for fragment 0, as a drone sends it, in a
/// packet routed by `header`.
pub fn drone_nack(header: SourceRoutingHeader, session_id: u64, nack_type: NackType) -> (r: Packet)
    ensures
        r.pack_type == PacketType::Nack(Nack { fragment_index: 0, nack_type }),
        r.routing_header == header,
        r.session_id == session_id,
{
    Packet::new_nack(header, session_id, Nack { fragment_index: 0, nack_type })
}

/// A copy of a list of ids.
pub fn copy_ids(v: &Vec<u8>) -> (r: Vec<u8>)
    ensures
        r@ == v@,
{
    let mut out: Vec<u8> = Vec::new();
    let mut i: usize = 0;
    while i < v.len()
        invariant
            0 <= i <= v@.len(),
            out@ == v@.take(i as int),
        decreases v@.len() - i,
    {
        out.push(v[i]);
        assert(out@ =~= v@.take(i + 1));
        i = i + 1;
    }
    assert(v@.take(i as int) =~= v@);
    out
}

} // verus!
