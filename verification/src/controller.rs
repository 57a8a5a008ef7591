//! The simulation controller's bookkeeping: its picture of the network and
//! its log, and the checks it makes before changing the topology. Sending
//! the commands stays outside; these functions say whether to send them
//! and record what follows.
use vstd::prelude::*;

use crate::client::ClientEvent;
use crate::kinds::NodeType;
use crate::log::{
    client_event_entry, client_log, client_loggable, decimal, drone_event_entry, drone_log, drone_loggable,
    entry_view, opt_entry_view, render_u64, server_event_entry, server_log, server_loggable, Cause, LogEntry,
};
use crate::packet::{DroneEvent, Packet, PacketType};
use crate::server::ServerEvent;
use crate::simulation::{nature_type, NetworkGraph, NodeNature};

verus! {

pub open spec fn entries_view(v: Seq<LogEntry>) -> Seq<(Cause, u8, Seq<char>)> {
    v.map_values(|e: LogEntry| entry_view(e))
}

/// `"drone " + a + text`.
pub open spec fn drone_text(a: u8, t: Seq<char>) -> Seq<char> {
    "drone "@ + decimal(a as nat) + t
}

fn drone_msg(a: u8, t: &str) -> (r: String)
    ensures
        r@ == drone_text(a, t@),
{
    String::from_str("drone ").concat(render_u64(a as u64).as_str()).concat(t)
}

pub struct SimulationControl {
    graph: NetworkGraph,
    log: Vec<LogEntry>,
}

impl SimulationControl {
    pub closed spec fn network(&self) -> NetworkGraph {
        self.graph
    }

    /// The log, oldest entry first.
    pub closed spec fn entries(&self) -> Seq<(Cause, u8, Seq<char>)> {
        entries_view(self.log@)
    }

    pub closed spec fn wf(&self) -> bool {
        self.graph.wf()
    }

    /// A controller for the given network graph, with an empty log.
    pub fn new(graph: NetworkGraph) -> (r: Self)
        requires
            graph.wf(),
        ensures
            r.wf(),
            r.network() == graph,
            r.entries() == Seq::<(Cause, u8, Seq<char>)>::empty(),
    {
        let r = SimulationControl { graph, log: Vec::new() };
        assert(r.entries() =~= Seq::<(Cause, u8, Seq<char>)>::empty());
        r
    }

    pub fn graph(&self) -> (r: &NetworkGraph)
        ensures
            *r == self.network(),
    {
        &self.graph
    }

    pub fn log_entries(&self) -> (r: &Vec<LogEntry>)
        ensures
            entries_view(r@) == self.entries(),
    {
        &self.log
    }

    fn push(&mut self, e: LogEntry)
        ensures
            final(self).entries() == old(self).entries().push(entry_view(e)),
            final(self).network() == old(self).network(),
            final(self).wf() == old(self).wf(),
    {
        let ghost before = self.log@;
        self.log.push(e);
        assert(entries_view(self.log@) =~= entries_view(before).push(entry_view(e)));
    }

    /// Records a log entry.
    pub fn add_entry(&mut self, cause: Cause, node_id: u8, message: String)
        ensures
            final(self).entries() == old(self).entries().push((cause, node_id, message@)),
            final(self).network() == old(self).network(),
            final(self).wf() == old(self).wf(),
    {
        self.push(LogEntry::new(cause, node_id, message));
    }

    fn push_opt(&mut self, e: Option<LogEntry>)
        ensures
            final(self).entries() == match opt_entry_view(e) {
                Some(x) => old(self).entries().push(x),
                None => old(self).entries(),
            },
            final(self).network() == old(self).network(),
            final(self).wf() == old(self).wf(),
    {
        match e {
            Some(x) => self.push(x),
            None => {},
        }
    }

    /// Logs what a server reported (see `server_log`).
    pub fn add_server_event_to_log(&mut self, e: &ServerEvent)
        requires
            server_loggable(*e),
        ensures
            final(self).entries() == match server_log(*e) {
                Some(x) => old(self).entries().push(x),
                None => old(self).entries(),
            },
            final(self).network() == old(self).network(),
            final(self).wf() == old(self).wf(),
    {
        let entry = server_event_entry(e);
        self.push_opt(entry);
    }

    /// Logs what a client reported (see `client_log`).
    pub fn add_client_event_to_log(&mut self, e: &ClientEvent)
        requires
            client_loggable(*e),
        ensures
            final(self).entries() == match client_log(*e) {
                Some(x) => old(self).entries().push(x),
                None => old(self).entries(),
            },
            final(self).network() == old(self).network(),
            final(self).wf() == old(self).wf(),
    {
        let entry = client_event_entry(e);
        self.push_opt(entry);
    }

    /// Logs what a drone reported (see `drone_log`).
    pub fn add_drone_event_to_log(&mut self, e: &DroneEvent)
        requires
            drone_loggable(*e),
        ensures
            final(self).entries() == old(self).entries().push(drone_log(*e)),
            final(self).network() == old(self).network(),
            final(self).wf() == old(self).wf(),
    {
        let entry = drone_event_entry(e);
        self.push(entry);
    }

    /// First check before removing the channel between `id` and `other`:
    /// they must not lack a channel to each other and `id` must be in the
    /// network; otherwise the failure is logged. Gives `id`'s role.
    pub fn check_remove_senders(&mut self, id: u8, other: u8) -> (r: Option<NodeType>)
        ensures
            final(self).network() == old(self).network(),
            final(self).wf() == old(self).wf(),
            ({
                let g = old(self).network();
                let connected = (g.has(id) ==> g.links()[id].contains(other)) && (g.has(other) ==> g.links()[other].contains(id));
                if !connected {
                    &&& r is None
                    &&& final(self).entries() == old(self).entries().push(
                        (Cause::Error, id, drone_text(other, " is not connected to "@ + decimal(id as nat))),
                    )
                } else if !g.has(id) {
                    &&& r is None
                    &&& final(self).entries() == old(self).entries().push(
                        (Cause::Error, id, drone_text(id, " is not in network"@)),
                    )
                } else {
                    &&& r == Some(nature_type(g.natures()[id]))
                    &&& final(self).entries() == old(self).entries()
                }
            }),
    {
        if !self.graph.is_node_connected(id, other) {
            let m = drone_msg(other, " is not connected to ").concat(render_u64(id as u64).as_str());
            assert(m@ =~= drone_text(other, " is not connected to "@ + decimal(id as nat)));
            self.add_entry(Cause::Error, id, m);
            return None;
        }
        match self.graph.get_type(id) {
            None => {
                self.add_entry(Cause::Error, id, drone_msg(id, " is not in network"));
                None
            },
            Some(t) => Some(t),
        }
    }

    /// Second check before removing the channel: `other` must be in the
    /// network, otherwise the failure is logged (for `id`). Gives `other`'s
    /// role.
    pub fn check_remove_other(&mut self, id: u8, other: u8) -> (r: Option<NodeType>)
        ensures
            final(self).network() == old(self).network(),
            final(self).wf() == old(self).wf(),
            !old(self).network().has(other) ==> r is None && final(self).entries() == old(self).entries().push(
                (Cause::Error, id, drone_text(other, " is not in network"@)),
            ),
            old(self).network().has(other) ==> r == Some(nature_type(old(self).network().natures()[other]))
                && final(self).entries() == old(self).entries(),
    {
        match self.graph.get_type(other) {
            None => {
                self.add_entry(Cause::Error, id, drone_msg(other, " is not in network"));
                None
            },
            Some(t) => Some(t),
        }
    }

    /// Node `id` was told to drop its channel to `other`: the graph and the
    /// log follow.
    pub fn sender_removed(&mut self, id: u8, other: u8)
        requires
            old(self).wf(),
        ensures
            final(self).wf(),
            final(self).network().natures() == old(self).network().natures(),
            final(self).network().links() == if old(self).network().has(id) {
                old(self).network().links().insert(id, old(self).network().links()[id].remove(other))
            } else {
                old(self).network().links()
            },
            final(self).entries() == old(self).entries().push(
                (Cause::Managing, other, "node "@ + decimal(id as nat) + " removed from senders"@),
            ),
    {
        self.graph.unlink(id, other);
        let m = String::from_str("node ").concat(render_u64(id as u64).as_str()).concat(" removed from senders");
        self.add_entry(Cause::Managing, other, m);
    }

    /// First check before adding a channel from `id` to `other`: `other`
    /// must exist and `id` must be in the network; otherwise the failure is
    /// logged. Gives `id`'s role.
    pub fn check_add_sender(&mut self, id: u8, other: u8) -> (r: Option<NodeType>)
        ensures
            final(self).network() == old(self).network(),
            final(self).wf() == old(self).wf(),
            ({
                let g = old(self).network();
                if !g.has(other) {
                    &&& r is None
                    &&& final(self).entries() == old(self).entries().push(
                        (Cause::Error, id, drone_text(other, " does not exist in this network."@)),
                    )
                } else if !g.has(id) {
                    &&& r is None
                    &&& final(self).entries() == old(self).entries().push(
                        (Cause::Error, id, drone_text(id, " is not in network"@)),
                    )
                } else {
                    &&& r == Some(nature_type(g.natures()[id]))
                    &&& final(self).entries() == old(self).entries()
                }
            }),
    {
        if !self.graph.does_drone_exist(other) {
            self.add_entry(Cause::Error, id, drone_msg(other, " does not exist in this network."));
            return None;
        }
        match self.graph.get_type(id) {
            None => {
                self.add_entry(Cause::Error, id, drone_msg(id, " is not in network"));
                None
            },
            Some(t) => Some(t),
        }
    }

    /// Second check before adding the channel: `other` must be in the
    /// network, otherwise the failure is logged (for `other`).
    pub fn check_add_other(&mut self, other: u8) -> (r: Option<NodeType>)
        ensures
            final(self).network() == old(self).network(),
            final(self).wf() == old(self).wf(),
            !old(self).network().has(other) ==> r is None && final(self).entries() == old(self).entries().push(
                (Cause::Error, other, drone_text(other, " is not in network"@)),
            ),
            old(self).network().has(other) ==> r == Some(nature_type(old(self).network().natures()[other]))
                && final(self).entries() == old(self).entries(),
    {
        match self.graph.get_type(other) {
            None => {
                self.add_entry(Cause::Error, other, drone_msg(other, " is not in network"));
                None
            },
            Some(t) => Some(t),
        }
    }

    /// Node `id` was given a channel to `other`: the graph and the log
    /// follow.
    pub fn sender_added(&mut self, id: u8, other: u8)
        requires
            old(self).wf(),
        ensures
            final(self).wf(),
            final(self).network().natures() == old(self).network().natures(),
            final(self).network().links() == if old(self).network().has(id) {
                old(self).network().links().insert(id, old(self).network().links()[id].insert(other))
            } else {
                old(self).network().links()
            },
            final(self).entries() == old(self).entries().push((Cause::Managing, id, drone_text(other, " added to senders"@))),
    {
        self.graph.link(id, other);
        self.add_entry(Cause::Managing, id, drone_msg(other, " added to senders"));
    }

    /// Whether `node` can be told to flood: it must exist (otherwise that is
    /// logged) and be a client.
    pub fn check_flood_with(&mut self, node: u8) -> (r: bool)
        ensures
            final(self).network() == old(self).network(),
            final(self).wf() == old(self).wf(),
            r == (old(self).network().has(node) && nature_type(old(self).network().natures()[node]) == NodeType::Client),
            final(self).entries() == if old(self).network().has(node) {
                old(self).entries()
            } else {
                old(self).entries().push((Cause::Error, node, drone_text(node, " does not exist in this network."@)))
            },
    {
        if !self.graph.does_drone_exist(node) {
            self.add_entry(Cause::Error, node, drone_msg(node, " does not exist in this network."));
            return false;
        }
        match self.graph.get_type(node) {
            Some(NodeType::Client) => true,
            _ => false,
        }
    }

    /// The client told to flood has no command channel: logged.
    pub fn flood_failed(&mut self, node: u8)
        ensures
            final(self).network() == old(self).network(),
            final(self).wf() == old(self).wf(),
            final(self).entries() == old(self).entries().push((Cause::Managing, node, "error flooding"@)),
    {
        self.add_entry(Cause::Managing, node, String::from_str("error flooding"));
    }

    /// The nodes drone `id` has channels to (those to tell it crashed).
    pub fn crash_neighbors(&self, id: u8) -> (r: Vec<u8>)
        requires
            self.network().has(id),
        ensures
            r@.to_set() == self.network().links()[id],
    {
        self.graph.links_of(id)
    }

    /// Drone `id` crashed: it is logged and taken out of the graph.
    pub fn drone_crashed(&mut self, id: u8)
        requires
            old(self).wf(),
        ensures
            final(self).wf(),
            final(self).network().natures() == old(self).network().natures().remove(id),
            final(self).network().links() == old(self).network().links().remove(id).map_values(|s: Set<u8>| s.remove(id)),
            final(self).entries() == old(self).entries().push((Cause::Managing, id, "Node crashed"@)),
    {
        self.add_entry(Cause::Managing, id, String::from_str("Node crashed"));
        self.graph.forget_node(id);
    }

    /// A new drone joins with channels to `connections`: it takes the
    /// smallest free id from 1 up, which is returned.
    pub fn register_drone(&mut self, connections: &Vec<u8>) -> (r: u8)
        requires
            old(self).wf(),
            exists|k: u8| 1 <= k && !old(self).network().has(k),
        ensures
            final(self).wf(),
            1 <= r,
            !old(self).network().has(r),
            forall|k: u8| 1 <= k < r ==> old(self).network().has(k),
            final(self).network().natures() == old(self).network().natures().insert(r, NodeNature::Drone),
            final(self).network().links() == old(self).network().links().insert(r, connections@.to_set()),
            final(self).entries() == old(self).entries(),
    {
        let id = self.graph.generate_id();
        self.graph.insert_node(id, NodeNature::Drone, connections);
        id
    }
}

/// The packet handed to the controller names the node the check needs:
/// the node at its position for a fragment or flood request, its last hop
/// otherwise.
pub open spec fn shortcut_checkable(p: Packet) -> bool {
    match p.pack_type {
        PacketType::MsgFragment(_) => p.routing_header.hop_index < p.routing_header.hops@.len(),
        PacketType::FloodRequest(_) => p.routing_header.hop_index < p.routing_header.hops@.len(),
        _ => p.routing_header.hops@.len() > 0,
    }
}

/// `"error in sending packet to " + n + " through shortcut (" + why + ")"`.
pub open spec fn shortcut_error(n: u8, why: Seq<char>) -> Seq<char> {
    "error in sending packet to "@ + decimal(n as nat) + " through shortcut ("@ + why + ")"@
}

impl SimulationControl {
    /// A drone handed the controller packet `p` to deliver directly.
    /// Fragments and flood requests are not to be delivered so: that is
    /// logged against the node at the packet's position. Other packets go
    /// to their last hop when the controller has a channel to it
    /// (`has_sender`) and it is not a drone; otherwise the failure is
    /// logged. Gives the node to hand the packet to.
    pub fn check_shortcut(&mut self, p: &Packet, has_sender: bool) -> (r: Option<u8>)
        requires
            shortcut_checkable(*p),
            !(p.pack_type is MsgFragment || p.pack_type is FloodRequest) && has_sender ==> old(self).network().has(
                p.routing_header.hops@.last(),
            ),
        ensures
            final(self).network() == old(self).network(),
            final(self).wf() == old(self).wf(),
            ({
                let hops = p.routing_header.hops@;
                match p.pack_type {
                    PacketType::MsgFragment(_) => r is None && final(self).entries() == old(self).entries().push(
                        (Cause::Error, hops[p.routing_header.hop_index as int], "Shortcut used for unusual packet type: fragment"@),
                    ),
                    PacketType::FloodRequest(_) => r is None && final(self).entries() == old(self).entries().push(
                        (
                            Cause::Error,
                            hops[p.routing_header.hop_index as int],
                            "Shortcut used for unusual packet type: flood request"@,
                        ),
                    ),
                    _ => {
                        let n = hops.last();
                        if !has_sender {
                            r is None && final(self).entries() == old(self).entries().push(
                                (Cause::Error, n, shortcut_error(n, "packet not present"@)),
                            )
                        } else if nature_type(old(self).network().natures()[n]) == NodeType::Drone {
                            r is None && final(self).entries() == old(self).entries().push(
                                (Cause::Error, n, shortcut_error(n, "final destination is drone"@)),
                            )
                        } else {
                            r == Some(n) && final(self).entries() == old(self).entries()
                        }
                    },
                }
            }),
    {
        let hops = &p.routing_header.hops;
        match &p.pack_type {
            PacketType::MsgFragment(_) => {
                let at = hops[p.routing_header.hop_index];
                self.add_entry(Cause::Error, at, String::from_str("Shortcut used for unusual packet type: fragment"));
                None
            },
            PacketType::FloodRequest(_) => {
                let at = hops[p.routing_header.hop_index];
                self.add_entry(Cause::Error, at, String::from_str("Shortcut used for unusual packet type: flood request"));
                None
            },
            _ => {
                let n = hops[hops.len() - 1];
                if !has_sender {
                    self.add_entry(Cause::Error, n, shortcut_failure(n, "packet not present"));
                    return None;
                }
                match self.graph.get_type(n) {
                    Some(NodeType::Drone) => {
                        self.add_entry(Cause::Error, n, shortcut_failure(n, "final destination is drone"));
                        None
                    },
                    _ => Some(n),
                }
            },
        }
    }

    /// The packet reached node `n` through the controller: logged.
    pub fn shortcut_sent(&mut self, n: u8)
        ensures
            final(self).network() == old(self).network(),
            final(self).wf() == old(self).wf(),
            final(self).entries() == old(self).entries().push(
                (Cause::Sent, n, "shortcut redirected successfully to "@ + decimal(n as nat) + " through shortcut "@),
            ),
    {
        let m = String::from_str("shortcut redirected successfully to ").concat(render_u64(n as u64).as_str()).concat(
            " through shortcut ",
        );
        self.add_entry(Cause::Sent, n, m);
    }
}

fn shortcut_failure(n: u8, why: &str) -> (r: String)
    ensures
        r@ == shortcut_error(n, why@),
{
    String::from_str("error in sending packet to ").concat(render_u64(n as u64).as_str()).concat(" through shortcut (").concat(
        why,
    ).concat(")")
}

} // verus!
