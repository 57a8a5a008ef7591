# skylink_network

The verified core of a drone-network simulator. Edge nodes (chat clients,
web browsers, chat servers and text servers) exchange messages split into
fixed-size fragments that travel along source routes through drones; a
simulation controller changes the topology and keeps a log of what the
nodes report.

## Layout

- `src/` — the library, verified with Verus:
  - `packet.rs`, `message.rs`, `kinds.rs`: the packets, message contents and
    node kinds exchanged on the network;
  - `fragmentation.rs`: splitting a message into fragments and reassembling
    it, with the round-trip laws;
  - `routing.rs`, `graph.rs`, `bignat.rs`: each edge node's picture of the
    topology (kept in a `petgraph` stable graph), route weights as exact
    fractions, and best-route selection;
  - `edge.rs`, `server.rs`, `client.rs`: what a server or client does with
    every packet it receives and every fragment it sends;
  - `text_server.rs`, `chat_server.rs`, `web_browser.rs`, `chat_client.rs`:
    the message handling of each role;
  - `text.rs`: file names and the media a text file lists;
  - `simulation.rs`, `controller.rs`, `log.rs`: the controller's network
    graph, the checks it makes before changing the topology, and its log.
- `tests/` — tests of the library on concrete values.
- `app/` — the program around it: the node threads and their channels, the
  wire encoding of message contents, file reading, and a small demo network.
