//! Verified core of a drone-network simulator: packets and fragmentation,
//! source-routing topology, edge (client and server) protocol decisions and
//! the simulation controller's bookkeeping.
pub mod bignat;
mod counting;
pub mod chat_client;
pub mod chat_server;
pub mod client;
pub mod controller;
pub mod edge;
pub mod fragmentation;
mod graph;
pub mod kinds;
pub mod log;
pub mod message;
pub mod packet;
pub mod routing;
pub mod server;
pub mod simulation;
pub mod telemetry;
pub mod text;
pub mod text_server;
pub mod web_browser;
