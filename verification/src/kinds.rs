use vstd::prelude::*;

verus! {

/// The two kinds of client that sit at the edge of the network.
#[derive(Debug, Clone, Copy, PartialEq, Eq, Structural)]
pub enum ClientType {
    WebBrowser,
    ChatClient,
}

/// The two kinds of content server.
#[derive(Debug, Clone, Copy, PartialEq, Eq, Structural)]
pub enum ContentServerType {
    Text,
    Media,
}

/// The kinds of server: a chat (communication) server or a content server.
#[derive(Debug, Clone, Copy, PartialEq, Eq, Structural)]
pub enum ServerType {
    Chat,
    Content(ContentServerType),
}

/// What an edge node announces itself as in a type exchange.
#[derive(Debug, Clone, Copy, PartialEq, Eq, Structural)]
pub enum EdgeType {
    Client(ClientType),
    Server(ServerType),
}

/// The three roles a node can have in the network.
#[derive(Debug, Clone, Copy, PartialEq, Eq, Structural)]
pub enum NodeType {
    Client,
    Drone,
    Server,
}

} // verus!
