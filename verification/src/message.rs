//! The application-level messages that edge nodes exchange once fragments
//! are put back together.
use vstd::prelude::*;

use crate::kinds::EdgeType;

verus! {

#[derive(Debug, Clone)]
pub enum TextRequest {
    TextList,
    TextFile(u64),
}

/// A text server's answers: its list of files, the media a file refers to
/// (each media id with its name and the media servers that hold it), or why
/// a file cannot be given.
#[derive(Debug, Clone)]
pub enum TextResponse {
    TextList(Vec<(u64, String)>),
    MediaReferences(Vec<(u64, (String, Vec<u8>))>),
    Incomplete(u64),
    NotFound(u64),
}

#[derive(Debug, Clone)]
pub enum MediaRequest {
    MediaList,
    Media(u64),
}

#[derive(Debug, Clone)]
pub enum MediaResponse {
    MediaList(Vec<(u64, String)>),
    Media(u64, String, Vec<u8>),
    NotFound(u64),
}

#[derive(Debug, Clone)]
pub enum ChatRequest {
    ClientList,
    Register(u8),
    SendMessage { from: u8, to: u8, message: String },
}

#[derive(Debug, Clone)]
pub enum ChatResponse {
    ClientList(Vec<u8>),
    MessageFrom { from: u8, message: String },
    ClientNotFound(u8),
}

/// How edge nodes learn what kind of node another edge is.
#[derive(Debug, Clone, Copy)]
pub enum TypeExchange {
    TypeRequest { from: u8 },
    TypeResponse { edge_type: EdgeType, from: u8 },
}

/// An edge node's complaint about a message it should not have received.
#[derive(Debug, Clone, Copy, PartialEq, Eq, Structural)]
pub enum EdgeNackType {
    UnexpectedMessage,
}

#[derive(Debug, Clone)]
pub enum ContentType {
    TextRequest(TextRequest),
    TextResponse(TextResponse),
    MediaRequest(MediaRequest),
    MediaResponse(MediaResponse),
    ChatRequest(ChatRequest),
    ChatResponse(ChatResponse),
    TypeExchange(TypeExchange),
    EdgeNack(EdgeNackType),
}

/// A whole message: who sent it, in which session, and what it says.
#[derive(Debug, Clone)]
pub struct Message {
    pub source_id: u8,
    pub session_id: u64,
    pub content: ContentType,
}

impl Message {
    pub fn new(source_id: u8, session_id: u64, content: ContentType) -> (r: Message)
        ensures
            r.source_id == source_id,
            r.session_id == session_id,
            r.content == content,
    {
        Message { source_id, session_id, content }
    }
}

/// Whether a message may be sent to a node whose kind is not yet confirmed:
/// type exchanges and edge nacks are what confirm or refuse it.
pub open spec fn needs_no_state_check(content: ContentType) -> bool {
    content is TypeExchange || content is EdgeNack
}

/// The edge-level nack that node `source_id` sends in session `session_id`.
pub fn create_nack(source_id: u8, session_id: u64, nack_type: EdgeNackType) -> (r: Message)
    ensures
        r.source_id == source_id,
        r.session_id == session_id,
        r.content == ContentType::EdgeNack(nack_type),
{
    Message::new(source_id, session_id, ContentType::EdgeNack(nack_type))
}

/// Whether a message may leave for a destination in state `state` (`None`
/// for an unknown destination): type exchanges and edge nacks always may,
/// anything else only towards a node in the reachable state 1.
pub fn may_send(content: &ContentType, state: Option<u8>) -> (r: bool)
    ensures
        r == (needs_no_state_check(*content) || state == Some(1u8)),
{
    match content {
        ContentType::TypeExchange(_) => true,
        ContentType::EdgeNack(_) => true,
        _ => match state {
            Some(s) => s == 1,
            None => false,
        },
    }
}

} // verus!
