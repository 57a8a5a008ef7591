//! The simulation controller's log: what each event a node reports is
//! recorded as, with the text shown for it.
use vstd::prelude::*;

use crate::client::ClientEvent;
use crate::edge::trace_ids;
use crate::packet::{DroneEvent, NackType, Packet, PacketType};
use crate::server::ServerEvent;
use crate::text::string_of;

verus! {

/// The character of decimal digit `d`.
pub open spec fn digit(d: int) -> char {
    if d == 0 { '0' } else if d == 1 { '1' } else if d == 2 { '2' } else if d == 3 { '3' } else if d == 4 { '4' }
    else if d == 5 { '5' } else if d == 6 { '6' } else if d == 7 { '7' } else if d == 8 { '8' } else { '9' }
}

/// The decimal digits of `n`, most significant first, without leading zeros.
pub open spec fn decimal(n: nat) -> Seq<char>
    decreases n,
{
    if n < 10 {
        seq![digit(n as int)]
    } else {
        decimal(n / 10).push(digit((n % 10) as int))
    }
}

fn digit_char(d: u64) -> (r: char)
    requires
        d < 10,
    ensures
        r == digit(d as int),
{
    if d == 0 { '0' } else if d == 1 { '1' } else if d == 2 { '2' } else if d == 3 { '3' } else if d == 4 { '4' }
    else if d == 5 { '5' } else if d == 6 { '6' } else if d == 7 { '7' } else if d == 8 { '8' } else { '9' }
}

/// The number a digit character stands for.
pub open spec fn digit_value(c: char) -> int {
    (c as int) - ('0' as int)
}

/// The number a string of decimal digits stands for.
pub open spec fn digits_value(s: Seq<char>) -> int
    decreases s.len(),
{
    if s.len() == 0 {
        0
    } else {
        digits_value(s.drop_last()) * 10 + digit_value(s.last())
    }
}

/// Reading back the decimal writing of `n` gives `n`, and it is made of
/// digits only.
pub proof fn lemma_decimal_value(n: nat)
    ensures
        digits_value(decimal(n)) == n,
        forall|i: int| 0 <= i < decimal(n).len() ==> '0' <= #[trigger] decimal(n)[i] <= '9',
    decreases n,
{
    let d = (n % 10) as int;
    assert(0 <= d < 10);
    assert(digit_value(digit(d)) == d && '0' <= digit(d) <= '9') by {
        assert('0' as int == 48);
        assert('9' as int == 57);
    }
    if n >= 10 {
        lemma_decimal_value(n / 10);
        let s = decimal(n);
        assert(s.drop_last() =~= decimal(n / 10));
        assert(s.last() == digit(d));
        assert(digits_value(s) == digits_value(decimal(n / 10)) * 10 + d);
        assert(n == (n / 10) * 10 + n % 10);
        assert forall|i: int| 0 <= i < s.len() implies '0' <= #[trigger] s[i] <= '9' by {
            if i < s.len() - 1 {
                assert(s[i] == decimal(n / 10)[i]);
            }
        }
    } else {
        assert(decimal(n) == seq![digit(n as int)]);
        assert(decimal(n).drop_last() =~= Seq::<char>::empty());
        assert(decimal(n).last() == digit(d));
        assert(digits_value(Seq::<char>::empty()) == 0);
        assert(digits_value(decimal(n).drop_last()) == 0);
    }
}

/// The decimal writing of `n`.
pub fn render_u64(n: u64) -> (r: String)
    ensures
        r@ == decimal(n as nat),
{
    let v = decimal_chars(n);
    string_of(&v)
}

fn decimal_chars(n: u64) -> (r: Vec<char>)
    ensures
        r@ == decimal(n as nat),
    decreases n,
{
    if n < 10 {
        let mut v: Vec<char> = Vec::new();
        v.push(digit_char(n));
        assert(v@ =~= seq![digit(n as int)]);
        v
    } else {
        let mut v = decimal_chars(n / 10);
        v.push(digit_char(n % 10));
        v
    }
}

/// `a` followed by `b`.
fn cat(a: String, b: &str) -> (r: String)
    ensures
        r@ == a@ + b@,
{
    a.concat(b)
}

/// `a` followed by the decimal writing of `n`.
fn cat_num(a: String, n: u64) -> (r: String)
    ensures
        r@ == a@ + decimal(n as nat),
{
    let d = render_u64(n);
    a.concat(d.as_str())
}

/// A string holding the characters of `s`.
fn text(s: &str) -> (r: String)
    ensures
        r@ == s@,
{
    String::from_str(s)
}

/// The list writing of ids: `[a, b, c]`.
pub open spec fn id_list(s: Seq<u8>) -> Seq<char> {
    seq!['['] + id_items(s) + seq![']']
}

/// The ids in decimal, separated by `", "`.
pub open spec fn id_items(s: Seq<u8>) -> Seq<char>
    decreases s.len(),
{
    if s.len() == 0 {
        Seq::empty()
    } else if s.len() == 1 {
        decimal(s[0] as nat)
    } else {
        id_items(s.drop_last()) + seq![',', ' '] + decimal(s.last() as nat)
    }
}

/// The list writing of a sequence of ids, as `{:?}` writes a `Vec<u8>`.
pub fn render_ids(v: &Vec<u8>) -> (r: String)
    ensures
        r@ == id_list(v@),
{
    let mut out: Vec<char> = Vec::new();
    out.push('[');
    let mut i: usize = 0;
    while i < v.len()
        invariant
            0 <= i <= v@.len(),
            out@ == seq!['['] + id_items(v@.take(i as int)),
        decreases v@.len() - i,
    {
        assert(v@.take(i + 1).drop_last() =~= v@.take(i as int));
        if i > 0 {
            out.push(',');
            out.push(' ');
        }
        let d = decimal_chars(v[i] as u64);
        let mut j: usize = 0;
        let ghost base = out@;
        while j < d.len()
            invariant
                0 <= j <= d@.len(),
                out@ == base + d@.take(j as int),
            decreases d@.len() - j,
        {
            out.push(d[j]);
            assert(out@ =~= base + d@.take(j + 1));
            j = j + 1;
        }
        assert(d@.take(j as int) =~= d@);
        proof {
            if i == 0 {
                assert(v@.take(1).len() == 1);
                assert(id_items(v@.take(1)) == decimal(v@[0] as nat));
                assert(out@ =~= seq!['['] + id_items(v@.take(1)));
            } else {
                assert(v@.take(i + 1).last() == v@[i as int]);
                assert(out@ =~= seq!['['] + id_items(v@.take(i + 1)));
            }
        }
        i = i + 1;
    }
    assert(v@.take(i as int) =~= v@);
    out.push(']');
    assert(out@ =~= id_list(v@));
    string_of(&out)
}

/// How `{:?}` writes an optional id: `Some(3)` or `None`.
pub open spec fn option_text(o: Option<u8>) -> Seq<char> {
    match o {
        Some(x) => "Some("@ + decimal(x as nat) + ")"@,
        None => "None"@,
    }
}

pub fn render_option(o: Option<u8>) -> (r: String)
    ensures
        r@ == option_text(o),
{
    match o {
        Some(x) => cat(cat_num(text("Some("), x as u64), ")"),
        None => text("None"),
    }
}

/// How `{:?}` writes a nack type.
pub open spec fn nack_type_text(t: NackType) -> Seq<char> {
    match t {
        NackType::ErrorInRouting(x) => "ErrorInRouting("@ + decimal(x as nat) + ")"@,
        NackType::DestinationIsDrone => "DestinationIsDrone"@,
        NackType::Dropped => "Dropped"@,
        NackType::UnexpectedRecipient(x) => "UnexpectedRecipient("@ + decimal(x as nat) + ")"@,
    }
}

pub fn render_nack_type(t: NackType) -> (r: String)
    ensures
        r@ == nack_type_text(t),
{
    match t {
        NackType::ErrorInRouting(x) => cat(cat_num(text("ErrorInRouting("), x as u64), ")"),
        NackType::DestinationIsDrone => text("DestinationIsDrone"),
        NackType::Dropped => text("Dropped"),
        NackType::UnexpectedRecipient(x) => cat(cat_num(text("UnexpectedRecipient("), x as u64), ")"),
    }
}

/// Why an entry went into the log.
#[derive(Debug, Clone, Copy, PartialEq, Eq, Structural)]
pub enum Cause {
    Dropped,
    Sent,
    Shortcut,
    Managing,
    Error,
    AckReceived,
    NackReceived,
    MissingDestination,
    LostMessage,
    LostFragment,
    DroneInsideDestination,
    Flood,
}

/// One line of the log: why, about which node, and the text shown.
#[derive(Debug, Clone)]
pub struct LogEntry {
    pub cause: Cause,
    pub node_id: u8,
    pub message: String,
}

impl LogEntry {
    pub fn new(cause: Cause, node_id: u8, message: String) -> (r: LogEntry)
        ensures
            r.cause == cause,
            r.node_id == node_id,
            r.message@ == message@,
    {
        LogEntry { cause, node_id, message }
    }

    pub fn get_id(&self) -> (r: u8)
        ensures
            r == self.node_id,
    {
        self.node_id
    }
}

/// An entry's cause, node and text.
pub open spec fn entry_view(e: LogEntry) -> (Cause, u8, Seq<char>) {
    (e.cause, e.node_id, e.message@)
}

pub open spec fn opt_entry_view(e: Option<LogEntry>) -> Option<(Cause, u8, Seq<char>)> {
    match e {
        Some(x) => Some(entry_view(x)),
        None => None,
    }
}

/// How a packet is written in the log: its session and its route.
pub open spec fn packet_text(p: Packet) -> Seq<char> {
    "session "@ + decimal(p.session_id as nat) + ", route "@ + id_list(p.routing_header.hops@)
}

pub fn render_packet(p: &Packet) -> (r: String)
    ensures
        r@ == packet_text(*p),
{
    let h = render_ids(&p.routing_header.hops);
    cat(cat(cat_num(text("session "), p.session_id), ", route "), h.as_str())
}

/// The log can name the packet's first and last hops.
pub open spec fn has_ends(p: Packet) -> bool {
    p.routing_header.hops@.len() > 0
}

/// What the log says a node did when it sent packet `p`.
pub open spec fn sent_text(p: Packet) -> Seq<char> {
    let hops = p.routing_header.hops@;
    match p.pack_type {
        PacketType::MsgFragment(f) => "sent fragment id: "@ + decimal(f.fragment_index as nat) + ", to "@ + decimal(
            hops.last() as nat,
        ),
        PacketType::Ack(a) => "forwarded ack with id: "@ + decimal(a.fragment_index as nat) + " from initiator "@
            + decimal(hops[0] as nat) + " to "@ + decimal(hops.last() as nat) + " of session "@ + decimal(
            p.session_id as nat,
        ),
        PacketType::Nack(n) => "sent nack id: "@ + decimal(n.fragment_index as nat) + " to "@ + decimal(
            hops.last() as nat,
        ),
        PacketType::FloodRequest(rq) => "sent flood request: (id: "@ + decimal(rq.flood_id as nat) + ", initiator :"@
            + decimal(rq.initiator_id as nat) + ") containing "@ + id_list(trace_ids(rq.path_trace@)),
        PacketType::FloodResponse(rr) => "sent flood response to "@ + option_text(
            if hops.len() > 0 { Some(hops.last()) } else { None },
        ) + ", containing "@ + id_list(trace_ids(rr.path_trace@)),
    }
}

fn trace_ids_of(t: &Vec<(u8, crate::kinds::NodeType)>) -> (r: Vec<u8>)
    ensures
        r@ == trace_ids(t@),
{
    let mut out: Vec<u8> = Vec::new();
    let mut i: usize = 0;
    while i < t.len()
        invariant
            0 <= i <= t@.len(),
            out@ == trace_ids(t@).take(i as int),
        decreases t@.len() - i,
    {
        out.push(t[i].0);
        assert(out@ =~= trace_ids(t@).take(i + 1));
        i = i + 1;
    }
    assert(trace_ids(t@).take(i as int) =~= trace_ids(t@));
    out
}

/// The text for a packet sent (see `sent_text`).
pub fn get_message(p: &Packet) -> (r: String)
    requires
        (p.pack_type is MsgFragment || p.pack_type is Ack || p.pack_type is Nack) ==> has_ends(*p),
    ensures
        r@ == sent_text(*p),
{
    let hops = &p.routing_header.hops;
    match &p.pack_type {
        PacketType::MsgFragment(f) => cat_num(cat(cat_num(text("sent fragment id: "), f.fragment_index), ", to "), hops[hops.len() - 1] as u64),
        PacketType::Ack(a) => {
            let t = cat_num(text("forwarded ack with id: "), a.fragment_index);
            let t = cat_num(cat(t, " from initiator "), hops[0] as u64);
            let t = cat_num(cat(t, " to "), hops[hops.len() - 1] as u64);
            cat_num(cat(t, " of session "), p.session_id)
        },
        PacketType::Nack(n) => cat_num(cat(cat_num(text("sent nack id: "), n.fragment_index), " to "), hops[hops.len() - 1] as u64),
        PacketType::FloodRequest(rq) => {
            let t = cat_num(text("sent flood request: (id: "), rq.flood_id);
            let t = cat_num(cat(t, ", initiator :"), rq.initiator_id as u64);
            let path = render_ids(&trace_ids_of(&rq.path_trace));
            cat(cat(t, ") containing "), path.as_str())
        },
        PacketType::FloodResponse(rr) => {
            let d = if hops.len() > 0 { Some(hops[hops.len() - 1]) } else { None };
            let t = cat(text("sent flood response to "), render_option(d).as_str());
            let path = render_ids(&trace_ids_of(&rr.path_trace));
            cat(cat(t, ", containing "), path.as_str())
        },
    }
}

/// The node a packet event is about: the last of a flood request's trace,
/// otherwise the hop before the packet's position.
pub open spec fn event_node(p: Packet) -> u8 {
    match p.pack_type {
        PacketType::FloodRequest(f) => f.path_trace@.last().0,
        _ => p.routing_header.hops@[p.routing_header.hop_index - 1],
    }
}

/// `event_node` is defined for the packet.
pub open spec fn has_event_node(p: Packet) -> bool {
    match p.pack_type {
        PacketType::FloodRequest(f) => f.path_trace@.len() > 0,
        _ => 1 <= p.routing_header.hop_index <= p.routing_header.hops@.len(),
    }
}

pub fn get_id_drone(p: &Packet) -> (r: u8)
    requires
        has_event_node(*p),
    ensures
        r == event_node(*p),
{
    match &p.pack_type {
        PacketType::FloodRequest(f) => f.path_trace[f.path_trace.len() - 1].0,
        _ => p.routing_header.hops[p.routing_header.hop_index - 1],
    }
}

/// How `{:?}` writes a list of `(id, name)` pairs.
pub uninterp spec fn debug_pairs(v: Seq<(u64, Seq<char>)>) -> Seq<char>;

/// Trusted: wraps std's `format!("{:?}", v)` for a `Vec<(u64, String)>`,
/// whose text depends on the pairs alone.
#[verifier::external_body]
fn render_pairs(v: &Vec<(u64, String)>) -> (r: String)
    ensures
        r@ == debug_pairs(crate::text_server::pairs_view(v@)),
{
    format!("{:?}", v)
}

/// How `{:?}` writes a string: in double quotes, with quotes, backslashes
/// and characters that are not printable escaped.
pub uninterp spec fn debug_text(s: Seq<char>) -> Seq<char>;

/// Trusted: wraps std's `format!("{:?}", s)` for a `String`, whose text
/// depends on the characters alone.
#[verifier::external_body]
fn render_debug_text(s: &String) -> (r: String)
    ensures
        r@ == debug_text(s@),
{
    format!("{:?}", s)
}

/// The log entry for a server told to add the file at `path` although it
/// keeps no files: `command AddFile("path") is wrong`.
pub fn wrong_command_entry(server_id: u8, path: &String) -> (r: LogEntry)
    ensures
        entry_view(r) == (Cause::Error, server_id, "command AddFile("@ + debug_text(path@) + ") is wrong"@),
{
    let t = text("command AddFile(").concat(render_debug_text(path).as_str());
    LogEntry::new(Cause::Error, server_id, cat(t, ") is wrong"))
}

/// The lines `media id: N, media name: X`, one per media, joined by `\n`.
pub open spec fn media_lines(v: Seq<(u64, Seq<char>)>) -> Seq<char>
    decreases v.len(),
{
    if v.len() == 0 {
        Seq::empty()
    } else {
        let line = "media id: "@ + decimal(v.last().0 as nat) + ", media name: "@ + v.last().1;
        if v.len() == 1 {
            line
        } else {
            media_lines(v.drop_last()) + "\n"@ + line
        }
    }
}

fn render_media_lines(v: &Vec<(u64, String)>) -> (r: String)
    ensures
        r@ == media_lines(crate::text_server::pairs_view(v@)),
{
    let ghost pv = crate::text_server::pairs_view(v@);
    let mut out = String::new();
    let mut i: usize = 0;
    while i < v.len()
        invariant
            0 <= i <= v@.len(),
            pv == crate::text_server::pairs_view(v@),
            out@ == media_lines(pv.take(i as int)),
        decreases v@.len() - i,
    {
        proof {
            assert(pv.take(i + 1).drop_last() =~= pv.take(i as int));
            assert(pv.take(i + 1).last() == (v@[i as int].0, v@[i as int].1@));
        }
        if i > 0 {
            out = cat(out, "\n");
        }
        out = cat(cat(cat_num(cat(out, "media id: "), v[i].0), ", media name: "), v[i].1.as_str());
        proof {
            if i == 0 {
                assert(out@ =~= media_lines(pv.take(1)));
            } else {
                assert(out@ =~= media_lines(pv.take(i + 1)));
            }
        }
        i = i + 1;
    }
    assert(pv.take(i as int) =~= pv);
    out
}

/// What the log records for a server event, if anything.
pub open spec fn server_log(e: ServerEvent) -> Option<(Cause, u8, Seq<char>)> {
    match e {
        ServerEvent::PacketSent(p) => Some((Cause::Sent, event_node(p), sent_text(p))),
        ServerEvent::PacketReceived(p) => Some((
            Cause::Sent,
            event_node(p),
            "Received fragment "@ + decimal(p.session_id as nat) + " moving from node "@ + decimal(
                p.routing_header.hops@[0] as nat,
            ) + " to "@ + decimal(p.routing_header.hops@.last() as nat),
        )),
        ServerEvent::PacketSendingError(p) => Some((
            Cause::Error,
            event_node(p),
            "Error in sending fragment "@ + decimal(p.session_id as nat) + " of packet: "@ + packet_text(p),
        )),
        ServerEvent::AckReceived(p) => ack_log(p),
        ServerEvent::NackReceived(p) => match p.pack_type {
            PacketType::Ack(a) => if p.routing_header.hops@.len() > 0 {
                Some((
                    Cause::AckReceived,
                    p.routing_header.hops@.last(),
                    " received Nack of fragment "@ + decimal(a.fragment_index as nat),
                ))
            } else {
                None
            },
            _ => None,
        },
        ServerEvent::LostFragment(_s, node, fi) => Some((Cause::Error, node, "fragment "@ + decimal(fi as nat) + " lost"@)),
        ServerEvent::WrongDestinationType(me, w) => Some((
            Cause::Error,
            me,
            "the type of destination drone "@ + decimal(w as nat) + " is wrong"@,
        )),
        ServerEvent::MissingDestination(s, m) => Some((Cause::Error, s, "missing destination "@ + decimal(m as nat))),
        ServerEvent::MissingRoute(s, m) => Some((Cause::Error, s, "missing route for server "@ + decimal(m as nat))),
        ServerEvent::LostMessage(sess, init, err) => Some((
            Cause::Error,
            init,
            "Lost message in session "@ + decimal(sess as nat) + ". Initiator "@ + decimal(init as nat) + " reports: "@
                + err@ + " "@,
        )),
        ServerEvent::DiscardedMessage(s, sess) => Some((Cause::Error, s, "discarded message in sess "@ + decimal(sess as nat))),
        ServerEvent::DroneInsideDestination(s, d) => Some((
            Cause::Error,
            s,
            "destination "@ + decimal(d as nat) + " removed because it's a drone, not a server"@,
        )),
        ServerEvent::WrongDestination(s, p) => Some((Cause::Error, s, "packet "@ + packet_text(p) + " sent to wrong destination"@)),
        ServerEvent::FileNotFound(s, f) => Some((
            Cause::Error,
            s,
            "file "@ + decimal(f as nat) + " not found: the file is requested but not owned"@,
        )),
        ServerEvent::IncompleteFile(s, f) => Some((Cause::Error, s, "at least one media of file "@ + decimal(f as nat) + " is missing"@)),
        ServerEvent::FilesState(s, c, i) => Some((
            Cause::Error,
            s,
            "\nCOMPLETED FILES: \n "@ + debug_pairs(crate::text_server::pairs_view(c@)) + " \n INCOMPLETE FILES: \n "@ + debug_pairs(
                crate::text_server::pairs_view(i@),
            ) + "\n"@,
        )),
        ServerEvent::FileNotReadable(s, name, err) => Some((
            Cause::Error,
            s,
            "the file named "@ + name@ + " is not readable, reported error: "@ + err@,
        )),
        ServerEvent::MediaNotFound(s, m) => Some((Cause::Error, s, "media "@ + decimal(m as nat) + " not found"@)),
        ServerEvent::MediaState(s, list) => Some((
            Cause::Error,
            s,
            "\n"@ + media_lines(crate::text_server::pairs_view(list@)) + "\n"@,
        )),
        ServerEvent::ClientRegistered(s, c) => Some((Cause::Error, s, "client "@ + decimal(c as nat) + " registered correctly"@)),
        ServerEvent::ClientAlreadyRegistered(s, c) => Some((Cause::Error, s, "client "@ + decimal(c as nat) + " was already registered"@)),
        ServerEvent::ControllerShortcut(d) => match d {
            DroneEvent::ControllerShortcut(p) => Some((Cause::Error, p.routing_header.hops@[0], "starting controller shortcut"@)),
            _ => None,
        },
        ServerEvent::Flooding(s) => Some((Cause::Error, s, "flooding..."@)),
    }
}

/// What the log records for a received ack packet: the ack's fragment,
/// where it came from and its session, for the packet's destination.
pub open spec fn ack_log(p: Packet) -> Option<(Cause, u8, Seq<char>)> {
    match p.pack_type {
        PacketType::Ack(a) => if p.routing_header.hops@.len() > 0 {
            Some((
                Cause::AckReceived,
                p.routing_header.hops@.last(),
                "received Ack of fragment "@ + decimal(a.fragment_index as nat) + " coming from "@ + decimal(
                    p.routing_header.hops@[0] as nat,
                ) + " in session "@ + decimal(p.session_id as nat),
            ))
        } else {
            None
        },
        _ => None,
    }
}

/// The event carries what its log entry reads: the nodes its packet's
/// route or trace must name.
pub open spec fn server_loggable(e: ServerEvent) -> bool {
    match e {
        ServerEvent::PacketSent(p) => has_event_node(p) && ((p.pack_type is MsgFragment || p.pack_type is Ack
            || p.pack_type is Nack) ==> has_ends(p)),
        ServerEvent::PacketReceived(p) => has_event_node(p) && has_ends(p),
        ServerEvent::PacketSendingError(p) => has_event_node(p),
        ServerEvent::ControllerShortcut(DroneEvent::ControllerShortcut(p)) => has_ends(p),
        _ => true,
    }
}

fn ack_entry(p: &Packet) -> (r: Option<LogEntry>)
    ensures
        opt_entry_view(r) == ack_log(*p),
{
    match &p.pack_type {
        PacketType::Ack(a) => {
            let hops = &p.routing_header.hops;
            if hops.len() > 0 {
                let t = cat_num(text("received Ack of fragment "), a.fragment_index);
                let t = cat_num(cat(t, " coming from "), hops[0] as u64);
                let t = cat_num(cat(t, " in session "), p.session_id);
                Some(LogEntry::new(Cause::AckReceived, hops[hops.len() - 1], t))
            } else {
                None
            }
        },
        _ => None,
    }
}

/// The log entry for a server event (see `server_log`).
pub fn server_event_entry(e: &ServerEvent) -> (r: Option<LogEntry>)
    requires
        server_loggable(*e),
    ensures
        opt_entry_view(r) == server_log(*e),
{
    match e {
        ServerEvent::PacketSent(p) => Some(LogEntry::new(Cause::Sent, get_id_drone(p), get_message(p))),
        ServerEvent::PacketReceived(p) => {
            let hops = &p.routing_header.hops;
            let t = cat_num(text("Received fragment "), p.session_id);
            let t = cat_num(cat(t, " moving from node "), hops[0] as u64);
            let t = cat_num(cat(t, " to "), hops[hops.len() - 1] as u64);
            Some(LogEntry::new(Cause::Sent, get_id_drone(p), t))
        },
        ServerEvent::PacketSendingError(p) => {
            let t = cat(cat_num(text("Error in sending fragment "), p.session_id), " of packet: ");
            let t = cat(t, render_packet(p).as_str());
            Some(LogEntry::new(Cause::Error, get_id_drone(p), t))
        },
        ServerEvent::AckReceived(p) => ack_entry(p),
        ServerEvent::NackReceived(p) => match &p.pack_type {
            PacketType::Ack(a) => {
                let hops = &p.routing_header.hops;
                if hops.len() > 0 {
                    let t = cat_num(text(" received Nack of fragment "), a.fragment_index);
                    Some(LogEntry::new(Cause::AckReceived, hops[hops.len() - 1], t))
                } else {
                    None
                }
            },
            _ => None,
        },
        ServerEvent::LostFragment(_s, node, fi) => Some(LogEntry::new(Cause::Error, *node, cat(cat_num(text("fragment "), *fi), " lost"))),
        ServerEvent::WrongDestinationType(me, w) => Some(
            LogEntry::new(Cause::Error, *me, cat(cat_num(text("the type of destination drone "), *w as u64), " is wrong")),
        ),
        ServerEvent::MissingDestination(s, m) => Some(LogEntry::new(Cause::Error, *s, cat_num(text("missing destination "), *m as u64))),
        ServerEvent::MissingRoute(s, m) => Some(LogEntry::new(Cause::Error, *s, cat_num(text("missing route for server "), *m as u64))),
        ServerEvent::LostMessage(sess, init, err) => {
            let t = cat_num(text("Lost message in session "), *sess);
            let t = cat(cat(cat_num(cat(t, ". Initiator "), *init as u64), " reports: "), err.as_str());
            Some(LogEntry::new(Cause::Error, *init, cat(t, " ")))
        },
        ServerEvent::DiscardedMessage(s, sess) => Some(LogEntry::new(Cause::Error, *s, cat_num(text("discarded message in sess "), *sess))),
        ServerEvent::DroneInsideDestination(s, d) => Some(
            LogEntry::new(
                Cause::Error,
                *s,
                cat(cat_num(text("destination "), *d as u64), " removed because it's a drone, not a server"),
            ),
        ),
        ServerEvent::WrongDestination(s, p) => Some(
            LogEntry::new(Cause::Error, *s, cat(cat(text("packet "), render_packet(p).as_str()), " sent to wrong destination")),
        ),
        ServerEvent::FileNotFound(s, f) => Some(
            LogEntry::new(Cause::Error, *s, cat(cat_num(text("file "), *f), " not found: the file is requested but not owned")),
        ),
        ServerEvent::IncompleteFile(s, f) => Some(
            LogEntry::new(Cause::Error, *s, cat(cat_num(text("at least one media of file "), *f), " is missing")),
        ),
        ServerEvent::FilesState(s, c, i) => {
            let t = cat(cat(text("\nCOMPLETED FILES: \n "), render_pairs(c).as_str()), " \n INCOMPLETE FILES: \n ");
            let t = cat(cat(t, render_pairs(i).as_str()), "\n");
            Some(LogEntry::new(Cause::Error, *s, t))
        },
        ServerEvent::FileNotReadable(s, name, err) => {
            let t = cat(cat(cat(text("the file named "), name.as_str()), " is not readable, reported error: "), err.as_str());
            Some(LogEntry::new(Cause::Error, *s, t))
        },
        ServerEvent::MediaNotFound(s, m) => Some(LogEntry::new(Cause::Error, *s, cat(cat_num(text("media "), *m), " not found"))),
        ServerEvent::MediaState(s, list) => {
            let t = cat(cat(text("\n"), render_media_lines(list).as_str()), "\n");
            Some(LogEntry::new(Cause::Error, *s, t))
        },
        ServerEvent::ClientRegistered(s, c) => Some(
            LogEntry::new(Cause::Error, *s, cat(cat_num(text("client "), *c as u64), " registered correctly")),
        ),
        ServerEvent::ClientAlreadyRegistered(s, c) => Some(
            LogEntry::new(Cause::Error, *s, cat(cat_num(text("client "), *c as u64), " was already registered")),
        ),
        ServerEvent::ControllerShortcut(d) => match d {
            DroneEvent::ControllerShortcut(p) => Some(
                LogEntry::new(Cause::Error, p.routing_header.hops[0], text("starting controller shortcut")),
            ),
            _ => None,
        },
        ServerEvent::Flooding(s) => Some(LogEntry::new(Cause::Error, *s, text("flooding..."))),
    }
}

/// The node at the packet's position (the last of a flood request's trace).
pub open spec fn current_node(p: Packet) -> u8 {
    match p.pack_type {
        PacketType::FloodRequest(f) => f.path_trace@.last().0,
        _ => p.routing_header.hops@[p.routing_header.hop_index as int],
    }
}

pub open spec fn has_current_node(p: Packet) -> bool {
    match p.pack_type {
        PacketType::FloodRequest(f) => f.path_trace@.len() > 0,
        _ => p.routing_header.hop_index < p.routing_header.hops@.len(),
    }
}

fn current_node_of(p: &Packet) -> (r: u8)
    requires
        has_current_node(*p),
    ensures
        r == current_node(*p),
{
    match &p.pack_type {
        PacketType::FloodRequest(f) => f.path_trace[f.path_trace.len() - 1].0,
        _ => p.routing_header.hops[p.routing_header.hop_index],
    }
}

/// `d` followed by `text`, where `d` is the decimal writing of `n`.
pub open spec fn num_then(n: u8, t: Seq<char>) -> Seq<char> {
    decimal(n as nat) + t
}

/// What the log records for a client event, if anything.
pub open spec fn client_log(e: ClientEvent) -> Option<(Cause, u8, Seq<char>)> {
    match e {
        ClientEvent::PacketSent(p) => Some((Cause::Sent, current_node(p), sent_text(p))),
        ClientEvent::PacketReceived(p) => Some((
            Cause::Sent,
            event_node(p),
            "Received fragment "@ + decimal(p.session_id as nat) + " moving from node "@ + decimal(
                p.routing_header.hops@[0] as nat,
            ) + " to "@ + decimal(p.routing_header.hops@.last() as nat),
        )),
        ClientEvent::PacketSendingError(p) => Some((
            Cause::Error,
            event_node(p),
            "Error in sending fragment "@ + decimal(p.session_id as nat) + " from "@ + decimal(
                p.routing_header.hops@[0] as nat,
            ) + " to "@ + decimal(p.routing_header.hops@.last() as nat),
        )),
        ClientEvent::AckReceived(p) => ack_log(p),
        ClientEvent::NackReceived(p) => match p.pack_type {
            PacketType::Nack(n) => if p.routing_header.hops@.len() > 0 {
                Some((
                    Cause::NackReceived,
                    p.routing_header.hops@.last(),
                    "received Nack of fragment "@ + decimal(n.fragment_index as nat) + ", nack type:"@ + nack_type_text(
                        n.nack_type,
                    ) + " "@,
                ))
            } else {
                None
            },
            _ => None,
        },
        ClientEvent::MissingDestination(n, n0) => Some((
            Cause::MissingDestination,
            n,
            "Couldn't reach "@ + decimal(n0 as nat) + " with a packet (missing destination) "@,
        )),
        ClientEvent::MissingRoute(n, n0) => Some((
            Cause::MissingDestination,
            n,
            "Couldn't reach "@ + decimal(n0 as nat) + " with a packet (missing route)"@,
        )),
        ClientEvent::LostMessage(sess, n) => Some((Cause::LostMessage, n, "lost message from session "@ + decimal(sess as nat))),
        ClientEvent::LostFragment(sess, n, fi) => Some((
            Cause::LostMessage,
            n,
            " lost message from session "@ + decimal(sess as nat) + " of fragment index "@ + decimal(fi as nat),
        )),
        ClientEvent::DroneInsideDestination(n) => Some((
            Cause::DroneInsideDestination,
            n,
            "destination removed because destination of id "@ + decimal(n as nat) + " is a drone"@,
        )),
        ClientEvent::SendContactsToSC(src, _d) => Some((Cause::Flood, src, "Flood infos received."@)),
        ClientEvent::WrongDestinationType(src, node) => Some((
            Cause::Sent,
            src,
            num_then(src, " think "@) + num_then(node, " is at wrong state"@),
        )),
        ClientEvent::MissingContacts(src, dst) => Some((
            Cause::Sent,
            src,
            num_then(src, " do not have "@) + num_then(dst, " as contact"@),
        )),
        ClientEvent::SendDestinations(src, id) => Some((
            Cause::Sent,
            src,
            num_then(src, " now have "@) + num_then(id, " as server destination"@),
        )),
        ClientEvent::ReceivedChatText(src, dst, t) => Some((
            Cause::Sent,
            src,
            num_then(src, " sent txt ["@) + t@ + "] to "@ + decimal(dst as nat),
        )),
        ClientEvent::SendMedia(src, media_id, name, _m) => Some((
            Cause::Sent,
            src,
            num_then(src, " received media ["@) + decimal(media_id as nat) + " - "@ + name@ + "]"@,
        )),
        ClientEvent::SendCatalogue(src, id, _n) => Some((
            Cause::Sent,
            src,
            num_then(src, " updated his catalogue! ("@) + decimal(id as nat) + ") "@,
        )),
        ClientEvent::SendTextList(src, id, _n) => Some((
            Cause::Sent,
            src,
            num_then(src, " updated his TextsLists! ("@) + decimal(id as nat) + ") "@,
        )),
        ClientEvent::Flooding(src) => Some((Cause::Flood, src, num_then(src, " is flooding!"@))),
        ClientEvent::RegisterSuccessfully(src, dst) => Some((
            Cause::Sent,
            src,
            num_then(src, " is now registered to "@) + decimal(dst as nat),
        )),
        ClientEvent::MissingDestForMedia(src, m) => Some((
            Cause::Error,
            src,
            num_then(src, " do not have a source for "@) + decimal(m as nat),
        )),
        ClientEvent::MissingTextList(src, t) => Some((
            Cause::Error,
            src,
            num_then(src, " do not have a source for "@) + decimal(t as nat),
        )),
        ClientEvent::ErrorReassembling(src) => Some((Cause::Error, src, num_then(src, " couldn't reassemble the message"@))),
    }
}

/// The event carries what its log entry needs.
pub open spec fn client_loggable(e: ClientEvent) -> bool {
    match e {
        ClientEvent::PacketSent(p) => has_current_node(p) && ((p.pack_type is MsgFragment || p.pack_type is Ack
            || p.pack_type is Nack) ==> has_ends(p)),
        ClientEvent::PacketReceived(p) => has_event_node(p) && has_ends(p),
        ClientEvent::PacketSendingError(p) => has_event_node(p) && has_ends(p),
        _ => true,
    }
}

fn num_text(n: u8, t: &str) -> (r: String)
    ensures
        r@ == num_then(n, t@),
{
    cat(render_u64(n as u64), t)
}

/// The log entry for a client event (see `client_log`).
pub fn client_event_entry(e: &ClientEvent) -> (r: Option<LogEntry>)
    requires
        client_loggable(*e),
    ensures
        opt_entry_view(r) == client_log(*e),
{
    match e {
        ClientEvent::PacketSent(p) => Some(LogEntry::new(Cause::Sent, current_node_of(p), get_message(p))),
        ClientEvent::PacketReceived(p) => {
            let hops = &p.routing_header.hops;
            let t = cat_num(text("Received fragment "), p.session_id);
            let t = cat_num(cat(t, " moving from node "), hops[0] as u64);
            let t = cat_num(cat(t, " to "), hops[hops.len() - 1] as u64);
            Some(LogEntry::new(Cause::Sent, get_id_drone(p), t))
        },
        ClientEvent::PacketSendingError(p) => {
            let hops = &p.routing_header.hops;
            let t = cat_num(text("Error in sending fragment "), p.session_id);
            let t = cat_num(cat(t, " from "), hops[0] as u64);
            let t = cat_num(cat(t, " to "), hops[hops.len() - 1] as u64);
            Some(LogEntry::new(Cause::Error, get_id_drone(p), t))
        },
        ClientEvent::AckReceived(p) => ack_entry(p),
        ClientEvent::NackReceived(p) => match &p.pack_type {
            PacketType::Nack(n) => {
                let hops = &p.routing_header.hops;
                if hops.len() > 0 {
                    let t = cat(cat_num(text("received Nack of fragment "), n.fragment_index), ", nack type:");
                    let t = cat(cat(t, render_nack_type(n.nack_type).as_str()), " ");
                    Some(LogEntry::new(Cause::NackReceived, hops[hops.len() - 1], t))
                } else {
                    None
                }
            },
            _ => None,
        },
        ClientEvent::MissingDestination(n, n0) => Some(
            LogEntry::new(
                Cause::MissingDestination,
                *n,
                cat(cat_num(text("Couldn't reach "), *n0 as u64), " with a packet (missing destination) "),
            ),
        ),
        ClientEvent::MissingRoute(n, n0) => Some(
            LogEntry::new(Cause::MissingDestination, *n, cat(cat_num(text("Couldn't reach "), *n0 as u64), " with a packet (missing route)")),
        ),
        ClientEvent::LostMessage(sess, n) => Some(LogEntry::new(Cause::LostMessage, *n, cat_num(text("lost message from session "), *sess))),
        ClientEvent::LostFragment(sess, n, fi) => Some(
            LogEntry::new(
                Cause::LostMessage,
                *n,
                cat_num(cat(cat_num(text(" lost message from session "), *sess), " of fragment index "), *fi),
            ),
        ),
        ClientEvent::DroneInsideDestination(n) => Some(
            LogEntry::new(
                Cause::DroneInsideDestination,
                *n,
                cat(cat_num(text("destination removed because destination of id "), *n as u64), " is a drone"),
            ),
        ),
        ClientEvent::SendContactsToSC(src, _d) => Some(LogEntry::new(Cause::Flood, *src, text("Flood infos received."))),
        ClientEvent::WrongDestinationType(src, node) => Some(
            LogEntry::new(Cause::Sent, *src, cat(num_text(*src, " think "), num_text(*node, " is at wrong state").as_str())),
        ),
        ClientEvent::MissingContacts(src, dst) => Some(
            LogEntry::new(Cause::Sent, *src, cat(num_text(*src, " do not have "), num_text(*dst, " as contact").as_str())),
        ),
        ClientEvent::SendDestinations(src, id) => Some(
            LogEntry::new(Cause::Sent, *src, cat(num_text(*src, " now have "), num_text(*id, " as server destination").as_str())),
        ),
        ClientEvent::ReceivedChatText(src, dst, t) => Some(
            LogEntry::new(Cause::Sent, *src, cat_num(cat(cat(num_text(*src, " sent txt ["), t.as_str()), "] to "), *dst as u64)),
        ),
        ClientEvent::SendMedia(src, media_id, name, _m) => Some(
            LogEntry::new(
                Cause::Sent,
                *src,
                cat(cat(cat(cat_num(num_text(*src, " received media ["), *media_id), " - "), name.as_str()), "]"),
            ),
        ),
        ClientEvent::SendCatalogue(src, id, _n) => Some(
            LogEntry::new(Cause::Sent, *src, cat(cat_num(num_text(*src, " updated his catalogue! ("), *id), ") ")),
        ),
        ClientEvent::SendTextList(src, id, _n) => Some(
            LogEntry::new(Cause::Sent, *src, cat(cat_num(num_text(*src, " updated his TextsLists! ("), *id), ") ")),
        ),
        ClientEvent::Flooding(src) => Some(LogEntry::new(Cause::Flood, *src, num_text(*src, " is flooding!"))),
        ClientEvent::RegisterSuccessfully(src, dst) => Some(
            LogEntry::new(Cause::Sent, *src, cat_num(num_text(*src, " is now registered to "), *dst as u64)),
        ),
        ClientEvent::MissingDestForMedia(src, m) => Some(
            LogEntry::new(Cause::Error, *src, cat_num(num_text(*src, " do not have a source for "), *m)),
        ),
        ClientEvent::MissingTextList(src, t) => Some(
            LogEntry::new(Cause::Error, *src, cat_num(num_text(*src, " do not have a source for "), *t)),
        ),
        ClientEvent::ErrorReassembling(src) => Some(LogEntry::new(Cause::Error, *src, num_text(*src, " couldn't reassemble the message"))),
    }
}

/// What the log records for a drone event.
pub open spec fn drone_log(e: DroneEvent) -> (Cause, u8, Seq<char>) {
    match e {
        DroneEvent::PacketSent(p) => (Cause::Sent, event_node(p), sent_text(p)),
        DroneEvent::PacketDropped(p) => (
            Cause::Dropped,
            current_node(p),
            "dropped fragment "@ + decimal(p.session_id as nat) + " of packet: "@ + packet_text(p),
        ),
        DroneEvent::ControllerShortcut(p) => (
            Cause::Shortcut,
            match p.pack_type {
                PacketType::FloodRequest(f) => f.path_trace@.last().0,
                _ => if 1 <= p.routing_header.hop_index && p.routing_header.hop_index - 1 < p.routing_header.hops@.len() {
                    p.routing_header.hops@[p.routing_header.hop_index - 1]
                } else {
                    255u8
                },
            },
            "Sent shortcut for packet "@ + packet_text(p),
        ),
    }
}

pub open spec fn drone_loggable(e: DroneEvent) -> bool {
    match e {
        DroneEvent::PacketSent(p) => has_event_node(p) && ((p.pack_type is MsgFragment || p.pack_type is Ack
            || p.pack_type is Nack) ==> has_ends(p)),
        DroneEvent::PacketDropped(p) => has_current_node(p),
        DroneEvent::ControllerShortcut(p) => p.pack_type is FloodRequest ==> p.pack_type->FloodRequest_0.path_trace@.len() > 0,
    }
}

/// The log entry for a drone event (see `drone_log`).
pub fn drone_event_entry(e: &DroneEvent) -> (r: LogEntry)
    requires
        drone_loggable(*e),
    ensures
        entry_view(r) == drone_log(*e),
{
    match e {
        DroneEvent::PacketSent(p) => LogEntry::new(Cause::Sent, get_id_drone(p), get_message(p)),
        DroneEvent::PacketDropped(p) => {
            let t = cat(cat_num(text("dropped fragment "), p.session_id), " of packet: ");
            LogEntry::new(Cause::Dropped, current_node_of(p), cat(t, render_packet(p).as_str()))
        },
        DroneEvent::ControllerShortcut(p) => {
            let id = match &p.pack_type {
                PacketType::FloodRequest(f) => f.path_trace[f.path_trace.len() - 1].0,
                _ => match p.routing_header.previous_hop() {
                    Some(x) => x,
                    None => 255,
                },
            };
            LogEntry::new(Cause::Shortcut, id, cat(text("Sent shortcut for packet "), render_packet(p).as_str()))
        },
    }
}

} // verus!
