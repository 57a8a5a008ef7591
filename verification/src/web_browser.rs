//! A web browser: it learns which text files the text servers offer, which
//! media those files show and where each media is, fetches them, and keeps
//! the media that arrived.
use std::collections::HashMap;
use vstd::prelude::*;

use crate::client::{content_of, id_window, sends, ClientAction, ClientEvent, ClientStruct};
use crate::kinds::{ClientType, ContentServerType, EdgeType, ServerType};
use crate::message::{create_nack, ContentType, EdgeNackType, MediaRequest, MediaResponse, Message, TextRequest, TextResponse, TypeExchange};
use crate::routing::{state_updated, Network};
use crate::server::{remove_value, without_value};
use crate::text_server::{pairs_view, refs_view};

verus! {

broadcast use vstd::std_specs::hash::group_hash_axioms;

/// The text list table after a text list from server `source`: each listed
/// file gets `source` as one more server offering it (a new file keeps the
/// listed name); with the files offered now for the first time, in order.
pub open spec fn add_texts(
    m: Map<u64, (Seq<u8>, Seq<char>)>,
    list: Seq<(u64, Seq<char>)>,
    source: u8,
) -> (Map<u64, (Seq<u8>, Seq<char>)>, Seq<(u64, Seq<char>)>)
    decreases list.len(),
{
    if list.len() == 0 {
        (m, Seq::empty())
    } else {
        let (m1, fresh) = add_texts(m, list.drop_last(), source);
        let (id, name) = list.last();
        let e = if m1.contains_key(id) { (m1[id].0.push(source), m1[id].1) } else { (seq![source], name) };
        (m1.insert(id, e), if e.0.len() == 1 { fresh.push((id, name)) } else { fresh })
    }
}

/// The catalogue after media references came in: each media gets the listed
/// servers after those it had; with the media that had no server before and
/// got one, each with its name, in order.
pub open spec fn add_refs(
    m: Map<u64, Seq<u8>>,
    refs: Seq<(u64, (Seq<char>, Seq<u8>))>,
) -> (Map<u64, Seq<u8>>, Seq<(u64, Seq<char>)>)
    decreases refs.len(),
{
    if refs.len() == 0 {
        (m, Seq::empty())
    } else {
        let (m1, fresh) = add_refs(m, refs.drop_last());
        let (id, (name, servers)) = refs.last();
        let before = if m1.contains_key(id) { m1[id] } else { Seq::empty() };
        (
            m1.insert(id, before + servers),
            if before.len() == 0 && servers.len() > 0 { fresh.push((id, name)) } else { fresh },
        )
    }
}

/// The outcome of asking for a resource among the servers `dests` offer it
/// from: with none, the event `missing`; otherwise a request with the
/// content `ask` in session `session` to the best reachable server, or
/// nothing when none is reachable.
pub open spec fn fetch_outcome(
    net: Network,
    me: u8,
    dests: Seq<u8>,
    session: u64,
    ask: ContentType,
    missing: ClientEvent,
    r: Seq<ClientAction>,
) -> bool {
    if dests.len() == 0 {
        r == seq![ClientAction::Event(missing)]
    } else if forall|k: int| 0 <= k < dests.len() ==> !#[trigger] net.reachable(me, dests[k]) {
        r.len() == 0
    } else {
        &&& r.len() == 1
        &&& r[0] matches ClientAction::Send(m, d) && net.optimal_choice(me, dests, d) && m.source_id == me
            && m.session_id == session && m.content == ask
    }
}

pub struct WebBrowser {
    node_id: u8,
    available_text_lists: HashMap<u64, (Vec<u8>, String)>,
    catalogue: HashMap<u64, Vec<u8>>,
    arrived_content: HashMap<u64, (String, Vec<u8>)>,
}

impl WebBrowser {
    pub closed spec fn node(&self) -> u8 {
        self.node_id
    }

    /// For each text file: the servers offering it and its name.
    pub closed spec fn texts(&self) -> Map<u64, (Seq<u8>, Seq<char>)> {
        self.available_text_lists@.map_values(|e: (Vec<u8>, String)| (e.0@, e.1@))
    }

    /// For each media: the servers holding it.
    pub closed spec fn media_servers(&self) -> Map<u64, Seq<u8>> {
        self.catalogue@.map_values(|v: Vec<u8>| v@)
    }

    /// The media that arrived: name and bytes.
    pub closed spec fn arrived(&self) -> Map<u64, (Seq<char>, Seq<u8>)> {
        self.arrived_content@.map_values(|e: (String, Vec<u8>)| (e.0@, e.1@))
    }

    pub fn new(node_id: u8) -> (r: Self)
        ensures
            r.node() == node_id,
            r.texts() == Map::<u64, (Seq<u8>, Seq<char>)>::empty(),
            r.media_servers() == Map::<u64, Seq<u8>>::empty(),
            r.arrived() == Map::<u64, (Seq<char>, Seq<u8>)>::empty(),
    {
        let r = WebBrowser {
            node_id,
            available_text_lists: HashMap::new(),
            catalogue: HashMap::new(),
            arrived_content: HashMap::new(),
        };
        assert(r.texts() =~= Map::<u64, (Seq<u8>, Seq<char>)>::empty());
        assert(r.media_servers() =~= Map::<u64, Seq<u8>>::empty());
        assert(r.arrived() =~= Map::<u64, (Seq<char>, Seq<u8>)>::empty());
        r
    }

    /// The servers offering text file `id` (none when it is unknown).
    fn text_servers(&self, id: u64) -> (r: Vec<u8>)
        ensures
            r@ == if self.texts().contains_key(id) { self.texts()[id].0 } else { Seq::<u8>::empty() },
    {
        match self.available_text_lists.get(&id) {
            Some(e) => copy_ids(&e.0),
            None => Vec::new(),
        }
    }

    /// The servers holding media `id` (none when it is unknown).
    fn holders(&self, id: u64) -> (r: Vec<u8>)
        ensures
            r@ == if self.media_servers().contains_key(id) { self.media_servers()[id] } else { Seq::<u8>::empty() },
    {
        match self.catalogue.get(&id) {
            Some(v) => copy_ids(v),
            None => Vec::new(),
        }
    }

    /// Asks for text file `id` from the best server offering it (see
    /// `fetch_outcome`); a session id is drawn in any case.
    pub fn get_text_file(&self, base: &mut ClientStruct, id: u64) -> (r: Vec<ClientAction>)
        requires
            old(base).wf(),
            old(base).has_ids(),
            old(base).id() == self.node(),
        ensures
            final(base).wf(),
            final(base).id() == old(base).id(),
            final(base).topology() == old(base).topology(),
            final(base).pending() == old(base).pending(),
            final(base).unsent() == old(base).unsent(),
            final(base).floods() == old(base).floods(),
            final(base).neighbor_ids() == old(base).neighbor_ids(),
            final(base).flooding() == old(base).flooding(),
            final(base).running() == old(base).running(),
            final(base).sessions().drop_last() == old(base).sessions(),
            final(base).sessions().len() == old(base).sessions().len() + 1,
            id_window(old(base).session_min(), 30).0 <= final(base).sessions().last() < id_window(
                old(base).session_min(),
                30,
            ).1,
            fetch_outcome(
                old(base).topology(),
                self.node(),
                if self.texts().contains_key(id) { self.texts()[id].0 } else { Seq::<u8>::empty() },
                final(base).sessions().last(),
                ContentType::TextRequest(TextRequest::TextFile(id)),
                ClientEvent::MissingTextList(self.node(), id),
                r@,
            ),
    {
        let session = base.get_session_id();
        let me = base.get_src_id();
        let dests = self.text_servers(id);
        let mut out: Vec<ClientAction> = Vec::new();
        if dests.len() > 0 {
            match base.network().get_optimal_dest(me, &dests) {
                Some(dst) => {
                    out.push(ClientAction::Send(Message::new(me, session, ContentType::TextRequest(TextRequest::TextFile(id))), dst));
                },
                None => {},
            }
        } else {
            out.push(ClientAction::Event(ClientEvent::MissingTextList(me, id)));
            assert(out@ =~= seq![ClientAction::Event(ClientEvent::MissingTextList(me, id))]);
        }
        out
    }

    /// Shows media `id` when it already arrived; otherwise asks for it from
    /// the best server holding it (see `fetch_outcome`), drawing a session id.
    pub fn get_media(&self, base: &mut ClientStruct, id: u64) -> (r: Vec<ClientAction>)
        requires
            old(base).wf(),
            old(base).has_ids(),
            old(base).id() == self.node(),
        ensures
            final(base).wf(),
            final(base).id() == old(base).id(),
            final(base).topology() == old(base).topology(),
            final(base).pending() == old(base).pending(),
            final(base).unsent() == old(base).unsent(),
            final(base).floods() == old(base).floods(),
            final(base).neighbor_ids() == old(base).neighbor_ids(),
            final(base).flooding() == old(base).flooding(),
            final(base).running() == old(base).running(),
            self.arrived().contains_key(id) ==> {
                &&& final(base).sessions() == old(base).sessions()
                &&& r@.len() == 1
                &&& r@[0] matches ClientAction::Open(bytes) && bytes@ == self.arrived()[id].1
            },
            !self.arrived().contains_key(id) ==> {
                &&& final(base).sessions().drop_last() == old(base).sessions()
                &&& final(base).sessions().len() == old(base).sessions().len() + 1
                &&& id_window(old(base).session_min(), 30).0 <= final(base).sessions().last() < id_window(
                    old(base).session_min(),
                    30,
                ).1
                &&& fetch_outcome(
                    old(base).topology(),
                    self.node(),
                    if self.media_servers().contains_key(id) { self.media_servers()[id] } else { Seq::<u8>::empty() },
                    final(base).sessions().last(),
                    ContentType::MediaRequest(MediaRequest::Media(id)),
                    ClientEvent::MissingDestForMedia(self.node(), id),
                    r@,
                )
            },
    {
        let mut out: Vec<ClientAction> = Vec::new();
        match self.arrived_content.get(&id) {
            Some(e) => {
                out.push(ClientAction::Open(copy_bytes(&e.1)));
                return out;
            },
            None => {},
        }
        let session = base.get_session_id();
        let me = base.get_src_id();
        let dests = self.holders(id);
        if dests.len() > 0 {
            match base.network().get_optimal_dest(me, &dests) {
                Some(dst) => {
                    out.push(ClientAction::Send(Message::new(me, session, ContentType::MediaRequest(MediaRequest::Media(id))), dst));
                },
                None => {},
            }
        } else {
            out.push(ClientAction::Event(ClientEvent::MissingDestForMedia(me, id)));
            assert(out@ =~= seq![ClientAction::Event(ClientEvent::MissingDestForMedia(me, id))]);
        }
        out
    }

    /// Asks text server `server` for its list of files.
    pub fn get_list(&self, base: &mut ClientStruct, server: u8) -> (r: ClientAction)
        requires
            old(base).wf(),
            old(base).has_ids(),
        ensures
            final(base).wf(),
            final(base).id() == old(base).id(),
            final(base).topology() == old(base).topology(),
            final(base).pending() == old(base).pending(),
            final(base).unsent() == old(base).unsent(),
            final(base).sessions().drop_last() == old(base).sessions(),
            final(base).sessions().len() == old(base).sessions().len() + 1,
            sends(r, old(base).id(), final(base).sessions().last(), server),
            content_of(r) == ContentType::TextRequest(TextRequest::TextList),
    {
        let session = base.get_session_id();
        ClientAction::Send(Message::new(base.get_src_id(), session, ContentType::TextRequest(TextRequest::TextList)), server)
    }
}

fn copy_ids(v: &Vec<u8>) -> (r: Vec<u8>)
    ensures
        r@ == v@,
{
    let mut out: Vec<u8> = Vec::new();
    let mut i: usize = 0;
    while i < v.len()
        invariant
            0 <= i <= v@.len(),
            out@ == v@.take(i as int),
        decreases v@.len() - i,
    {
        out.push(v[i]);
        assert(out@ =~= v@.take(i + 1));
        i = i + 1;
    }
    assert(v@.take(i as int) =~= v@);
    out
}

fn copy_bytes(v: &Vec<u8>) -> (r: Vec<u8>)
    ensures
        r@ == v@,
{
    copy_ids(v)
}

impl WebBrowser {
    /// Takes in a text list from server `source` (see `add_texts`) and
    /// returns the files offered now for the first time.
    fn add_texts(&mut self, list: &Vec<(u64, String)>, source: u8) -> (r: Vec<(u64, String)>)
        ensures
            (final(self).texts(), pairs_view(r@)) == add_texts(old(self).texts(), pairs_view(list@), source),
            final(self).node() == old(self).node(),
            final(self).media_servers() == old(self).media_servers(),
            final(self).arrived() == old(self).arrived(),
    {
        let mut fresh: Vec<(u64, String)> = Vec::new();
        let mut i: usize = 0;
        while i < list.len()
            invariant
                0 <= i <= list@.len(),
                self.node_id == old(self).node_id,
                self.catalogue == old(self).catalogue,
                self.arrived_content == old(self).arrived_content,
                (self.texts(), pairs_view(fresh@)) == add_texts(old(self).texts(), pairs_view(list@).take(i as int), source),
            decreases list@.len() - i,
        {
            let id = list[i].0;
            let name = list[i].1.clone();
            let ghost before = self.texts();
            let e = match self.available_text_lists.remove(&id) {
                Some(e) => {
                    let (mut v, n) = e;
                    v.push(source);
                    (v, n)
                },
                None => {
                    let v: Vec<u8> = vec![source];
                    (v, name.clone())
                },
            };
            let n = e.0.len();
            let ghost ev = (e.0@, e.1@);
            self.available_text_lists.insert(id, e);
            proof {
                assert(pairs_view(list@).take(i + 1).drop_last() =~= pairs_view(list@).take(i as int));
                assert(pairs_view(list@).take(i + 1).last() == (id, name@));
                assert(ev == if before.contains_key(id) { (before[id].0.push(source), before[id].1) } else { (seq![source], name@) });
                assert(self.texts() =~= before.insert(id, ev));
            }
            if n == 1 {
                let ghost prev = fresh@;
                fresh.push((id, name));
                assert(pairs_view(fresh@) =~= pairs_view(prev).push((id, list@[i as int].1@)));
            }
            i = i + 1;
        }
        assert(pairs_view(list@).take(i as int) =~= pairs_view(list@));
        fresh
    }

    /// Takes in media references (see `add_refs`) and returns the media that
    /// got their first server.
    fn add_refs(&mut self, refs: &Vec<(u64, (String, Vec<u8>))>) -> (r: Vec<(u64, String)>)
        ensures
            (final(self).media_servers(), pairs_view(r@)) == add_refs(old(self).media_servers(), refs_view(refs@)),
            final(self).node() == old(self).node(),
            final(self).texts() == old(self).texts(),
            final(self).arrived() == old(self).arrived(),
    {
        let mut fresh: Vec<(u64, String)> = Vec::new();
        let mut i: usize = 0;
        while i < refs.len()
            invariant
                0 <= i <= refs@.len(),
                self.node_id == old(self).node_id,
                self.available_text_lists == old(self).available_text_lists,
                self.arrived_content == old(self).arrived_content,
                (self.media_servers(), pairs_view(fresh@)) == add_refs(old(self).media_servers(), refs_view(refs@).take(i as int)),
            decreases refs@.len() - i,
        {
            let id = refs[i].0;
            let servers = &refs[i].1.1;
            let ghost before = self.media_servers();
            let mut v = match self.catalogue.remove(&id) {
                Some(v) => v,
                None => Vec::new(),
            };
            let was_empty = v.len() == 0;
            let ghost bv = v@;
            let mut j: usize = 0;
            while j < servers.len()
                invariant
                    0 <= j <= servers@.len(),
                    v@ == bv + servers@.take(j as int),
                decreases servers@.len() - j,
            {
                v.push(servers[j]);
                assert(v@ =~= bv + servers@.take(j + 1));
                j = j + 1;
            }
            assert(servers@.take(j as int) =~= servers@);
            let got_first = was_empty && servers.len() > 0;
            let ghost nv = v@;
            self.catalogue.insert(id, v);
            proof {
                assert(refs_view(refs@).take(i + 1).drop_last() =~= refs_view(refs@).take(i as int));
                assert(refs_view(refs@).take(i + 1).last() == (id, (refs@[i as int].1.0@, servers@)));
                assert(bv == if before.contains_key(id) { before[id] } else { Seq::<u8>::empty() });
                assert(self.media_servers() =~= before.insert(id, nv));
            }
            if got_first {
                let name = refs[i].1.0.clone();
                let ghost prev = fresh@;
                fresh.push((id, name));
                assert(pairs_view(fresh@) =~= pairs_view(prev).push((id, refs@[i as int].1.0@)));
            }
            i = i + 1;
        }
        assert(refs_view(refs@).take(i as int) =~= refs_view(refs@));
        fresh
    }
}

/// What `get_media(id)` gives when asked of a browser whose arrived media
/// and catalogue are `arrived` and `cat`.
pub open spec fn media_outcome(
    old_base: ClientStruct,
    new_base: ClientStruct,
    me: u8,
    arrived: Map<u64, (Seq<char>, Seq<u8>)>,
    cat: Map<u64, Seq<u8>>,
    id: u64,
    r: Seq<ClientAction>,
) -> bool {
    if arrived.contains_key(id) {
        &&& new_base.sessions() == old_base.sessions()
        &&& r.len() == 1
        &&& r[0] matches ClientAction::Open(bytes) && bytes@ == arrived[id].1
    } else {
        &&& new_base.sessions().drop_last() == old_base.sessions()
        &&& new_base.sessions().len() == old_base.sessions().len() + 1
        &&& fetch_outcome(
            old_base.topology(),
            me,
            if cat.contains_key(id) { cat[id] } else { Seq::<u8>::empty() },
            new_base.sessions().last(),
            ContentType::MediaRequest(MediaRequest::Media(id)),
            ClientEvent::MissingDestForMedia(me, id),
            r,
        )
    }
}

/// What `get_text_file(id)` gives when asked of a browser whose text list
/// table is `texts`.
pub open spec fn text_outcome(
    old_base: ClientStruct,
    new_base: ClientStruct,
    me: u8,
    texts: Map<u64, (Seq<u8>, Seq<char>)>,
    id: u64,
    r: Seq<ClientAction>,
) -> bool {
    &&& new_base.sessions().drop_last() == old_base.sessions()
    &&& new_base.sessions().len() == old_base.sessions().len() + 1
    &&& fetch_outcome(
        old_base.topology(),
        me,
        if texts.contains_key(id) { texts[id].0 } else { Seq::<u8>::empty() },
        new_base.sessions().last(),
        ContentType::TextRequest(TextRequest::TextFile(id)),
        ClientEvent::MissingTextList(me, id),
        r,
    )
}

impl WebBrowser {
    /// Handles a whole message that reached this browser, and says what to
    /// send, report and show:
    /// - a media arrives: it is kept, reported and shown;
    /// - a media server does not have a media: it no longer counts as
    ///   holding it, and the media is asked for again;
    /// - a text list: each file gets the sender as a server offering it, the
    ///   files offered for the first time are reported;
    /// - media references: each media gets the listed servers, the media
    ///   that got their first server are reported;
    /// - an incomplete file is asked for again; a file a server does not
    ///   have no longer counts as offered by it and is asked for again;
    /// - a type request is answered with this client's kind; a type
    ///   response makes a content server reachable (a text server is also
    ///   reported as a destination) and any other node unreachable;
    /// - an edge nack makes its sender unreachable;
    /// - anything else (a media list among them) is refused with an edge nack.
    pub fn handle_message(&mut self, base: &mut ClientStruct, message: Message) -> (r: Vec<ClientAction>)
        requires
            old(base).wf(),
            old(base).has_ids(),
            old(base).id() == old(self).node(),
        ensures
            final(self).node() == old(self).node(),
            final(base).wf(),
            final(base).id() == old(base).id(),
            final(base).neighbor_ids() == old(base).neighbor_ids(),
            final(base).floods() == old(base).floods(),
            final(base).pending() == old(base).pending(),
            final(base).unsent() == old(base).unsent(),
            final(base).flooding() == old(base).flooding(),
            final(base).running() == old(base).running(),
            ({
                let me = old(base).id();
                let src = message.source_id;
                let window = id_window(old(base).session_min(), 30);
                match message.content {
                    ContentType::MediaResponse(MediaResponse::Media(id, name, media)) => {
                        &&& final(self).arrived() == old(self).arrived().insert(id, (name@, media@))
                        &&& final(self).texts() == old(self).texts()
                        &&& final(self).media_servers() == old(self).media_servers()
                        &&& final(base).topology() == old(base).topology()
                        &&& final(base).sessions() == old(base).sessions()
                        &&& r@.len() == 2
                        &&& r@[0] matches ClientAction::Event(ClientEvent::SendMedia(n, i, nm, b)) && n == me && i
                            == id && nm@ == name@ && b@ == media@
                        &&& r@[1] matches ClientAction::Open(b) && b@ == media@
                    },
                    ContentType::MediaResponse(MediaResponse::NotFound(id)) => {
                        let cat = if old(self).media_servers().contains_key(id) {
                            old(self).media_servers().insert(id, without_value(old(self).media_servers()[id], src))
                        } else {
                            old(self).media_servers()
                        };
                        &&& final(self).media_servers() == cat
                        &&& final(self).texts() == old(self).texts()
                        &&& final(self).arrived() == old(self).arrived()
                        &&& final(base).topology() == old(base).topology()
                        &&& media_outcome(*old(base), *final(base), me, old(self).arrived(), cat, id, r@)
                    },
                    ContentType::TextResponse(TextResponse::TextList(list)) => {
                        let (m, fresh) = add_texts(old(self).texts(), pairs_view(list@), src);
                        &&& final(self).texts() == m
                        &&& final(self).media_servers() == old(self).media_servers()
                        &&& final(self).arrived() == old(self).arrived()
                        &&& final(base).topology() == old(base).topology()
                        &&& final(base).sessions() == old(base).sessions()
                        &&& r@.len() == fresh.len()
                        &&& forall|k: int| 0 <= k < fresh.len() ==> (#[trigger] r@[k] matches ClientAction::Event(
                            ClientEvent::SendTextList(n, i, nm),
                        ) && n == me && i == fresh[k].0 && nm@ == fresh[k].1)
                    },
                    ContentType::TextResponse(TextResponse::MediaReferences(refs)) => {
                        let (m, fresh) = add_refs(old(self).media_servers(), refs_view(refs@));
                        &&& final(self).media_servers() == m
                        &&& final(self).texts() == old(self).texts()
                        &&& final(self).arrived() == old(self).arrived()
                        &&& final(base).topology() == old(base).topology()
                        &&& final(base).sessions() == old(base).sessions()
                        &&& r@.len() == fresh.len()
                        &&& forall|k: int| 0 <= k < fresh.len() ==> (#[trigger] r@[k] matches ClientAction::Event(
                            ClientEvent::SendCatalogue(n, i, nm),
                        ) && n == me && i == fresh[k].0 && nm@ == fresh[k].1)
                    },
                    ContentType::TextResponse(TextResponse::Incomplete(id)) => {
                        &&& final(self).texts() == old(self).texts()
                        &&& final(self).media_servers() == old(self).media_servers()
                        &&& final(self).arrived() == old(self).arrived()
                        &&& final(base).topology() == old(base).topology()
                        &&& text_outcome(*old(base), *final(base), me, old(self).texts(), id, r@)
                    },
                    ContentType::TextResponse(TextResponse::NotFound(id)) => {
                        let texts = if old(self).texts().contains_key(id) {
                            old(self).texts().insert(
                                id,
                                (without_value(old(self).texts()[id].0, src), old(self).texts()[id].1),
                            )
                        } else {
                            old(self).texts()
                        };
                        &&& final(self).texts() == texts
                        &&& final(self).media_servers() == old(self).media_servers()
                        &&& final(self).arrived() == old(self).arrived()
                        &&& final(base).topology() == old(base).topology()
                        &&& text_outcome(*old(base), *final(base), me, texts, id, r@)
                    },
                    ContentType::TypeExchange(TypeExchange::TypeRequest { from }) => {
                        &&& final(self).texts() == old(self).texts()
                        &&& final(self).media_servers() == old(self).media_servers()
                        &&& final(self).arrived() == old(self).arrived()
                        &&& final(base).topology() == old(base).topology()
                        &&& final(base).sessions().drop_last() == old(base).sessions()
                        &&& final(base).sessions().len() == old(base).sessions().len() + 1
                        &&& window.0 <= final(base).sessions().last() < window.1
                        &&& r@.len() == 1
                        &&& sends(r@[0], me, final(base).sessions().last(), from)
                        &&& content_of(r@[0]) == ContentType::TypeExchange(TypeExchange::TypeResponse {
                            edge_type: EdgeType::Client(ClientType::WebBrowser),
                            from: me,
                        })
                    },
                    ContentType::TypeExchange(TypeExchange::TypeResponse { edge_type, from }) => {
                        let content = edge_type matches EdgeType::Server(ServerType::Content(_));
                        &&& final(self).texts() == old(self).texts()
                        &&& final(self).media_servers() == old(self).media_servers()
                        &&& final(self).arrived() == old(self).arrived()
                        &&& state_updated(old(base).topology(), final(base).topology(), from, if content { 1u8 } else { 2u8 })
                        &&& final(base).sessions() == old(base).sessions()
                        &&& r@ == if edge_type == EdgeType::Server(ServerType::Content(ContentServerType::Text)) {
                            seq![ClientAction::Event(ClientEvent::SendDestinations(me, from))]
                        } else {
                            Seq::<ClientAction>::empty()
                        }
                    },
                    ContentType::EdgeNack(_) => {
                        &&& final(self).texts() == old(self).texts()
                        &&& final(self).media_servers() == old(self).media_servers()
                        &&& final(self).arrived() == old(self).arrived()
                        &&& state_updated(old(base).topology(), final(base).topology(), src, 2u8)
                        &&& final(base).sessions() == old(base).sessions()
                        &&& r@.len() == 0
                    },
                    _ => {
                        &&& final(self).texts() == old(self).texts()
                        &&& final(self).media_servers() == old(self).media_servers()
                        &&& final(self).arrived() == old(self).arrived()
                        &&& final(base).topology() == old(base).topology()
                        &&& final(base).sessions().drop_last() == old(base).sessions()
                        &&& final(base).sessions().len() == old(base).sessions().len() + 1
                        &&& window.0 <= final(base).sessions().last() < window.1
                        &&& r@.len() == 1
                        &&& sends(r@[0], me, final(base).sessions().last(), src)
                        &&& content_of(r@[0]) == ContentType::EdgeNack(EdgeNackType::UnexpectedMessage)
                    },
                }
            }),
    {
        let src = message.source_id;
        let me = base.get_src_id();
        let mut out: Vec<ClientAction> = Vec::new();
        match message.content {
            ContentType::MediaResponse(MediaResponse::Media(id, name, media)) => {
                let name2 = name.clone();
                let media2 = copy_bytes(&media);
                let media3 = copy_bytes(&media);
                let ghost before = self.arrived();
                let ghost entry = (name@, media@);
                self.arrived_content.insert(id, (name, media));
                assert(self.arrived() =~= before.insert(id, entry));
                out.push(ClientAction::Event(ClientEvent::SendMedia(me, id, name2, media2)));
                out.push(ClientAction::Open(media3));
            },
            ContentType::MediaResponse(MediaResponse::NotFound(id)) => {
                let ghost before = self.media_servers();
                match self.catalogue.remove(&id) {
                    Some(v) => {
                        let kept = remove_value(&v, src);
                        self.catalogue.insert(id, kept);
                        assert(self.media_servers() =~= before.insert(id, without_value(before[id], src)));
                    },
                    None => {
                        assert(self.media_servers() =~= before);
                    },
                }
                out = self.get_media(base, id);
            },
            ContentType::TextResponse(TextResponse::TextList(list)) => {
                let fresh = self.add_texts(&list, src);
                let mut k: usize = 0;
                while k < fresh.len()
                    invariant
                        0 <= k <= fresh@.len(),
                        out@.len() == k,
                        forall|j: int| 0 <= j < k ==> (#[trigger] out@[j] matches ClientAction::Event(
                            ClientEvent::SendTextList(n, i, nm),
                        ) && n == me && i == fresh@[j].0 && nm@ == fresh@[j].1@),
                    decreases fresh@.len() - k,
                {
                    let name = fresh[k].1.clone();
                    out.push(ClientAction::Event(ClientEvent::SendTextList(me, fresh[k].0, name)));
                    k = k + 1;
                }
            },
            ContentType::TextResponse(TextResponse::MediaReferences(refs)) => {
                let fresh = self.add_refs(&refs);
                let mut k: usize = 0;
                while k < fresh.len()
                    invariant
                        0 <= k <= fresh@.len(),
                        out@.len() == k,
                        forall|j: int| 0 <= j < k ==> (#[trigger] out@[j] matches ClientAction::Event(
                            ClientEvent::SendCatalogue(n, i, nm),
                        ) && n == me && i == fresh@[j].0 && nm@ == fresh@[j].1@),
                    decreases fresh@.len() - k,
                {
                    let name = fresh[k].1.clone();
                    out.push(ClientAction::Event(ClientEvent::SendCatalogue(me, fresh[k].0, name)));
                    k = k + 1;
                }
            },
            ContentType::TextResponse(TextResponse::Incomplete(id)) => {
                out = self.get_text_file(base, id);
            },
            ContentType::TextResponse(TextResponse::NotFound(id)) => {
                let ghost before = self.texts();
                match self.available_text_lists.remove(&id) {
                    Some(e) => {
                        let (v, n) = e;
                        let kept = remove_value(&v, src);
                        let ghost nv = n@;
                        self.available_text_lists.insert(id, (kept, n));
                        assert(self.texts() =~= before.insert(id, (without_value(before[id].0, src), before[id].1)));
                    },
                    None => {
                        assert(self.texts() =~= before);
                    },
                }
                out = self.get_text_file(base, id);
            },
            ContentType::TypeExchange(TypeExchange::TypeRequest { from }) => {
                let resp = TypeExchange::TypeResponse { edge_type: EdgeType::Client(ClientType::WebBrowser), from: me };
                let session = base.get_session_id();
                out.push(ClientAction::Send(Message::new(me, session, ContentType::TypeExchange(resp)), from));
            },
            ContentType::TypeExchange(TypeExchange::TypeResponse { edge_type, from }) => {
                match edge_type {
                    EdgeType::Server(ServerType::Content(ty)) => {
                        base.update_state(from, 1);
                        match ty {
                            ContentServerType::Text => {
                                out.push(ClientAction::Event(ClientEvent::SendDestinations(me, from)));
                                assert(out@ =~= seq![ClientAction::Event(ClientEvent::SendDestinations(me, from))]);
                            },
                            ContentServerType::Media => {
                                assert(out@ =~= Seq::<ClientAction>::empty());
                            },
                        }
                    },
                    _ => {
                        base.update_state(from, 2);
                        assert(out@ =~= Seq::<ClientAction>::empty());
                    },
                }
            },
            ContentType::EdgeNack(_) => {
                base.update_state(src, 2);
            },
            _ => {
                let session = base.get_session_id();
                out.push(ClientAction::Send(create_nack(me, session, EdgeNackType::UnexpectedMessage), src));
            },
        }
        out
    }
}

/// The base64 digit for a six-bit value: `A`-`Z`, `a`-`z`, `0`-`9`, `+`, `/`.
pub open spec fn base64_digit(v: int) -> char {
    if v < 26 {
        (65 + v) as char
    } else if v < 52 {
        (97 + (v - 26)) as char
    } else if v < 62 {
        (48 + (v - 52)) as char
    } else if v == 62 {
        '+'
    } else {
        '/'
    }
}

/// The standard base64 encoding (RFC 4648) of `bytes`: each group of three
/// bytes becomes four digits of six bits each; a last group of one or two
/// bytes is padded with zero bits and ends with `==` or `=`.
pub open spec fn base64_standard(bytes: Seq<u8>) -> Seq<char>
    decreases bytes.len(),
{
    if bytes.len() == 0 {
        Seq::empty()
    } else if bytes.len() == 1 {
        let a = bytes[0] as int;
        seq![base64_digit(a / 4), base64_digit((a % 4) * 16), '=', '=']
    } else if bytes.len() == 2 {
        let a = bytes[0] as int;
        let b = bytes[1] as int;
        seq![base64_digit(a / 4), base64_digit((a % 4) * 16 + b / 16), base64_digit((b % 16) * 4), '=']
    } else {
        let a = bytes[0] as int;
        let b = bytes[1] as int;
        let c = bytes[2] as int;
        seq![
            base64_digit(a / 4),
            base64_digit((a % 4) * 16 + b / 16),
            base64_digit((b % 16) * 4 + c / 64),
            base64_digit(c % 64),
        ] + base64_standard(bytes.subrange(3, bytes.len() as int))
    }
}

/// Trusted: wraps `base64::Engine::encode` on the `STANDARD` engine (RFC 4648
/// alphabet, with padding), which writes the encoding `base64_standard`
/// states; it panics only when the encoded length overflows `usize`, which
/// `requires` rules out.
#[verifier::external_body]
fn encode_base64(bytes: &Vec<u8>) -> (r: String)
    requires
        bytes@.len() <= usize::MAX / 2,
    ensures
        r@ == base64_standard(bytes@),
{
    base64::Engine::encode(&base64::engine::general_purpose::STANDARD, bytes)
}

/// What comes before the image data in a media page.
pub const PAGE_HEAD: &'static str = "<html>\n        <head>\n            <style>\n                img {\n                    max-width: 100%;\n                    height: auto;\n                    display: block;\n                    margin: auto;\n                }\n            </style>\n        </head>\n        <body>\n            <img src='data:image/jpeg;base64,";

/// What comes after the image data in a media page.
pub const PAGE_TAIL: &'static str = "' />\n        </body>\n    </html>";

/// The HTML page that shows an image: the image's bytes in base64 inside a
/// data URL.
pub fn media_page(image_bytes: &Vec<u8>) -> (r: String)
    requires
        image_bytes@.len() <= usize::MAX / 2,
    ensures
        r@ == PAGE_HEAD@ + base64_standard(image_bytes@) + PAGE_TAIL@,
{
    let encoded = encode_base64(image_bytes);
    let mut page = String::from_str(PAGE_HEAD);
    page.append(encoded.as_str());
    page.append(PAGE_TAIL);
    page
}

/// After media references come in, every media keeps the servers it was
/// known to be held by, as the first ones listed for it, and every server a
/// reference names is listed for its media.
pub proof fn lemma_refs_keep_holders(m: Map<u64, Seq<u8>>, refs: Seq<(u64, (Seq<char>, Seq<u8>))>)
    ensures
        forall|id: u64|
            #[trigger] m.contains_key(id) ==> add_refs(m, refs).0.contains_key(id) && m[id].len() <= add_refs(
                m,
                refs,
            ).0[id].len() && add_refs(m, refs).0[id].subrange(0, m[id].len() as int) == m[id],
        forall|k: int| 0 <= k < refs.len() ==> #[trigger] add_refs(m, refs).0.contains_key(refs[k].0),
        forall|k: int, j: int|
            0 <= k < refs.len() && 0 <= j < refs[k].1.1.len() ==> add_refs(m, refs).0[refs[k].0].contains(
                #[trigger] refs[k].1.1[j],
            ),
{
    lemma_old_holders_kept(m, refs);
    assert forall|k: int| 0 <= k < refs.len() implies #[trigger] add_refs(m, refs).0.contains_key(refs[k].0) by {
        lemma_ref_key_listed(m, refs, k);
    }
    assert forall|k: int, j: int| 0 <= k < refs.len() && 0 <= j < refs[k].1.1.len() implies add_refs(m, refs).0[refs[k].0].contains(
        #[trigger] refs[k].1.1[j],
    ) by {
        lemma_ref_server_listed(m, refs, k, j);
    }
}

proof fn lemma_ref_key_listed(m: Map<u64, Seq<u8>>, refs: Seq<(u64, (Seq<char>, Seq<u8>))>, k: int)
    requires
        0 <= k < refs.len(),
    ensures
        add_refs(m, refs).0.contains_key(refs[k].0),
    decreases refs.len(),
{
    let rest = refs.drop_last();
    if k < refs.len() - 1 {
        assert(rest[k] == refs[k]);
        lemma_ref_key_listed(m, rest, k);
    }
}

proof fn lemma_old_holders_kept(m: Map<u64, Seq<u8>>, refs: Seq<(u64, (Seq<char>, Seq<u8>))>)
    ensures
        forall|id: u64|
            #[trigger] m.contains_key(id) ==> add_refs(m, refs).0.contains_key(id) && m[id].len() <= add_refs(
                m,
                refs,
            ).0[id].len() && add_refs(m, refs).0[id].subrange(0, m[id].len() as int) == m[id],
    decreases refs.len(),
{
    if refs.len() > 0 {
        let rest = refs.drop_last();
        lemma_old_holders_kept(m, rest);
        let m1 = add_refs(m, rest).0;
        let lid = refs.last().0;
        let servers = refs.last().1.1;
        let before = if m1.contains_key(lid) { m1[lid] } else { Seq::<u8>::empty() };
        assert(add_refs(m, refs).0 == m1.insert(lid, before + servers));
        assert forall|id: u64| #[trigger] m.contains_key(id) implies add_refs(m, refs).0.contains_key(id) && m[id].len()
            <= add_refs(m, refs).0[id].len() && add_refs(m, refs).0[id].subrange(0, m[id].len() as int) == m[id] by {
            if id == lid {
                assert(m1.contains_key(id));
                assert((before + servers).subrange(0, m[id].len() as int) =~= before.subrange(0, m[id].len() as int));
            }
        }
    }
}

proof fn lemma_ref_server_listed(m: Map<u64, Seq<u8>>, refs: Seq<(u64, (Seq<char>, Seq<u8>))>, k: int, j: int)
    requires
        0 <= k < refs.len(),
        0 <= j < refs[k].1.1.len(),
    ensures
        add_refs(m, refs).0.contains_key(refs[k].0),
        add_refs(m, refs).0[refs[k].0].contains(refs[k].1.1[j]),
    decreases refs.len(),
{
    let rest = refs.drop_last();
    let m1 = add_refs(m, rest).0;
    let lid = refs.last().0;
    let servers = refs.last().1.1;
    let before = if m1.contains_key(lid) { m1[lid] } else { Seq::<u8>::empty() };
    assert(add_refs(m, refs).0 == m1.insert(lid, before + servers));
    let x = refs[k].1.1[j];
    if k == refs.len() - 1 {
        assert((before + servers)[before.len() + j] == x);
    } else {
        assert(rest[k] == refs[k]);
        lemma_ref_server_listed(m, rest, k, j);
        if refs[k].0 == lid {
            let p = choose|p: int| 0 <= p < m1[lid].len() && m1[lid][p] == x;
            assert((before + servers)[p] == x);
        }
    }
}

} // verus!
