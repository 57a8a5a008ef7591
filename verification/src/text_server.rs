//! A text server: it keeps text files, each listing the media it shows, and
//! learns from media servers where each of those media can be fetched.
use vstd::prelude::*;

use crate::counting::lemma_push_to_set;
use crate::kinds::{ClientType, ContentServerType, EdgeType, ServerType};
use crate::message::{create_nack, ContentType, EdgeNackType, MediaRequest, MediaResponse, Message, TextRequest, TextResponse, TypeExchange};
use crate::server::{is_send, sent_content, server_kept, ServerAction, ServerEvent, ServerStruct};
use crate::routing::state_updated;
use crate::text::{display_name, divide_text_file, listed_media, obtain_file_display_name};

verus! {

/// A media a text file refers to, by name, with the (media id, media
/// server) pairs where it is known to be.
#[derive(Debug)]
pub struct MediaLink {
    pub name: String,
    pub locations: Vec<(u64, u8)>,
}

/// A text file: its id, the name it is shown under and the media it lists.
#[derive(Debug)]
pub struct TextFile {
    pub id: u64,
    pub name: String,
    pub medias: Vec<MediaLink>,
}

pub open spec fn link_view(m: MediaLink) -> (Seq<char>, Seq<(u64, u8)>) {
    (m.name@, m.locations@)
}

pub open spec fn links_view(ms: Seq<MediaLink>) -> Seq<(Seq<char>, Seq<(u64, u8)>)> {
    ms.map_values(|m: MediaLink| link_view(m))
}

pub open spec fn file_view(f: TextFile) -> (u64, Seq<char>, Seq<(Seq<char>, Seq<(u64, u8)>)>) {
    (f.id, f.name@, links_view(f.medias@))
}

/// Every media of the file has at least one known location.
pub open spec fn file_complete(medias: Seq<(Seq<char>, Seq<(u64, u8)>)>) -> bool {
    forall|i: int| 0 <= i < medias.len() ==> (#[trigger] medias[i]).1.len() > 0
}

/// The id of the `n`-th file of server `node`: the node id in the top byte,
/// the count below it.
pub open spec fn file_id(node: u8, n: u64) -> u64 {
    (node * 0x0100_0000_0000_0000 + n) as u64
}

/// The `(id, name)` pairs of the files.
pub open spec fn id_names(files: Seq<(u64, Seq<char>, Seq<(Seq<char>, Seq<(u64, u8)>)>)>) -> Seq<(u64, Seq<char>)> {
    files.map_values(|f: (u64, Seq<char>, Seq<(Seq<char>, Seq<(u64, u8)>)>)| (f.0, f.1))
}

/// The `(id, name)` pairs of the files that are complete (`want`) or not.
pub open spec fn id_names_where(
    files: Seq<(u64, Seq<char>, Seq<(Seq<char>, Seq<(u64, u8)>)>)>,
    want: bool,
) -> Seq<(u64, Seq<char>)>
    decreases files.len(),
{
    if files.len() == 0 {
        Seq::empty()
    } else {
        let rest = id_names_where(files.drop_last(), want);
        if file_complete(files.last().2) == want {
            rest.push((files.last().0, files.last().1))
        } else {
            rest
        }
    }
}

/// The locations `source` offers for a media named `name`, given a media
/// list: the media ids listed under that name, in order.
pub open spec fn offered(list: Seq<(u64, Seq<char>)>, name: Seq<char>, source: u8) -> Seq<(u64, u8)>
    decreases list.len(),
{
    if list.len() == 0 {
        Seq::empty()
    } else {
        let rest = offered(list.drop_last(), name, source);
        if list.last().1 == name {
            rest.push((list.last().0, source))
        } else {
            rest
        }
    }
}

/// The media of a file after a media list from `source` came in.
pub open spec fn with_offers(
    medias: Seq<(Seq<char>, Seq<(u64, u8)>)>,
    list: Seq<(u64, Seq<char>)>,
    source: u8,
) -> Seq<(Seq<char>, Seq<(u64, u8)>)> {
    medias.map_values(|m: (Seq<char>, Seq<(u64, u8)>)| (m.0, m.1 + offered(list, m.0, source)))
}

/// What a file's media references are: each media's first media id, its
/// name and the media servers that hold it.
pub open spec fn references(medias: Seq<(Seq<char>, Seq<(u64, u8)>)>) -> Seq<(u64, (Seq<char>, Seq<u8>))> {
    medias.map_values(
        |m: (Seq<char>, Seq<(u64, u8)>)| (m.1[0].0, (m.0, m.1.map_values(|l: (u64, u8)| l.1))),
    )
}

pub open spec fn pairs_view(v: Seq<(u64, String)>) -> Seq<(u64, Seq<char>)> {
    v.map_values(|p: (u64, String)| (p.0, p.1@))
}

pub open spec fn refs_view(v: Seq<(u64, (String, Vec<u8>))>) -> Seq<(u64, (Seq<char>, Seq<u8>))> {
    v.map_values(|p: (u64, (String, Vec<u8>))| (p.0, (p.1.0@, p.1.1@)))
}

/// A copy of a string.
fn copy_string(s: &String) -> (r: String)
    ensures
        r@ == s@,
{
    s.clone()
}

/// The media a freshly read file lists, none located yet.
fn new_links(names: Vec<String>) -> (r: Vec<MediaLink>)
    ensures
        links_view(r@) == names@.map_values(|n: String| (n@, Seq::<(u64, u8)>::empty())),
{
    let mut out: Vec<MediaLink> = Vec::new();
    let mut i: usize = 0;
    while i < names.len()
        invariant
            0 <= i <= names@.len(),
            links_view(out@) == names@.take(i as int).map_values(|n: String| (n@, Seq::<(u64, u8)>::empty())),
        decreases names@.len() - i,
    {
        let n = copy_string(&names[i]);
        let locations: Vec<(u64, u8)> = Vec::new();
        let ghost prev = out@;
        let link = MediaLink { name: n, locations };
        assert(link_view(link) == (names@[i as int]@, Seq::<(u64, u8)>::empty()));
        out.push(link);
        assert(links_view(out@) =~= links_view(prev).push(link_view(link)));
        assert(names@.take(i + 1) =~= names@.take(i as int).push(names@[i as int]));
        assert(links_view(out@) =~= names@.take(i + 1).map_values(|n: String| (n@, Seq::<(u64, u8)>::empty())));
        i = i + 1;
    }
    assert(names@.take(i as int) =~= names@);
    out
}

/// The files' id range: every id lies between the server's first file id
/// and the id its next file will get, and no two files share an id.
pub open spec fn ids_in_range(files: Seq<(u64, Seq<char>, Seq<(Seq<char>, Seq<(u64, u8)>)>)>, node: u8, next: u64) -> bool {
    &&& forall|i: int| 0 <= i < files.len() ==> file_id(node, 0) <= #[trigger] files[i].0 < file_id(node, next)
    &&& forall|i: int, j: int| 0 <= i < j < files.len() ==> #[trigger] files[i].0 != #[trigger] files[j].0
}

/// The most files a server can number.
pub const MAX_FILES: u64 = 0x00ff_ffff_ffff_ffff;

fn make_file_id(node: u8, n: u64) -> (r: u64)
    requires
        n <= MAX_FILES,
    ensures
        r == file_id(node, n),
{
    (node as u64) * 0x0100_0000_0000_0000 + n
}

/// The media names of a freshly read text: each listed once, none located.
pub open spec fn fresh_links(medias: Seq<(Seq<char>, Seq<(u64, u8)>)>, text: Seq<char>) -> bool {
    &&& medias.map_values(|m: (Seq<char>, Seq<(u64, u8)>)| m.0).to_set() == listed_media(text)
    &&& forall|a: int, b: int| 0 <= a < b < medias.len() ==> #[trigger] medias[a].0 != #[trigger] medias[b].0
    &&& forall|a: int| 0 <= a < medias.len() ==> (#[trigger] medias[a]).1.len() == 0
}

fn read_links(contents: String) -> (r: Vec<MediaLink>)
    ensures
        fresh_links(links_view(r@), contents@),
{
    let names = divide_text_file(contents);
    let ghost nv = names@;
    let r = new_links(names);
    proof {
        let ls = links_view(r@);
        assert(ls.map_values(|m: (Seq<char>, Seq<(u64, u8)>)| m.0) =~= nv.map_values(|n: String| n@));
        assert forall|a: int, b: int| 0 <= a < b < ls.len() implies #[trigger] ls[a].0 != #[trigger] ls[b].0 by {
            assert(ls[a].0 == nv[a]@);
            assert(ls[b].0 == nv[b]@);
        }
        assert forall|a: int| 0 <= a < ls.len() implies (#[trigger] ls[a]).1.len() == 0 by {
            assert(ls[a].1 == Seq::<(u64, u8)>::empty());
        }
    }
    r
}

pub struct TextServer {
    node_id: u8,
    text_files: Vec<TextFile>,
    next_file_id: u64,
    media_servers: Vec<u8>,
}

impl TextServer {
    /// The id of the server node these files belong to.
    pub closed spec fn node(&self) -> u8 {
        self.node_id
    }

    /// The files as (id, name, media) triples, each media with its name and
    /// known locations.
    pub closed spec fn files(&self) -> Seq<(u64, Seq<char>, Seq<(Seq<char>, Seq<(u64, u8)>)>)> {
        self.text_files@.map_values(|f: TextFile| file_view(f))
    }

    /// How many files the server has numbered.
    pub closed spec fn numbered(&self) -> u64 {
        self.next_file_id
    }

    /// The media servers the server knows of.
    pub closed spec fn media_server_ids(&self) -> Seq<u8> {
        self.media_servers@
    }

    pub closed spec fn wf(&self) -> bool {
        &&& self.media_servers@.no_duplicates()
        &&& self.next_file_id <= MAX_FILES
        &&& ids_in_range(self.files(), self.node_id, self.next_file_id)
    }

    /// A text server with the files read from the given `(path, contents)`
    /// pairs, numbered in order, each shown under the display name of its
    /// path and listing the media its lines name.
    pub fn new(node_id: u8, files: Vec<(String, String)>) -> (r: Self)
        requires
            files@.len() <= MAX_FILES,
        ensures
            r.wf(),
            r.node() == node_id,
            r.media_server_ids() == Seq::<u8>::empty(),
            r.numbered() == files@.len(),
            r.files().len() == files@.len(),
            forall|i: int|
                0 <= i < files@.len() ==> (#[trigger] r.files()[i]).0 == file_id(node_id, i as u64)
                    && r.files()[i].1 == display_name(files@[i].0@) && fresh_links(r.files()[i].2, files@[i].1@),
    {
        let mut text_files: Vec<TextFile> = Vec::new();
        let mut files = files;
        let ghost fv = files@;
        let mut k: u64 = 0;
        let n = files.len();
        let mut rest: Vec<(String, String)> = Vec::new();
        // Take the files out in reverse, then number them in order.
        while files.len() > 0
            invariant
                files@.len() + rest@.len() == n,
                files@ =~= fv.take(files@.len() as int),
                forall|j: int| 0 <= j < rest@.len() ==> #[trigger] rest@[j] == fv[n - 1 - j],
                n == fv.len(),
            decreases files@.len(),
        {
            let e = files.pop().unwrap();
            rest.push(e);
        }
        while k < n as u64
            invariant
                n == fv.len(),
                n <= MAX_FILES,
                k <= n,
                rest@.len() == n - k,
                forall|j: int| 0 <= j < rest@.len() ==> #[trigger] rest@[j] == fv[n - 1 - j],
                text_files@.len() == k,
                forall|i: int|
                    0 <= i < k ==> (#[trigger] file_view(text_files@[i])).0 == file_id(node_id, i as u64)
                        && file_view(text_files@[i]).1 == display_name(fv[i].0@) && fresh_links(
                        file_view(text_files@[i]).2,
                        fv[i].1@,
                    ),
            decreases n - k,
        {
            let (path, contents) = rest.pop().unwrap();
            let name = obtain_file_display_name(path);
            let medias = read_links(contents);
            let id = make_file_id(node_id, k);
            text_files.push(TextFile { id, name, medias });
            k = k + 1;
        }
        let r = TextServer { node_id, text_files, next_file_id: k, media_servers: Vec::new() };
        proof {
            assert forall|i: int| 0 <= i < r.files().len() implies file_id(node_id, 0) <= #[trigger] r.files()[i].0 < file_id(node_id, k) by {
                assert(r.files()[i] == file_view(r.text_files@[i]));
            }
            assert forall|i: int, j: int| 0 <= i < j < r.files().len() implies #[trigger] r.files()[i].0 != #[trigger] r.files()[j].0 by {
                assert(r.files()[i] == file_view(r.text_files@[i]));
                assert(r.files()[j] == file_view(r.text_files@[j]));
            }
        }
        r
    }

    /// The `(id, name)` pair of every file.
    pub fn text_list(&self) -> (r: Vec<(u64, String)>)
        ensures
            pairs_view(r@) == id_names(self.files()),
    {
        let mut out: Vec<(u64, String)> = Vec::new();
        let mut i: usize = 0;
        while i < self.text_files.len()
            invariant
                0 <= i <= self.text_files@.len(),
                pairs_view(out@) == id_names(self.files()).take(i as int),
            decreases self.text_files@.len() - i,
        {
            let f = &self.text_files[i];
            let name = copy_string(&f.name);
            let ghost prev = out@;
            out.push((f.id, name));
            proof {
                assert(pairs_view(out@) =~= pairs_view(prev).push((f.id, f.name@)));
                assert(self.files()[i as int] == file_view(*f));
                assert(id_names(self.files()).take(i + 1) =~= id_names(self.files()).take(i as int).push(
                    (f.id, f.name@),
                ));
            }
            i = i + 1;
        }
        assert(id_names(self.files()).take(i as int) =~= id_names(self.files()));
        out
    }

    /// The `(id, name)` pairs of the complete files, and of the others.
    pub fn files_state(&self) -> (r: (Vec<(u64, String)>, Vec<(u64, String)>))
        ensures
            pairs_view(r.0@) == id_names_where(self.files(), true),
            pairs_view(r.1@) == id_names_where(self.files(), false),
    {
        let mut done: Vec<(u64, String)> = Vec::new();
        let mut missing: Vec<(u64, String)> = Vec::new();
        let mut i: usize = 0;
        while i < self.text_files.len()
            invariant
                0 <= i <= self.text_files@.len(),
                pairs_view(done@) == id_names_where(self.files().take(i as int), true),
                pairs_view(missing@) == id_names_where(self.files().take(i as int), false),
            decreases self.text_files@.len() - i,
        {
            let f = &self.text_files[i];
            let complete = all_located(&f.medias);
            let name = copy_string(&f.name);
            proof {
                assert(self.files()[i as int] == file_view(*f));
                assert(self.files().take(i + 1).drop_last() =~= self.files().take(i as int));
                assert(self.files().take(i + 1).last() == file_view(*f));
            }
            if complete {
                let ghost prev = done@;
                done.push((f.id, name));
                assert(pairs_view(done@) =~= pairs_view(prev).push((f.id, f.name@)));
            } else {
                let ghost prev = missing@;
                missing.push((f.id, name));
                assert(pairs_view(missing@) =~= pairs_view(prev).push((f.id, f.name@)));
            }
            i = i + 1;
        }
        assert(self.files().take(i as int) =~= self.files());
        (done, missing)
    }
}

/// Whether every media has a known location.
fn all_located(ms: &Vec<MediaLink>) -> (r: bool)
    ensures
        r == file_complete(links_view(ms@)),
{
    let mut i: usize = 0;
    while i < ms.len()
        invariant
            0 <= i <= ms@.len(),
            forall|j: int| 0 <= j < i ==> (#[trigger] links_view(ms@)[j]).1.len() > 0,
        decreases ms@.len() - i,
    {
        if ms[i].locations.len() == 0 {
            assert(links_view(ms@)[i as int].1.len() == 0);
            return false;
        }
        i = i + 1;
    }
    true
}

/// Some file has id `id`.
pub open spec fn has_file(files: Seq<(u64, Seq<char>, Seq<(Seq<char>, Seq<(u64, u8)>)>)>, id: u64) -> bool {
    exists|i: int| 0 <= i < files.len() && files[i].0 == id
}

/// The file with id `id` (meaningful when there is one).
pub open spec fn file_with(files: Seq<(u64, Seq<char>, Seq<(Seq<char>, Seq<(u64, u8)>)>)>, id: u64) -> (
    u64,
    Seq<char>,
    Seq<(Seq<char>, Seq<(u64, u8)>)>,
) {
    files[choose|i: int| 0 <= i < files.len() && files[i].0 == id]
}

/// The files after a media list from `source` came in.
pub open spec fn files_with_offers(
    files: Seq<(u64, Seq<char>, Seq<(Seq<char>, Seq<(u64, u8)>)>)>,
    list: Seq<(u64, Seq<char>)>,
    source: u8,
) -> Seq<(u64, Seq<char>, Seq<(Seq<char>, Seq<(u64, u8)>)>)> {
    files.map_values(
        |f: (u64, Seq<char>, Seq<(Seq<char>, Seq<(u64, u8)>)>)| (f.0, f.1, with_offers(f.2, list, source)),
    )
}

/// The locations `source` offers for `name`, in list order.
fn offers_for(list: &Vec<(u64, String)>, name: &String, source: u8) -> (r: Vec<(u64, u8)>)
    ensures
        r@ == offered(pairs_view(list@), name@, source),
{
    let mut out: Vec<(u64, u8)> = Vec::new();
    let mut i: usize = 0;
    while i < list.len()
        invariant
            0 <= i <= list@.len(),
            out@ == offered(pairs_view(list@).take(i as int), name@, source),
        decreases list@.len() - i,
    {
        proof {
            assert(pairs_view(list@).take(i + 1).drop_last() =~= pairs_view(list@).take(i as int));
            assert(pairs_view(list@).take(i + 1).last() == (list@[i as int].0, list@[i as int].1@));
        }
        if list[i].1 == *name {
            out.push((list[i].0, source));
        }
        i = i + 1;
    }
    assert(pairs_view(list@).take(i as int) =~= pairs_view(list@));
    out
}

/// A copy of a list of locations followed by more.
fn joined_locations(a: &Vec<(u64, u8)>, b: Vec<(u64, u8)>) -> (r: Vec<(u64, u8)>)
    ensures
        r@ == a@ + b@,
{
    let mut out: Vec<(u64, u8)> = Vec::new();
    let mut i: usize = 0;
    while i < a.len()
        invariant
            0 <= i <= a@.len(),
            out@ == a@.take(i as int),
        decreases a@.len() - i,
    {
        out.push(a[i]);
        assert(out@ =~= a@.take(i + 1));
        i = i + 1;
    }
    let mut j: usize = 0;
    while j < b.len()
        invariant
            0 <= j <= b@.len(),
            i == a@.len(),
            out@ == a@ + b@.take(j as int),
        decreases b@.len() - j,
    {
        out.push(b[j]);
        assert(out@ =~= a@ + b@.take(j + 1));
        j = j + 1;
    }
    assert(a@.take(i as int) =~= a@);
    assert(b@.take(j as int) =~= b@);
    out
}

/// The media references of a complete file.
fn references_of(ms: &Vec<MediaLink>) -> (r: Vec<(u64, (String, Vec<u8>))>)
    requires
        file_complete(links_view(ms@)),
    ensures
        refs_view(r@) == references(links_view(ms@)),
{
    let mut out: Vec<(u64, (String, Vec<u8>))> = Vec::new();
    let mut i: usize = 0;
    while i < ms.len()
        invariant
            0 <= i <= ms@.len(),
            file_complete(links_view(ms@)),
            refs_view(out@) == references(links_view(ms@)).take(i as int),
        decreases ms@.len() - i,
    {
        let m = &ms[i];
        assert(links_view(ms@)[i as int] == link_view(*m));
        assert(m.locations@.len() > 0);
        let first = m.locations[0].0;
        let mut holders: Vec<u8> = Vec::new();
        let mut j: usize = 0;
        while j < m.locations.len()
            invariant
                0 <= j <= m.locations@.len(),
                holders@ == m.locations@.take(j as int).map_values(|l: (u64, u8)| l.1),
            decreases m.locations@.len() - j,
        {
            holders.push(m.locations[j].1);
            assert(holders@ =~= m.locations@.take(j + 1).map_values(|l: (u64, u8)| l.1));
            j = j + 1;
        }
        assert(m.locations@.take(j as int) =~= m.locations@);
        let name = copy_string(&m.name);
        let ghost prev = out@;
        let ghost hv = holders@;
        out.push((first, (name, holders)));
        proof {
            assert(refs_view(out@) =~= refs_view(prev).push((first, (m.name@, hv))));
            assert(references(links_view(ms@)).take(i + 1) =~= references(links_view(ms@)).take(i as int).push(
                (first, (m.name@, hv)),
            ));
        }
        i = i + 1;
    }
    assert(references(links_view(ms@)).take(i as int) =~= references(links_view(ms@)));
    out
}

impl TextServer {
    /// The answer to a request for file `file_id`: not found, incomplete
    /// (some media has no known location yet), or its media references.
    pub fn file_request(&self, file_id: u64) -> (r: TextResponse)
        requires
            self.wf(),
        ensures
            !has_file(self.files(), file_id) ==> r == TextResponse::NotFound(file_id),
            has_file(self.files(), file_id) && !file_complete(file_with(self.files(), file_id).2) ==> r
                == TextResponse::Incomplete(file_id),
            has_file(self.files(), file_id) && file_complete(file_with(self.files(), file_id).2) ==> (r matches TextResponse::MediaReferences(refs)
                && refs_view(refs@) == references(file_with(self.files(), file_id).2)),
    {
        let mut i: usize = 0;
        while i < self.text_files.len()
            invariant
                0 <= i <= self.text_files@.len(),
                self.wf(),
                forall|j: int| 0 <= j < i ==> #[trigger] self.files()[j].0 != file_id,
            decreases self.text_files@.len() - i,
        {
            let f = &self.text_files[i];
            assert(self.files()[i as int] == file_view(*f));
            if f.id == file_id {
                proof {
                    let c = choose|c: int| 0 <= c < self.files().len() && self.files()[c].0 == file_id;
                    if c != i {
                        assert(self.files()[c].0 != self.files()[i as int].0);
                    }
                }
                if all_located(&f.medias) {
                    return TextResponse::MediaReferences(references_of(&f.medias));
                } else {
                    return TextResponse::Incomplete(file_id);
                }
            }
            i = i + 1;
        }
        TextResponse::NotFound(file_id)
    }

    /// Takes in a media list from media server `source`: each media of every
    /// file gets, after its known locations, the ids `source` lists under
    /// its name.
    pub fn media_list_arrived(&mut self, source: u8, list: &Vec<(u64, String)>)
        requires
            old(self).wf(),
        ensures
            final(self).wf(),
            final(self).node() == old(self).node(),
            final(self).numbered() == old(self).numbered(),
            final(self).media_server_ids() == old(self).media_server_ids(),
            final(self).files() == files_with_offers(old(self).files(), pairs_view(list@), source),
    {
        let mut old_files: Vec<TextFile> = Vec::new();
        std::mem::swap(&mut old_files, &mut self.text_files);
        let ghost fs = old_files@.map_values(|f: TextFile| file_view(f));
        let ghost want = files_with_offers(fs, pairs_view(list@), source);
        let mut i: usize = 0;
        while i < old_files.len()
            invariant
                0 <= i <= old_files@.len(),
                old(self).wf(),
                fs == old(self).files(),
                self.node_id == old(self).node_id,
                self.next_file_id == old(self).next_file_id,
                self.media_servers == old(self).media_servers,
                fs == old_files@.map_values(|f: TextFile| file_view(f)),
                want == files_with_offers(fs, pairs_view(list@), source),
                self.text_files@.map_values(|f: TextFile| file_view(f)) == want.take(i as int),
            decreases old_files@.len() - i,
        {
            let f = &old_files[i];
            let mut medias: Vec<MediaLink> = Vec::new();
            let mut j: usize = 0;
            while j < f.medias.len()
                invariant
                    0 <= j <= f.medias@.len(),
                    links_view(medias@) == with_offers(links_view(f.medias@), pairs_view(list@), source).take(j as int),
                decreases f.medias@.len() - j,
            {
                let m = &f.medias[j];
                let extra = offers_for(list, &m.name, source);
                let locations = joined_locations(&m.locations, extra);
                let name = copy_string(&m.name);
                let ghost prev = medias@;
                let link = MediaLink { name, locations };
                medias.push(link);
                proof {
                    assert(links_view(f.medias@)[j as int] == link_view(*m));
                    assert(links_view(medias@) =~= links_view(prev).push(link_view(link)));
                    assert(with_offers(links_view(f.medias@), pairs_view(list@), source).take(j + 1) =~= with_offers(
                        links_view(f.medias@),
                        pairs_view(list@),
                        source,
                    ).take(j as int).push(link_view(link)));
                }
                j = j + 1;
            }
            assert(with_offers(links_view(f.medias@), pairs_view(list@), source).take(j as int) =~= with_offers(
                links_view(f.medias@),
                pairs_view(list@),
                source,
            ));
            let name = copy_string(&f.name);
            let ghost prev = self.text_files@;
            let nf = TextFile { id: f.id, name, medias };
            self.text_files.push(nf);
            proof {
                assert(fs[i as int] == file_view(*f));
                assert(self.text_files@.map_values(|f: TextFile| file_view(f)) =~= prev.map_values(
                    |f: TextFile| file_view(f),
                ).push(file_view(nf)));
                assert(want.take(i + 1) =~= want.take(i as int).push(file_view(nf)));
            }
            i = i + 1;
        }
        assert(want.take(i as int) =~= want);
        proof {
            assert forall|k: int| 0 <= k < self.files().len() implies #[trigger] self.files()[k].0 == fs[k].0 by {
                assert(self.files()[k] == want[k]);
            }
            assert forall|a: int, b: int| 0 <= a < b < self.files().len() implies #[trigger] self.files()[a].0
                != #[trigger] self.files()[b].0 by {
                assert(self.files()[a].0 == fs[a].0);
                assert(self.files()[b].0 == fs[b].0);
            }
        }
    }
}

impl TextServer {
    /// Adds a file read later on, numbered after the others. Its name is
    /// the text itself, as the command that brings it gives no path.
    pub fn add_file(&mut self, contents: String)
        requires
            old(self).wf(),
            old(self).numbered() < MAX_FILES,
        ensures
            final(self).wf(),
            final(self).node() == old(self).node(),
            final(self).numbered() == old(self).numbered() + 1,
            final(self).media_server_ids() == old(self).media_server_ids(),
            final(self).files().drop_last() == old(self).files(),
            final(self).files().len() == old(self).files().len() + 1,
            final(self).files().last().0 == file_id(old(self).node(), old(self).numbered()),
            final(self).files().last().1 == contents@,
            fresh_links(final(self).files().last().2, contents@),
    {
        let name = copy_string(&contents);
        let medias = read_links(contents);
        let id = make_file_id(self.node_id, self.next_file_id);
        let ghost before = self.files();
        let f = TextFile { id, name, medias };
        self.text_files.push(f);
        self.next_file_id = self.next_file_id + 1;
        proof {
            assert(self.files() =~= before.push(file_view(f)));
            assert(self.files().drop_last() =~= before);
            assert(file_id(self.node_id, (self.next_file_id - 1) as u64) < file_id(self.node_id, self.next_file_id));
        }
    }

    /// A message from this server in a fresh session.
    fn reply(&self, server: &mut ServerStruct, content: ContentType) -> (r: Message)
        requires
            old(server).wf(),
            old(server).next_session() < u64::MAX,
        ensures
            server_kept(*old(server), *final(server)),
            final(server).topology() == old(server).topology(),
            final(server).next_session() == old(server).next_session() + 1,
            r.source_id == old(server).id(),
            r.session_id == old(server).next_session(),
            r.content == content,
    {
        let session = server.get_session_id();
        Message::new(server.get_src_id(), session, content)
    }

    /// Handles a whole message that reached this text server, and says what
    /// to send and report:
    /// - a request for the file list is answered with every file's id and name;
    /// - a request for a file is answered with its media references, or
    ///   with `NotFound` (reported too), or with `Incomplete` while some
    ///   media has no known location (reported too, and every known media
    ///   server is asked again for its media list);
    /// - a media list is taken in and the files' state is reported;
    /// - a type request is answered with this server's kind; a type
    ///   response makes a media server or a web browser reachable (a media
    ///   server is also remembered and asked for its media list) and any
    ///   other node unreachable;
    /// - an edge nack makes its sender unreachable and the message it
    ///   refused is reported as discarded;
    /// - anything else is refused with an edge nack.
    pub fn handle_message(&mut self, server: &mut ServerStruct, message: Message) -> (r: Vec<ServerAction>)
        requires
            old(self).wf(),
            old(server).wf(),
            old(server).id() == old(self).node(),
            old(server).next_session() < u64::MAX - 2,
        ensures
            final(self).wf(),
            final(self).node() == old(self).node(),
            final(self).numbered() == old(self).numbered(),
            server_kept(*old(server), *final(server)),
            ({
                let me = old(server).id();
                let src = message.source_id;
                let s0 = old(server).next_session() as int;
                match message.content {
                    ContentType::TextRequest(TextRequest::TextList) => {
                        &&& r@.len() == 1
                        &&& is_send(r@[0], me, s0, src)
                        &&& sent_content(r@[0]) matches ContentType::TextResponse(TextResponse::TextList(l))
                            && pairs_view(l@) == id_names(old(self).files())
                        &&& final(self).files() == old(self).files()
                        &&& final(self).media_server_ids() == old(self).media_server_ids()
                        &&& final(server).topology() == old(server).topology()
                        &&& final(server).next_session() == s0 + 1
                    },
                    ContentType::TextRequest(TextRequest::TextFile(fid)) => {
                        let fs = old(self).files();
                        &&& final(self).files() == old(self).files()
                        &&& final(self).media_server_ids() == old(self).media_server_ids()
                        &&& final(server).topology() == old(server).topology()
                        &&& is_send(r@[0], me, s0, src)
                        &&& !has_file(fs, fid) ==> {
                            &&& r@.len() == 2
                            &&& sent_content(r@[0]) == ContentType::TextResponse(TextResponse::NotFound(fid))
                            &&& r@[1] == ServerAction::Event(ServerEvent::FileNotFound(me, fid))
                            &&& final(server).next_session() == s0 + 1
                        }
                        &&& has_file(fs, fid) && !file_complete(file_with(fs, fid).2) ==> {
                            let ms = old(self).media_server_ids();
                            &&& r@.len() == 2 + ms.len()
                            &&& sent_content(r@[0]) == ContentType::TextResponse(TextResponse::Incomplete(fid))
                            &&& r@[1] == ServerAction::Event(ServerEvent::IncompleteFile(me, fid))
                            &&& forall|k: int| 0 <= k < ms.len() ==> is_send(#[trigger] r@[2 + k], me, s0 + 1, ms[k])
                                && sent_content(r@[2 + k]) == ContentType::MediaRequest(MediaRequest::MediaList)
                            &&& final(server).next_session() == s0 + 2
                        }
                        &&& has_file(fs, fid) && file_complete(file_with(fs, fid).2) ==> {
                            &&& r@.len() == 1
                            &&& sent_content(r@[0]) matches ContentType::TextResponse(TextResponse::MediaReferences(refs))
                                && refs_view(refs@) == references(file_with(fs, fid).2)
                            &&& final(server).next_session() == s0 + 1
                        }
                    },
                    ContentType::MediaResponse(MediaResponse::MediaList(list)) => {
                        &&& final(self).files() == files_with_offers(old(self).files(), pairs_view(list@), src)
                        &&& final(self).media_server_ids() == old(self).media_server_ids()
                        &&& final(server).topology() == old(server).topology()
                        &&& final(server).next_session() == s0
                        &&& r@.len() == 1
                        &&& r@[0] matches ServerAction::Event(ServerEvent::FilesState(n, done, missing)) && n == me
                            && pairs_view(done@) == id_names_where(final(self).files(), true) && pairs_view(missing@)
                            == id_names_where(final(self).files(), false)
                    },
                    ContentType::TypeExchange(TypeExchange::TypeRequest { from }) => {
                        &&& final(self).files() == old(self).files()
                        &&& final(self).media_server_ids() == old(self).media_server_ids()
                        &&& final(server).topology() == old(server).topology()
                        &&& final(server).next_session() == s0 + 1
                        &&& r@.len() == 1
                        &&& is_send(r@[0], me, s0, from)
                        &&& sent_content(r@[0]) == ContentType::TypeExchange(TypeExchange::TypeResponse {
                            edge_type: EdgeType::Server(ServerType::Content(ContentServerType::Text)),
                            from: me,
                        })
                    },
                    ContentType::TypeExchange(TypeExchange::TypeResponse { edge_type, from }) => {
                        let media = edge_type == EdgeType::Server(ServerType::Content(ContentServerType::Media));
                        let browser = edge_type == EdgeType::Client(ClientType::WebBrowser);
                        &&& final(self).files() == old(self).files()
                        &&& state_updated(
                            old(server).topology(),
                            final(server).topology(),
                            from,
                            if media || browser { 1u8 } else { 2u8 },
                        )
                        &&& media ==> {
                            &&& final(self).media_server_ids().to_set() == old(self).media_server_ids().to_set().insert(from)
                            &&& r@.len() == 1
                            &&& is_send(r@[0], me, s0, from)
                            &&& sent_content(r@[0]) == ContentType::MediaRequest(MediaRequest::MediaList)
                            &&& final(server).next_session() == s0 + 1
                        }
                        &&& !media ==> {
                            &&& final(self).media_server_ids() == old(self).media_server_ids()
                            &&& r@.len() == 0
                            &&& final(server).next_session() == s0
                        }
                    },
                    ContentType::EdgeNack(_) => {
                        &&& final(self).files() == old(self).files()
                        &&& final(self).media_server_ids() == old(self).media_server_ids()
                        &&& state_updated(old(server).topology(), final(server).topology(), src, 2u8)
                        &&& final(server).next_session() == s0
                        &&& r@ == seq![ServerAction::Event(ServerEvent::DiscardedMessage(me, message.session_id))]
                    },
                    _ => {
                        &&& final(self).files() == old(self).files()
                        &&& final(self).media_server_ids() == old(self).media_server_ids()
                        &&& final(server).topology() == old(server).topology()
                        &&& final(server).next_session() == s0 + 1
                        &&& r@.len() == 1
                        &&& is_send(r@[0], me, s0, src)
                        &&& sent_content(r@[0]) == ContentType::EdgeNack(EdgeNackType::UnexpectedMessage)
                    },
                }
            }),
    {
        let src = message.source_id;
        let me = server.get_src_id();
        let mut out: Vec<ServerAction> = Vec::new();
        match message.content {
            ContentType::TextRequest(TextRequest::TextList) => {
                let list = self.text_list();
                let msg = self.reply(server, ContentType::TextResponse(TextResponse::TextList(list)));
                out.push(ServerAction::Send(msg, src));
            },
            ContentType::TextRequest(TextRequest::TextFile(fid)) => {
                let resp = self.file_request(fid);
                match resp {
                    TextResponse::Incomplete(_) => {
                        let msg = self.reply(server, ContentType::TextResponse(resp));
                        out.push(ServerAction::Send(msg, src));
                        out.push(ServerAction::Event(ServerEvent::IncompleteFile(me, fid)));
                        let session = server.get_session_id();
                        let ghost head = out@;
                        let mut k: usize = 0;
                        while k < self.media_servers.len()
                            invariant
                                0 <= k <= self.media_servers@.len(),
                                out@.len() == 2 + k,
                                forall|j: int| 0 <= j < k ==> is_send(#[trigger] out@[2 + j], me, session as int, self.media_servers@[j])
                                    && sent_content(out@[2 + j]) == ContentType::MediaRequest(MediaRequest::MediaList),
                                head.len() == 2,
                                forall|j: int| 0 <= j < 2 ==> #[trigger] out@[j] == head[j],
                            decreases self.media_servers@.len() - k,
                        {
                            let m = Message::new(me, session, ContentType::MediaRequest(MediaRequest::MediaList));
                            out.push(ServerAction::Send(m, self.media_servers[k]));
                            k = k + 1;
                        }
                    },
                    TextResponse::NotFound(_) => {
                        let msg = self.reply(server, ContentType::TextResponse(resp));
                        out.push(ServerAction::Send(msg, src));
                        out.push(ServerAction::Event(ServerEvent::FileNotFound(me, fid)));
                    },
                    _ => {
                        let msg = self.reply(server, ContentType::TextResponse(resp));
                        out.push(ServerAction::Send(msg, src));
                    },
                }
            },
            ContentType::MediaResponse(MediaResponse::MediaList(list)) => {
                self.media_list_arrived(src, &list);
                let (done, missing) = self.files_state();
                out.push(ServerAction::Event(ServerEvent::FilesState(me, done, missing)));
            },
            ContentType::TypeExchange(TypeExchange::TypeRequest { from }) => {
                let resp = TypeExchange::TypeResponse {
                    edge_type: EdgeType::Server(ServerType::Content(ContentServerType::Text)),
                    from: me,
                };
                let msg = self.reply(server, ContentType::TypeExchange(resp));
                out.push(ServerAction::Send(msg, from));
            },
            ContentType::TypeExchange(TypeExchange::TypeResponse { edge_type, from }) => {
                match edge_type {
                    EdgeType::Server(ServerType::Content(ContentServerType::Media)) => {
                        server.update_node_state(from, 1);
                        let ghost before = self.media_servers@;
                        if !crate::server::contains_value(&self.media_servers, from) {
                            self.media_servers.push(from);
                            proof {
                                lemma_push_to_set(before, from);
                            }
                        } else {
                            assert(before.to_set().insert(from) =~= before.to_set());
                        }
                        let msg = self.reply(server, ContentType::MediaRequest(MediaRequest::MediaList));
                        out.push(ServerAction::Send(msg, from));
                    },
                    EdgeType::Client(ClientType::WebBrowser) => {
                        server.update_node_state(from, 1);
                    },
                    _ => {
                        server.update_node_state(from, 2);
                    },
                }
            },
            ContentType::EdgeNack(_) => {
                server.update_node_state(src, 2);
                out.push(ServerAction::Event(ServerEvent::DiscardedMessage(me, message.session_id)));
                assert(out@ =~= seq![ServerAction::Event(ServerEvent::DiscardedMessage(me, message.session_id))]);
            },
            _ => {
                let session = server.get_session_id();
                let msg = create_nack(me, session, EdgeNackType::UnexpectedMessage);
                out.push(ServerAction::Send(msg, src));
            },
        }
        out
    }
}

/// A file that could be served still can after a media list comes in:
/// media locations are only ever added.
pub proof fn lemma_offers_keep_complete(
    medias: Seq<(Seq<char>, Seq<(u64, u8)>)>,
    list: Seq<(u64, Seq<char>)>,
    source: u8,
)
    requires
        file_complete(medias),
    ensures
        file_complete(with_offers(medias, list, source)),
{
    assert forall|i: int| 0 <= i < with_offers(medias, list, source).len() implies (#[trigger] with_offers(
        medias,
        list,
        source,
    )[i]).1.len() > 0 by {
        assert(medias[i].1.len() > 0);
    }
}

/// Each media reference of a complete file names the media id of the
/// media's first known location (the one held by the first server listed),
/// the media's name, and every server that holds it, in the order the
/// locations became known.
pub proof fn lemma_reference_first_location(medias: Seq<(Seq<char>, Seq<(u64, u8)>)>)
    requires
        file_complete(medias),
    ensures
        references(medias).len() == medias.len(),
        forall|i: int|
            0 <= i < medias.len() ==> {
                let r = #[trigger] references(medias)[i];
                &&& r.0 == medias[i].1[0].0
                &&& r.1.0 == medias[i].0
                &&& r.1.1.len() == medias[i].1.len()
                &&& r.1.1[0] == medias[i].1[0].1
                &&& forall|j: int| 0 <= j < medias[i].1.len() ==> r.1.1[j] == medias[i].1[j].1
            },
{
    assert forall|i: int| 0 <= i < medias.len() implies {
        let r = #[trigger] references(medias)[i];
        &&& r.0 == medias[i].1[0].0
        &&& r.1.0 == medias[i].0
        &&& r.1.1.len() == medias[i].1.len()
        &&& r.1.1[0] == medias[i].1[0].1
        &&& forall|j: int| 0 <= j < medias[i].1.len() ==> r.1.1[j] == medias[i].1[j].1
    } by {
        assert(medias[i].1.len() > 0);
    }
}

} // verus!
