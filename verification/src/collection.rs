//! The collection of loaded documents: lookup, the write operations, and the
//! resolution of citations into backlinks.
//!
//! Backlinks are kept in memory only. They are no part of a written
//! document; after loading, [`Oodles::rebuild_backlinks`] derives them again
//! from the citations of every message.

use crate::backlinks::{cited_document, cited_in_document};
use crate::document::{
    assign_id, expected_after, last_id, lemma_position_of_id, place, position_of_id, Oodle,
    OodleView,
};
use crate::ident::is_base58;
use crate::message::{Message, MessageView};
use crate::reference::{
    references_view, scan_references, Backlink, BacklinkView, Reference, ReferenceView,
};
use crate::text::same_text;
use crate::timestamp::Timestamp;
use vstd::prelude::*;

verus! {

/// The documents that are loaded, in the order they were loaded or created.
#[derive(Debug)]
pub struct Oodles {
    oodle_directory: String,
    data: Vec<Oodle>,
}

/// The values of a sequence of documents.
pub open spec fn oodles_view(s: Seq<Oodle>) -> Seq<OodleView> {
    Seq::new(s.len(), |i: int| s[i]@)
}

/// What `str::to_lowercase` makes of a text.
pub uninterp spec fn lowercase(s: Seq<char>) -> Seq<char>;

/// `str::to_lowercase`: the text with each character in its lowercase form.
#[verifier::external_body]
fn lowercase_of(s: &str) -> (r: String)
    ensures
        r@ == lowercase(s@),
{
    s.to_lowercase()
}

/// `std::path::Path::join`: the path of `name` inside the directory `base`,
/// as the platform writes it.
#[verifier::external_body]
fn path_in(base: &str, name: &str) -> (r: String) {
    std::path::Path::new(base).join(name).to_string_lossy().into_owned()
}

/// Index of the first document at or after `i` that is stored under `file`,
/// or `docs.len()`.
pub open spec fn position_of_file(docs: Seq<OodleView>, file: Seq<char>, i: int) -> int
    decreases docs.len() - i,
{
    if i < 0 || i >= docs.len() {
        docs.len() as int
    } else if docs[i].file == file {
        i
    } else {
        position_of_file(docs, file, i + 1)
    }
}

/// Index of the first document at or after `i` with the identifier `id`, or
/// `docs.len()`.
pub open spec fn position_of_document(docs: Seq<OodleView>, id: Seq<char>, i: int) -> int
    decreases docs.len() - i,
{
    if i < 0 || i >= docs.len() {
        docs.len() as int
    } else if docs[i].id == id {
        i
    } else {
        position_of_document(docs, id, i + 1)
    }
}

/// Index of the first document at or after `i` whose title in lowercase is
/// `lowered`, or `docs.len()`.
pub open spec fn position_of_title(docs: Seq<OodleView>, lowered: Seq<char>, i: int) -> int
    decreases docs.len() - i,
{
    if i < 0 || i >= docs.len() {
        docs.len() as int
    } else if lowercase(docs[i].name) == lowered {
        i
    } else {
        position_of_title(docs, lowered, i + 1)
    }
}

/// The documents once the document with identifier `id` has been cited as a
/// whole; unchanged when no such document is loaded.
pub open spec fn cite_document(docs: Seq<OodleView>, id: Seq<char>, link: BacklinkView) -> Seq<
    OodleView,
> {
    let k = position_of_document(docs, id, 0);
    if 0 <= k < docs.len() {
        docs.update(k, cited_document(docs[k], link))
    } else {
        docs
    }
}

/// The documents once message `message_id` of the document with identifier
/// `id` has been cited; unchanged when either is absent.
pub open spec fn cite_message(
    docs: Seq<OodleView>,
    id: Seq<char>,
    message_id: usize,
    link: BacklinkView,
) -> Seq<OodleView> {
    let k = position_of_document(docs, id, 0);
    if 0 <= k < docs.len() {
        docs.update(k, cited_in_document(docs[k], message_id, link))
    } else {
        docs
    }
}

/// The documents once one citation made by `source` has been recorded on
/// what it cites. A citation of the same document is looked up under the
/// source's own document.
pub open spec fn resolve_reference(
    docs: Seq<OodleView>,
    source: BacklinkView,
    reference: ReferenceView,
) -> Seq<OodleView> {
    match reference {
        ReferenceView::Oodle { oodle_id } => cite_document(docs, oodle_id, source),
        ReferenceView::Message { oodle_id, message_id } => cite_message(
            docs,
            oodle_id,
            message_id,
            source,
        ),
        ReferenceView::Internal { message_id } => cite_message(
            docs,
            source.oodle_id,
            message_id,
            source,
        ),
    }
}

/// The documents once every citation made by `source` has been recorded, in
/// the order of the citations.
pub open spec fn resolve_references(
    docs: Seq<OodleView>,
    source: BacklinkView,
    references: Seq<ReferenceView>,
) -> Seq<OodleView>
    decreases references.len(),
{
    if references.len() == 0 {
        docs
    } else {
        resolve_references(
            resolve_reference(docs, source, references[0]),
            source,
            references.drop_first(),
        )
    }
}

/// A message that cites, and what it cites.
pub struct CitationsView {
    pub source: BacklinkView,
    pub references: Seq<ReferenceView>,
}

/// The citations made by the messages of one document from position `j` on.
pub open spec fn citations_in(d: OodleView, j: int) -> Seq<CitationsView>
    decreases d.messages.len() - j,
{
    if j < 0 || j >= d.messages.len() {
        Seq::empty()
    } else {
        seq![
            CitationsView {
                source: BacklinkView { oodle_id: d.id, message_id: d.messages[j].id },
                references: d.messages[j].references,
            },
        ] + citations_in(d, j + 1)
    }
}

/// The citations made by the messages of the documents from position `i`
/// on, document by document and message by message.
pub open spec fn citations_of(docs: Seq<OodleView>, i: int) -> Seq<CitationsView>
    decreases docs.len() - i,
{
    if i < 0 || i >= docs.len() {
        Seq::empty()
    } else {
        citations_in(docs[i], 0) + citations_of(docs, i + 1)
    }
}

/// The documents once the citations of every listed message have been
/// recorded, in the order of the list.
pub open spec fn resolve_citations(docs: Seq<OodleView>, citations: Seq<CitationsView>) -> Seq<
    OodleView,
>
    decreases citations.len(),
{
    if citations.len() == 0 {
        docs
    } else {
        resolve_citations(
            resolve_references(docs, citations[0].source, citations[0].references),
            citations.drop_first(),
        )
    }
}

/// The value of a list of citing messages.
pub open spec fn citations_view(s: Seq<(Backlink, Vec<Reference>)>) -> Seq<CitationsView> {
    Seq::new(
        s.len(),
        |i: int| CitationsView { source: s[i].0@, references: references_view(s[i].1@) },
    )
}

/// A document as it is created: one message and no backlinks.
pub open spec fn created_document(
    id: Seq<char>,
    name: Seq<char>,
    file: Seq<char>,
    first: MessageView,
) -> OodleView {
    OodleView { id, name, file, messages: seq![first], backlinks: Seq::empty() }
}

/// The document with one more message, stored under the id its place gives it.
pub open spec fn with_message(d: OodleView, m: MessageView) -> OodleView {
    OodleView { messages: d.messages.push(place(m, last_id(d.messages))), ..d }
}

/// The document with the content of its message at position `k` replaced
/// and the citations of that message derived anew.
pub open spec fn with_content(d: OodleView, k: int, content: Seq<char>) -> OodleView {
    OodleView {
        messages: d.messages.update(
            k,
            MessageView {
                content,
                references: scan_references(content),
                ..d.messages[k]
            },
        ),
        ..d
    }
}

/// A copy of a citation.
pub fn copy_reference(reference: &Reference) -> (r: Reference)
    ensures
        r@ == reference@,
{
    match reference {
        Reference::Message { oodle_id, message_id } => Reference::Message {
            oodle_id: oodle_id.clone(),
            message_id: *message_id,
        },
        Reference::Oodle { oodle_id } => Reference::Oodle { oodle_id: oodle_id.clone() },
        Reference::Internal { message_id } => Reference::Internal { message_id: *message_id },
    }
}

/// A copy of a sequence of citations.
pub fn copy_references(references: &Vec<Reference>) -> (r: Vec<Reference>)
    ensures
        references_view(r@) == references_view(references@),
{
    let mut r: Vec<Reference> = Vec::new();
    let mut i: usize = 0;
    while i < references.len()
        invariant
            i <= references.len(),
            r@.len() == i,
            forall|j: int| 0 <= j < i ==> r@[j]@ == references@[j]@,
        decreases references.len() - i,
    {
        r.push(copy_reference(&references[i]));
        i = i + 1;
    }
    r
}

impl View for Oodles {
    type V = Seq<OodleView>;

    open spec fn view(&self) -> Seq<OodleView> {
        oodles_view(self.documents())
    }
}

impl Oodles {
    /// The loaded documents as they are held.
    pub closed spec fn documents(&self) -> Seq<Oodle> {
        self.data@
    }

    /// An empty collection kept in the directory `oodles` under `data_dir`.
    /// What that directory is called is for the platform to say; see
    /// [`Oodles::in_directory`] for a collection in a directory given whole.
    pub fn new(data_dir: &str) -> (r: Oodles)
        ensures
            r@.len() == 0,
    {
        Oodles::in_directory(path_in(data_dir, "oodles"))
    }

    /// The directory in which the documents are kept.
    pub fn directory(&self) -> (r: &String)
        ensures
            r@ == self.directory_view(),
    {
        &self.oodle_directory
    }

    /// Where the document stored under `file` is kept: the path of `file`
    /// inside the directory, as the platform writes it.
    pub fn path_of(&self, file: &str) -> (r: String) {
        path_in(self.oodle_directory.as_str(), file)
    }

    /// The directory in which the documents are kept, as text. It is fixed
    /// when the collection is made, and no operation changes it.
    pub closed spec fn directory_view(&self) -> Seq<char> {
        self.oodle_directory@
    }

    /// An empty collection kept in the given directory.
    pub fn in_directory(directory: String) -> (r: Oodles)
        ensures
            r@.len() == 0,
            r.directory_view() == directory@,
    {
        Oodles { oodle_directory: directory, data: Vec::new() }
    }

    /// The number of loaded documents.
    pub fn len(&self) -> (n: usize)
        ensures
            n == self@.len(),
    {
        self.data.len()
    }

    /// The document at position `i`.
    pub fn get(&self, i: usize) -> (r: Option<&Oodle>)
        ensures
            r == (if i < self.documents().len() {
                Some(&self.documents()[i as int])
            } else {
                None
            }),
    {
        if i < self.data.len() {
            Some(&self.data[i])
        } else {
            None
        }
    }

    /// Takes a loaded document into the collection.
    pub fn insert(&mut self, oodle: Oodle)
        ensures
            final(self).directory_view() == old(self).directory_view(),
            final(self)@ == old(self)@.push(oodle@),
            final(self).documents() == old(self).documents().push(oodle),
    {
        self.data.push(oodle);
    }

    /// The title and the date of the first message of every document.
    pub fn oodle_metedata(&self) -> (r: Vec<(String, Option<Timestamp>)>)
        ensures
            r@.len() == self@.len(),
            forall|i: int|
                0 <= i < r@.len() ==> (#[trigger] r@[i]).0@ == self@[i].name && r@[i].1 == (if self@[i].messages.len()
                    > 0 {
                    Some(self@[i].messages[0].date)
                } else {
                    None
                }),
    {
        let mut r: Vec<(String, Option<Timestamp>)> = Vec::new();
        let mut i: usize = 0;
        while i < self.data.len()
            invariant
                i <= self.data.len(),
                r@.len() == i,
                forall|j: int|
                    0 <= j < i ==> (#[trigger] r@[j]).0@ == self@[j].name && r@[j].1 == (if self@[j].messages.len()
                        > 0 {
                        Some(self@[j].messages[0].date)
                    } else {
                        None
                    }),
            decreases self.data.len() - i,
        {
            let oodle = &self.data[i];
            r.push((oodle.name.clone(), oodle.date()));
            i = i + 1;
        }
        r
    }

    /// The first document whose title is `name`, letter case aside.
    pub fn get_oodle_by_name(&self, name: &str) -> (r: Option<&Oodle>)
        ensures
            ({
                let k = position_of_title(self@, lowercase(name@), 0);
                if k < self@.len() {
                    r == Some(&self.documents()[k])
                } else {
                    r is None
                }
            }),
    {
        let wanted = lowercase_of(name);
        let mut i: usize = 0;
        while i < self.data.len()
            invariant
                i <= self.data.len(),
                wanted@ == lowercase(name@),
                position_of_title(self@, wanted@, 0) == position_of_title(self@, wanted@, i as int),
            decreases self.data.len() - i,
        {
            let lowered = lowercase_of(self.data[i].name.as_str());
            if same_text(lowered.as_str(), wanted.as_str()) {
                return Some(&self.data[i]);
            }
            i = i + 1;
        }
        None
    }

    /// Position of the first document stored under `file`.
    fn find_file(&self, file: &str) -> (r: Option<usize>)
        ensures
            match r {
                Some(i) => i < self@.len() && i == position_of_file(self@, file@, 0),
                None => position_of_file(self@, file@, 0) >= self@.len(),
            },
    {
        let mut i: usize = 0;
        while i < self.data.len()
            invariant
                i <= self.data.len(),
                position_of_file(self@, file@, 0) == position_of_file(self@, file@, i as int),
            decreases self.data.len() - i,
        {
            if same_text(self.data[i].file.as_str(), file) {
                return Some(i);
            }
            i = i + 1;
        }
        None
    }

    /// Position of the first document with the identifier `id`.
    fn find_document(&self, id: &str) -> (r: Option<usize>)
        ensures
            match r {
                Some(i) => i < self@.len() && i == position_of_document(self@, id@, 0),
                None => position_of_document(self@, id@, 0) >= self@.len(),
            },
    {
        let mut i: usize = 0;
        while i < self.data.len()
            invariant
                i <= self.data.len(),
                position_of_document(self@, id@, 0) == position_of_document(self@, id@, i as int),
            decreases self.data.len() - i,
        {
            if same_text(self.data[i].id.as_str(), id) {
                return Some(i);
            }
            i = i + 1;
        }
        None
    }

    /// The first document stored under `file`.
    pub fn oodle_by_file(&self, file: &str) -> (r: Option<&Oodle>)
        ensures
            ({
                let k = position_of_file(self@, file@, 0);
                if k < self@.len() {
                    r == Some(&self.documents()[k])
                } else {
                    r is None
                }
            }),
    {
        match self.find_file(file) {
            Some(k) => Some(&self.data[k]),
            None => None,
        }
    }

    /// The first document stored under `file`, for changing it in place.
    pub fn oodle_by_file_mut(&mut self, file: &str) -> (r: Option<&mut Oodle>)
        ensures
            final(self).directory_view() == old(self).directory_view(),
            ({
                let k = position_of_file(old(self)@, file@, 0);
                if k < old(self)@.len() {
                    &&& r matches Some(d)
                    &&& *d == old(self).documents()[k]
                    &&& final(self).documents() == old(self).documents().update(k, *final(d))
                } else {
                    r is None && final(self).documents() == old(self).documents()
                }
            }),
    {
        match self.find_file(file) {
            Some(k) => Some(&mut self.data[k]),
            None => None,
        }
    }

    /// Records one citation made by `source` on what it cites.
    fn resolve(&mut self, source: &Backlink, reference: &Reference)
        ensures
            final(self).directory_view() == old(self).directory_view(),
            final(self)@ == resolve_reference(old(self)@, source@, reference@),
    {
        match reference {
            Reference::Oodle { oodle_id } => {
                match self.find_document(oodle_id.as_str()) {
                    Some(k) => {
                        self.data[k].add_backlink(source);
                    },
                    None => {},
                }
            },
            Reference::Message { oodle_id, message_id } => {
                match self.find_document(oodle_id.as_str()) {
                    Some(k) => {
                        self.data[k].add_message_backlink(*message_id, source);
                    },
                    None => {},
                }
            },
            Reference::Internal { message_id } => {
                match self.find_document(source.oodle_id.as_str()) {
                    Some(k) => {
                        self.data[k].add_message_backlink(*message_id, source);
                    },
                    None => {},
                }
            },
        }
    }

    /// Records every citation made by the message `source` on what it cites:
    /// a cited document, or a cited message of a document, gains `source` as
    /// a backlink. A citation of something that is not loaded changes nothing.
    pub fn map_backlinks(&mut self, source: Backlink, references: &Vec<Reference>)
        ensures
            final(self).directory_view() == old(self).directory_view(),
            final(self)@ == resolve_references(
                old(self)@,
                source@,
                references_view(references@),
            ),
    {
        let ghost all = references_view(references@);
        let n = references.len();
        let mut i: usize = 0;
        proof {
            assert(all.subrange(0, n as int) =~= all);
        }
        while i < n
            invariant
                i <= n == references.len(),
                all == references_view(references@),
                self.directory_view() == old(self).directory_view(),
                resolve_references(old(self)@, source@, all) == resolve_references(
                    self@,
                    source@,
                    all.subrange(i as int, n as int),
                ),
            decreases n - i,
        {
            let ghost rest = all.subrange(i as int, n as int);
            assert(rest.drop_first() =~= all.subrange(i + 1, n as int));
            self.resolve(&source, &references[i]);
            i = i + 1;
        }
    }

    /// The citations made by every message of every document.
    fn citations(&self) -> (r: Vec<(Backlink, Vec<Reference>)>)
        ensures
            citations_view(r@) == citations_of(self@, 0),
    {
        let mut r: Vec<(Backlink, Vec<Reference>)> = Vec::new();
        let mut i: usize = 0;
        while i < self.data.len()
            invariant
                i <= self.data.len(),
                citations_of(self@, 0) == citations_view(r@) + citations_of(self@, i as int),
            decreases self.data.len() - i,
        {
            let oodle = &self.data[i];
            let ghost before = citations_view(r@);
            let mut j: usize = 0;
            while j < oodle.messages.len()
                invariant
                    j <= oodle.messages.len(),
                    citations_view(r@) + citations_in(oodle@, j as int) == before + citations_in(
                        oodle@,
                        0,
                    ),
                decreases oodle.messages.len() - j,
            {
                let message = &oodle.messages[j];
                let source = Backlink { oodle_id: oodle.id.clone(), message_id: message.id };
                let references = copy_references(&message.references);
                r.push((source, references));
                j = j + 1;
            }
            i = i + 1;
        }
        r
    }

    /// Derives the backlinks anew: records the citations of every message
    /// of every document, document by document and message by message.
    /// Backlinks that are there already stay.
    pub fn rebuild_backlinks(&mut self)
        ensures
            final(self).directory_view() == old(self).directory_view(),
            final(self)@ == resolve_citations(old(self)@, citations_of(old(self)@, 0)),
    {
        let citations = self.citations();
        let ghost all = citations_view(citations@);
        let n = citations.len();
        let mut i: usize = 0;
        proof {
            assert(all.subrange(0, n as int) =~= all);
        }
        while i < n
            invariant
                i <= n == citations.len(),
                all == citations_view(citations@),
                self.directory_view() == old(self).directory_view(),
                resolve_citations(old(self)@, all) == resolve_citations(
                    self@,
                    all.subrange(i as int, n as int),
                ),
            decreases n - i,
        {
            let ghost rest = all.subrange(i as int, n as int);
            assert(rest.drop_first() =~= all.subrange(i + 1, n as int));
            let source = crate::backlinks::copy_backlink(&citations[i].0);
            self.map_backlinks(source, &citations[i].1);
            i = i + 1;
        }
    }

    /// Creates a document of one message under a fresh random identifier,
    /// stored under `filename`, and records the citations that the message
    /// makes. Returns the identifier.
    pub fn new_oodle(&mut self, title: &str, filename: &str, message: Message) -> (id: String)
        ensures
            final(self).directory_view() == old(self).directory_view(),
            id@.len() == 6,
            is_base58(id@),
            final(self)@ == resolve_references(
                old(self)@.push(created_document(id@, title@, filename@, message@)),
                BacklinkView { oodle_id: id@, message_id: message.id },
                message@.references,
            ),
    {
        let references = copy_references(&message.references);
        let message_id = message.id;
        let oodle = Oodle::new_noid(title, filename, message);
        let id = oodle.id.clone();
        self.insert(oodle);
        self.map_backlinks(Backlink { oodle_id: id.clone(), message_id }, &references);
        id
    }

    /// Appends a message to the document stored under `file` and records the
    /// citations that the message makes. Returns the id the message is
    /// stored under; `None`, with nothing changed, when no such document is
    /// loaded or no index is left for the message.
    pub fn append_message(&mut self, file: &str, message: Message) -> (r: Option<usize>)
        ensures
            final(self).directory_view() == old(self).directory_view(),
            ({
                let k = position_of_file(old(self)@, file@, 0);
                if k < old(self)@.len() && expected_after(last_id(old(self)@[k].messages))
                    <= usize::MAX {
                    let id = assign_id(expected_after(last_id(old(self)@[k].messages)), message.id);
                    &&& r == Some(id as usize)
                    &&& final(self)@ == resolve_references(
                        old(self)@.update(k, with_message(old(self)@[k], message@)),
                        BacklinkView { oodle_id: old(self)@[k].id, message_id: id as usize },
                        message@.references,
                    )
                } else {
                    r is None && final(self)@ == old(self)@
                }
            }),
    {
        let k = match self.find_file(file) {
            Some(k) => k,
            None => {
                return None;
            },
        };
        if !self.data[k].has_room() {
            return None;
        }
        let references = copy_references(&message.references);
        let id = self.data[k].push_message(message);
        let oodle_id = self.data[k].id.clone();
        assert(self@ =~= old(self)@.update(k as int, with_message(old(self)@[k as int], message@)));
        self.map_backlinks(Backlink { oodle_id, message_id: id }, &references);
        Some(id)
    }

    /// Replaces the content of message `message_id` of the document stored
    /// under `file`, derives its citations anew and records them. Returns
    /// whether there was such a message; nothing changes when there was none.
    pub fn edit_message(&mut self, file: &str, message_id: usize, content: &str) -> (r: bool)
        ensures
            final(self).directory_view() == old(self).directory_view(),
            ({
                let k = position_of_file(old(self)@, file@, 0);
                let j = if k < old(self)@.len() {
                    position_of_id(old(self)@[k].messages, message_id, 0)
                } else {
                    0
                };
                if k < old(self)@.len() && j < old(self)@[k].messages.len() {
                    &&& r
                    &&& final(self)@ == resolve_references(
                        old(self)@.update(k, with_content(old(self)@[k], j, content@)),
                        BacklinkView { oodle_id: old(self)@[k].id, message_id },
                        scan_references(content@),
                    )
                } else {
                    !r && final(self)@ == old(self)@
                }
            }),
    {
        let k = match self.find_file(file) {
            Some(k) => k,
            None => {
                return false;
            },
        };
        let references = match self.data[k].message_mut(message_id) {
            Some(message) => {
                message.set_content(content);
                copy_references(&message.references)
            },
            None => {
                return false;
            },
        };
        let oodle_id = self.data[k].id.clone();
        proof {
            let j = position_of_id(old(self)@[k as int].messages, message_id, 0);
            lemma_position_of_id(old(self)@[k as int].messages, message_id, 0);
            assert(self@[k as int].messages =~= old(self)@[k as int].messages.update(
                j,
                MessageView {
                    content: content@,
                    references: scan_references(content@),
                    ..old(self)@[k as int].messages[j]
                },
            ));
            assert(self@ =~= old(self)@.update(
                k as int,
                with_content(old(self)@[k as int], j, content@),
            ));
        }
        self.map_backlinks(Backlink { oodle_id, message_id }, &references);
        true
    }
}

} // verus!
