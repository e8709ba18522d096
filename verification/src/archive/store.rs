//! Listing a recording's objects, page by page.

use super::error::{Error, ErrorView};
use super::path::{
    extend, is_path, joined, key_at, key_fault, key_path, law_a_child_is_below_its_base,
    law_path_undoes_parse, segments_prefix, track_prefix, Key, KeyView, Path,
};
use super::path::child;
use super::recover::{indexed_track, timeline_of, timeline_suffix};
use super::track::track_segment;
use crate::text::has_suffix;
use vstd::prelude::*;
use vstd::string::StringExecFns;

verus! {

/// A recording-relative object listing query.
#[derive(Debug, PartialEq, Eq)]
pub struct Query {
    prefix: Option<Path>,
    offset: Option<Path>,
    max_keys: Option<usize>,
    page_token: Option<String>,
}

/// What a [`Query`] asks for.
#[verifier::ext_equal]
pub struct QueryView {
    pub prefix: Option<Seq<char>>,
    pub offset: Option<Seq<char>>,
    pub max_keys: Option<usize>,
    pub page_token: Option<Seq<char>>,
}

/// The text of an optional path.
pub open spec fn text_of(path: Option<Path>) -> Option<Seq<char>> {
    match path {
        Some(path) => Some(path@),
        None => None,
    }
}

/// The characters of an optional string.
pub open spec fn chars(text: Option<String>) -> Option<Seq<char>> {
    match text {
        Some(text) => Some(text@),
        None => None,
    }
}

impl View for Query {
    type V = QueryView;

    closed spec fn view(&self) -> QueryView {
        QueryView {
            prefix: text_of(self.prefix),
            offset: text_of(self.offset),
            max_keys: self.max_keys,
            page_token: chars(self.page_token),
        }
    }
}

impl QueryView {
    /// Every object in the recording.
    pub open spec fn all() -> Self {
        QueryView { prefix: None, offset: None, max_keys: None, page_token: None }
    }
}

fn copy_path(path: &Option<Path>) -> (r: Option<Path>)
    ensures
        text_of(r) == text_of(*path),
{
    match path {
        Some(path) => Some(path.duplicate()),
        None => None,
    }
}

fn copy_text(text: &Option<String>) -> (r: Option<String>)
    ensures
        chars(r) == chars(*text),
{
    match text {
        Some(text) => Some(text.as_str().to_owned()),
        None => None,
    }
}

impl Query {
    /// List every object in the recording.
    pub fn new() -> (r: Self)
        ensures
            r@ == QueryView::all(),
    {
        Query { prefix: None, offset: None, max_keys: None, page_token: None }
    }

    /// Request at most this many entries per page.
    pub fn page_size(self, max_keys: usize) -> (r: Self)
        requires
            max_keys > 0,
        ensures
            r@ == (QueryView { max_keys: Some(max_keys), page_token: None, ..self@ }),
    {
        Query {
            prefix: self.prefix,
            offset: self.offset,
            max_keys: Some(max_keys),
            page_token: None,
        }
    }

    /// List every object for one track.
    pub fn track(track: &str) -> (r: Result<Self, Error>)
        ensures
            match r {
                Ok(query) => track@.len() > 0 && query@ == (QueryView {
                    prefix: Some(track_segment(track@)),
                    ..QueryView::all()
                }),
                Err(e) => track@.len() == 0 && e@ == ErrorView::Track,
            },
    {
        let root = Path::root();
        let prefix = track_prefix(&root, track)?;
        Ok(Query { prefix: Some(prefix), offset: None, max_keys: None, page_token: None })
    }

    /// List segment objects for one track.
    pub fn segments(track: &str) -> (r: Result<Self, Error>)
        ensures
            match r {
                Ok(query) => track@.len() > 0 && query@ == (QueryView {
                    prefix: Some(
                        child(child(Seq::empty(), track_segment(track@)), "segments"@),
                    ),
                    ..QueryView::all()
                }),
                Err(e) => track@.len() == 0 && e@ == ErrorView::Track,
            },
    {
        let root = Path::root();
        let prefix = segments_prefix(&root, track)?;
        Ok(Query { prefix: Some(prefix), offset: None, max_keys: None, page_token: None })
    }

    /// Start strictly after this recording object.
    pub fn after(self, key: &Key) -> (r: Result<Self, Error>)
        ensures
            match r {
                Ok(query) => key_fault(key@) is None && query@ == (QueryView {
                    offset: Some(key_path(Seq::empty(), key@)),
                    page_token: None,
                    ..self@
                }),
                Err(e) => key_fault(key@) == Some(e@),
            },
    {
        let root = Path::root();
        let offset = key.path(&root)?;
        Ok(
            Query {
                prefix: self.prefix,
                offset: Some(offset),
                max_keys: self.max_keys,
                page_token: None,
            },
        )
    }

    /// The same query, continued at a page token.
    pub fn next(&self, page_token: String) -> (r: Self)
        ensures
            r@ == (QueryView { page_token: Some(page_token@), ..self@ }),
    {
        Query {
            prefix: copy_path(&self.prefix),
            offset: copy_path(&self.offset),
            max_keys: self.max_keys,
            page_token: Some(page_token),
        }
    }
}

/// One recording object returned by a listing.
#[derive(Debug, PartialEq, Eq)]
pub struct Entry {
    /// Parsed recording key.
    pub key: Key,
    /// Object size in bytes.
    pub size: u64,
}

/// One page of recording objects.
#[derive(Debug, PartialEq, Eq)]
pub struct Page {
    /// Entries in the backend's order.
    pub entries: Vec<Entry>,
    /// The same query advanced to the next page, if any. Only paginated listing accepts it.
    pub next: Option<Query>,
}

/// An object as a backend lists it.
#[derive(Debug)]
pub struct Meta {
    /// Where the object stands.
    pub location: Path,
    /// Object size in bytes.
    pub size: u64,
}

/// What a streaming listing asks the backend for.
#[derive(Debug, PartialEq, Eq)]
pub struct Listing {
    /// List only below this path.
    pub prefix: Option<Path>,
    /// List only after this path.
    pub offset: Option<Path>,
}

/// What a paginated listing asks the backend for.
#[derive(Debug, PartialEq, Eq)]
pub struct PageRequest {
    /// List only objects whose path starts with this.
    pub prefix: Option<String>,
    /// List only objects whose path comes after this.
    pub offset: Option<String>,
    /// At most this many entries.
    pub max_keys: Option<usize>,
    /// Where the previous page ended.
    pub page_token: Option<String>,
}

/// The path a listing is scoped to: the store's prefix followed by the query's, or `None` for the
/// whole store.
pub open spec fn scope(prefix: Seq<char>, relative: Option<Seq<char>>) -> Option<Seq<char>> {
    let path = match relative {
        Some(relative) => joined(prefix, relative),
        None => prefix,
    };
    if path.len() == 0 {
        None
    } else {
        Some(path)
    }
}

/// Where a listing starts.
pub open spec fn start_after(prefix: Seq<char>, offset: Option<Seq<char>>) -> Option<Seq<char>> {
    match offset {
        Some(offset) => Some(joined(prefix, offset)),
        None => None,
    }
}

/// Whether every listed object is a recording object below `prefix`.
pub open spec fn entry_matches(prefix: Seq<char>, meta: Meta, entry: Entry) -> bool {
    key_at(prefix, meta.location@) == Ok::<KeyView, ErrorView>(entry.key@) && entry.size == meta.size
}

/// The outcome of creating an object.
#[derive(Clone, Copy, Debug, PartialEq, Eq, Structural)]
pub enum Create {
    /// It is new.
    Created,
    /// An object was already there.
    Exists,
}

/// Versioned recording objects on an object store.
#[derive(Debug)]
pub struct Store<T> {
    inner: T,
    prefix: Path,
}

impl<T> Store<T> {
    /// The recording prefix, as text.
    pub closed spec fn base(self) -> Seq<char> {
        self.prefix@
    }

    /// The underlying object store.
    pub closed spec fn backend(self) -> T {
        self.inner
    }

    /// Wrap `inner` with an application-defined recording prefix.
    pub fn new(inner: T, prefix: Path) -> (r: Self)
        ensures
            r.base() == prefix@,
            r.backend() == inner,
    {
        Store { inner, prefix }
    }

    /// The underlying object store.
    pub fn inner(&self) -> (r: &T)
        ensures
            *r == self.backend(),
    {
        &self.inner
    }

    /// The recording prefix.
    pub fn prefix(&self) -> (r: &Path)
        ensures
            r@ == self.base(),
    {
        &self.prefix
    }

    /// Encode `key` under this store's prefix.
    pub fn path(&self, key: &Key) -> (r: Result<Path, Error>)
        ensures
            match r {
                Ok(path) => key_fault(key@) is None && path@ == key_path(self.base(), key@),
                Err(e) => key_fault(key@) == Some(e@),
            },
    {
        key.path(&self.prefix)
    }

    fn recording_path(&self, relative: &Path) -> (r: Path)
        ensures
            r@ == joined(self.base(), relative@),
    {
        extend(&self.prefix, relative)
    }

    fn list_path(&self, relative: &Option<Path>) -> (r: Option<Path>)
        ensures
            text_of(r) == scope(self.base(), text_of(*relative)),
    {
        let path = match relative {
            Some(relative) => self.recording_path(relative),
            None => self.prefix.duplicate(),
        };
        if path.as_str().unicode_len() == 0 {
            None
        } else {
            Some(path)
        }
    }

    fn offset_path(&self, offset: &Option<Path>) -> (r: Option<Path>)
        ensures
            text_of(r) == start_after(self.base(), text_of(*offset)),
    {
        match offset {
            Some(offset) => Some(self.recording_path(offset)),
            None => None,
        }
    }

    /// What to ask the backend of a streaming listing. The page size is ignored, and a continuation
    /// query is refused.
    pub fn list(&self, query: &Query) -> (r: Result<Listing, Error>)
        ensures
            match r {
                Ok(listing) => {
                    &&& query@.page_token is None
                    &&& text_of(listing.prefix) == scope(self.base(), query@.prefix)
                    &&& text_of(listing.offset) == start_after(self.base(), query@.offset)
                },
                Err(e) => query@.page_token is Some && e@ == ErrorView::Pagination,
            },
    {
        if query.page_token.is_some() {
            return Err(Error::Pagination);
        }
        Ok(
            Listing {
                prefix: self.list_path(&query.prefix),
                offset: self.offset_path(&query.offset),
            },
        )
    }

    /// What to ask the backend of one page. The scope ends in a slash, so a sibling whose name
    /// starts like the recording's is not listed.
    pub fn list_paginated(&self, query: &Query) -> (r: PageRequest)
        ensures
            chars(r.prefix) == (match scope(self.base(), query@.prefix) {
                Some(path) => Some(path.push('/')),
                None => None::<Seq<char>>,
            }),
            chars(r.offset) == start_after(self.base(), query@.offset),
            r.max_keys == query@.max_keys,
            chars(r.page_token) == query@.page_token,
    {
        let prefix = match self.list_path(&query.prefix) {
            Some(path) => {
                let mut text = path.as_str().to_owned();
                text.push('/');
                Some(text)
            },
            None => None,
        };
        let offset = match self.offset_path(&query.offset) {
            Some(path) => Some(path.as_str().to_owned()),
            None => None,
        };
        PageRequest {
            prefix,
            offset,
            max_keys: query.max_keys,
            page_token: copy_text(&query.page_token),
        }
    }

    /// Parse one listed object.
    pub fn entry(&self, meta: Meta) -> (r: Result<Entry, Error>)
        ensures
            match r {
                Ok(entry) => entry_matches(self.base(), meta, entry),
                Err(e) => key_at(self.base(), meta.location@) == Err::<KeyView, ErrorView>(e@),
            },
    {
        let key = Key::parse(&self.prefix, &meta.location)?;
        Ok(Entry { key, size: meta.size })
    }

    /// Parse the objects of a listing. A directory is refused: listings are flat.
    pub fn entries(&self, directories: &Vec<Path>, objects: Vec<Meta>) -> (r: Result<
        Vec<Entry>,
        Error,
    >)
        ensures
            match r {
                Ok(entries) => {
                    &&& directories@.len() == 0
                    &&& entries@.len() == objects@.len()
                    &&& forall|i: int|
                        0 <= i < objects@.len() ==> entry_matches(
                            self.base(),
                            objects@[i],
                            #[trigger] entries@[i],
                        )
                },
                Err(e) => if directories@.len() > 0 {
                    e@ == ErrorView::Directory(directories@[0]@)
                } else {
                    exists|i: int|
                        0 <= i < objects@.len() && key_at(
                            self.base(),
                            (#[trigger] objects@[i]).location@,
                        ) == Err::<KeyView, ErrorView>(e@) && forall|j: int|
                            0 <= j < i ==> key_at(
                                self.base(),
                                (#[trigger] objects@[j]).location@,
                            ) is Ok
                },
            },
    {
        if directories.len() > 0 {
            return Err(Error::Directory(directories[0].as_str().to_owned()));
        }
        let ghost given = objects@;
        let mut entries: Vec<Entry> = Vec::new();
        let mut i: usize = 0;
        while i < objects.len()
            invariant
                given == objects@,
                directories@.len() == 0,
                0 <= i <= objects@.len(),
                entries@.len() == i,
                forall|j: int|
                    0 <= j < i ==> entry_matches(self.base(), given[j], #[trigger] entries@[j]),
            decreases objects@.len() - i,
        {
            assert forall|j: int| 0 <= j < i implies key_at(
                self.base(),
                (#[trigger] given[j]).location@,
            ) is Ok by {
                assert(entry_matches(self.base(), given[j], entries@[j]));
            }
            match Key::parse(&self.prefix, &objects[i].location) {
                Ok(key) => {
                    entries.push(Entry { key, size: objects[i].size });
                },
                Err(e) => {
                    assert(key_at(self.base(), given[i as int].location@) == Err::<
                        KeyView,
                        ErrorView,
                    >(e@));
                    return Err(e);
                },
            }
            i = i + 1;
        }
        Ok(entries)
    }

    /// Turn a backend's page into a recording page, keeping its token inside the next query.
    pub fn page(
        &self,
        query: &Query,
        directories: &Vec<Path>,
        objects: Vec<Meta>,
        page_token: Option<String>,
    ) -> (r: Result<Page, Error>)
        ensures
            match r {
                Ok(page) => {
                    &&& directories@.len() == 0
                    &&& page.entries@.len() == objects@.len()
                    &&& forall|i: int|
                        0 <= i < objects@.len() ==> entry_matches(
                            self.base(),
                            objects@[i],
                            #[trigger] page.entries@[i],
                        )
                    &&& match page_token {
                        Some(token) => page.next is Some && page.next->0@ == (QueryView {
                            page_token: Some(token@),
                            ..query@
                        }),
                        None => page.next is None,
                    }
                },
                Err(e) => if directories@.len() > 0 {
                    e@ == ErrorView::Directory(directories@[0]@)
                } else {
                    exists|i: int|
                        0 <= i < objects@.len() && key_at(
                            self.base(),
                            (#[trigger] objects@[i]).location@,
                        ) == Err::<KeyView, ErrorView>(e@) && forall|j: int|
                            0 <= j < i ==> key_at(
                                self.base(),
                                (#[trigger] objects@[j]).location@,
                            ) is Ok
                },
            },
    {
        let entries = self.entries(directories, objects)?;
        let next = match page_token {
            Some(token) => Some(query.next(token)),
            None => None,
        };
        Ok(Page { entries, next })
    }
}

/// Whether two byte strings are equal.
pub fn same_bytes(a: &Vec<u8>, b: &Vec<u8>) -> (r: bool)
    ensures
        r == (a@ == b@),
{
    if a.len() != b.len() {
        return false;
    }
    let mut i: usize = 0;
    while i < a.len()
        invariant
            a@.len() == b@.len(),
            0 <= i <= a@.len(),
            forall|j: int| 0 <= j < i ==> a@[j] == b@[j],
        decreases a@.len() - i,
    {
        if a[i] != b[i] {
            return false;
        }
        i = i + 1;
    }
    assert(a@ =~= b@);
    true
}

/// Settle a collision: an object that is already there is accepted only when its bytes match.
pub fn settle(path: &Path, existing: &Vec<u8>, intended: &Vec<u8>) -> (r: Result<(), Error>)
    ensures
        match r {
            Ok(_) => existing@ == intended@,
            Err(e) => existing@ != intended@ && e@ == ErrorView::Conflict(path@),
        },
{
    if same_bytes(existing, intended) {
        Ok(())
    } else {
        Err(Error::Conflict(path.as_str().to_owned()))
    }
}

/// The timeline a listed object announces: the track it indexes, and its own name.
pub open spec fn announces(key: KeyView) -> Option<(Seq<char>, Seq<char>)> {
    match key {
        KeyView::Info { track } if has_suffix(track, timeline_suffix()) => Some(
            (track.take(track.len() - timeline_suffix().len()), track),
        ),
        _ => None,
    }
}

/// The timelines that listed objects announce, in their order.
pub open spec fn announced(keys: Seq<KeyView>) -> Seq<(Seq<char>, Seq<char>)>
    decreases keys.len(),
{
    if keys.len() == 0 {
        Seq::empty()
    } else {
        match announces(keys.last()) {
            Some(pair) => announced(keys.drop_last()).push(pair),
            None => announced(keys.drop_last()),
        }
    }
}

/// Each recorded track with its timeline track, found among the listed `.info` objects.
pub fn timelines(entries: &Vec<Entry>) -> (r: Vec<(String, String)>)
    ensures
        Seq::new(r@.len(), |i: int| (r@[i].0@, r@[i].1@)) == announced(
            Seq::new(entries@.len(), |i: int| entries@[i].key@),
        ),
{
    let ghost keys = Seq::new(entries@.len(), |i: int| entries@[i].key@);
    let mut found: Vec<(String, String)> = Vec::new();
    let mut i: usize = 0;
    assert(Seq::new(found@.len(), |j: int| (found@[j].0@, found@[j].1@)) =~= announced(
        keys.take(0),
    ));
    while i < entries.len()
        invariant
            keys == Seq::new(entries@.len(), |i: int| entries@[i].key@),
            0 <= i <= entries@.len(),
            Seq::new(found@.len(), |j: int| (found@[j].0@, found@[j].1@)) == announced(
                keys.take(i as int),
            ),
        decreases entries@.len() - i,
    {
        let ghost before = Seq::new(found@.len(), |j: int| (found@[j].0@, found@[j].1@));
        assert(keys.take(i + 1).drop_last() =~= keys.take(i as int));
        assert(keys.take(i + 1).last() == entries@[i as int].key@);
        if let Key::Info { track } = &entries[i].key {
            if let Some(indexed) = indexed_track(track.as_str()) {
                assert(indexed@ =~= track@.take(track@.len() - timeline_suffix().len()));
                found.push((indexed, track.as_str().to_owned()));
                assert(Seq::new(found@.len(), |j: int| (found@[j].0@, found@[j].1@)) =~= before.push(
                    (found@.last().0@, found@.last().1@),
                ));
            }
        }
        i = i + 1;
    }
    assert(keys.take(i as int) =~= keys);
    found
}

/// A listing looks below the recording's prefix, and one that asks for more looks below that part of
/// it. Without either it looks everywhere. It starts after an offset below the same prefix.
pub proof fn law_listings_stay_below_the_prefix(prefix: Seq<char>, relative: Seq<char>)
    requires
        relative.len() > 0,
    ensures
        prefix.len() > 0 ==> scope(prefix, None) == Some(prefix),
        prefix.len() == 0 ==> scope(prefix, None) is None,
        prefix.len() > 0 ==> scope(prefix, Some(relative)) == Some(
            prefix + seq!['/'] + relative,
        ),
        prefix.len() == 0 ==> scope(prefix, Some(relative)) == Some(relative),
        start_after(prefix, None) is None,
        prefix.len() > 0 ==> start_after(prefix, Some(relative)) == Some(
            prefix + seq!['/'] + relative,
        ),
        prefix.len() == 0 ==> start_after(prefix, Some(relative)) == Some(relative),
{
    law_a_child_is_below_its_base(prefix, relative);
}

/// The `.info` of a track whose name ends with the timeline suffix announces the track that the rest
/// of the name gives, and no other object announces any. What objects announce is listed in their
/// order.
pub proof fn law_timelines_announce_their_tracks(
    front: Seq<KeyView>,
    key: KeyView,
    back: Seq<KeyView>,
)
    ensures
        announced(front + back) == announced(front) + announced(back),
        announced(seq![key]).len() <= 1,
        forall|track: Seq<char>|
            announced(seq![key]) == seq![(track, #[trigger] timeline_of(track))] <==> key == (
            KeyView::Info { track: timeline_of(track) }),
        announced(seq![key]).len() == 1 ==> exists|track: Seq<char>|
            key == (KeyView::Info { track: #[trigger] timeline_of(track) }),
    decreases back.len(),
{
    reveal_with_fuel(announced, 2);
    let one = seq![key];
    assert(one.drop_last() =~= Seq::empty());
    assert(one.last() == key);
    assert(announced(one).len() <= 1);
    let n = timeline_suffix().len() as int;
    match announces(key) {
        Some(pair) => {
            assert(announced(one) =~= seq![pair]);
            assert(timeline_of(pair.0) =~= pair.1);
        },
        None => {
            assert(announced(one) =~= Seq::empty());
        },
    }
    assert forall|track: Seq<char>|
        announced(one) == seq![(track, #[trigger] timeline_of(track))] <==> key == (KeyView::Info {
            track: timeline_of(track),
        }) by {
        let name = timeline_of(track);
        assert(name.skip(name.len() - n) =~= timeline_suffix());
        assert(name.take(name.len() - n) =~= track);
        if announced(one) == seq![(track, name)] {
            assert(announced(one)[0] == (track, name));
        }
    }
    if back.len() == 0 {
        assert(front + back =~= front);
        assert(announced(front) + Seq::<(Seq<char>, Seq<char>)>::empty() =~= announced(front));
    } else {
        let init = back.drop_last();
        law_timelines_announce_their_tracks(front, key, init);
        assert((front + back).drop_last() =~= front + init);
        assert((front + back).last() == back.last());
        if let Some(pair) = announces(back.last()) {
            assert((announced(front) + announced(init)).push(pair) =~= announced(front)
                + announced(init).push(pair));
        }
    }
}

/// An object is listed with the size that the store gave, under the key whose path it stands at.
pub proof fn law_entries_keep_size_and_place(prefix: Seq<char>, meta: Meta, entry: Entry)
    requires
        is_path(prefix),
        is_path(meta.location@),
        entry_matches(prefix, meta, entry),
    ensures
        entry.size == meta.size,
        key_path(prefix, entry.key@) == meta.location@,
{
    law_path_undoes_parse(prefix, meta.location@);
}

} // verus!
