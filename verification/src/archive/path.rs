//! The keys of a recording's objects, and the paths they are stored at.

use super::error::{Error, ErrorView};
use super::id::{
    check_id, format_id, id_field, id_in_range, law_format_undoes_parse, law_ids_sort_as_numbers,
    law_parse_undoes_format, parse_id, ID_WIDTH,
};
use super::track::{
    decode_track, encode_track, law_segment_decodes, law_segment_is_a_part, track_segment,
};
use crate::text::{
    chars_of, lemma_sorts_below, lemma_sorts_longer, padded, sorts_before, string_of,
};
use vstd::prelude::*;
use vstd::string::StringExecFns;

verus! {

/// The pieces of `s` between its slashes: one more than there are slashes.
pub open spec fn pieces(s: Seq<char>) -> Seq<Seq<char>>
    decreases s.len(),
{
    if s.len() == 0 {
        seq![Seq::empty()]
    } else if s.last() == '/' {
        pieces(s.drop_last()).push(Seq::empty())
    } else {
        let init = pieces(s.drop_last());
        init.drop_last().push(init.last().push(s.last()))
    }
}

/// Whether `s` can stand between two slashes of a path: it is not `.` or `..`, and holds no slash
/// and no ASCII control character.
pub open spec fn is_part(s: Seq<char>) -> bool {
    &&& s != seq!['.']
    &&& s != seq!['.', '.']
    &&& forall|i: int|
        0 <= i < s.len() ==> (#[trigger] s[i]) != '/' && 0x20 <= s[i] as int && s[i] as int != 0x7f
}

/// Whether `s` is a store path: empty, or parts joined by single slashes.
pub open spec fn is_path(s: Seq<char>) -> bool {
    s.len() == 0 || forall|i: int|
        0 <= i < pieces(s).len() ==> (#[trigger] pieces(s)[i]).len() > 0 && is_part(pieces(s)[i])
}

/// The path one part below `base`.
pub open spec fn child(base: Seq<char>, part: Seq<char>) -> Seq<char> {
    if base.len() == 0 {
        part
    } else {
        base.push('/') + part
    }
}

/// The parts of `s`, leaving out an empty last piece.
pub open spec fn parts(s: Seq<char>) -> Seq<Seq<char>> {
    if pieces(s).last().len() == 0 {
        pieces(s).drop_last()
    } else {
        pieces(s)
    }
}

/// What is left of `location` below `prefix`, or `None` where it is not below it.
pub open spec fn below(prefix: Seq<char>, location: Seq<char>) -> Option<Seq<char>> {
    if !prefix.is_prefix_of(location) {
        None
    } else {
        let rest = location.skip(prefix.len() as int);
        if rest.len() == 0 || prefix.len() == 0 {
            Some(rest)
        } else if rest[0] == '/' {
            Some(rest.skip(1))
        } else {
            None
        }
    }
}

/// What an `object_store` path keeps of the text it is read from: all but one leading and one
/// trailing slash.
pub open spec fn trimmed(s: Seq<char>) -> Seq<char> {
    let tail = if s.len() > 0 && s[0] == '/' {
        s.skip(1)
    } else {
        s
    };
    if tail.len() > 0 && tail.last() == '/' {
        tail.drop_last()
    } else {
        tail
    }
}

/// `object_store::path::Path::parse`: the path without one leading and one trailing slash, or
/// `None` where a segment is empty, relative or holds a control character. A lone slash is the
/// empty path; two are not.
#[verifier::external_body]
fn parse_path(path: &str) -> (r: Option<String>)
    ensures
        match r {
            Some(raw) => raw@ == trimmed(path@) && is_path(trimmed(path@)) && path@ != seq!['/', '/'],
            None => !is_path(trimmed(path@)) || path@ == seq!['/', '/'],
        },
{
    match object_store::path::Path::parse(path) {
        Ok(path) => Some(path.to_string()),
        Err(_) => None,
    }
}

/// `object_store::path::Path::join` of a checked part: the part alone under the empty path, else
/// the two with a slash between them.
#[verifier::external_body]
fn join_part(base: &str, part: &str) -> (r: String)
    requires
        is_path(base@),
        is_part(part@),
        part@.len() > 0,
    ensures
        r@ == child(base@, part@),
{
    let base = object_store::path::Path::parse(base).unwrap_or_default();
    let part = object_store::path::PathPart::parse(part).unwrap_or_default();
    base.join(part).to_string()
}

/// `object_store::path::Path::prefix_match`: the parts of `location` after `prefix`, or `None`
/// where `prefix` does not lead to it.
#[verifier::external_body]
fn parts_below(prefix: &str, location: &str) -> (r: Option<Vec<String>>)
    requires
        is_path(prefix@),
        is_path(location@),
    ensures
        match r {
            Some(found) => below(prefix@, location@) is Some && Seq::new(
                found@.len(),
                |i: int| found@[i]@,
            ) == parts(below(prefix@, location@)->0),
            None => below(prefix@, location@) is None,
        },
{
    let prefix = object_store::path::Path::parse(prefix).ok()?;
    let location = object_store::path::Path::parse(location).ok()?;
    let parts = location.prefix_match(&prefix)?;
    Some(parts.map(|part| part.as_ref().to_string()).collect())
}

/// The path `relative` leads to from `base`.
pub open spec fn joined(base: Seq<char>, relative: Seq<char>) -> Seq<char> {
    if relative.len() == 0 {
        base
    } else {
        child(base, relative)
    }
}

/// `object_store::path::Path::extend` with every part of another path: `base`, followed by a slash
/// and `relative` where neither is empty.
#[verifier::external_body]
fn extend_path(base: &str, relative: &str) -> (r: String)
    requires
        is_path(base@),
        is_path(relative@),
    ensures
        r@ == joined(base@, relative@),
{
    let mut base = object_store::path::Path::parse(base).unwrap_or_default();
    let relative = object_store::path::Path::parse(relative).unwrap_or_default();
    base.extend(relative.parts());
    base.to_string()
}

/// Where an object stands in a store: parts joined by slashes, none of them empty or relative.
#[derive(Debug, PartialEq, Eq)]
pub struct Path {
    raw: String,
}

impl View for Path {
    type V = Seq<char>;

    closed spec fn view(&self) -> Seq<char> {
        self.raw@
    }
}

impl Path {
    #[verifier::type_invariant]
    spec fn well_formed(self) -> bool {
        is_path(self.raw@)
    }

    /// The root of the store.
    pub fn root() -> (r: Self)
        ensures
            r@ == Seq::<char>::empty(),
    {
        Path { raw: String::new() }
    }

    /// Read a path, leaving out one leading and one trailing slash.
    pub fn parse(path: &str) -> (r: Result<Self, Error>)
        ensures
            match r {
                Ok(p) => p@ == trimmed(path@) && is_path(trimmed(path@)) && path@ != seq!['/', '/'],
                Err(e) => (!is_path(trimmed(path@)) || path@ == seq!['/', '/']) && e@
                    == ErrorView::Path(path@),
            },
    {
        match parse_path(path) {
            Some(raw) => Ok(Path { raw }),
            None => Err(Error::Path(path.to_owned())),
        }
    }

    /// The path as text.
    pub fn as_str(&self) -> (r: &str)
        ensures
            r@ == self@,
            is_path(r@),
    {
        proof {
            use_type_invariant(self);
        }
        self.raw.as_str()
    }

    /// The same path again.
    pub fn duplicate(&self) -> (r: Self)
        ensures
            r@ == self@,
    {
        proof {
            use_type_invariant(self);
        }
        Path { raw: self.raw.clone() }
    }
}

proof fn lemma_pieces_of_part(part: Seq<char>)
    requires
        is_part(part),
    ensures
        pieces(part) == seq![part],
    decreases part.len(),
{
    if part.len() > 0 {
        let init = part.drop_last();
        assert(part[part.len() - 1] != '/');
        lemma_pieces_of_plain(init);
        assert(init.push(part.last()) =~= part);
        assert(pieces(part) =~= seq![part]);
    } else {
        assert(part =~= Seq::empty());
    }
}

proof fn lemma_pieces_of_plain(s: Seq<char>)
    requires
        forall|i: int| 0 <= i < s.len() ==> s[i] != '/',
    ensures
        pieces(s) == seq![s],
    decreases s.len(),
{
    if s.len() > 0 {
        let init = s.drop_last();
        assert(s[s.len() - 1] != '/');
        assert forall|i: int| 0 <= i < init.len() implies init[i] != '/' by {
            assert(init[i] == s[i]);
        }
        lemma_pieces_of_plain(init);
        assert(init.push(s.last()) =~= s);
        assert(pieces(s) =~= seq![s]);
    } else {
        assert(s =~= Seq::empty());
    }
}

proof fn lemma_pieces_of_child(base: Seq<char>, part: Seq<char>)
    requires
        forall|i: int| 0 <= i < part.len() ==> part[i] != '/',
    ensures
        pieces(base.push('/') + part) == pieces(base).push(part),
    decreases part.len(),
{
    let s = base.push('/') + part;
    if part.len() == 0 {
        assert(s =~= base.push('/'));
        assert(s.drop_last() =~= base);
        assert(part =~= Seq::empty());
    } else {
        let init = part.drop_last();
        assert(part[part.len() - 1] != '/');
        assert forall|i: int| 0 <= i < init.len() implies init[i] != '/' by {
            assert(init[i] == part[i]);
        }
        lemma_pieces_of_child(base, init);
        assert(s.drop_last() =~= base.push('/') + init);
        assert(init.push(part.last()) =~= part);
        let before = pieces(base).push(init);
        assert(before.drop_last() =~= pieces(base));
    }
}

proof fn lemma_pieces_of_joined(base: Seq<char>, relative: Seq<char>)
    ensures
        pieces(base.push('/') + relative) == pieces(base) + pieces(relative),
    decreases relative.len(),
{
    let s = base.push('/') + relative;
    if relative.len() == 0 {
        assert(s =~= base.push('/'));
        assert(s.drop_last() =~= base);
        assert(pieces(s) =~= pieces(base) + pieces(relative));
    } else {
        let init = relative.drop_last();
        lemma_pieces_of_joined(base, init);
        lemma_pieces_nonempty(init);
        assert(s.drop_last() =~= base.push('/') + init);
        let before = pieces(base) + pieces(init);
        assert(before.drop_last() =~= pieces(base) + pieces(init).drop_last());
        assert(pieces(s) =~= pieces(base) + pieces(relative));
    }
}

proof fn lemma_pieces_nonempty(s: Seq<char>)
    ensures
        pieces(s).len() > 0,
    decreases s.len(),
{
    if s.len() > 0 {
        lemma_pieces_nonempty(s.drop_last());
    }
}

/// Paths join into paths.
proof fn lemma_joined_is_path(base: Seq<char>, relative: Seq<char>)
    requires
        is_path(base),
        is_path(relative),
    ensures
        is_path(joined(base, relative)),
{
    if relative.len() > 0 && base.len() > 0 {
        lemma_pieces_of_joined(base, relative);
        let all = pieces(base) + pieces(relative);
        assert forall|i: int| 0 <= i < all.len() implies (#[trigger] all[i]).len() > 0 && is_part(
            all[i],
        ) by {
            if i < pieces(base).len() {
                assert(all[i] == pieces(base)[i]);
            } else {
                assert(all[i] == pieces(relative)[i - pieces(base).len()]);
            }
        }
    }
}

/// The path that `relative` leads to from `base`.
pub fn extend(base: &Path, relative: &Path) -> (r: Path)
    ensures
        r@ == joined(base@, relative@),
{
    let raw = extend_path(base.as_str(), relative.as_str());
    proof {
        lemma_joined_is_path(base@, relative@);
    }
    Path { raw }
}

/// A part below a path makes a path, with that part as its last.
pub proof fn lemma_child_is_path(base: Seq<char>, part: Seq<char>)
    requires
        is_path(base),
        is_part(part),
        part.len() > 0,
    ensures
        is_path(child(base, part)),
        child(base, part).len() > 0,
        pieces(child(base, part)) == (if base.len() == 0 {
            seq![part]
        } else {
            pieces(base).push(part)
        }),
{
    if base.len() == 0 {
        lemma_pieces_of_part(part);
    } else {
        assert forall|i: int| 0 <= i < part.len() implies part[i] != '/' by {}
        lemma_pieces_of_child(base, part);
    }
}

/// Append one part to `base`.
pub fn push(base: &Path, part: &str) -> (r: Path)
    requires
        is_part(part@),
        part@.len() > 0,
    ensures
        r@ == child(base@, part@),
{
    let raw = join_part(base.as_str(), part);
    proof {
        lemma_child_is_path(base@, part@);
    }
    Path { raw }
}

/// A recording object key under an application prefix.
#[derive(Clone, Debug, PartialEq, Eq, Hash)]
#[allow(inconsistent_fields)]
pub enum Key {
    /// `<encoded-track>/.info`
    Info {
        /// The unencoded track name.
        track: String,
    },
    /// `<encoded-track>/groups/<largest>.<smallest>`
    Groups {
        /// The unencoded track name.
        track: String,
        /// Inclusive last group sequence in the object.
        largest: u64,
        /// Inclusive first group sequence in the object.
        smallest: u64,
    },
    /// `<encoded-track>/segments/<segment>`
    Segments {
        /// The unencoded track name.
        track: String,
        /// The committed timeline segment id.
        segment: u64,
    },
}

/// What a [`Key`] names.
#[verifier::ext_equal]
#[allow(inconsistent_fields)]
pub enum KeyView {
    Info { track: Seq<char> },
    Groups { track: Seq<char>, largest: u64, smallest: u64 },
    Segments { track: Seq<char>, segment: u64 },
}

impl KeyView {
    /// The unencoded track name.
    pub open spec fn name(self) -> Seq<char> {
        match self {
            KeyView::Info { track } => track,
            KeyView::Groups { track, .. } => track,
            KeyView::Segments { track, .. } => track,
        }
    }
}

impl View for Key {
    type V = KeyView;

    open spec fn view(&self) -> KeyView {
        match self {
            Key::Info { track } => KeyView::Info { track: track@ },
            Key::Groups { track, largest, smallest } => KeyView::Groups {
                track: track@,
                largest: *largest,
                smallest: *smallest,
            },
            Key::Segments { track, segment } => KeyView::Segments {
                track: track@,
                segment: *segment,
            },
        }
    }
}

/// The file name of a groups object.
pub open spec fn range_text(largest: u64, smallest: u64) -> Seq<char> {
    padded(largest as int, ID_WIDTH as nat).push('.') + padded(smallest as int, ID_WIDTH as nat)
}

/// Why a key has no path, if it has none.
pub open spec fn key_fault(key: KeyView) -> Option<ErrorView> {
    if key.name().len() == 0 {
        Some(ErrorView::Track)
    } else {
        match key {
            KeyView::Info { .. } => None,
            KeyView::Groups { largest, smallest, .. } => if !id_in_range(largest) {
                Some(ErrorView::Id(largest))
            } else if !id_in_range(smallest) {
                Some(ErrorView::Id(smallest))
            } else {
                None
            },
            KeyView::Segments { segment, .. } => if !id_in_range(segment) {
                Some(ErrorView::Id(segment))
            } else {
                None
            },
        }
    }
}

/// The path of `key` below `prefix`.
pub open spec fn key_path(prefix: Seq<char>, key: KeyView) -> Seq<char> {
    let track = child(prefix, track_segment(key.name()));
    match key {
        KeyView::Info { .. } => child(track, ".info"@),
        KeyView::Groups { largest, smallest, .. } => child(
            child(track, "groups"@),
            range_text(largest, smallest),
        ),
        KeyView::Segments { segment, .. } => child(
            child(track, "segments"@),
            padded(segment as int, ID_WIDTH as nat),
        ),
    }
}

/// The two ids that the file name of a groups object writes, or why it writes none.
pub open spec fn range_field(name: Seq<char>) -> Result<(u64, u64), ErrorView> {
    if !name.contains('.') {
        Err(ErrorView::Path(name))
    } else {
        let dot = name.index_of_first('.')->0;
        let largest = name.take(dot);
        let smallest = name.skip(dot + 1);
        if smallest.contains('.') {
            Err(ErrorView::Path(name))
        } else {
            match id_field(largest) {
                Err(e) => Err(e),
                Ok(largest) => match id_field(smallest) {
                    Err(e) => Err(e),
                    Ok(smallest) => if largest < smallest {
                        Err(ErrorView::Bounds(smallest, largest))
                    } else {
                        Ok((largest, smallest))
                    },
                },
            }
        }
    }
}

/// Whether `segment` is how some track name is written.
pub open spec fn is_track_segment(segment: Seq<char>) -> bool {
    exists|name: Seq<char>| name.len() > 0 && #[trigger] track_segment(name) == segment
}

/// The track name that `segment` writes.
pub open spec fn track_name(segment: Seq<char>) -> Seq<char> {
    choose|name: Seq<char>| name.len() > 0 && #[trigger] track_segment(name) == segment
}

/// The key that the parts of a location below a prefix name, or why they name none.
pub open spec fn key_of_parts(parts: Seq<Seq<char>>, location: Seq<char>) -> Result<
    KeyView,
    ErrorView,
> {
    if parts.len() == 0 {
        Err(ErrorView::Path(location))
    } else if !is_track_segment(parts[0]) {
        Err(ErrorView::Track)
    } else {
        let track = track_name(parts[0]);
        if parts.len() == 1 {
            Err(ErrorView::Path(location))
        } else if parts[1] == ".info"@ && parts.len() == 2 {
            Ok(KeyView::Info { track })
        } else if parts[1] == "groups"@ && parts.len() == 3 {
            match range_field(parts[2]) {
                Err(e) => Err(e),
                Ok((largest, smallest)) => Ok(KeyView::Groups { track, largest, smallest }),
            }
        } else if parts[1] == "segments"@ && parts.len() == 3 {
            match id_field(parts[2]) {
                Err(e) => Err(e),
                Ok(segment) => Ok(KeyView::Segments { track, segment }),
            }
        } else {
            Err(ErrorView::Path(location))
        }
    }
}

/// The key at `location` below `prefix`, or why there is none.
pub open spec fn key_at(prefix: Seq<char>, location: Seq<char>) -> Result<KeyView, ErrorView> {
    match below(prefix, location) {
        None => Err(ErrorView::Path(location)),
        Some(rest) => key_of_parts(parts(rest), location),
    }
}

proof fn lemma_track_is_part(name: Seq<char>)
    requires
        name.len() > 0,
    ensures
        is_part(track_segment(name)),
        track_segment(name).len() > 0,
{
    let s = track_segment(name);
    law_segment_is_a_part(name);
    if s == seq!['.'] || s == seq!['.', '.'] {
        assert(s[0] == '.');
    }
}

proof fn lemma_literals()
    ensures
        is_part(".info"@),
        is_part("groups"@),
        is_part("segments"@),
        ".info"@.len() > 0,
        "groups"@.len() > 0,
        "segments"@.len() > 0,
        ".info"@ != "groups"@,
        ".info"@ != "segments"@,
        "groups"@ != "segments"@,
{
    reveal_strlit(".info");
    reveal_strlit("groups");
    reveal_strlit("segments");
    assert(".info"@[0] == '.');
    assert("groups"@[0] == 'g');
    assert("segments"@[0] == 's');
}

proof fn lemma_id_is_part(id: u64)
    requires
        id_in_range(id),
    ensures
        is_part(padded(id as int, ID_WIDTH as nat)),
        padded(id as int, ID_WIDTH as nat).len() == ID_WIDTH,
        !padded(id as int, ID_WIDTH as nat).contains('.'),
{
    law_parse_undoes_format(id);
    let s = padded(id as int, ID_WIDTH as nat);
    assert(s.len() == ID_WIDTH);
}

proof fn lemma_range_is_part(largest: u64, smallest: u64)
    requires
        id_in_range(largest),
        id_in_range(smallest),
    ensures
        is_part(range_text(largest, smallest)),
        range_text(largest, smallest).len() > 0,
{
    lemma_id_is_part(largest);
    lemma_id_is_part(smallest);
    let a = padded(largest as int, ID_WIDTH as nat);
    let b = padded(smallest as int, ID_WIDTH as nat);
    let s = range_text(largest, smallest);
    assert forall|i: int| 0 <= i < s.len() implies (#[trigger] s[i]) != '/' && 0x20 <= s[i] as int
        && s[i] as int != 0x7f by {
        if i < a.len() {
            assert(s[i] == a[i]);
        } else if i > a.len() {
            assert(s[i] == b[i - a.len() - 1]);
        }
    }
}

/// Write a group range as the file name of a groups object.
pub fn range_name(largest: u64, smallest: u64) -> (r: Result<String, Error>)
    ensures
        match r {
            Ok(name) => id_in_range(largest) && id_in_range(smallest) && name@ == range_text(
                largest,
                smallest,
            ),
            Err(e) => e@ == (if !id_in_range(largest) {
                ErrorView::Id(largest)
            } else {
                ErrorView::Id(smallest)
            }) && !(id_in_range(largest) && id_in_range(smallest)),
        },
{
    let mut name = format_id(largest)?;
    let last = format_id(smallest)?;
    name.push('.');
    name.append(last.as_str());
    Ok(name)
}

/// Parse the file name of a groups object.
pub fn parse_range(name: &str) -> (r: Result<(u64, u64), Error>)
    ensures
        match r {
            Ok(range) => range_field(name@) == Ok::<(u64, u64), ErrorView>(range),
            Err(e) => range_field(name@) == Err::<(u64, u64), ErrorView>(e@),
        },
{
    let chars = chars_of(name);
    let mut dot: usize = 0;
    while dot < chars.len() && chars[dot] != '.'
        invariant
            0 <= dot <= chars@.len(),
            chars@ == name@,
            forall|i: int| 0 <= i < dot ==> chars@[i] != '.',
        decreases chars@.len() - dot,
    {
        dot = dot + 1;
    }
    if dot == chars.len() {
        assert(!name@.contains('.'));
        return Err(Error::Path(name.to_owned()));
    }
    proof {
        assert(name@[dot as int] == '.');
        let first = name@.index_of_first('.')->0;
        name@.index_of_first_ensures('.');
        assert(first == dot);
    }
    let ghost rest = name@.skip(dot + 1);
    let mut i: usize = dot + 1;
    while i < chars.len()
        invariant
            dot + 1 <= i <= chars@.len(),
            chars@ == name@,
            rest == name@.skip(dot + 1),
            name@.contains('.'),
            name@.index_of_first('.') == Some(dot as int),
            forall|j: int| dot < j < i ==> chars@[j] != '.',
        decreases chars@.len() - i,
    {
        if chars[i] == '.' {
            assert(rest[i - dot - 1] == '.');
            return Err(Error::Path(name.to_owned()));
        }
        i = i + 1;
    }
    assert(!rest.contains('.')) by {
        if rest.contains('.') {
            let j = choose|j: int| 0 <= j < rest.len() && rest[j] == '.';
            assert(chars@[dot + 1 + j] == '.');
        }
    }
    let first = string_of(&chars, 0, dot);
    let last = string_of(&chars, dot + 1, chars.len());
    assert(first@ =~= name@.take(dot as int));
    assert(last@ =~= rest);
    let largest: u64 = parse_id(first.as_str())?;
    let smallest: u64 = parse_id(last.as_str())?;
    if largest < smallest {
        return Err(Error::Bounds { smallest, largest });
    }
    Ok((largest, smallest))
}

/// Parse the parts of a location below its prefix.
pub fn parse_parts(parts: &Vec<String>, location: &str) -> (r: Result<Key, Error>)
    ensures
        match r {
            Ok(key) => key_of_parts(Seq::new(parts@.len(), |i: int| parts@[i]@), location@) == Ok::<
                KeyView,
                ErrorView,
            >(key@),
            Err(e) => key_of_parts(Seq::new(parts@.len(), |i: int| parts@[i]@), location@) == Err::<
                KeyView,
                ErrorView,
            >(e@),
        },
{
    let ghost shown = Seq::new(parts@.len(), |i: int| parts@[i]@);
    if parts.len() == 0 {
        return Err(Error::Path(location.to_owned()));
    }
    assert(shown[0] == parts@[0]@);
    let track = decode_track(parts[0].as_str())?;
    proof {
        assert(track_segment(track@) == shown[0]);
        law_segment_decodes(track@);
        assert(track_name(shown[0]) == track@);
        lemma_literals();
    }
    if parts.len() == 1 {
        return Err(Error::Path(location.to_owned()));
    }
    assert(shown[1] == parts@[1]@);
    let kind = &parts[1];
    if *kind == ".info".to_owned() {
        if parts.len() != 2 {
            return Err(Error::Path(location.to_owned()));
        }
        return Ok(Key::Info { track });
    }
    if *kind == "groups".to_owned() {
        if parts.len() != 3 {
            return Err(Error::Path(location.to_owned()));
        }
        assert(shown[2] == parts@[2]@);
        let (largest, smallest) = parse_range(parts[2].as_str())?;
        return Ok(Key::Groups { track, largest, smallest });
    }
    if *kind == "segments".to_owned() {
        if parts.len() != 3 {
            return Err(Error::Path(location.to_owned()));
        }
        assert(shown[2] == parts@[2]@);
        let segment: u64 = parse_id(parts[2].as_str())?;
        return Ok(Key::Segments { track, segment });
    }
    Err(Error::Path(location.to_owned()))
}

impl Key {
    /// A track's `.info` object.
    pub fn info(track: String) -> (r: Result<Self, Error>)
        ensures
            match r {
                Ok(key) => track@.len() > 0 && key@ == (KeyView::Info { track: track@ }),
                Err(e) => track@.len() == 0 && e@ == ErrorView::Track,
            },
    {
        encode_track(track.as_str())?;
        Ok(Key::Info { track })
    }

    /// A range-named groups object. `largest` is the last sequence, `smallest` the first.
    pub fn groups(track: String, largest: u64, smallest: u64) -> (r: Result<Self, Error>)
        ensures
            match r {
                Ok(key) => key@ == (KeyView::Groups { track: track@, largest, smallest })
                    && key_fault(key@) is None && smallest <= largest,
                Err(e) => {
                    let key = KeyView::Groups { track: track@, largest, smallest };
                    if key_fault(key) is Some {
                        key_fault(key) == Some(e@)
                    } else {
                        largest < smallest && e@ == ErrorView::Bounds(smallest, largest)
                    }
                },
            },
    {
        encode_track(track.as_str())?;
        check_id(largest)?;
        check_id(smallest)?;
        if largest < smallest {
            return Err(Error::Bounds { smallest, largest });
        }
        Ok(Key::Groups { track, largest, smallest })
    }

    /// A timeline object at `segments/<segment>`.
    pub fn segments(track: String, segment: u64) -> (r: Result<Self, Error>)
        ensures
            match r {
                Ok(key) => key@ == (KeyView::Segments { track: track@, segment }) && key_fault(key@)
                    is None,
                Err(e) => key_fault(KeyView::Segments { track: track@, segment }) == Some(e@),
            },
    {
        encode_track(track.as_str())?;
        check_id(segment)?;
        Ok(Key::Segments { track, segment })
    }

    /// The unencoded track name this key belongs to.
    pub fn track(&self) -> (r: &str)
        ensures
            r@ == self@.name(),
    {
        match self {
            Key::Info { track } => track.as_str(),
            Key::Groups { track, .. } => track.as_str(),
            Key::Segments { track, .. } => track.as_str(),
        }
    }

    /// Encode this key under `prefix`.
    pub fn path(&self, prefix: &Path) -> (r: Result<Path, Error>)
        ensures
            match r {
                Ok(path) => key_fault(self@) is None && path@ == key_path(prefix@, self@),
                Err(e) => key_fault(self@) == Some(e@),
            },
    {
        let encoded = encode_track(self.track())?;
        proof {
            lemma_track_is_part(self@.name());
            lemma_literals();
        }
        let path = push(prefix, encoded.as_str());
        match self {
            Key::Info { .. } => Ok(push(&path, ".info")),
            Key::Groups { largest, smallest, .. } => {
                let path = push(&path, "groups");
                let name = range_name(*largest, *smallest)?;
                proof {
                    lemma_range_is_part(*largest, *smallest);
                }
                Ok(push(&path, name.as_str()))
            },
            Key::Segments { segment, .. } => {
                let path = push(&path, "segments");
                let name = format_id(*segment)?;
                proof {
                    lemma_id_is_part(*segment);
                }
                Ok(push(&path, name.as_str()))
            },
        }
    }

    /// Parse a store location relative to `prefix`.
    pub fn parse(prefix: &Path, location: &Path) -> (r: Result<Self, Error>)
        ensures
            match r {
                Ok(key) => key_at(prefix@, location@) == Ok::<KeyView, ErrorView>(key@),
                Err(e) => key_at(prefix@, location@) == Err::<KeyView, ErrorView>(e@),
            },
    {
        match parts_below(prefix.as_str(), location.as_str()) {
            None => Err(Error::Path(location.as_str().to_owned())),
            Some(parts) => parse_parts(&parts, location.as_str()),
        }
    }
}

/// `<prefix>/<encoded-track>`
pub fn track_prefix(prefix: &Path, track: &str) -> (r: Result<Path, Error>)
    ensures
        match r {
            Ok(path) => track@.len() > 0 && path@ == child(prefix@, track_segment(track@)),
            Err(e) => track@.len() == 0 && e@ == ErrorView::Track,
        },
{
    let encoded = encode_track(track)?;
    proof {
        lemma_track_is_part(track@);
    }
    Ok(push(prefix, encoded.as_str()))
}

/// `<prefix>/<encoded-track>/groups`
pub fn groups_prefix(prefix: &Path, track: &str) -> (r: Result<Path, Error>)
    ensures
        match r {
            Ok(path) => track@.len() > 0 && path@ == child(
                child(prefix@, track_segment(track@)),
                "groups"@,
            ),
            Err(e) => track@.len() == 0 && e@ == ErrorView::Track,
        },
{
    let path = track_prefix(prefix, track)?;
    proof {
        lemma_literals();
    }
    Ok(push(&path, "groups"))
}

/// `<prefix>/<encoded-track>/segments`
pub fn segments_prefix(prefix: &Path, track: &str) -> (r: Result<Path, Error>)
    ensures
        match r {
            Ok(path) => track@.len() > 0 && path@ == child(
                child(prefix@, track_segment(track@)),
                "segments"@,
            ),
            Err(e) => track@.len() == 0 && e@ == ErrorView::Track,
        },
{
    let path = track_prefix(prefix, track)?;
    proof {
        lemma_literals();
    }
    Ok(push(&path, "segments"))
}

/// Where a listing for a fetch of `group` starts: behind `groups/<group>`.
pub open spec fn offset_path(prefix: Seq<char>, track: Seq<char>, group: u64) -> Seq<char> {
    child(child(child(prefix, track_segment(track)), "groups"@), padded(group as int, ID_WIDTH as nat))
}

/// Exclusive listing offset `groups/<group>` (19 digits, no dot) for a fetch of `group`.
pub fn groups_offset(prefix: &Path, track: &str, group: u64) -> (r: Result<Path, Error>)
    ensures
        match r {
            Ok(path) => track@.len() > 0 && id_in_range(group) && path@ == offset_path(
                prefix@,
                track@,
                group,
            ),
            Err(e) => if track@.len() == 0 {
                e@ == ErrorView::Track
            } else {
                !id_in_range(group) && e@ == ErrorView::Id(group)
            },
        },
{
    let path = groups_prefix(prefix, track)?;
    let name = format_id(group)?;
    proof {
        lemma_id_is_part(group);
    }
    Ok(push(&path, name.as_str()))
}

/// What `child` puts below a prefix is found below it again.
proof fn lemma_below_child(prefix: Seq<char>, rel: Seq<char>)
    requires
        rel.len() > 0,
    ensures
        below(prefix, child(prefix, rel)) == Some(rel),
{
    let location = child(prefix, rel);
    if prefix.len() == 0 {
        assert(prefix =~= Seq::empty());
        assert(location.skip(0) =~= rel);
    } else {
        let rest = location.skip(prefix.len() as int);
        assert(prefix.is_prefix_of(location)) by {
            assert(location.subrange(0, prefix.len() as int) =~= prefix);
        }
        assert(rest =~= seq!['/'] + rel);
        assert(rest.skip(1) =~= rel);
    }
}

proof fn lemma_child_nests(prefix: Seq<char>, a: Seq<char>, b: Seq<char>)
    requires
        a.len() > 0,
    ensures
        child(child(prefix, a), b) == child(prefix, child(a, b)),
{
    if prefix.len() > 0 {
        assert((prefix.push('/') + a).push('/') + b =~= prefix.push('/') + (a.push('/') + b));
    }
}

proof fn lemma_range_field(largest: u64, smallest: u64)
    requires
        id_in_range(largest),
        smallest <= largest,
    ensures
        range_field(range_text(largest, smallest)) == Ok::<(u64, u64), ErrorView>(
            (largest, smallest),
        ),
{
    let a = padded(largest as int, ID_WIDTH as nat);
    let b = padded(smallest as int, ID_WIDTH as nat);
    let s = range_text(largest, smallest);
    lemma_id_is_part(largest);
    lemma_id_is_part(smallest);
    law_parse_undoes_format(largest);
    law_parse_undoes_format(smallest);
    let n = a.len() as int;
    assert(s[n] == '.');
    s.index_of_first_ensures('.');
    let dot = s.index_of_first('.')->0;
    if dot < n {
        assert(s[dot] == a[dot]);
        assert(a.contains('.'));
    }
    assert(dot == n);
    assert(s.take(n) =~= a);
    assert(s.skip(n + 1) =~= b);
}

/// A key's path below a prefix is its path below the root, taken from the prefix.
pub proof fn law_path_is_relative(prefix: Seq<char>, key: KeyView)
    requires
        key_fault(key) is None,
    ensures
        key_path(prefix, key) == joined(prefix, key_path(Seq::empty(), key)),
{
    let seg = track_segment(key.name());
    lemma_track_is_part(key.name());
    lemma_literals();
    let root = Seq::<char>::empty();
    assert(child(root, seg) == seg);
    match key {
        KeyView::Info { .. } => {
            lemma_child_nests(prefix, seg, ".info"@);
        },
        KeyView::Groups { largest, smallest, .. } => {
            let mid = child(seg, "groups"@);
            lemma_child_nests(prefix, seg, "groups"@);
            lemma_child_nests(prefix, mid, range_text(largest, smallest));
        },
        KeyView::Segments { segment, .. } => {
            let mid = child(seg, "segments"@);
            lemma_child_nests(prefix, seg, "segments"@);
            lemma_child_nests(prefix, mid, padded(segment as int, ID_WIDTH as nat));
        },
    }
}

/// Parsing the path of a key gives the key back, under every prefix.
pub proof fn law_parse_undoes_path(prefix: Seq<char>, key: KeyView)
    requires
        key_fault(key) is None,
        key matches KeyView::Groups { largest, smallest, .. } ==> smallest <= largest,
    ensures
        key_at(prefix, key_path(prefix, key)) == Ok::<KeyView, ErrorView>(key),
{
    let seg = track_segment(key.name());
    lemma_track_is_part(key.name());
    lemma_literals();
    law_segment_decodes(key.name());
    assert(is_track_segment(seg));
    assert(track_name(seg) == key.name());
    lemma_pieces_of_part(seg);
    match key {
        KeyView::Info { track } => {
            let rel = child(seg, ".info"@);
            lemma_child_nests(prefix, seg, ".info"@);
            lemma_below_child(prefix, rel);
            lemma_pieces_of_child(seg, ".info"@);
            assert(pieces(rel) =~= seq![seg, ".info"@]);
        },
        KeyView::Groups { track, largest, smallest } => {
            let name = range_text(largest, smallest);
            lemma_range_is_part(largest, smallest);
            let mid = child(seg, "groups"@);
            let rel = child(mid, name);
            lemma_child_nests(prefix, seg, "groups"@);
            lemma_child_nests(prefix, mid, name);
            lemma_below_child(prefix, rel);
            lemma_pieces_of_child(seg, "groups"@);
            lemma_pieces_of_child(mid, name);
            assert(pieces(rel) =~= seq![seg, "groups"@, name]);
            lemma_range_field(largest, smallest);
        },
        KeyView::Segments { track, segment } => {
            let name = padded(segment as int, ID_WIDTH as nat);
            lemma_id_is_part(segment);
            let mid = child(seg, "segments"@);
            let rel = child(mid, name);
            lemma_child_nests(prefix, seg, "segments"@);
            lemma_child_nests(prefix, mid, name);
            lemma_below_child(prefix, rel);
            lemma_pieces_of_child(seg, "segments"@);
            lemma_pieces_of_child(mid, name);
            assert(pieces(rel) =~= seq![seg, "segments"@, name]);
            law_parse_undoes_format(segment);
        },
    }
}

/// A parsed range name is the name of its bounds.
pub proof fn law_range_name_undoes_parse(name: Seq<char>)
    requires
        range_field(name) is Ok,
    ensures
        ({
            let (largest, smallest) = range_field(name)->Ok_0;
            &&& id_in_range(largest)
            &&& smallest <= largest
            &&& range_text(largest, smallest) == name
        }),
{
    name.index_of_first_ensures('.');
    let dot = name.index_of_first('.')->0;
    law_format_undoes_parse(name.take(dot));
    law_format_undoes_parse(name.skip(dot + 1));
    assert(name.take(dot).push('.') + name.skip(dot + 1) =~= name);
}

/// A text is determined by its pieces.
proof fn lemma_pieces_determine(s: Seq<char>, t: Seq<char>)
    requires
        pieces(s) == pieces(t),
    ensures
        s == t,
    decreases s.len(),
{
    let all = pieces(s);
    if s.len() == 0 || t.len() == 0 {
        let other = if s.len() == 0 {
            t
        } else {
            s
        };
        assert(all.len() == 1 && all.last().len() == 0);
        if other.len() > 0 {
            lemma_pieces_nonempty(other.drop_last());
        }
        assert(s =~= t);
    } else {
        lemma_pieces_nonempty(s.drop_last());
        lemma_pieces_nonempty(t.drop_last());
        let a = pieces(s.drop_last());
        let b = pieces(t.drop_last());
        if s.last() == '/' {
            assert(all.last().len() == 0);
            assert(t.last() == '/');
            assert(all.drop_last() =~= a);
            assert(all.drop_last() =~= b);
        } else {
            assert(all.last().len() > 0);
            assert(t.last() != '/');
            assert(all.last().last() == s.last());
            assert(all.last().last() == t.last());
            assert(all.last().drop_last() =~= a.last());
            assert(all.last().drop_last() =~= b.last());
            assert(all.drop_last() =~= a.drop_last());
            assert(all.drop_last() =~= b.drop_last());
            assert(a =~= a.drop_last().push(a.last()));
            assert(b =~= b.drop_last().push(b.last()));
        }
        lemma_pieces_determine(s.drop_last(), t.drop_last());
        assert(s =~= s.drop_last().push(s.last()));
        assert(t =~= t.drop_last().push(t.last()));
    }
}

/// What is below a prefix leads to its location again, and is itself a path.
proof fn lemma_below_leads_back(prefix: Seq<char>, location: Seq<char>)
    requires
        is_path(location),
        below(prefix, location) is Some,
        below(prefix, location)->0.len() > 0,
    ensures
        child(prefix, below(prefix, location)->0) == location,
        is_path(below(prefix, location)->0),
{
    let rest = below(prefix, location)->0;
    let tail = location.skip(prefix.len() as int);
    assert(location =~= prefix + tail) by {
        assert(location.subrange(0, prefix.len() as int) =~= prefix);
    }
    if prefix.len() == 0 {
        assert(location =~= rest);
    } else {
        assert(tail =~= seq!['/'] + rest);
        assert(prefix + tail =~= prefix.push('/') + rest);
        lemma_pieces_of_joined(prefix, rest);
        assert forall|i: int| 0 <= i < pieces(rest).len() implies (#[trigger] pieces(rest)[i]).len()
            > 0 && is_part(pieces(rest)[i]) by {
            assert(pieces(location)[pieces(prefix).len() + i] == pieces(rest)[i]);
        }
    }
}

/// A parsed location is the path of its key, so each key has one location.
pub proof fn law_path_undoes_parse(prefix: Seq<char>, location: Seq<char>)
    requires
        is_path(location),
        key_at(prefix, location) is Ok,
    ensures
        key_fault(key_at(prefix, location)->Ok_0) is None,
        key_path(prefix, key_at(prefix, location)->Ok_0) == location,
{
    let key = key_at(prefix, location)->Ok_0;
    let rest = below(prefix, location)->0;
    if rest.len() == 0 {
        assert(pieces(rest) =~= seq![Seq::empty()]);
        assert(parts(rest).len() == 0);
    }
    lemma_below_leads_back(prefix, location);
    lemma_pieces_nonempty(rest);
    assert(pieces(rest)[pieces(rest).len() - 1].len() > 0);
    let all = parts(rest);
    assert(all == pieces(rest));
    let seg = all[0];
    assert(track_segment(key.name()) == seg);
    lemma_track_is_part(key.name());
    lemma_literals();
    lemma_pieces_of_part(seg);
    match key {
        KeyView::Info { .. } => {
            let rel = child(seg, ".info"@);
            lemma_child_nests(prefix, seg, ".info"@);
            lemma_pieces_of_child(seg, ".info"@);
            assert(pieces(rel) =~= all);
            lemma_pieces_determine(rel, rest);
        },
        KeyView::Groups { largest, smallest, .. } => {
            let name = all[2];
            law_range_name_undoes_parse(name);
            lemma_range_is_part(largest, smallest);
            let mid = child(seg, "groups"@);
            let rel = child(mid, name);
            lemma_child_nests(prefix, seg, "groups"@);
            lemma_child_nests(prefix, mid, name);
            lemma_pieces_of_child(seg, "groups"@);
            lemma_pieces_of_child(mid, name);
            assert(pieces(rel) =~= all);
            lemma_pieces_determine(rel, rest);
        },
        KeyView::Segments { segment, .. } => {
            let name = all[2];
            law_format_undoes_parse(name);
            lemma_id_is_part(segment);
            let mid = child(seg, "segments"@);
            let rel = child(mid, name);
            lemma_child_nests(prefix, seg, "segments"@);
            lemma_child_nests(prefix, mid, name);
            lemma_pieces_of_child(seg, "segments"@);
            lemma_pieces_of_child(mid, name);
            assert(pieces(rel) =~= all);
            lemma_pieces_determine(rel, rest);
        },
    }
}

/// The listing offset of a group sorts before exactly the group objects that reach the group: those
/// whose last group is not before it.
pub proof fn law_offset_precedes_what_reaches_it(
    prefix: Seq<char>,
    track: Seq<char>,
    group: u64,
    largest: u64,
    smallest: u64,
)
    requires
        track.len() > 0,
        id_in_range(group),
        id_in_range(largest),
        id_in_range(smallest),
    ensures
        sorts_before(
            offset_path(prefix, track, group),
            key_path(prefix, KeyView::Groups { track, largest, smallest }),
        ) <==> group <= largest,
{
    let folder = child(child(prefix, track_segment(track)), "groups"@);
    let a = padded(group as int, ID_WIDTH as nat);
    let b = padded(largest as int, ID_WIDTH as nat);
    let more = seq!['.'] + padded(smallest as int, ID_WIDTH as nat);
    lemma_literals();
    lemma_id_is_part(group);
    lemma_id_is_part(largest);
    assert(range_text(largest, smallest) =~= b + more);
    lemma_sorts_below(folder.push('/'), a, b + more);
    lemma_sorts_longer(a, b, more);
    law_ids_sort_as_numbers(group, largest);
    if a == b {
        law_parse_undoes_format(group);
        law_parse_undoes_format(largest);
    }
}

/// Below the root, a track's `.info` is kept beside its `groups` and `segments`. A groups object is
/// named by its last group, a dot and its first, and a segment by its number, each of 19 digits.
pub proof fn law_objects_are_kept_below_their_track(
    track: Seq<char>,
    largest: u64,
    smallest: u64,
    segment: u64,
)
    requires
        track.len() > 0,
    ensures
        ({
            let at = track_segment(track);
            let root = Seq::<char>::empty();
            &&& key_path(root, KeyView::Info { track }) == at + seq!['/', '.', 'i', 'n', 'f', 'o']
            &&& key_path(root, KeyView::Groups { track, largest, smallest }) == at + seq![
                '/',
                'g',
                'r',
                'o',
                'u',
                'p',
                's',
                '/',
            ] + padded(largest as int, 19) + seq!['.'] + padded(smallest as int, 19)
            &&& key_path(root, KeyView::Segments { track, segment }) == at + seq![
                '/',
                's',
                'e',
                'g',
                'm',
                'e',
                'n',
                't',
                's',
                '/',
            ] + padded(segment as int, 19)
        }),
{
    reveal_strlit(".info");
    reveal_strlit("groups");
    reveal_strlit("segments");
    law_segment_is_a_part(track);
    let at = track_segment(track);
    let root = Seq::<char>::empty();
    assert(".info"@ =~= seq!['.', 'i', 'n', 'f', 'o']);
    assert("groups"@ =~= seq!['g', 'r', 'o', 'u', 'p', 's']);
    assert("segments"@ =~= seq!['s', 'e', 'g', 'm', 'e', 'n', 't', 's']);
    assert(key_path(root, KeyView::Info { track }) =~= at + seq!['/', '.', 'i', 'n', 'f', 'o']);
    assert(key_path(root, KeyView::Groups { track, largest, smallest }) =~= at + seq![
        '/',
        'g',
        'r',
        'o',
        'u',
        'p',
        's',
        '/',
    ] + padded(largest as int, 19) + seq!['.'] + padded(smallest as int, 19));
    assert(key_path(root, KeyView::Segments { track, segment }) =~= at + seq![
        '/',
        's',
        'e',
        'g',
        'm',
        'e',
        'n',
        't',
        's',
        '/',
    ] + padded(segment as int, 19));
}

/// A key is refused where its track has no name, or where one of its numbers is not below two to the
/// power of 53. The refusal carries that number, the last group of a range before the first.
pub proof fn law_a_key_is_refused_for_its_name_or_numbers(
    track: Seq<char>,
    largest: u64,
    smallest: u64,
    segment: u64,
)
    ensures
        track.len() == 0 ==> {
            &&& key_fault(KeyView::Info { track }) == Some(ErrorView::Track)
            &&& key_fault(KeyView::Groups { track, largest, smallest }) == Some(ErrorView::Track)
            &&& key_fault(KeyView::Segments { track, segment }) == Some(ErrorView::Track)
        },
        track.len() > 0 ==> {
            &&& key_fault(KeyView::Info { track }) is None
            &&& match key_fault(KeyView::Segments { track, segment }) {
                None => segment < 9_007_199_254_740_992,
                Some(ErrorView::Id(id)) => id == segment && id >= 9_007_199_254_740_992,
                _ => false,
            }
            &&& match key_fault(KeyView::Groups { track, largest, smallest }) {
                None => largest < 9_007_199_254_740_992 && smallest < 9_007_199_254_740_992,
                Some(ErrorView::Id(id)) => id >= 9_007_199_254_740_992 && (id == largest || id
                    == smallest && largest < 9_007_199_254_740_992),
                _ => false,
            }
        },
{
}

/// The name of a range that runs backwards is refused with its ends.
pub proof fn law_a_backward_range_is_refused(largest: u64, smallest: u64)
    requires
        smallest < 9_007_199_254_740_992,
        largest < smallest,
    ensures
        range_field(range_text(largest, smallest)) == Err::<(u64, u64), ErrorView>(
            ErrorView::Bounds(smallest, largest),
        ),
{
    let a = padded(largest as int, ID_WIDTH as nat);
    let b = padded(smallest as int, ID_WIDTH as nat);
    let s = range_text(largest, smallest);
    lemma_id_is_part(largest);
    lemma_id_is_part(smallest);
    law_parse_undoes_format(largest);
    law_parse_undoes_format(smallest);
    let n = a.len() as int;
    assert(s[n] == '.');
    s.index_of_first_ensures('.');
    let dot = s.index_of_first('.')->0;
    if dot < n {
        assert(s[dot] == a[dot]);
        assert(a.contains('.'));
    }
    assert(dot == n);
    assert(s.take(n) =~= a);
    assert(s.skip(n + 1) =~= b);
}

/// A path one part below another is the two with one slash between, or the part alone where the
/// other is the root.
pub proof fn law_a_child_is_below_its_base(base: Seq<char>, part: Seq<char>)
    ensures
        base.len() == 0 ==> child(base, part) == part,
        base.len() > 0 ==> child(base, part) == base + seq!['/'] + part,
        joined(base, Seq::empty()) == base,
        part.len() > 0 && base.len() > 0 ==> joined(base, part) == base + seq!['/'] + part,
        part.len() > 0 && base.len() == 0 ==> joined(base, part) == part,
{
    if base.len() > 0 {
        assert(base.push('/') + part =~= base + seq!['/'] + part);
    }
}

/// A listing after a group starts at a name made of the group's number alone, in the track's
/// `groups`.
pub proof fn law_an_offset_is_a_group_alone(track: Seq<char>, group: u64)
    requires
        track.len() > 0,
    ensures
        offset_path(Seq::empty(), track, group) == track_segment(track) + seq![
            '/',
            'g',
            'r',
            'o',
            'u',
            'p',
            's',
            '/',
        ] + padded(group as int, 19),
{
    reveal_strlit("groups");
    law_segment_is_a_part(track);
    assert("groups"@ =~= seq!['g', 'r', 'o', 'u', 'p', 's']);
    assert(offset_path(Seq::empty(), track, group) =~= track_segment(track) + seq![
        '/',
        'g',
        'r',
        'o',
        'u',
        'p',
        's',
        '/',
    ] + padded(group as int, 19));
}

} // verus!
