//! What can go wrong with a recording.

use crate::text::{decimal_text, has_suffix, push_decimal};
use vstd::prelude::*;
use vstd::string::StringExecFns;

verus! {

/// Everything that can go wrong while naming, framing, storing or replaying a recording.
#[derive(Clone, Debug, PartialEq, Eq)]
#[non_exhaustive]
#[allow(inconsistent_fields)]
pub enum Error {
    /// The backing object store failed.
    Store(String),
    /// No object exists at this key.
    NotFound(String),
    /// The format version is not one this library reads.
    Version(u64),
    /// A group id, segment id or frame timestamp is outside 0 through 2^53 - 1.
    Id(u64),
    /// An `.info` timescale is not in 1 through 2^53 - 1.
    Timescale(u64),
    /// An existing `.info` has a different priority.
    Priority {
        /// The priority already stored.
        existing: u8,
        /// The priority that was to be written.
        intended: u8,
    },
    /// An existing `.info` has a different timescale.
    TimescaleMismatch {
        /// The timescale already stored.
        existing: u64,
        /// The timescale that was to be written.
        intended: u64,
    },
    /// The object has no groups.
    Empty,
    /// Group sequences are not strictly ascending.
    Sequence,
    /// A group range is empty, reversed, or does not match an object's table.
    Bounds {
        /// The first group of the range.
        smallest: u64,
        /// The last group of the range.
        largest: u64,
    },
    /// A segment object does not hold exactly the frames its record names.
    Span,
    /// The binary table is truncated, overlapping, gapped or out of range.
    Table,
    /// Arithmetic overflowed while encoding or decoding.
    Overflow,
    /// The track name is empty or its encoding is not canonical.
    Track,
    /// An object path is not a recording key.
    Path(String),
    /// A backend returned a directory from the flat object listing.
    Directory(String),
    /// A pagination continuation was passed to the streaming list.
    Pagination,
    /// A create collided with different object bytes.
    Conflict(String),
    /// `.info` JSON is malformed.
    Json(String),
    /// Publishing the replayed archive failed.
    Moq(String),
    /// The track was already enrolled, or is the recording's own timeline.
    Enrolled(String),
    /// The source broadcast or one of its tracks failed.
    Source(String),
    /// The recording's timeline could not be recovered, segmented or published.
    Timeline(String),
    /// The writer stopped accepting commands.
    Closed,
}

/// What an [`Error`] says.
pub enum ErrorView {
    Store(Seq<char>),
    NotFound(Seq<char>),
    Version(u64),
    Id(u64),
    Timescale(u64),
    Priority(u8, u8),
    TimescaleMismatch(u64, u64),
    Empty,
    Sequence,
    Bounds(u64, u64),
    Span,
    Table,
    Overflow,
    Track,
    Path(Seq<char>),
    Directory(Seq<char>),
    Pagination,
    Conflict(Seq<char>),
    Json(Seq<char>),
    Moq(Seq<char>),
    Enrolled(Seq<char>),
    Source(Seq<char>),
    Timeline(Seq<char>),
    Closed,
}

impl View for Error {
    type V = ErrorView;

    open spec fn view(&self) -> ErrorView {
        match self {
            Error::Store(m) => ErrorView::Store(m@),
            Error::NotFound(m) => ErrorView::NotFound(m@),
            Error::Version(v) => ErrorView::Version(*v),
            Error::Id(id) => ErrorView::Id(*id),
            Error::Timescale(t) => ErrorView::Timescale(*t),
            Error::Priority { existing, intended } => ErrorView::Priority(*existing, *intended),
            Error::TimescaleMismatch { existing, intended } => ErrorView::TimescaleMismatch(
                *existing,
                *intended,
            ),
            Error::Empty => ErrorView::Empty,
            Error::Sequence => ErrorView::Sequence,
            Error::Bounds { smallest, largest } => ErrorView::Bounds(*smallest, *largest),
            Error::Span => ErrorView::Span,
            Error::Table => ErrorView::Table,
            Error::Overflow => ErrorView::Overflow,
            Error::Track => ErrorView::Track,
            Error::Path(m) => ErrorView::Path(m@),
            Error::Directory(m) => ErrorView::Directory(m@),
            Error::Pagination => ErrorView::Pagination,
            Error::Conflict(m) => ErrorView::Conflict(m@),
            Error::Json(m) => ErrorView::Json(m@),
            Error::Moq(m) => ErrorView::Moq(m@),
            Error::Enrolled(m) => ErrorView::Enrolled(m@),
            Error::Source(m) => ErrorView::Source(m@),
            Error::Timeline(m) => ErrorView::Timeline(m@),
            Error::Closed => ErrorView::Closed,
        }
    }
}

/// How an error reads.
pub open spec fn message(e: ErrorView) -> Seq<char> {
    match e {
        ErrorView::Store(m) => "object store: "@ + m,
        ErrorView::NotFound(m) => "not found: "@ + m,
        ErrorView::Path(m) => "invalid path: "@ + m,
        ErrorView::Directory(m) => "directory listing is unsupported: "@ + m,
        ErrorView::Conflict(m) => "conflicting object: "@ + m,
        ErrorView::Json(m) => "json: "@ + m,
        ErrorView::Moq(m) => "moq: "@ + m,
        ErrorView::Enrolled(m) => "track already enrolled: "@ + m,
        ErrorView::Source(m) => "source: "@ + m,
        ErrorView::Timeline(m) => "timeline: "@ + m,
        ErrorView::Empty => "empty object"@,
        ErrorView::Sequence => "group sequences are not strictly ascending"@,
        ErrorView::Span => "segment does not match its record"@,
        ErrorView::Table => "malformed table"@,
        ErrorView::Overflow => "overflow"@,
        ErrorView::Track => "invalid track name"@,
        ErrorView::Pagination => "continuation query requires list_paginated"@,
        ErrorView::Closed => "writer closed"@,
        ErrorView::Version(v) => "unknown version "@ + decimal_text(v as nat),
        ErrorView::Id(id) => decimal_text(id as nat) + " exceeds the recording id range"@,
        ErrorView::Timescale(t) => "timescale "@ + decimal_text(t as nat)
            + " is outside 1..=9007199254740991"@,
        ErrorView::Priority(existing, intended) => "priority "@ + decimal_text(existing as nat)
            + " does not match "@ + decimal_text(intended as nat),
        ErrorView::TimescaleMismatch(existing, intended) => "timescale "@ + decimal_text(
            existing as nat,
        ) + " does not match "@ + decimal_text(intended as nat),
        ErrorView::Bounds(smallest, largest) => "invalid or mismatched group bounds "@
            + decimal_text(smallest as nat) + "..="@ + decimal_text(largest as nat),
    }
}

impl Error {
    /// The error in words.
    pub fn message(&self) -> (r: String)
        ensures
            r@ == message(self@),
    {
        let mut text = String::new();
        match self {
            Error::Store(m) => {
                text.append("object store: ");
                text.append(m.as_str());
            },
            Error::NotFound(m) => {
                text.append("not found: ");
                text.append(m.as_str());
            },
            Error::Path(m) => {
                text.append("invalid path: ");
                text.append(m.as_str());
            },
            Error::Directory(m) => {
                text.append("directory listing is unsupported: ");
                text.append(m.as_str());
            },
            Error::Conflict(m) => {
                text.append("conflicting object: ");
                text.append(m.as_str());
            },
            Error::Json(m) => {
                text.append("json: ");
                text.append(m.as_str());
            },
            Error::Moq(m) => {
                text.append("moq: ");
                text.append(m.as_str());
            },
            Error::Enrolled(m) => {
                text.append("track already enrolled: ");
                text.append(m.as_str());
            },
            Error::Source(m) => {
                text.append("source: ");
                text.append(m.as_str());
            },
            Error::Timeline(m) => {
                text.append("timeline: ");
                text.append(m.as_str());
            },
            Error::Empty => {
                text.append("empty object");
            },
            Error::Sequence => {
                text.append("group sequences are not strictly ascending");
            },
            Error::Span => {
                text.append("segment does not match its record");
            },
            Error::Table => {
                text.append("malformed table");
            },
            Error::Overflow => {
                text.append("overflow");
            },
            Error::Track => {
                text.append("invalid track name");
            },
            Error::Pagination => {
                text.append("continuation query requires list_paginated");
            },
            Error::Closed => {
                text.append("writer closed");
            },
            Error::Version(v) => {
                text.append("unknown version ");
                push_decimal(&mut text, *v);
            },
            Error::Id(id) => {
                push_decimal(&mut text, *id);
                text.append(" exceeds the recording id range");
            },
            Error::Timescale(t) => {
                text.append("timescale ");
                push_decimal(&mut text, *t);
                text.append(" is outside 1..=9007199254740991");
            },
            Error::Priority { existing, intended } => {
                text.append("priority ");
                push_decimal(&mut text, *existing as u64);
                text.append(" does not match ");
                push_decimal(&mut text, *intended as u64);
            },
            Error::TimescaleMismatch { existing, intended } => {
                text.append("timescale ");
                push_decimal(&mut text, *existing);
                text.append(" does not match ");
                push_decimal(&mut text, *intended);
            },
            Error::Bounds { smallest, largest } => {
                text.append("invalid or mismatched group bounds ");
                push_decimal(&mut text, *smallest);
                text.append("..=");
                push_decimal(&mut text, *largest);
            },
        }
        assert(text@ =~= message(self@));
        text
    }
}

/// The words for source input that cannot be recorded.
pub open spec fn malformed_text(track: Seq<char>, sequence: u64, detail: Seq<char>) -> Seq<char> {
    "track "@ + track + " group "@ + decimal_text(sequence as nat) + ": "@ + detail
}

/// Source input of `track` that cannot be recorded.
pub fn malformed(track: &str, sequence: u64, detail: &str) -> (r: Error)
    ensures
        r@ == ErrorView::Source(malformed_text(track@, sequence, detail@)),
{
    let mut text = String::new();
    text.append("track ");
    text.append(track);
    text.append(" group ");
    push_decimal(&mut text, sequence);
    text.append(": ");
    text.append(detail);
    assert(text@ =~= malformed_text(track@, sequence, detail@));
    Error::Source(text)
}

/// The words of an error name its subject: a text stands at the end, numbers in decimal, and of two
/// values the stored or smaller one first.
pub proof fn law_messages_name_their_subject(m: Seq<char>, a: u64, b: u64, p: u8, q: u8)
    ensures
        has_suffix(message(ErrorView::Store(m)), m),
        has_suffix(message(ErrorView::NotFound(m)), m),
        has_suffix(message(ErrorView::Path(m)), m),
        has_suffix(message(ErrorView::Directory(m)), m),
        has_suffix(message(ErrorView::Conflict(m)), m),
        has_suffix(message(ErrorView::Json(m)), m),
        has_suffix(message(ErrorView::Moq(m)), m),
        has_suffix(message(ErrorView::Enrolled(m)), m),
        has_suffix(message(ErrorView::Source(m)), m),
        has_suffix(message(ErrorView::Timeline(m)), m),
        has_suffix(message(ErrorView::Version(a)), decimal_text(a as nat)),
        decimal_text(a as nat).is_prefix_of(message(ErrorView::Id(a))),
        (("timescale "@) + decimal_text(a as nat)).is_prefix_of(message(ErrorView::Timescale(a))),
        (("priority "@) + decimal_text(p as nat)).is_prefix_of(message(ErrorView::Priority(p, q))),
        has_suffix(message(ErrorView::Priority(p, q)), decimal_text(q as nat)),
        (("timescale "@) + decimal_text(a as nat)).is_prefix_of(
            message(ErrorView::TimescaleMismatch(a, b)),
        ),
        has_suffix(message(ErrorView::TimescaleMismatch(a, b)), decimal_text(b as nat)),
        has_suffix(
            message(ErrorView::Bounds(a, b)),
            decimal_text(a as nat) + "..="@ + decimal_text(b as nat),
        ),
{
    lemma_ends("object store: "@, m);
    lemma_ends("not found: "@, m);
    lemma_ends("invalid path: "@, m);
    lemma_ends("directory listing is unsupported: "@, m);
    lemma_ends("conflicting object: "@, m);
    lemma_ends("json: "@, m);
    lemma_ends("moq: "@, m);
    lemma_ends("track already enrolled: "@, m);
    lemma_ends("source: "@, m);
    lemma_ends("timeline: "@, m);
    let (x, y) = (decimal_text(a as nat), decimal_text(b as nat));
    let (v, w) = (decimal_text(p as nat), decimal_text(q as nat));
    lemma_ends("unknown version "@, x);
    lemma_ends("priority "@ + v + " does not match "@, w);
    lemma_ends("timescale "@ + x + " does not match "@, y);
    let bounds = x + "..="@ + y;
    lemma_ends("invalid or mismatched group bounds "@, bounds);
    assert("invalid or mismatched group bounds "@ + bounds =~= message(ErrorView::Bounds(a, b)));
    assert(x =~= message(ErrorView::Id(a)).take(x.len() as int));
    let t = "timescale "@ + x;
    assert(t =~= message(ErrorView::Timescale(a)).take(t.len() as int));
    assert(t =~= message(ErrorView::TimescaleMismatch(a, b)).take(t.len() as int));
    let s = "priority "@ + v;
    assert(s =~= message(ErrorView::Priority(p, q)).take(s.len() as int));
}

proof fn lemma_ends(front: Seq<char>, back: Seq<char>)
    ensures
        has_suffix(front + back, back),
{
    assert((front + back).skip(front.len() as int) =~= back);
}

} // verus!
