//! What a reader knows of one track: the spans that its timeline recorded.

use crate::archive::id::{check_id, id_in_range};
use crate::archive::timeline::{Position, Record};
use crate::text::same;
use vstd::prelude::*;

verus! {

/// One committed record: the object it names and the frames that object holds.
#[derive(Clone, Copy, Debug, PartialEq, Eq, Structural)]
pub struct Span {
    /// The record's sequence, which names its object.
    pub sequence: u64,
    /// The first frame, inclusive.
    pub start: Position,
    /// The end, exclusive.
    pub end: Position,
}

/// The span of a record, or `None` where it is empty or has an id out of range.
pub open spec fn span_of(record: Record) -> Option<Span> {
    if id_in_range(record.sequence) && id_in_range(record.start.group) && id_in_range(
        record.end.group,
    ) && record.start.lt(record.end) {
        Some(Span { sequence: record.sequence, start: record.start, end: record.end })
    } else {
        None
    }
}

/// Whether two spans share a frame.
pub open spec fn overlap(a: Span, b: Span) -> bool {
    a.start.lt(b.end) && b.start.lt(a.end)
}

/// Whether a span cannot be committed beside `spans`: it overlaps one, or reuses its sequence.
pub open spec fn collides(spans: Seq<Span>, span: Span) -> bool {
    exists|i: int|
        0 <= i < spans.len() && (overlap(#[trigger] spans[i], span) || spans[i].sequence
            == span.sequence)
}

/// Whether `spans` are sound, in order, disjoint, and each under its own sequence.
pub open spec fn well_placed(spans: Seq<Span>) -> bool {
    &&& forall|i: int|
        0 <= i < spans.len() ==> (#[trigger] spans[i]).start.lt(spans[i].end) && id_in_range(
            spans[i].start.group,
        ) && id_in_range(spans[i].end.group) && id_in_range(spans[i].sequence)
    &&& forall|i: int, j: int|
        0 <= i < j < spans.len() ==> (#[trigger] spans[i]).end.le((#[trigger] spans[j]).start)
    &&& forall|i: int, j: int|
        0 <= i < j < spans.len() ==> (#[trigger] spans[i]).sequence != (
        #[trigger] spans[j]).sequence
}

/// How many of `spans` start before `at`.
pub open spec fn starting_before(spans: Seq<Span>, at: Position) -> int
    decreases spans.len(),
{
    if spans.len() == 0 {
        0
    } else {
        starting_before(spans.drop_last(), at) + if spans.last().start.lt(at) {
            1int
        } else {
            0
        }
    }
}

/// `spans` with `span` put where its start belongs.
pub open spec fn inserted(spans: Seq<Span>, span: Span) -> Seq<Span> {
    spans.insert(starting_before(spans, span.start), span)
}

/// Whether a span holds a frame of `group`.
pub open spec fn holds(span: Span, group: u64) -> bool {
    span.start.group <= group && (Position { group, frame: 0 }).lt(span.end)
}

/// The spans of one track.
#[derive(Debug)]
struct Track {
    name: String,
    spans: Vec<Span>,
}

/// The spans each track's replayed timeline window commits.
#[derive(Debug)]
pub struct Index {
    tracks: Vec<Track>,
}

impl Index {
    /// Whether any record of `name` was sound enough to be looked at.
    pub closed spec fn known(self, name: Seq<char>) -> bool {
        exists|i: int| 0 <= i < self.tracks@.len() && (#[trigger] self.tracks@[i]).name@ == name
    }

    /// The committed spans of `name`, in order.
    pub closed spec fn spans(self, name: Seq<char>) -> Seq<Span> {
        if self.known(name) {
            let i = choose|i: int|
                0 <= i < self.tracks@.len() && (#[trigger] self.tracks@[i]).name@ == name;
            self.tracks@[i].spans@
        } else {
            Seq::empty()
        }
    }

    /// Whether each track is listed once, its spans in order and disjoint.
    pub closed spec fn wf(self) -> bool {
        &&& forall|i: int, j: int|
            0 <= i < j < self.tracks@.len() ==> (#[trigger] self.tracks@[i]).name@ != (
            #[trigger] self.tracks@[j]).name@
        &&& forall|i: int|
            0 <= i < self.tracks@.len() ==> well_placed((#[trigger] self.tracks@[i]).spans@)
    }

    /// An empty index.
    pub fn new() -> (r: Self)
        ensures
            r.wf(),
            forall|name: Seq<char>| !(#[trigger] r.known(name)),
            forall|name: Seq<char>| #[trigger] r.spans(name) == Seq::<Span>::empty(),
    {
        Index { tracks: Vec::new() }
    }

    /// In a well-formed index every track's spans are in order and disjoint.
    pub proof fn lemma_well_placed(self, name: Seq<char>)
        requires
            self.wf(),
        ensures
            well_placed(self.spans(name)),
            !self.known(name) ==> self.spans(name).len() == 0,
    {
    }

    /// Where `name` is listed, or the number of tracks.
    fn find(&self, name: &str) -> (r: usize)
        requires
            self.wf(),
        ensures
            r <= self.tracks@.len(),
            r < self.tracks@.len() ==> self.known(name@) && self.tracks@[r as int].name@ == name@
                && self.spans(name@) == self.tracks@[r as int].spans@,
            r == self.tracks@.len() ==> !self.known(name@),
    {
        let mut i: usize = 0;
        while i < self.tracks.len()
            invariant
                0 <= i <= self.tracks@.len(),
                self.wf(),
                forall|j: int| 0 <= j < i ==> (#[trigger] self.tracks@[j]).name@ != name@,
            decreases self.tracks@.len() - i,
        {
            if same(self.tracks[i].name.as_str(), name) {
                return i;
            }
            i = i + 1;
        }
        i
    }
}

impl Span {
    /// The span of a record, refusing an empty one or ids past the recording range.
    pub fn new(record: &Record) -> (r: Option<Self>)
        ensures
            r == span_of(*record),
    {
        if check_id(record.sequence).is_err() || check_id(record.start.group).is_err() || check_id(
            record.end.group,
        ).is_err() {
            return None;
        }
        if !record.start.before(&record.end) {
            return None;
        }
        Some(Span { sequence: record.sequence, start: record.start, end: record.end })
    }
}

/// Among disjoint spans in order, those that start before `at` come first.
proof fn lemma_starting_before(spans: Seq<Span>, at: Position)
    requires
        well_placed(spans),
    ensures
        0 <= starting_before(spans, at) <= spans.len(),
        forall|i: int|
            0 <= i < spans.len() ==> ((#[trigger] spans[i]).start.lt(at) <==> i < starting_before(
                spans,
                at,
            )),
    decreases spans.len(),
{
    if spans.len() > 0 {
        let init = spans.drop_last();
        assert(forall|i: int| 0 <= i < init.len() ==> init[i] == spans[i]);
        lemma_starting_before(init, at);
        let n = spans.len() - 1;
        assert forall|i: int| 0 <= i < spans.len() implies ((#[trigger] spans[i]).start.lt(at)
            <==> i < starting_before(spans, at)) by {
            if i < n {
                assert(init[i] == spans[i]);
                assert(spans[i].end.le(spans[n].start));
                if starting_before(init, at) < n {
                    let k = starting_before(init, at);
                    assert(!init[k].start.lt(at));
                    assert(spans[k].end.le(spans[n].start));
                }
            } else {
                if spans[n].start.lt(at) && starting_before(init, at) < n {
                    let k = starting_before(init, at);
                    assert(!init[k].start.lt(at));
                    assert(spans[k].start.lt(spans[k].end));
                    assert(spans[k].end.le(spans[n].start));
                }
            }
        }
    }
}

/// Putting a span that collides with none where it belongs keeps the others in order.
proof fn lemma_inserted(spans: Seq<Span>, span: Span)
    requires
        well_placed(spans),
        span.start.lt(span.end),
        id_in_range(span.start.group),
        id_in_range(span.end.group),
        id_in_range(span.sequence),
        !collides(spans, span),
    ensures
        well_placed(inserted(spans, span)),
        0 <= starting_before(spans, span.start) <= spans.len(),
{
    lemma_starting_before(spans, span.start);
    let k = starting_before(spans, span.start);
    let all = inserted(spans, span);
    assert forall|i: int| 0 <= i < spans.len() implies !overlap(#[trigger] spans[i], span)
        && spans[i].sequence != span.sequence by {}
    assert forall|i: int| 0 <= i < all.len() implies #[trigger] all[i] == (if i < k {
        spans[i]
    } else if i == k {
        span
    } else {
        spans[i - 1]
    }) by {}
    assert forall|i: int, j: int| 0 <= i < j < all.len() implies (#[trigger] all[i]).end.le(
        (#[trigger] all[j]).start,
    ) by {
        if j == k {
            assert(spans[i].start.lt(span.start));
            assert(!overlap(spans[i], span));
        } else if i == k {
            assert(!spans[j - 1].start.lt(span.start));
            assert(!overlap(spans[j - 1], span));
        }
    }
}

impl Index {
    /// Add `track`'s record.
    ///
    /// A malformed record or one overlapping another is left out, so its frames behave like ones
    /// the source never delivered; the track's other records stay usable.
    pub fn push(&mut self, track: &str, record: &Record)
        requires
            old(self).wf(),
        ensures
            final(self).wf(),
            final(self).spans(track@) == (match span_of(*record) {
                Some(span) => if collides(old(self).spans(track@), span) {
                    old(self).spans(track@)
                } else {
                    inserted(old(self).spans(track@), span)
                },
                None => old(self).spans(track@),
            }),
            final(self).known(track@) == (old(self).known(track@) || span_of(*record) is Some),
            forall|name: Seq<char>|
                name != track@ ==> #[trigger] final(self).spans(name) == old(self).spans(name),
            forall|name: Seq<char>|
                name != track@ ==> #[trigger] final(self).known(name) == old(self).known(name),
    {
        let span = match Span::new(record) {
            Some(span) => span,
            None => {
                return;
            },
        };
        let mut t: usize = self.find(track);
        if t == self.tracks.len() {
            let fresh = Track { name: track.to_owned(), spans: Vec::new() };
            self.tracks.push(fresh);
            proof {
                assert(self.tracks@[t as int].name@ == track@);
                assert forall|name: Seq<char>| name != track@ implies #[trigger] self.known(name)
                    == old(self).known(name) && self.spans(name) == old(self).spans(name) by {
                    lemma_unchanged(*old(self), *self, name, track@);
                }
            }
        }
        let ghost mid = *self;
        assert(mid.wf());
        proof {
            lemma_found(mid, t as int);
        }
        let ghost spans = self.tracks@[t as int].spans@;
        assert(spans == old(self).spans(track@));
        let mut at: usize = 0;
        let mut i: usize = 0;
        while i < self.tracks[t].spans.len()
            invariant
                t < self.tracks@.len(),
                *self == mid,
                spans == self.tracks@[t as int].spans@,
                0 <= i <= spans.len(),
                at == starting_before(spans.take(i as int), span.start),
                0 <= at <= i,
                forall|j: int|
                    0 <= j < i ==> !overlap(#[trigger] spans[j], span) && spans[j].sequence
                        != span.sequence,
                mid.wf(),
                mid.known(track@),
                mid.spans(track@) == spans,
                spans == old(self).spans(track@),
                span_of(*record) == Some(span),
                forall|name: Seq<char>|
                    name != track@ ==> #[trigger] mid.spans(name) == old(self).spans(name),
                forall|name: Seq<char>|
                    name != track@ ==> #[trigger] mid.known(name) == old(self).known(name),
            decreases spans.len() - i,
        {
            let other = self.tracks[t].spans[i];
            if (other.start.before(&span.end) && span.start.before(&other.end)) || other.sequence
                == span.sequence {
                assert(collides(spans, span));
                return;
            }
            assert(spans.take(i + 1).drop_last() =~= spans.take(i as int));
            if other.start.before(&span.start) {
                at = at + 1;
            }
            i = i + 1;
        }
        assert(spans.take(i as int) =~= spans);
        proof {
            lemma_inserted(spans, span);
        }
        self.tracks[t].spans.insert(at, span);
        proof {
            assert(self.tracks@[t as int].spans@ == inserted(spans, span));
            assert(forall|j: int|
                0 <= j < self.tracks@.len() && j != t ==> self.tracks@[j] == mid.tracks@[j]);
            assert(forall|j: int|
                0 <= j < self.tracks@.len() ==> self.tracks@[j].name@ == mid.tracks@[j].name@);
            assert(self.wf());
            lemma_found(*self, t as int);
            assert forall|name: Seq<char>| name != track@ implies #[trigger] self.known(name)
                == mid.known(name) && self.spans(name) == mid.spans(name) by {
                lemma_unchanged(mid, *self, name, track@);
            }
        }
    }
}

/// A listed track is known by its own spans.
proof fn lemma_found(index: Index, i: int)
    requires
        index.wf(),
        0 <= i < index.tracks@.len(),
    ensures
        index.known(index.tracks@[i].name@),
        index.spans(index.tracks@[i].name@) == index.tracks@[i].spans@,
{
    let name = index.tracks@[i].name@;
    assert(index.known(name));
    let j = choose|j: int| 0 <= j < index.tracks@.len() && (#[trigger] index.tracks@[j]).name@
        == name;
    assert(index.tracks@[j].name@ == name);
}

/// Where two indexes list the same tracks but for one name, they agree on every other name.
proof fn lemma_unchanged(a: Index, b: Index, name: Seq<char>, except: Seq<char>)
    requires
        a.wf(),
        b.wf(),
        name != except,
        a.tracks@.len() <= b.tracks@.len(),
        forall|j: int|
            0 <= j < a.tracks@.len() ==> (#[trigger] b.tracks@[j]).name@ == a.tracks@[j].name@
                && (b.tracks@[j].name@ == except || b.tracks@[j] == a.tracks@[j]),
        forall|j: int|
            a.tracks@.len() <= j < b.tracks@.len() ==> (#[trigger] b.tracks@[j]).name@ == except,
    ensures
        b.known(name) == a.known(name),
        b.spans(name) == a.spans(name),
{
    if a.known(name) {
        let j = choose|j: int| 0 <= j < a.tracks@.len() && (#[trigger] a.tracks@[j]).name@ == name;
        assert(b.tracks@[j].name@ == name);
        lemma_found(a, j);
        lemma_found(b, j);
    }
    if b.known(name) {
        let j = choose|j: int| 0 <= j < b.tracks@.len() && (#[trigger] b.tracks@[j]).name@ == name;
        assert(j < a.tracks@.len());
        assert(a.tracks@[j].name@ == name);
    }
}

/// Whether a sequence is in `from..to`.
pub open spec fn popped(span: Span, from: u64, to: u64) -> bool {
    from <= span.sequence < to
}

/// Whether `spans` ascend by sequence.
pub open spec fn by_sequence(spans: Seq<Span>) -> bool {
    forall|i: int, j: int|
        0 <= i < j < spans.len() ==> (#[trigger] spans[i]).sequence < (#[trigger] spans[j]).sequence
}

/// Put `span` where its sequence belongs.
fn insert_by_sequence(found: &mut Vec<Span>, span: Span)
    requires
        by_sequence(old(found)@),
        forall|i: int| 0 <= i < old(found)@.len() ==> (#[trigger] old(found)@[i]).sequence
            != span.sequence,
    ensures
        by_sequence(final(found)@),
        forall|s: Span| #[trigger]
            final(found)@.contains(s) <==> old(found)@.contains(s) || s == span,
{
    let mut at: usize = 0;
    while at < found.len() && found[at].sequence < span.sequence
        invariant
            0 <= at <= found@.len(),
            *found == *old(found),
            by_sequence(found@),
            forall|i: int| 0 <= i < at ==> (#[trigger] found@[i]).sequence < span.sequence,
        decreases found@.len() - at,
    {
        at = at + 1;
    }
    found.insert(at, span);
    proof {
        let before = old(found)@;
        assert(found@ == before.insert(at as int, span));
        assert forall|i: int, j: int| 0 <= i < j < found@.len() implies (
        #[trigger] found@[i]).sequence < (#[trigger] found@[j]).sequence by {
            if i < at && j > at {
                assert(before[i].sequence < before[j - 1].sequence);
            } else if i > at {
                assert(before[i - 1].sequence < before[j - 1].sequence);
            } else if i == at {
                assert(before[at as int].sequence > span.sequence);
                if j - 1 > at {
                    assert(before[at as int].sequence < before[j - 1].sequence);
                }
            }
        }
        assert forall|s: Span| #[trigger] found@.contains(s) <==> before.contains(s) || s == span by {
            if before.contains(s) {
                let i = choose|i: int| 0 <= i < before.len() && before[i] == s;
                if i < at {
                    assert(found@[i] == s);
                } else {
                    assert(found@[i + 1] == s);
                }
            }
            if s == span {
                assert(found@[at as int] == s);
            }
            if found@.contains(s) {
                let i = choose|i: int| 0 <= i < found@.len() && found@[i] == s;
                if i < at {
                    assert(before[i] == s);
                } else if i > at {
                    assert(before[i - 1] == s);
                }
            }
        }
    }
}

/// What a filter keeps is in order, and is what was there and passes.
proof fn lemma_kept(spans: Seq<Span>, keep: spec_fn(Span) -> bool)
    requires
        well_placed(spans),
    ensures
        well_placed(spans.filter(keep)),
        forall|s: Span| #[trigger]
            spans.filter(keep).contains(s) <==> spans.contains(s) && keep(s),
    decreases spans.len(),
{
    reveal(Seq::filter);
    if spans.len() > 0 {
        let init = spans.drop_last();
        let n = spans.len() - 1;
        assert(forall|i: int| 0 <= i < init.len() ==> init[i] == spans[i]);
        lemma_kept(init, keep);
        let front = init.filter(keep);
        let all = spans.filter(keep);
        assert forall|i: int| 0 <= i < front.len() implies (#[trigger] front[i]).end.le(
            spans[n].start,
        ) && front[i].sequence != spans[n].sequence by {
            assert(front.contains(front[i]));
            let k = choose|k: int| 0 <= k < init.len() && init[k] == front[i];
            assert(spans[k] == front[i]);
        }
        assert forall|s: Span| #[trigger] all.contains(s) <==> spans.contains(s) && keep(s) by {
            if all.contains(s) {
                let k = choose|k: int| 0 <= k < all.len() && all[k] == s;
                if k < front.len() {
                    assert(front[k] == s);
                    assert(front.contains(s));
                    let j = choose|j: int| 0 <= j < init.len() && init[j] == s;
                    assert(spans[j] == s);
                } else {
                    assert(spans[n] == s);
                }
            }
            if spans.contains(s) && keep(s) {
                let j = choose|j: int| 0 <= j < spans.len() && spans[j] == s;
                if j < n {
                    assert(init[j] == s);
                    assert(front.contains(s));
                    let k = choose|k: int| 0 <= k < front.len() && front[k] == s;
                    assert(all[k] == s);
                } else {
                    assert(all[all.len() - 1] == s);
                }
            }
        }
    }
}

impl Index {
    /// Remove `track`'s records with the sequences `from..to`, returning the evicted spans by
    /// sequence.
    pub fn pop(&mut self, track: &str, from: u64, to: u64) -> (r: Vec<Span>)
        requires
            old(self).wf(),
        ensures
            final(self).wf(),
            final(self).spans(track@) == old(self).spans(track@).filter(
                |s: Span| !popped(s, from, to),
            ),
            by_sequence(r@),
            forall|s: Span| #[trigger]
                r@.contains(s) <==> old(self).spans(track@).contains(s) && popped(s, from, to),
            forall|name: Seq<char>| #[trigger] final(self).known(name) == old(self).known(name),
            forall|name: Seq<char>|
                name != track@ ==> #[trigger] final(self).spans(name) == old(self).spans(name),
    {
        let mut evicted: Vec<Span> = Vec::new();
        let t: usize = self.find(track);
        let ghost keep = |s: Span| !popped(s, from, to);
        if t == self.tracks.len() {
            proof {
                reveal(Seq::filter);
                assert(self.spans(track@) == Seq::<Span>::empty());
            }
            return evicted;
        }
        let ghost spans = self.tracks@[t as int].spans@;
        let mut kept: Vec<Span> = Vec::new();
        let mut i: usize = 0;
        proof {
            self.lemma_well_placed(track@);
            reveal(Seq::filter);
            assert(spans.take(0) =~= Seq::<Span>::empty());
        }
        while i < self.tracks[t].spans.len()
            invariant
                t < self.tracks@.len(),
                *self == *old(self),
                spans == self.tracks@[t as int].spans@,
                well_placed(spans),
                0 <= i <= spans.len(),
                keep == |s: Span| !popped(s, from, to),
                kept@ == spans.take(i as int).filter(keep),
                by_sequence(evicted@),
                forall|s: Span| #[trigger]
                    evicted@.contains(s) <==> spans.take(i as int).contains(s) && popped(
                        s,
                        from,
                        to,
                    ),
            decreases spans.len() - i,
        {
            let span = self.tracks[t].spans[i];
            let ghost before = spans.take(i as int);
            let ghost here = spans.take(i + 1);
            proof {
                reveal(Seq::filter);
                assert(here.drop_last() =~= before);
                assert(here =~= before.push(span));
                assert forall|s: Span| #[trigger] here.contains(s) <==> before.contains(s) || s
                    == span by {
                    if before.contains(s) {
                        let k = choose|k: int| 0 <= k < before.len() && before[k] == s;
                        assert(here[k] == s);
                    }
                    if s == span {
                        assert(here[i as int] == s);
                    }
                }
                assert forall|k: int| 0 <= k < evicted@.len() implies (
                #[trigger] evicted@[k]).sequence != span.sequence by {
                    assert(evicted@.contains(evicted@[k]));
                    let j = choose|j: int| 0 <= j < before.len() && before[j] == evicted@[k];
                    assert(spans[j] == before[j]);
                    assert(spans[j].sequence != spans[i as int].sequence);
                }
            }
            if from <= span.sequence && span.sequence < to {
                insert_by_sequence(&mut evicted, span);
            } else {
                kept.push(span);
            }
            i = i + 1;
        }
        proof {
            assert(spans.take(i as int) =~= spans);
            lemma_kept(spans, keep);
        }
        self.tracks[t].spans = kept;
        proof {
            assert(forall|j: int|
                0 <= j < self.tracks@.len() ==> self.tracks@[j].name@ == old(self).tracks@[j].name@);
            assert(self.wf());
            lemma_found(*self, t as int);
            assert forall|name: Seq<char>| name != track@ implies #[trigger] self.known(name)
                == old(self).known(name) && self.spans(name) == old(self).spans(name) by {
                lemma_unchanged(*old(self), *self, name, track@);
            }
        }
        evicted
    }

    /// The spans holding frames of `group` on `track`, in order.
    pub fn group(&self, track: &str, group: u64) -> (r: Vec<Span>)
        requires
            self.wf(),
        ensures
            r@ == self.spans(track@).filter(|s: Span| holds(s, group)),
    {
        let mut found: Vec<Span> = Vec::new();
        let t: usize = self.find(track);
        let ghost keep = |s: Span| holds(s, group);
        if t == self.tracks.len() {
            proof {
                reveal(Seq::filter);
                assert(self.spans(track@) == Seq::<Span>::empty());
            }
            return found;
        }
        let spans = &self.tracks[t].spans;
        let head = Position::group(group);
        let mut i: usize = 0;
        proof {
            reveal(Seq::filter);
            assert(spans@.take(0) =~= Seq::<Span>::empty());
        }
        while i < spans.len()
            invariant
                0 <= i <= spans@.len(),
                head == (Position { group, frame: 0 }),
                keep == |s: Span| holds(s, group),
                found@ == spans@.take(i as int).filter(keep),
            decreases spans@.len() - i,
        {
            let span = spans[i];
            proof {
                reveal(Seq::filter);
                assert(spans@.take(i + 1).drop_last() =~= spans@.take(i as int));
            }
            if span.start.group <= group && head.before(&span.end) {
                found.push(span);
            }
            i = i + 1;
        }
        assert(spans@.take(i as int) =~= spans@);
        found
    }
}

/// Popping a record right after it was pushed leaves every track as it was.
pub proof fn law_pop_undoes_push(spans: Seq<Span>, span: Span)
    requires
        well_placed(spans),
        !collides(spans, span),
        span.sequence < u64::MAX,
    ensures
        inserted(spans, span).filter(
            |s: Span| !popped(s, span.sequence, (span.sequence + 1) as u64),
        ) == spans,
{
    let keep = |s: Span| !popped(s, span.sequence, (span.sequence + 1) as u64);
    lemma_starting_before(spans, span.start);
    let k = starting_before(spans, span.start);
    let front = spans.take(k);
    let back = spans.skip(k);
    assert forall|i: int| 0 <= i < spans.len() implies #[trigger] keep(spans[i]) by {
        assert(spans[i].sequence != span.sequence);
    }
    assert forall|i: int| 0 <= i < front.len() implies #[trigger] keep(front[i]) by {
        assert(keep(spans[i]));
    }
    assert forall|i: int| 0 <= i < back.len() implies #[trigger] keep(back[i]) by {
        assert(keep(spans[i + k]));
    }
    assert(inserted(spans, span) =~= front.push(span) + back);
    lemma_filter_all(front, keep);
    lemma_filter_all(back, keep);
    lemma_filter_drops(front, span, keep);
    lemma_filter_parts(front.push(span), back, keep);
    assert(front + back =~= spans);
}

proof fn lemma_filter_drops(spans: Seq<Span>, span: Span, keep: spec_fn(Span) -> bool)
    requires
        !keep(span),
    ensures
        spans.push(span).filter(keep) == spans.filter(keep),
{
    reveal(Seq::filter);
    assert(spans.push(span).drop_last() =~= spans);
}

proof fn lemma_filter_all(spans: Seq<Span>, keep: spec_fn(Span) -> bool)
    requires
        forall|i: int| 0 <= i < spans.len() ==> #[trigger] keep(spans[i]),
    ensures
        spans.filter(keep) == spans,
    decreases spans.len(),
{
    reveal(Seq::filter);
    if spans.len() > 0 {
        let init = spans.drop_last();
        assert forall|i: int| 0 <= i < init.len() implies #[trigger] keep(init[i]) by {
            assert(init[i] == spans[i]);
        }
        lemma_filter_all(init, keep);
        assert(keep(spans[spans.len() - 1]));
        assert(init.push(spans.last()) =~= spans);
    }
}

proof fn lemma_filter_parts(a: Seq<Span>, b: Seq<Span>, keep: spec_fn(Span) -> bool)
    ensures
        (a + b).filter(keep) == a.filter(keep) + b.filter(keep),
    decreases b.len(),
{
    reveal(Seq::filter);
    if b.len() == 0 {
        assert(a + b =~= a);
        assert(b.filter(keep) =~= Seq::empty());
        assert(a.filter(keep) + b.filter(keep) =~= a.filter(keep));
    } else {
        lemma_filter_parts(a, b.drop_last(), keep);
        assert((a + b).drop_last() =~= a + b.drop_last());
        assert((a + b).last() == b.last());
    }
}

/// No frame is committed twice: at most one span of a track holds any one frame.
pub proof fn law_one_span_per_frame(spans: Seq<Span>, i: int, j: int, at: Position)
    requires
        well_placed(spans),
        0 <= i < spans.len(),
        0 <= j < spans.len(),
        spans[i].start.le(at),
        at.lt(spans[i].end),
        spans[j].start.le(at),
        at.lt(spans[j].end),
    ensures
        i == j,
{
    if i < j {
        assert(spans[i].end.le(spans[j].start));
    } else if j < i {
        assert(spans[j].end.le(spans[i].start));
    }
}

/// A record is looked at exactly where it holds a frame and its numbers are at most 2^53 - 1, and is
/// taken as it says.
pub proof fn law_a_record_is_taken_as_it_says(record: Record)
    ensures
        span_of(record) is Some <==> record.sequence < 0x20_0000_0000_0000 && record.start.group
            < 0x20_0000_0000_0000 && record.end.group < 0x20_0000_0000_0000 && (record.start.group
            < record.end.group || (record.start.group == record.end.group && record.start.frame
            < record.end.frame)),
        span_of(record) matches Some(span) ==> span.sequence == record.sequence && span.start
            == record.start && span.end == record.end,
{
}

/// Two spans that hold frames overlap exactly where some frame is in both.
pub proof fn law_spans_overlap_where_they_share_a_frame(a: Span, b: Span)
    requires
        a.start.lt(a.end),
        b.start.lt(b.end),
    ensures
        overlap(a, b) <==> exists|at: Position|
            a.start.le(at) && #[trigger] at.lt(a.end) && b.start.le(at) && at.lt(b.end),
{
    if overlap(a, b) {
        let at = if a.start.lt(b.start) {
            b.start
        } else {
            a.start
        };
        assert(at.lt(a.end) && at.lt(b.end));
        assert(a.start.le(at) && b.start.le(at));
    }
}

/// A span is refused exactly where one held already shares a frame or its number with it.
pub proof fn law_a_span_is_refused_for_another(spans: Seq<Span>, span: Span)
    ensures
        collides(spans, span) <==> exists|i: int|
            0 <= i < spans.len() && ((#[trigger] spans[i]).sequence == span.sequence || (
            spans[i].start.lt(span.end) && span.start.lt(spans[i].end))),
{
}

/// Committing a span adds it and nothing else, and keeps the spans in the order of their frames.
pub proof fn law_a_committed_span_joins_the_others_in_order(spans: Seq<Span>, span: Span, s: Span)
    requires
        well_placed(spans),
        span_of(
            Record { sequence: span.sequence, pts: 0, duration: 0, start: span.start, end: span.end },
        ) is Some,
        !collides(spans, span),
    ensures
        inserted(spans, span).len() == spans.len() + 1,
        inserted(spans, span).contains(s) <==> spans.contains(s) || s == span,
        forall|i: int, j: int|
            0 <= i < j < inserted(spans, span).len() ==> (#[trigger] inserted(spans, span)[i]).start.lt(
                (#[trigger] inserted(spans, span)[j]).start,
            ),
{
    lemma_inserted(spans, span);
    let k = starting_before(spans, span.start);
    let all = inserted(spans, span);
    if spans.contains(s) {
        let i = choose|i: int| 0 <= i < spans.len() && spans[i] == s;
        assert(all[if i < k {
            i
        } else {
            i + 1
        }] == s);
    }
    assert(all[k] == span);
    if all.contains(s) {
        let i = choose|i: int| 0 <= i < all.len() && all[i] == s;
        if i < k {
            assert(spans[i] == s);
        } else if i > k {
            assert(spans[i - 1] == s);
        }
    }
    assert forall|i: int, j: int| 0 <= i < j < all.len() implies (#[trigger] all[i]).start.lt(
        (#[trigger] all[j]).start,
    ) by {
        assert(all[i].start.lt(all[i].end));
        assert(all[i].end.le(all[j].start));
    }
}

/// A span holds a group exactly where it holds one of its frames.
pub proof fn law_a_span_holds_a_group_by_a_frame(span: Span, group: u64)
    requires
        span.start.lt(span.end),
    ensures
        holds(span, group) <==> exists|at: Position|
            at.group == group && span.start.le(at) && #[trigger] at.lt(span.end),
{
    if holds(span, group) {
        let frame = if span.start.group == group {
            span.start.frame
        } else {
            0
        };
        let at = Position { group, frame };
        assert(span.start.le(at) && at.lt(span.end));
    }
}

/// A span leaves exactly where its record's number is in the range that left.
pub proof fn law_spans_leave_by_their_number(span: Span, from: u64, to: u64)
    ensures
        popped(span, from, to) <==> from <= span.sequence && span.sequence < to,
{
}

} // verus!
