//! The microphone callback's half of a preallocated buffer pool.
//!
//! The callback never allocates or blocks: it fills a buffer it owns, and submits it. A buffer comes
//! back to the pool once its reader released it, or when it could not be submitted.

use super::channel::{report_due, REPORT_INTERVAL};
use crate::time::Duration;
use vstd::prelude::*;

verus! {

/// How many buffers the pool holds: roughly 80 ms at the common 10 ms callback cadence.
pub const DEPTH: usize = 8;

/// Unusually large host buffers are processed in pieces of this many frames, rather than growing a
/// scratch allocation on the realtime thread.
pub const CHUNK_FRAMES: usize = 4096;

/// One buffer of the pool.
#[derive(Debug)]
pub struct Buffer<T> {
    /// The samples, empty while the buffer is free.
    pub data: Vec<T>,
    /// Which of the pool's buffers this is.
    pub slot: usize,
}

/// One buffer submitted to the capture pipeline.
#[derive(Debug)]
pub struct Filled<T> {
    /// The samples.
    pub data: Vec<T>,
    /// Whether samples were dropped just before these.
    pub gap: bool,
    /// Which of the pool's buffers this is.
    pub slot: usize,
}

/// How submitting a buffer ended.
#[derive(Debug)]
pub enum Submitted<T> {
    /// It was queued.
    Queued,
    /// The queue was full, and the buffer came back.
    Full(Filled<T>),
    /// The reader is gone, and the buffer came back.
    Gone(Filled<T>),
}

/// A piece of a callback's input: the samples `from..to`.
#[derive(Clone, Copy, Debug, PartialEq, Eq, Structural)]
pub struct Piece {
    /// The first sample.
    pub from: usize,
    /// One past the last sample.
    pub to: usize,
}

/// The samples that make up whole frames.
pub open spec fn whole(len: nat, channels: nat) -> int {
    len - len % channels
}

/// The piece that starts at the sample `from`: as many samples as a pool buffer was made for, or
/// what is left of the whole frames. `None` past them.
pub open spec fn cut(len: nat, channels: nat, from: int) -> Option<Piece> {
    let end = whole(len, channels);
    if from >= end {
        None
    } else {
        Some(
            Piece {
                from: from as usize,
                to: if end - from > CHUNK_FRAMES * channels {
                    (from + CHUNK_FRAMES * channels) as usize
                } else {
                    end as usize
                },
            },
        )
    }
}

/// Whether `pieces` are what a callback's input is cut into, one after the other.
pub open spec fn cuts(pieces: Seq<Piece>, len: nat, channels: nat) -> bool {
    &&& forall|i: int|
        0 <= i < pieces.len() ==> Some(#[trigger] pieces[i]) == cut(
            len,
            channels,
            if i == 0 {
                0
            } else {
                pieces[i - 1].to as int
            },
        )
    &&& cut(
        len,
        channels,
        if pieces.len() == 0 {
            0
        } else {
            pieces.last().to as int
        },
    ) is None
}

/// The callback-owned half of the pool.
#[derive(Debug)]
pub struct Writer<T> {
    free: Vec<Buffer<T>>,
    pending_gap: bool,
    channels: usize,
    dropped: u64,
}

impl<T> Writer<T> {
    /// The pool's buffers that the callback owns.
    pub closed spec fn slots(self) -> Seq<usize> {
        Seq::new(self.free@.len(), |i: int| self.free@[i].slot)
    }

    /// Whether samples were dropped since the last submission.
    pub closed spec fn gap(self) -> bool {
        self.pending_gap
    }

    /// Interleaved channels.
    pub closed spec fn channels(self) -> nat {
        self.channels as nat
    }

    /// Drops that the reader did not take note of yet.
    pub closed spec fn drops(self) -> nat {
        self.dropped as nat
    }

    /// Whether the pool is consistent: each buffer is there at most once.
    pub closed spec fn wf(self) -> bool {
        &&& 0 < self.channels
        &&& CHUNK_FRAMES * self.channels <= usize::MAX
        &&& self.slots().no_duplicates()
        &&& forall|i: int| 0 <= i < self.free@.len() ==> (#[trigger] self.free@[i]).slot < DEPTH
    }

    /// A pool of empty buffers, each made for a whole piece.
    pub fn new(channels: usize) -> (r: Self)
        requires
            0 < channels,
            CHUNK_FRAMES * channels <= usize::MAX,
        ensures
            r.wf(),
            r.slots() == Seq::new(DEPTH as nat, |i: int| i as usize),
            !r.gap(),
            r.channels() == channels,
            r.drops() == 0,
    {
        let samples: usize = CHUNK_FRAMES * channels;
        let mut free: Vec<Buffer<T>> = Vec::with_capacity(DEPTH);
        let mut slot: usize = 0;
        while slot < DEPTH
            invariant
                0 <= slot <= DEPTH,
                free@.len() == slot,
                forall|i: int| 0 <= i < slot ==> (#[trigger] free@[i]).slot == i,
            decreases DEPTH - slot,
        {
            free.push(Buffer { data: Vec::with_capacity(samples), slot });
            slot = slot + 1;
        }
        let writer = Writer { free, pending_gap: false, channels, dropped: 0 };
        assert(writer.slots() =~= Seq::new(DEPTH as nat, |i: int| i as usize));
        writer
    }

    /// The piece of a callback's input to submit next, from the sample `from` on. Samples short of a
    /// whole frame are left out.
    pub fn piece(&self, len: usize, from: usize) -> (r: Option<Piece>)
        requires
            self.wf(),
        ensures
            r == cut(len as nat, self.channels(), from as int),
    {
        proof {
            vstd::arithmetic::div_mod::lemma_mod_decreases(len as nat, self.channels as nat);
        }
        let chunk: usize = CHUNK_FRAMES * self.channels;
        let end: usize = len - len % self.channels;
        if from >= end {
            return None;
        }
        let to: usize = if end - from > chunk {
            from + chunk
        } else {
            end
        };
        Some(Piece { from, to })
    }

    /// Take an empty buffer, where one is free.
    pub fn take(&mut self) -> (r: Option<Buffer<T>>)
        requires
            old(self).wf(),
        ensures
            final(self).wf(),
            final(self).gap() == old(self).gap(),
            final(self).channels() == old(self).channels(),
            final(self).drops() == old(self).drops(),
            match r {
                Some(buffer) => {
                    &&& buffer.data@.len() == 0
                    &&& old(self).slots() == final(self).slots().push(buffer.slot)
                },
                None => old(self).slots().len() == 0 && final(self).slots() == old(self).slots(),
            },
    {
        let ghost before = self.slots();
        match self.free.pop() {
            Some(buffer) => {
                let mut buffer = buffer;
                buffer.data.clear();
                proof {
                    assert(before =~= self.slots().push(buffer.slot));
                    assert forall|i: int, j: int|
                        0 <= i < self.slots().len() && 0 <= j < self.slots().len() && i
                            != j implies self.slots()[i] != self.slots()[j] by {
                        assert(before[i] != before[j]);
                    }
                }
                Some(buffer)
            },
            None => None,
        }
    }

    /// Put a buffer back in the pool: its reader released it, or it could not be submitted.
    pub fn reclaim(&mut self, data: Vec<T>, slot: usize)
        requires
            old(self).wf(),
            slot < DEPTH,
            !old(self).slots().contains(slot),
        ensures
            final(self).wf(),
            final(self).slots() == old(self).slots().push(slot),
            final(self).gap() == old(self).gap(),
            final(self).channels() == old(self).channels(),
            final(self).drops() == old(self).drops(),
    {
        let ghost before = self.slots();
        let mut data = data;
        data.clear();
        self.free.push(Buffer { data, slot });
        proof {
            assert(self.slots() =~= before.push(slot));
            assert forall|i: int, j: int|
                0 <= i < self.slots().len() && 0 <= j < self.slots().len() && i
                    != j implies self.slots()[i] != self.slots()[j] by {
                if i < before.len() && j < before.len() {
                    assert(before[i] != before[j]);
                } else if i < before.len() {
                    assert(before.contains(before[i]));
                } else {
                    assert(before.contains(before[j]));
                }
            }
        }
    }

    /// Convert a piece of the input into a buffer, and mark it with the pending gap.
    pub fn fill<S: Copy, F: Fn(S) -> T>(
        &self,
        buffer: Buffer<T>,
        input: &[S],
        piece: Piece,
        convert: F,
    ) -> (r: Filled<T>)
        requires
            piece.from <= piece.to <= input@.len(),
            buffer.data@.len() == 0,
            forall|s: S| call_requires(convert, (s,)),
        ensures
            r.slot == buffer.slot,
            r.gap == self.gap(),
            r.data@.len() == piece.to - piece.from,
            forall|i: int|
                0 <= i < r.data@.len() ==> call_ensures(
                    convert,
                    (input@[piece.from + i],),
                    #[trigger] r.data@[i],
                ),
    {
        let Buffer { data, slot } = buffer;
        let mut data = data;
        let mut i: usize = piece.from;
        while i < piece.to
            invariant
                piece.from <= i <= piece.to <= input@.len(),
                data@.len() == i - piece.from,
                forall|s: S| call_requires(convert, (s,)),
                forall|j: int|
                    0 <= j < data@.len() ==> call_ensures(
                        convert,
                        (input@[piece.from + j],),
                        #[trigger] data@[j],
                    ),
            decreases piece.to - i,
        {
            data.push(convert(input[i]));
            i = i + 1;
        }
        Filled { data, gap: self.pending_gap, slot }
    }

    /// Take note of a drop: the next buffer that is submitted carries the gap.
    pub fn drop_one(&mut self)
        requires
            old(self).wf(),
            old(self).drops() < u64::MAX,
        ensures
            final(self).wf(),
            final(self).gap(),
            final(self).slots() == old(self).slots(),
            final(self).channels() == old(self).channels(),
            final(self).drops() == old(self).drops() + 1,
    {
        self.pending_gap = true;
        self.dropped = self.dropped + 1;
    }

    /// Hand over the count of drops, for the reader to take note of.
    pub fn take_drops(&mut self) -> (r: u64)
        requires
            old(self).wf(),
        ensures
            final(self).wf(),
            r == old(self).drops(),
            final(self).drops() == 0,
            final(self).gap() == old(self).gap(),
            final(self).slots() == old(self).slots(),
            final(self).channels() == old(self).channels(),
    {
        let dropped: u64 = self.dropped;
        self.dropped = 0;
        dropped
    }

    /// Settle a submission. A queued buffer carried the gap away; any other comes back to the pool,
    /// and is a drop unless the reader is gone. Returns whether the rest of the input is worth
    /// submitting.
    pub fn settle(&mut self, submitted: Submitted<T>) -> (r: bool)
        requires
            old(self).wf(),
            old(self).drops() < u64::MAX,
            match submitted {
                Submitted::Queued => true,
                Submitted::Full(filled) => filled.slot < DEPTH && !old(self).slots().contains(
                    filled.slot,
                ),
                Submitted::Gone(filled) => filled.slot < DEPTH && !old(self).slots().contains(
                    filled.slot,
                ),
            },
        ensures
            final(self).wf(),
            final(self).channels() == old(self).channels(),
            match submitted {
                Submitted::Queued => r && !final(self).gap() && final(self).slots() == old(
                    self).slots() && final(self).drops() == old(self).drops(),
                Submitted::Full(filled) => r && final(self).gap() && final(self).slots() == old(
                    self).slots().push(filled.slot) && final(self).drops() == old(self).drops() + 1,
                Submitted::Gone(filled) => !r && final(self).gap() == old(self).gap() && final(
                    self).slots() == old(self).slots().push(filled.slot) && final(self).drops()
                    == old(self).drops(),
            },
    {
        match submitted {
            Submitted::Queued => {
                self.pending_gap = false;
                true
            },
            Submitted::Full(filled) => {
                self.reclaim(filled.data, filled.slot);
                self.drop_one();
                true
            },
            Submitted::Gone(filled) => {
                self.reclaim(filled.data, filled.slot);
                false
            },
        }
    }

    /// Finish a callback: samples short of a whole frame are a drop.
    pub fn finish(&mut self, len: usize)
        requires
            old(self).wf(),
            old(self).drops() < u64::MAX,
        ensures
            final(self).wf(),
            final(self).slots() == old(self).slots(),
            final(self).channels() == old(self).channels(),
            if whole(len as nat, old(self).channels()) == len {
                final(self).gap() == old(self).gap() && final(self).drops() == old(self).drops()
            } else {
                final(self).gap() && final(self).drops() == old(self).drops() + 1
            },
    {
        if len % self.channels != 0 {
            self.drop_one();
        }
    }
}

/// What the reading half knows about drops.
#[derive(Clone, Copy, Debug, PartialEq, Eq, Structural)]
pub struct Reader {
    /// Drops that were not reported yet.
    pub unreported: u64,
    /// When drops were last reported, on the reader's clock.
    pub last_report: Option<Duration>,
}

impl Reader {
    /// Nothing dropped.
    pub fn new() -> (r: Self)
        ensures
            r == (Reader { unreported: 0, last_report: None }),
    {
        Reader { unreported: 0, last_report: None }
    }

    /// Fold new drops into the throttled report: the count to report now, if any.
    pub fn observe(&mut self, dropped: u64, now: Duration) -> (r: Option<u64>)
        requires
            old(self).unreported + dropped <= u64::MAX,
            old(self).last_report matches Some(last) ==> last.nanos <= now.nanos,
        ensures
            ({
                let total = (old(self).unreported + dropped) as u64;
                if dropped > 0 && report_due(old(self).last_report, now) {
                    r == Some(total) && *final(self) == (Reader {
                        unreported: 0,
                        last_report: Some(now),
                    })
                } else {
                    r is None && *final(self) == (Reader {
                        unreported: total,
                        last_report: old(self).last_report,
                    })
                }
            }),
    {
        if dropped == 0 {
            return None;
        }
        self.unreported = self.unreported + dropped;
        let due: bool = match self.last_report {
            Some(last) => now.nanos - last.nanos >= REPORT_INTERVAL,
            None => true,
        };
        if !due {
            return None;
        }
        let total: u64 = self.unreported;
        self.last_report = Some(now);
        self.unreported = 0;
        Some(total)
    }
}

/// The pieces of a callback's input are whole frames, no piece is larger than a pool buffer was made
/// for, and together they are every whole frame, in order.
pub proof fn law_pieces_cover_the_input(pieces: Seq<Piece>, len: nat, channels: nat, i: int)
    requires
        cuts(pieces, len, channels),
        len <= usize::MAX,
        channels > 0,
        0 <= i < pieces.len(),
    ensures
        0 < pieces[i].to - pieces[i].from <= CHUNK_FRAMES * channels,
        (pieces[i].to - pieces[i].from) % channels as int == 0,
        pieces[i].from == (if i == 0 {
            0
        } else {
            pieces[i - 1].to as int
        }),
        pieces.last().to == whole(len, channels),
{
    lemma_whole_frames(pieces, len, channels, i);
    lemma_whole_frames(pieces, len, channels, pieces.len() - 1);
}

proof fn lemma_whole_frames(pieces: Seq<Piece>, len: nat, channels: nat, i: int)
    requires
        cuts(pieces, len, channels),
        len <= usize::MAX,
        channels > 0,
        0 <= i < pieces.len(),
    ensures
        0 < pieces[i].to - pieces[i].from <= CHUNK_FRAMES * channels,
        (pieces[i].to - pieces[i].from) % channels as int == 0,
        pieces[i].to as int % channels as int == 0,
        pieces[i].to <= whole(len, channels),
        pieces[i].from == (if i == 0 {
            0
        } else {
            pieces[i - 1].to as int
        }),
    decreases i,
{
    let from = if i == 0 {
        0
    } else {
        pieces[i - 1].to as int
    };
    if i > 0 {
        lemma_whole_frames(pieces, len, channels, i - 1);
    }
    assert(Some(pieces[i]) == cut(len, channels, from));
    lemma_cut(len, channels, from);
}

proof fn lemma_cut(len: nat, channels: nat, from: int)
    requires
        channels > 0,
        len <= usize::MAX,
        0 <= from,
        from % channels as int == 0,
    ensures
        match cut(len, channels, from) {
            Some(p) => {
                &&& p.from == from
                &&& 0 < p.to - p.from <= CHUNK_FRAMES * channels
                &&& (p.to - p.from) % channels as int == 0
                &&& p.to as int % channels as int == 0
                &&& p.to <= whole(len, channels)
            },
            None => true,
        },
{
    let n = channels as int;
    let a = from / n;
    let q = len as int / n;
    let end = whole(len, channels);
    vstd::arithmetic::div_mod::lemma_fundamental_div_mod(from, n);
    vstd::arithmetic::div_mod::lemma_fundamental_div_mod(len as int, n);
    vstd::arithmetic::div_mod::lemma_mod_bound(len as int, n);
    assert(end == n * q);
    lemma_multiple(n, q);
    lemma_multiple(n, q - a);
    lemma_multiple(n, CHUNK_FRAMES as int);
    lemma_multiple(n, a + CHUNK_FRAMES);
    let chunk = CHUNK_FRAMES * channels;
    assert(chunk == n * CHUNK_FRAMES && chunk > 0) by (nonlinear_arith)
        requires
            chunk == CHUNK_FRAMES * channels,
            n == channels,
            n > 0,
    ;
    assert(n * (q - a) == n * q - n * a && n * (a + CHUNK_FRAMES) == n * a + n * CHUNK_FRAMES)
        by (nonlinear_arith);
}

proof fn lemma_multiple(n: int, k: int)
    requires
        n > 0,
    ensures
        (n * k) % n == 0,
{
    vstd::arithmetic::div_mod::lemma_mod_multiples_basic(k, n);
    assert(n * k == k * n) by (nonlinear_arith);
}

/// The next piece starts where it is asked to. It is 4096 frames, or what is left of the whole
/// frames where that is less, and there is none once these are used up.
pub proof fn law_a_piece_is_as_long_as_a_buffer(len: nat, channels: nat, from: int)
    requires
        channels > 0,
        len <= usize::MAX,
        0 <= from,
    ensures
        DEPTH == 8,
        whole(len, channels) <= len < whole(len, channels) + channels,
        whole(len, channels) % channels as int == 0,
        match cut(len, channels, from) {
            Some(piece) => {
                &&& piece.from == from
                &&& piece.from < piece.to <= whole(len, channels)
                &&& piece.to - piece.from <= 4_096 * channels
                &&& piece.to - piece.from == 4_096 * channels || piece.to == whole(len, channels)
            },
            None => whole(len, channels) <= from,
        },
{
    vstd::arithmetic::div_mod::lemma_fundamental_div_mod(len as int, channels as int);
    let q = len as int / channels as int;
    assert(whole(len, channels) == channels * q);
    vstd::arithmetic::div_mod::lemma_mod_multiples_basic(q, channels as int);
    assert(channels * q == q * channels) by (nonlinear_arith);
}

} // verus!
