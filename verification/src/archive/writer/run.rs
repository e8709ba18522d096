//! The recording loop: enrollment, turns, and deferred deletions.

use crate::archive::error::{Error, ErrorView};
use crate::archive::path::Key;
use crate::archive::recover::{is_timeline, timeline_suffix};
use crate::text::{has_suffix, same};
use std::collections::VecDeque;
use vstd::prelude::*;

verus! {

/// The names enrolled on a writer. A name is never reused, so its records stay consecutive.
#[derive(Debug)]
pub struct Enrollment {
    names: Vec<String>,
    pending: usize,
}

impl Enrollment {
    /// Whether `name` is enrolled, or about to be.
    pub closed spec fn has(self, name: Seq<char>) -> bool {
        exists|i: int| 0 <= i < self.names@.len() && (#[trigger] self.names@[i])@ == name
    }

    /// Enrollments between their first check and their outcome, so the recording does not end under
    /// one that is about to arrive.
    pub closed spec fn in_progress(self) -> int {
        self.pending as int
    }

    /// Whether every name is held once.
    pub closed spec fn wf(self) -> bool {
        forall|i: int, j: int|
            0 <= i < j < self.names@.len() ==> (#[trigger] self.names@[i])@ != (
            #[trigger] self.names@[j])@
    }

    /// No name enrolled.
    pub fn new() -> (r: Self)
        ensures
            r.wf(),
            r.in_progress() == 0,
            forall|name: Seq<char>| !(#[trigger] r.has(name)),
    {
        Enrollment { names: Vec::new(), pending: 0 }
    }

    /// How many enrollments are in progress.
    pub fn enrolling(&self) -> (r: usize)
        ensures
            r == self.in_progress(),
    {
        self.pending
    }

    /// Where `name` is held, or how many names are.
    fn find(&self, name: &str) -> (r: usize)
        ensures
            r <= self.names@.len(),
            r < self.names@.len() ==> self.names@[r as int]@ == name@,
            r < self.names@.len() <==> self.has(name@),
    {
        let mut i: usize = 0;
        while i < self.names.len()
            invariant
                0 <= i <= self.names@.len(),
                forall|j: int| 0 <= j < i ==> (#[trigger] self.names@[j])@ != name@,
            decreases self.names@.len() - i,
        {
            if same(self.names[i].as_str(), name) {
                return i;
            }
            i = i + 1;
        }
        i
    }

    /// Begin to enroll `name`, refusing a timeline and a name that was enrolled before.
    pub fn begin(&mut self, name: &str) -> (r: Result<(), Error>)
        requires
            old(self).wf(),
            old(self).in_progress() < usize::MAX,
        ensures
            final(self).wf(),
            match r {
                Ok(_) => {
                    &&& !has_suffix(name@, timeline_suffix())
                    &&& !old(self).has(name@)
                    &&& final(self).in_progress() == old(self).in_progress() + 1
                    &&& forall|n: Seq<char>| #[trigger]
                        final(self).has(n) == (old(self).has(n) || n == name@)
                },
                Err(e) => {
                    &&& has_suffix(name@, timeline_suffix()) || old(self).has(name@)
                    &&& e@ == ErrorView::Enrolled(name@)
                    &&& *final(self) == *old(self)
                },
            },
    {
        if is_timeline(name) || self.find(name) < self.names.len() {
            return Err(Error::Enrolled(name.to_owned()));
        }
        self.names.push(name.to_owned());
        self.pending = self.pending + 1;
        proof {
            let n = old(self).names@.len() as int;
            assert(forall|i: int| 0 <= i < n ==> self.names@[i] == old(self).names@[i]);
            assert forall|i: int, j: int| 0 <= i < j < self.names@.len() implies (
            #[trigger] self.names@[i])@ != (#[trigger] self.names@[j])@ by {
                if j == n {
                    assert(old(self).names@[i]@ != name@);
                }
            }
            assert forall|m: Seq<char>| #[trigger] self.has(m) == (old(self).has(m) || m
                == name@) by {
                if old(self).has(m) {
                    let i = choose|i: int| 0 <= i < n && (#[trigger] old(self).names@[i])@ == m;
                    assert(self.names@[i]@ == m);
                }
                if m == name@ {
                    assert(self.names@[n]@ == m);
                }
                if self.has(m) {
                    let i = choose|i: int|
                        0 <= i < self.names@.len() && (#[trigger] self.names@[i])@ == m;
                    if i < n {
                        assert(old(self).names@[i]@ == m);
                    }
                }
            }
        }
        Ok(())
    }

    /// End the enrollment of `name`: a failed one frees the name again.
    pub fn end(&mut self, name: &str, succeeded: bool)
        requires
            old(self).wf(),
            old(self).in_progress() > 0,
        ensures
            final(self).wf(),
            final(self).in_progress() == old(self).in_progress() - 1,
            forall|n: Seq<char>| #[trigger]
                final(self).has(n) == (old(self).has(n) && (succeeded || n != name@)),
    {
        self.pending = self.pending - 1;
        if !succeeded {
            let at: usize = self.find(name);
            if at < self.names.len() {
                let _ = self.names.remove(at);
                proof {
                    let before = old(self).names@;
                    assert(self.names@ == before.remove(at as int));
                    assert forall|i: int, j: int| 0 <= i < j < self.names@.len() implies (
                    #[trigger] self.names@[i])@ != (#[trigger] self.names@[j])@ by {
                        let a = if i < at { i } else { i + 1 };
                        let b = if j < at { j } else { j + 1 };
                        assert(before[a]@ != before[b]@);
                    }
                    assert forall|m: Seq<char>| #[trigger] self.has(m) == (old(self).has(m) && m
                        != name@) by {
                        if self.has(m) {
                            let i = choose|i: int|
                                0 <= i < self.names@.len() && (#[trigger] self.names@[i])@ == m;
                            let a = if i < at { i } else { i + 1 };
                            assert(before[a]@ == m);
                            if i < at {
                                assert(before[i]@ != before[at as int]@);
                            } else {
                                assert(before[at as int]@ != before[i + 1]@);
                            }
                        }
                        if old(self).has(m) && m != name@ {
                            let i = choose|i: int|
                                0 <= i < before.len() && (#[trigger] before[i])@ == m;
                            let a = if i < at { i } else { i - 1 };
                            assert(self.names@[a]@ == m);
                        }
                    }
                }
            }
        }
    }
}

/// Objects to delete once a deadline passes.
#[derive(Debug)]
pub struct Deletion {
    /// When they may be deleted, on the writer's clock.
    pub deadline: u64,
    /// The objects.
    pub keys: Vec<Key>,
}

/// What one turn of the recording loop is to do.
#[derive(Clone, Copy, Debug, PartialEq, Eq, Structural)]
pub struct Turn {
    /// Refuse further commands, so an enrollment racing the end fails instead of vanishing.
    pub refuse: bool,
    /// The recording is over.
    pub stop: bool,
    /// Wait for a command.
    pub commands: bool,
    /// Wait for the source to close.
    pub source: bool,
    /// Wait for an enrollment in progress to settle.
    pub enrolling: bool,
    /// Wait for this deadline, then delete what is due.
    pub deadline: Option<u64>,
}

/// The state of the recording loop.
#[derive(Debug)]
pub struct Run {
    /// The source broadcast closed.
    pub closed: bool,
    /// Commands may still arrive.
    pub accepting: bool,
    /// Expired or orphaned objects to delete, oldest first.
    pub deletions: VecDeque<Deletion>,
}

/// Whether nothing is left to record or commit.
pub open spec fn idle(run: Run, tracks: usize, commits: usize) -> bool {
    run.closed && tracks == 0 && commits == 0
}

/// The next turn of the recording loop.
pub open spec fn turn_of(run: Run, tracks: usize, commits: usize, enrolling: usize) -> Turn {
    Turn {
        refuse: idle(run, tracks, commits) && enrolling == 0,
        stop: idle(run, tracks, commits) && enrolling == 0 && !run.accepting,
        commands: run.accepting,
        source: !run.closed,
        enrolling: idle(run, tracks, commits) && run.accepting,
        deadline: if run.deletions@.len() == 0 {
            None::<u64>
        } else {
            Some(run.deletions@[0].deadline)
        },
    }
}

impl Run {
    /// A recording about to start; `orphans` is what a recovered recording left to delete.
    pub fn new(orphans: Vec<Key>, deadline: u64) -> (r: Self)
        ensures
            !r.closed,
            r.accepting,
            r.deletions@ == (if orphans@.len() == 0 {
                Seq::<Deletion>::empty()
            } else {
                seq![Deletion { deadline, keys: orphans }]
            }),
    {
        let mut deletions: VecDeque<Deletion> = VecDeque::new();
        if orphans.len() > 0 {
            deletions.push_back(Deletion { deadline, keys: orphans });
        }
        let run = Run { closed: false, accepting: true, deletions };
        assert(run.deletions@ =~= (if orphans@.len() == 0 {
            Seq::<Deletion>::empty()
        } else {
            seq![Deletion { deadline, keys: orphans }]
        }));
        run
    }

    /// Decide the next turn, given how many tracks, commits and enrollments are live. The recording
    /// stops once the source closed, everything is committed, nothing is being enrolled, and no
    /// command is left.
    pub fn turn(&self, tracks: usize, commits: usize, enrolling: usize) -> (r: Turn)
        ensures
            r == turn_of(*self, tracks, commits, enrolling),
    {
        let idle: bool = self.closed && tracks == 0 && commits == 0;
        let deadline: Option<u64> = if self.deletions.len() == 0 {
            None
        } else {
            Some(self.deletions[0].deadline)
        };
        Turn {
            refuse: idle && enrolling == 0,
            stop: idle && enrolling == 0 && !self.accepting,
            commands: self.accepting,
            source: !self.closed,
            enrolling: idle && self.accepting,
            deadline,
        }
    }

    /// No further command will arrive.
    pub fn commands_ended(&mut self)
        ensures
            !final(self).accepting,
            final(self).closed == old(self).closed,
            final(self).deletions@ == old(self).deletions@,
    {
        self.accepting = false;
    }

    /// The source broadcast closed.
    pub fn source_closed(&mut self)
        ensures
            final(self).closed,
            final(self).accepting == old(self).accepting,
            final(self).deletions@ == old(self).deletions@,
    {
        self.closed = true;
    }

    /// Schedule expired objects for deletion.
    pub fn expired(&mut self, keys: Vec<Key>, deadline: u64)
        ensures
            final(self).closed == old(self).closed,
            final(self).accepting == old(self).accepting,
            final(self).deletions@ == (if keys@.len() == 0 {
                old(self).deletions@
            } else {
                old(self).deletions@.push(Deletion { deadline, keys })
            }),
    {
        if keys.len() > 0 {
            self.deletions.push_back(Deletion { deadline, keys });
        }
    }

    /// Take the oldest scheduled deletion.
    pub fn due(&mut self) -> (r: Option<Deletion>)
        ensures
            final(self).closed == old(self).closed,
            final(self).accepting == old(self).accepting,
            match r {
                Some(deletion) => old(self).deletions@ == seq![deletion] + final(self).deletions@,
                None => old(self).deletions@.len() == 0 && final(self).deletions@.len() == 0,
            },
    {
        let ghost before = self.deletions@;
        let r = self.deletions.pop_front();
        proof {
            if r is Some {
                assert(before =~= seq![r->0] + self.deletions@);
            }
        }
        r
    }
}

/// How a finished recording ends: with the source's error where the broadcast was aborted.
pub fn outcome(cause: Option<String>) -> (r: Result<(), Error>)
    ensures
        match cause {
            None => r is Ok,
            Some(text) => r is Err && r->Err_0@ == ErrorView::Source(text@),
        },
{
    match cause {
        None => Ok(()),
        Some(text) => Err(Error::Source(text)),
    }
}

/// The recording never stops while the source is open, a track or a commit is live, an enrollment is
/// in progress, or a command may still arrive.
pub proof fn law_stops_only_when_done(run: Run, tracks: usize, commits: usize, enrolling: usize)
    requires
        turn_of(run, tracks, commits, enrolling).stop,
    ensures
        run.closed,
        tracks == 0,
        commits == 0,
        enrolling == 0,
        !run.accepting,
{
}

/// A recording that is done and refuses further commands stops once they end.
pub proof fn law_stops_when_done(run: Run)
    requires
        run.closed,
        turn_of(run, 0, 0, 0).refuse,
    ensures
        turn_of(Run { accepting: false, ..run }, 0, 0, 0).stop,
{
}

/// A turn waits for commands while they are accepted, for the source while it is open, and for the
/// first deletion that was put off. Only once the source is closed and nothing is left to write are
/// commands refused, and the run stops there where none can come any more.
pub proof fn law_a_turn_waits_for_what_can_come(
    run: Run,
    tracks: usize,
    commits: usize,
    enrolling: usize,
)
    ensures
        ({
            let turn = turn_of(run, tracks, commits, enrolling);
            &&& turn.commands <==> run.accepting
            &&& turn.source <==> !run.closed
            &&& turn.deadline is Some <==> run.deletions@.len() > 0
            &&& run.deletions@.len() > 0 ==> turn.deadline == Some(run.deletions@[0].deadline)
            &&& turn.refuse <==> run.closed && tracks + commits + enrolling == 0
            &&& turn.stop <==> run.closed && tracks + commits + enrolling == 0 && !run.accepting
            &&& turn.enrolling <==> run.closed && tracks + commits == 0 && run.accepting
        }),
{
}

} // verus!
