//! Keeping an input open while somebody listens, and reopening it when it fails.

use crate::audio::capture::device::{Failure, Layout};
use crate::audio::error::{Error, ErrorView};
use crate::time::Duration;
use vstd::prelude::*;

verus! {

/// The first delay before reopening a capture source, in nanoseconds. It covers a USB device
/// re-enumerating.
pub const RETRY_MIN: u128 = 500_000_000;

/// The longest delay before reopening a capture source, in nanoseconds. It keeps a missing device
/// from spinning.
pub const RETRY_MAX: u128 = 4_000_000_000;

/// What the supervisor is waiting for.
#[derive(Clone, Copy, Debug, PartialEq, Eq, Structural)]
pub enum Phase {
    /// A listener.
    Idle,
    /// The input to open, while a listener is there.
    Opening,
    /// A buffer of the open input.
    Reading,
    /// The delay before the next attempt.
    Backoff,
}

/// What a read of the open input gave.
#[derive(Debug)]
pub enum Read {
    /// A buffer, and whether buffers were dropped before it.
    Samples {
        /// Whether buffers were dropped before this one.
        gap: bool,
    },
    /// The input stopped.
    Stopped,
    /// The input failed.
    Failed(Failure),
}

/// What happened to the supervisor.
#[derive(Debug)]
pub enum Event {
    /// A listener subscribed, or the track ended where `false`.
    Used(bool),
    /// The last listener left, or the track ended where `false`.
    Unused(bool),
    /// Opening the input ended.
    Opened(Result<(), Failure>),
    /// The open input was read.
    Read(Read),
    /// The delay passed.
    Slept,
    /// The output rejected what was delivered.
    Broken(Error),
}

/// What the supervisor does at once.
#[derive(Debug)]
pub enum Effect {
    /// Announce that capture waits for a listener.
    Waiting,
    /// Announce that the input is being opened.
    Starting,
    /// Announce that the input is live.
    Live,
    /// Announce a failure.
    Failed(Error),
    /// Close the input.
    Release,
    /// Start a new timeline epoch.
    ResetEpoch,
    /// Convert the buffer and write it.
    Deliver,
}

/// What the supervisor waits for. Demand wins over anything else that is ready, so an unused track
/// releases the device without starting a retry sequence.
#[derive(Debug)]
pub enum Wait {
    /// A listener.
    Used,
    /// The input to open, or the last listener to leave.
    Open,
    /// A buffer, or the last listener to leave.
    Read,
    /// This delay, or the last listener to leave.
    Sleep(Duration),
    /// Nothing: the supervisor is done.
    Done(Result<(), Error>),
}

/// What an [`Effect`] says.
pub enum EffectView {
    Waiting,
    Starting,
    Live,
    Failed(ErrorView),
    Release,
    ResetEpoch,
    Deliver,
}

/// What a [`Wait`] says.
pub enum WaitView {
    Used,
    Open,
    Read,
    Sleep(nat),
    Done(Result<(), ErrorView>),
}

impl View for Effect {
    type V = EffectView;

    open spec fn view(&self) -> EffectView {
        match self {
            Effect::Waiting => EffectView::Waiting,
            Effect::Starting => EffectView::Starting,
            Effect::Live => EffectView::Live,
            Effect::Failed(e) => EffectView::Failed(e@),
            Effect::Release => EffectView::Release,
            Effect::ResetEpoch => EffectView::ResetEpoch,
            Effect::Deliver => EffectView::Deliver,
        }
    }
}

impl View for Wait {
    type V = WaitView;

    open spec fn view(&self) -> WaitView {
        match self {
            Wait::Used => WaitView::Used,
            Wait::Open => WaitView::Open,
            Wait::Read => WaitView::Read,
            Wait::Sleep(delay) => WaitView::Sleep(delay.nanos as nat),
            Wait::Done(Ok(_)) => WaitView::Done(Ok(())),
            Wait::Done(Err(e)) => WaitView::Done(Err(e@)),
        }
    }
}

/// One turn of the supervisor: what it does at once, and what it waits for then.
#[derive(Debug)]
pub struct Turn {
    /// What to do, in order.
    pub effects: Vec<Effect>,
    /// What to wait for.
    pub wait: Wait,
}

impl Turn {
    /// What to do, in order.
    pub open spec fn does(self) -> Seq<EffectView> {
        Seq::new(self.effects@.len(), |i: int| self.effects@[i]@)
    }
}

/// What an [`Event`] says.
pub enum EventView {
    Used(bool),
    Unused(bool),
    Opened,
    Failed { error: ErrorView, retryable: bool },
    Samples { gap: bool },
    Slept,
    Broken(ErrorView),
}

/// What an input that stops by itself is reported as.
pub open spec fn stopped() -> ErrorView {
    ErrorView::Capture("audio capture stream stopped"@)
}

impl View for Event {
    type V = EventView;

    open spec fn view(&self) -> EventView {
        match self {
            Event::Used(used) => EventView::Used(*used),
            Event::Unused(unused) => EventView::Unused(*unused),
            Event::Opened(Ok(_)) => EventView::Opened,
            Event::Opened(Err(f)) => EventView::Failed {
                error: f.error(),
                retryable: f.retryable(),
            },
            Event::Read(Read::Samples { gap }) => EventView::Samples { gap: *gap },
            Event::Read(Read::Stopped) => EventView::Failed { error: stopped(), retryable: true },
            Event::Read(Read::Failed(f)) => EventView::Failed {
                error: f.error(),
                retryable: f.retryable(),
            },
            Event::Slept => EventView::Slept,
            Event::Broken(e) => EventView::Broken(e@),
        }
    }
}

/// What the supervisor remembers.
#[verifier::ext_equal]
pub struct SupervisorView {
    /// The next retry delay, in nanoseconds.
    pub next: nat,
    /// What the supervisor is waiting for.
    pub phase: Phase,
    /// The failure that no buffer followed yet.
    pub last_error: Option<ErrorView>,
}

/// How a supervisor ends when the track does: with the failure it was recovering from, if any.
pub open spec fn ended(s: SupervisorView) -> WaitView {
    WaitView::Done(
        match s.last_error {
            Some(e) => Err(e),
            None => Ok(()),
        },
    )
}

/// The delay after `next`: twice as long, up to the longest.
pub open spec fn doubled(next: nat) -> nat {
    if next * 2 < RETRY_MAX {
        next * 2
    } else {
        RETRY_MAX as nat
    }
}

/// Whether an event can reach a supervisor in this phase.
pub open spec fn fits(event: Event, phase: Phase) -> bool {
    match event {
        Event::Used(_) => phase == Phase::Idle,
        Event::Unused(_) => phase != Phase::Idle,
        Event::Opened(_) => phase == Phase::Opening,
        Event::Read(_) => phase == Phase::Reading,
        Event::Slept => phase == Phase::Backoff,
        Event::Broken(_) => phase == Phase::Reading,
    }
}

/// What the supervisor remembers after an event, what it does, and what it waits for.
///
/// - A new listener starts a new retry sequence.
/// - The last listener leaving closes the input and starts a new epoch.
/// - An open is no recovery until it delivers a buffer, so a flapping device keeps backing off.
/// - A failure that can clear starts a new epoch before the delay, so nothing stale is flushed.
pub open spec fn turn(s: SupervisorView, e: EventView) -> (
    SupervisorView,
    Seq<EffectView>,
    WaitView,
) {
    match e {
        EventView::Used(used) => if used {
            (
                SupervisorView {
                    next: RETRY_MIN as nat,
                    phase: Phase::Opening,
                    last_error: None,
                },
                seq![EffectView::Starting],
                WaitView::Open,
            )
        } else {
            (s, Seq::empty(), WaitView::Done(Ok(())))
        },
        EventView::Unused(unused) => {
            let closing = if s.phase == Phase::Reading {
                seq![EffectView::Release, EffectView::ResetEpoch]
            } else {
                Seq::empty()
            };
            if unused {
                (
                    SupervisorView { phase: Phase::Idle, ..s },
                    closing.push(EffectView::Waiting),
                    WaitView::Used,
                )
            } else {
                (s, closing, ended(s))
            }
        },
        EventView::Opened => (
            SupervisorView { phase: Phase::Reading, ..s },
            seq![EffectView::Live],
            WaitView::Read,
        ),
        EventView::Samples { gap } => (
            SupervisorView {
                next: if s.last_error is Some {
                    RETRY_MIN as nat
                } else {
                    s.next
                },
                phase: s.phase,
                last_error: None,
            },
            if gap {
                seq![EffectView::ResetEpoch, EffectView::Deliver]
            } else {
                seq![EffectView::Deliver]
            },
            WaitView::Read,
        ),
        EventView::Failed { error, retryable } => {
            let closing = if s.phase == Phase::Reading {
                seq![EffectView::Release, EffectView::Failed(error)]
            } else {
                seq![EffectView::Failed(error)]
            };
            if retryable {
                (
                    SupervisorView {
                        next: doubled(s.next),
                        phase: Phase::Backoff,
                        last_error: Some(error),
                    },
                    closing.push(EffectView::ResetEpoch),
                    WaitView::Sleep(s.next),
                )
            } else {
                (s, closing, WaitView::Done(Err(error)))
            }
        },
        EventView::Slept => (
            SupervisorView { phase: Phase::Opening, ..s },
            seq![EffectView::Starting],
            WaitView::Open,
        ),
        EventView::Broken(e) => (s, Seq::empty(), WaitView::Done(Err(e))),
    }
}

/// How discovering the source's format ended.
#[derive(Debug)]
pub enum Probed {
    /// This is the format.
    Found(Layout),
    /// Try again after this delay.
    Retry(Duration),
    /// Nothing will help.
    Fatal(Error),
}

/// Opens the source while a listener is subscribed, releases it when the last one leaves, and
/// rebuilds a failed source behind the same producer.
#[derive(Debug)]
pub struct Supervisor {
    next: Duration,
    layout: Option<Layout>,
    phase: Phase,
    last_error: Option<Error>,
}

impl View for Supervisor {
    type V = SupervisorView;

    closed spec fn view(&self) -> SupervisorView {
        SupervisorView {
            next: self.next.nanos as nat,
            phase: self.phase,
            last_error: match self.last_error {
                Some(e) => Some(e@),
                None => None,
            },
        }
    }
}

impl Supervisor {
    /// Whether the next delay is within its bounds.
    pub open spec fn wf(self) -> bool {
        RETRY_MIN <= self@.next <= RETRY_MAX
    }

    /// The format that was discovered.
    pub closed spec fn format(self) -> Option<Layout> {
        self.layout
    }

    /// A supervisor that discovered nothing yet.
    pub fn new() -> (r: Self)
        ensures
            r.wf(),
            r@ == (SupervisorView {
                next: RETRY_MIN as nat,
                phase: Phase::Idle,
                last_error: None,
            }),
            r.format() is None,
    {
        Supervisor {
            next: Duration { nanos: RETRY_MIN },
            layout: None,
            phase: Phase::Idle,
            last_error: None,
        }
    }

    /// A supervisor of a 48 kHz stereo source.
    pub fn exact() -> (r: Self)
        ensures
            r.wf(),
            r@ == (SupervisorView {
                next: RETRY_MIN as nat,
                phase: Phase::Idle,
                last_error: None,
            }),
            r.format() == Some(Layout { sample_rate: 48_000, channels: 2 }),
    {
        Supervisor {
            next: Duration { nanos: RETRY_MIN },
            layout: Some(Layout { sample_rate: 48_000, channels: 2 }),
            phase: Phase::Idle,
            last_error: None,
        }
    }

    /// The format that was discovered.
    pub fn layout(&self) -> (r: Option<Layout>)
        ensures
            r == self.format(),
    {
        self.layout
    }

    /// Start a new retry sequence.
    pub fn reset(&mut self)
        ensures
            final(self).wf(),
            final(self)@ == (SupervisorView { next: RETRY_MIN as nat, ..old(self)@ }),
            final(self).format() == old(self).format(),
    {
        self.next = Duration { nanos: RETRY_MIN };
    }

    /// The delay before the next attempt; the one after it is twice as long, up to the longest.
    pub fn advance(&mut self) -> (r: Duration)
        requires
            old(self).wf(),
        ensures
            final(self).wf(),
            r.nanos == old(self)@.next,
            final(self)@ == (SupervisorView { next: doubled(old(self)@.next), ..old(self)@ }),
            final(self).format() == old(self).format(),
    {
        let wait = self.next;
        let twice: u128 = self.next.nanos * 2;
        self.next = Duration {
            nanos: if twice < RETRY_MAX {
                twice
            } else {
                RETRY_MAX
            },
        };
        wait
    }

    /// Take in a probe of the source's format, retrying failures that can clear when the device or
    /// host state changes.
    pub fn probed(&mut self, result: Result<Layout, Failure>) -> (r: Probed)
        requires
            old(self).wf(),
        ensures
            final(self).wf(),
            match result {
                Ok(layout) => {
                    &&& r == Probed::Found(layout)
                    &&& final(self).format() == Some(layout)
                    &&& final(self)@ == (SupervisorView { next: RETRY_MIN as nat, ..old(self)@ })
                },
                Err(f) => {
                    &&& final(self).format() == old(self).format()
                    &&& if f.retryable() {
                        r is Retry && r->Retry_0.nanos == old(self)@.next && final(self)@ == (
                        SupervisorView { next: doubled(old(self)@.next), ..old(self)@ })
                    } else {
                        r is Fatal && r->Fatal_0@ == f.error() && final(self)@ == old(self)@
                    }
                },
            },
    {
        match result {
            Ok(layout) => {
                self.reset();
                self.layout = Some(layout);
                Probed::Found(layout)
            },
            Err(failure) => {
                if failure.is_retryable() {
                    Probed::Retry(self.advance())
                } else {
                    Probed::Fatal(failure.into_error())
                }
            },
        }
    }

    /// Begin to supervise: wait for a listener.
    pub fn start(&mut self) -> (r: Turn)
        requires
            old(self).wf(),
        ensures
            final(self).wf(),
            final(self)@ == (SupervisorView { phase: Phase::Idle, ..old(self)@ }),
            final(self).format() == old(self).format(),
            r.does() == seq![EffectView::Waiting],
            r.wait@ == WaitView::Used,
    {
        self.phase = Phase::Idle;
        let turn = Turn { effects: vec![Effect::Waiting], wait: Wait::Used };
        assert(turn.does() =~= seq![EffectView::Waiting]);
        turn
    }

    fn failed(&mut self, failure: Failure) -> (r: Turn)
        requires
            old(self).wf(),
        ensures
            final(self).wf(),
            final(self).format() == old(self).format(),
            (final(self)@, r.does(), r.wait@) == turn(
                old(self)@,
                EventView::Failed { error: failure.error(), retryable: failure.retryable() },
            ),
    {
        let ghost expected = turn(
            self@,
            EventView::Failed { error: failure.error(), retryable: failure.retryable() },
        ).1;
        let retryable: bool = failure.is_retryable();
        let error = failure.into_error();
        let mut effects: Vec<Effect> = Vec::new();
        if self.phase == Phase::Reading {
            effects.push(Effect::Release);
        }
        effects.push(Effect::Failed(error.duplicate()));
        if !retryable {
            let turn = Turn { effects, wait: Wait::Done(Err(error)) };
            assert(turn.does() =~= expected);
            return turn;
        }
        effects.push(Effect::ResetEpoch);
        self.last_error = Some(error);
        let wait = self.advance();
        self.phase = Phase::Backoff;
        let turn = Turn { effects, wait: Wait::Sleep(wait) };
        assert(turn.does() =~= expected);
        turn
    }

    /// Take in what happened, and decide what comes next.
    pub fn step(&mut self, event: Event) -> (r: Turn)
        requires
            old(self).wf(),
            fits(event, old(self)@.phase),
        ensures
            final(self).wf(),
            final(self).format() == old(self).format(),
            (final(self)@, r.does(), r.wait@) == turn(old(self)@, event@),
    {
        let ghost before = self@;
        let ghost expected = turn(self@, event@).1;
        let mut effects: Vec<Effect> = Vec::new();
        let wait: Wait = match event {
            Event::Used(used) => {
                if used {
                    self.last_error = None;
                    self.reset();
                    self.phase = Phase::Opening;
                    effects.push(Effect::Starting);
                    Wait::Open
                } else {
                    Wait::Done(Ok(()))
                }
            },
            Event::Unused(unused) => {
                if self.phase == Phase::Reading {
                    effects.push(Effect::Release);
                    effects.push(Effect::ResetEpoch);
                }
                if unused {
                    self.phase = Phase::Idle;
                    effects.push(Effect::Waiting);
                    Wait::Used
                } else {
                    match &self.last_error {
                        Some(e) => Wait::Done(Err(e.duplicate())),
                        None => Wait::Done(Ok(())),
                    }
                }
            },
            Event::Opened(Ok(_)) => {
                self.phase = Phase::Reading;
                effects.push(Effect::Live);
                Wait::Read
            },
            Event::Opened(Err(failure)) => {
                return self.failed(failure);
            },
            Event::Read(Read::Samples { gap }) => {
                if self.last_error.take().is_some() {
                    self.reset();
                }
                if gap {
                    effects.push(Effect::ResetEpoch);
                }
                effects.push(Effect::Deliver);
                Wait::Read
            },
            Event::Read(Read::Stopped) => {
                let failure = Failure::retry(
                    Error::Capture("audio capture stream stopped".to_owned()),
                );
                return self.failed(failure);
            },
            Event::Read(Read::Failed(failure)) => {
                return self.failed(failure);
            },
            Event::Slept => {
                self.phase = Phase::Opening;
                effects.push(Effect::Starting);
                Wait::Open
            },
            Event::Broken(e) => Wait::Done(Err(e)),
        };
        let turn = Turn { effects, wait };
        assert(turn.does() =~= expected);
        turn
    }
}

/// A device that opens but stops before it delivers anything waits twice as long before the next
/// attempt, up to the longest delay: an open alone is no recovery.
pub proof fn law_flapping_device_backs_off(s: SupervisorView, error: ErrorView)
    requires
        s.phase == Phase::Reading,
    ensures
        ({
            let failure = EventView::Failed { error, retryable: true };
            let first = turn(s, failure);
            let slept = turn(first.0, EventView::Slept);
            let opened = turn(slept.0, EventView::Opened);
            let second = turn(opened.0, failure);
            &&& first.2 == WaitView::Sleep(s.next)
            &&& second.2 == WaitView::Sleep(doubled(s.next))
        }),
{
}

/// The first buffer after a failure ends the retry sequence.
pub proof fn law_a_buffer_is_a_recovery(s: SupervisorView, gap: bool)
    requires
        s.last_error is Some,
    ensures
        turn(s, EventView::Samples { gap }).0.next == RETRY_MIN,
        turn(s, EventView::Samples { gap }).0.last_error is None,
{
}

/// A track that ends while the input is being recovered ends with the failure; one that ends after
/// the input recovered ends cleanly.
pub proof fn law_track_end_reports_the_failure(s: SupervisorView, error: ErrorView)
    ensures
        ({
            let failed = turn(s, EventView::Failed { error, retryable: true }).0;
            let slept = turn(failed, EventView::Slept).0;
            let opened = turn(slept, EventView::Opened).0;
            let recovered = turn(opened, EventView::Samples { gap: false }).0;
            &&& turn(failed, EventView::Unused(false)).2 == WaitView::Done(Err(error))
            &&& turn(slept, EventView::Unused(false)).2 == WaitView::Done(Err(error))
            &&& turn(opened, EventView::Unused(false)).2 == WaitView::Done(Err(error))
            &&& turn(recovered, EventView::Unused(false)).2 == WaitView::Done(Ok(()))
        }),
{
}

/// A failure that can clear starts a new epoch before anything is waited for.
pub proof fn law_a_failure_starts_an_epoch(s: SupervisorView, error: ErrorView)
    ensures
        turn(s, EventView::Failed { error, retryable: true }).1.last() == EffectView::ResetEpoch,
{
}

/// A device that keeps failing is tried again after half a second, then after twice as long each
/// time, up to four seconds.
pub proof fn law_retries_slow_down_to_four_seconds(next: nat)
    ensures
        RETRY_MIN == 500_000_000,
        RETRY_MAX == 4_000_000_000,
        next <= 2_000_000_000 ==> doubled(next) == 2 * next,
        next >= 2_000_000_000 ==> doubled(next) == 4_000_000_000,
{
}

/// What each event has the supervisor do: it delivers samples and nothing else, starts when the
/// track is used or a pause is over, goes live once the device is open, and waits when the track is
/// unused. It releases a device that it was reading where the track is unused or the device failed,
/// and before anything else. Timestamps start over where samples were lost: over a gap, before the
/// samples are delivered, behind a failure, and when a device is let go.
pub proof fn law_the_supervisor_does_what_events_call_for(
    s: SupervisorView,
    e: EventView,
    error: ErrorView,
)
    ensures
        ({
            let (after, does, wait) = turn(s, e);
            &&& does.contains(EffectView::Deliver) <==> e is Samples
            &&& does.contains(EffectView::Live) <==> e is Opened
            &&& does.contains(EffectView::Starting) <==> e is Slept || e == EventView::Used(true)
            &&& does.contains(EffectView::Waiting) <==> e == EventView::Unused(true)
            &&& does.contains(EffectView::Release) <==> s.phase == Phase::Reading && (e is Unused
                || e is Failed)
            &&& does.contains(EffectView::ResetEpoch) <==> {
                ||| e == (EventView::Samples { gap: true })
                ||| e is Unused && s.phase == Phase::Reading
                ||| e is Failed && e->retryable
            }
            &&& does.contains(EffectView::Failed(error)) <==> e is Failed && e->error == error
            &&& does.contains(EffectView::Release) ==> does[0] == EffectView::Release
            &&& does.contains(EffectView::Deliver) ==> does.last() == EffectView::Deliver
            &&& does.contains(EffectView::Waiting) ==> does.last() == EffectView::Waiting
            &&& does.contains(EffectView::Failed(error)) && does.contains(EffectView::ResetEpoch)
                ==> does.last() == EffectView::ResetEpoch
            &&& does.no_duplicates()
        }),
{
    let (after, does, wait) = turn(s, e);
    lemma_contains(does, EffectView::Deliver);
    lemma_contains(does, EffectView::Live);
    lemma_contains(does, EffectView::Starting);
    lemma_contains(does, EffectView::Waiting);
    lemma_contains(does, EffectView::Release);
    lemma_contains(does, EffectView::ResetEpoch);
    lemma_contains(does, EffectView::Failed(error));
}

proof fn lemma_contains(does: Seq<EffectView>, effect: EffectView)
    requires
        does.len() <= 3,
    ensures
        does.contains(effect) <==> {
            ||| does.len() > 0 && does[0] == effect
            ||| does.len() > 1 && does[1] == effect
            ||| does.len() > 2 && does[2] == effect
        },
{
}

/// What the supervisor waits for: it sleeps behind a failure that can be tried again, as long as it
/// had come to, and ends on any other, on a source that broke and on the end of the track. The end
/// reports the failure that was not recovered from, if there was one.
pub proof fn law_the_supervisor_waits_for_what_comes_next(s: SupervisorView, e: EventView)
    ensures
        ({
            let (after, does, wait) = turn(s, e);
            match wait {
                WaitView::Used => e == EventView::Unused(true) && after.phase == Phase::Idle
                    && after.next == s.next && after.last_error == s.last_error,
                WaitView::Open => {
                    &&& after.phase == Phase::Opening
                    &&& e == EventView::Used(true) || e is Slept
                    &&& e is Used ==> after.next == 500_000_000 && after.last_error is None
                    &&& e is Slept ==> after.next == s.next && after.last_error == s.last_error
                },
                WaitView::Read => {
                    &&& e is Opened || e is Samples
                    &&& e is Opened ==> after.phase == Phase::Reading && after.next == s.next
                        && after.last_error == s.last_error
                    &&& e is Samples ==> after.phase == s.phase && after.last_error is None
                    &&& e is Samples && s.last_error is Some ==> after.next == 500_000_000
                    &&& e is Samples && s.last_error is None ==> after.next == s.next
                },
                WaitView::Sleep(delay) => {
                    &&& e is Failed && e->retryable && after.last_error == Some(e->error)
                    &&& delay == s.next
                    &&& after.phase == Phase::Backoff
                    &&& after.next == 2 * s.next || after.next == 4_000_000_000
                },
                WaitView::Done(Ok(_)) => after == s && (e == EventView::Used(false) || e
                    == EventView::Unused(false) && s.last_error is None),
                WaitView::Done(Err(error)) => after == s && {
                    ||| e == EventView::Unused(false) && s.last_error == Some(error)
                    ||| e == (EventView::Failed { error, retryable: false })
                    ||| e == EventView::Broken(error)
                },
            }
        }),
{
}

/// A stream that stops is a failure that is tried again. Any other failure says by itself whether it
/// is, whether it came with an opening or a read.
pub proof fn law_a_stopped_stream_is_tried_again(failure: Failure)
    ensures
        Event::Read(Read::Stopped)@ is Failed && Event::Read(Read::Stopped)@->retryable,
        Event::Read(Read::Failed(failure))@ == (EventView::Failed {
            error: failure.error(),
            retryable: failure.retryable(),
        }),
        Event::Opened(Err(failure))@ == (EventView::Failed {
            error: failure.error(),
            retryable: failure.retryable(),
        }),
        Event::Opened(Ok(()))@ is Opened,
{
}

} // verus!
