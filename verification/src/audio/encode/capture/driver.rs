//! The life of a capture-backed publication, from the first probe to its end.

use super::control::Status;
use crate::audio::capture::device::Layout;
use crate::audio::error::{message, Error, ErrorView};
use crate::audio::layout::{no_channels, wave_layout};
use vstd::prelude::*;

verus! {

/// Whether the input's layout is known.
#[derive(Clone, Copy, Debug, PartialEq, Eq, Structural)]
pub enum Stage {
    /// Not yet: the track is reserved, and not in the catalog.
    Discovering,
    /// It is, so samples can be encoded.
    Capturing,
}

/// What the driver is waiting for.
#[derive(Clone, Copy, Debug, PartialEq, Eq, Structural)]
pub enum Phase {
    /// What the controls ask for.
    Asking,
    /// A control action, with capture stopped.
    Idle,
    /// The input's layout.
    Probing,
    /// The catalog rendition.
    Registering,
    /// The capture to end.
    Running,
    /// A control action, after a failure.
    Parked,
    /// Nothing any more.
    Over,
}

/// The layout a rendition is registered with.
#[derive(Clone, Copy, Debug, PartialEq, Eq, Structural)]
pub struct Shape {
    /// Samples per second, per channel.
    pub sample_rate: u32,
    /// The speakers of the interleaved channels.
    pub layout: crate::audio::layout::Layout,
}

/// What happened to the driver.
#[derive(Debug)]
pub enum Event {
    /// What the controls ask for.
    Asked {
        /// Whether capture is enabled.
        enabled: bool,
    },
    /// The controls ask for something else.
    Changed,
    /// The last control handle was dropped.
    Dropped,
    /// The track ended.
    Closed,
    /// The input was probed.
    Probed(Result<Layout, Error>),
    /// The rendition was registered.
    Registered(Result<(), Error>),
    /// The capture ended.
    Captured(Result<(), Error>),
}

/// What the driver does at once.
#[derive(Debug)]
pub enum Effect {
    /// Drop the meter to zero: no samples are delivered.
    Silence,
    /// Publish a status, with no device and no failure.
    Publish(Status),
    /// Publish a failure, with the device that is on record.
    Fail(Error),
    /// Forget the retry delay: a replaced source deserves an immediate probe.
    ResetBackoff,
    /// Start a new timeline epoch.
    ResetEpoch,
    /// Reserve the bandwidth of the encoded track.
    Reserve,
    /// Finish the track.
    Finish,
    /// Abort the track, for this reason.
    Abort(String),
    /// Close the published state.
    Close,
}

/// What the driver waits for.
#[derive(Debug)]
pub enum Wait {
    /// What the controls ask for, which is there.
    Ask,
    /// A control action, or the track to end.
    Control,
    /// The input's layout, a control action, or the track to end.
    Probe,
    /// A rendition of this shape.
    Register(Shape),
    /// The capture to end, or a control action.
    Run,
    /// Nothing: the driver is over.
    Exit(Result<(), Error>),
}

/// What an [`Event`] says.
#[allow(inconsistent_fields)]
pub enum EventView {
    Asked { enabled: bool },
    Changed,
    Dropped,
    Closed,
    Probed(Result<Layout, ErrorView>),
    Registered(Result<(), ErrorView>),
    Captured(Result<(), ErrorView>),
}

/// What an [`Effect`] says.
pub enum EffectView {
    Silence,
    Publish(Status),
    Fail(ErrorView),
    ResetBackoff,
    ResetEpoch,
    Reserve,
    Finish,
    Abort(Seq<char>),
    Close,
}

/// What a [`Wait`] says.
pub enum WaitView {
    Ask,
    Control,
    Probe,
    Register(Shape),
    Run,
    Exit(Result<(), ErrorView>),
}

impl View for Event {
    type V = EventView;

    open spec fn view(&self) -> EventView {
        match self {
            Event::Asked { enabled } => EventView::Asked { enabled: *enabled },
            Event::Changed => EventView::Changed,
            Event::Dropped => EventView::Dropped,
            Event::Closed => EventView::Closed,
            Event::Probed(Ok(layout)) => EventView::Probed(Ok(*layout)),
            Event::Probed(Err(e)) => EventView::Probed(Err(e@)),
            Event::Registered(Ok(_)) => EventView::Registered(Ok(())),
            Event::Registered(Err(e)) => EventView::Registered(Err(e@)),
            Event::Captured(Ok(_)) => EventView::Captured(Ok(())),
            Event::Captured(Err(e)) => EventView::Captured(Err(e@)),
        }
    }
}

impl View for Effect {
    type V = EffectView;

    open spec fn view(&self) -> EffectView {
        match self {
            Effect::Silence => EffectView::Silence,
            Effect::Publish(status) => EffectView::Publish(*status),
            Effect::Fail(e) => EffectView::Fail(e@),
            Effect::ResetBackoff => EffectView::ResetBackoff,
            Effect::ResetEpoch => EffectView::ResetEpoch,
            Effect::Reserve => EffectView::Reserve,
            Effect::Finish => EffectView::Finish,
            Effect::Abort(text) => EffectView::Abort(text@),
            Effect::Close => EffectView::Close,
        }
    }
}

impl View for Wait {
    type V = WaitView;

    open spec fn view(&self) -> WaitView {
        match self {
            Wait::Ask => WaitView::Ask,
            Wait::Control => WaitView::Control,
            Wait::Probe => WaitView::Probe,
            Wait::Register(shape) => WaitView::Register(*shape),
            Wait::Run => WaitView::Run,
            Wait::Exit(Ok(_)) => WaitView::Exit(Ok(())),
            Wait::Exit(Err(e)) => WaitView::Exit(Err(e@)),
        }
    }
}

/// One turn of the driver: what it does at once, and what it waits for then.
#[derive(Debug)]
pub struct Turn {
    /// What to do, in order.
    pub effects: Vec<Effect>,
    /// What to wait for.
    pub wait: Wait,
}

impl Turn {
    /// What to do, in order.
    pub open spec fn does(self) -> Seq<EffectView> {
        Seq::new(self.effects@.len(), |i: int| self.effects@[i]@)
    }
}

/// What the driver remembers.
#[verifier::ext_equal]
pub struct DriverView {
    pub stage: Stage,
    pub phase: Phase,
    /// The failure it is parked on.
    pub failure: Option<ErrorView>,
    /// Whether a failure parks it at all.
    pub park: bool,
}

/// What a driver does last: end the track cleanly, or abort it, and then close its state.
pub open spec fn farewell(result: Result<(), ErrorView>) -> Seq<EffectView> {
    match result {
        Ok(_) => seq![
            EffectView::Publish(Status::Ended),
            EffectView::Finish,
            EffectView::Silence,
            EffectView::Close,
        ],
        Err(e) => seq![
            EffectView::Fail(e),
            EffectView::Abort(message(e)),
            EffectView::Silence,
            EffectView::Close,
        ],
    }
}

/// A driver that is over.
pub open spec fn over(d: DriverView, before: Seq<EffectView>, result: Result<(), ErrorView>) -> (
    DriverView,
    Seq<EffectView>,
    WaitView,
) {
    (
        DriverView { phase: Phase::Over, failure: None, ..d },
        before + farewell(result),
        WaitView::Exit(result),
    )
}

/// A driver whose input failed for good: it parks until a control action, unless nobody can act or
/// the track is gone.
pub open spec fn parked(
    d: DriverView,
    before: Seq<EffectView>,
    error: ErrorView,
    closed: bool,
) -> (DriverView, Seq<EffectView>, WaitView) {
    let failing = before.push(EffectView::Fail(error));
    if !d.park || closed {
        over(d, failing, Err(error))
    } else {
        (
            DriverView { phase: Phase::Parked, failure: Some(error), ..d },
            failing,
            WaitView::Control,
        )
    }
}

/// A driver that asks the controls again.
pub open spec fn again(d: DriverView, effects: Seq<EffectView>) -> (
    DriverView,
    Seq<EffectView>,
    WaitView,
) {
    (DriverView { phase: Phase::Asking, failure: None, ..d }, effects, WaitView::Ask)
}

/// Whether an event can reach a driver in this phase.
pub open spec fn fits(event: Event, phase: Phase) -> bool {
    match event {
        Event::Asked { .. } => phase == Phase::Asking,
        Event::Changed => phase == Phase::Idle || phase == Phase::Probing || phase == Phase::Running
            || phase == Phase::Parked,
        Event::Dropped => phase == Phase::Idle || phase == Phase::Probing || phase == Phase::Running
            || phase == Phase::Parked,
        Event::Closed => phase == Phase::Idle || phase == Phase::Probing || phase == Phase::Parked,
        Event::Probed(_) => phase == Phase::Probing,
        Event::Registered(_) => phase == Phase::Registering,
        Event::Captured(_) => phase == Phase::Running,
    }
}

/// What the driver remembers after an event, what it does, and what it waits for. `closed` says
/// whether the track is gone.
pub open spec fn turn(d: DriverView, event: EventView, closed: bool) -> (
    DriverView,
    Seq<EffectView>,
    WaitView,
) {
    match event {
        EventView::Asked { enabled } => if !enabled {
            (
                DriverView { phase: Phase::Idle, ..d },
                seq![EffectView::Silence, EffectView::Publish(Status::Stopped)],
                WaitView::Control,
            )
        } else if d.stage == Stage::Discovering {
            (
                DriverView { phase: Phase::Probing, ..d },
                seq![EffectView::Publish(Status::Starting)],
                WaitView::Probe,
            )
        } else {
            (DriverView { phase: Phase::Running, ..d }, Seq::empty(), WaitView::Run)
        },
        EventView::Changed => again(
            d,
            if d.phase == Phase::Probing {
                seq![EffectView::ResetBackoff]
            } else if d.phase == Phase::Running {
                seq![EffectView::Silence, EffectView::ResetEpoch]
            } else {
                Seq::empty()
            },
        ),
        EventView::Dropped => over(
            d,
            if d.phase == Phase::Running {
                seq![EffectView::Silence]
            } else {
                Seq::empty()
            },
            Ok(()),
        ),
        EventView::Closed => match d.failure {
            Some(e) if d.phase == Phase::Parked => over(d, Seq::empty(), Err(e)),
            _ => over(d, Seq::empty(), Ok(())),
        },
        EventView::Probed(Err(e)) => parked(d, Seq::empty(), e, closed),
        EventView::Probed(Ok(layout)) => if layout.channels == 0 {
            parked(d, Seq::empty(), no_channels(), closed)
        } else {
            (
                DriverView { phase: Phase::Registering, ..d },
                Seq::empty(),
                WaitView::Register(
                    Shape {
                        sample_rate: layout.sample_rate,
                        layout: wave_layout(layout.channels),
                    },
                ),
            )
        },
        EventView::Registered(Err(e)) => parked(d, Seq::empty(), e, closed),
        EventView::Registered(Ok(_)) => again(
            DriverView { stage: Stage::Capturing, ..d },
            seq![EffectView::Reserve],
        ),
        EventView::Captured(Ok(_)) => over(d, seq![EffectView::Silence], Ok(())),
        EventView::Captured(Err(e)) => parked(d, seq![EffectView::Silence], e, closed),
    }
}

/// Opens the selected input and publishes its samples, as the controls ask for.
#[derive(Debug)]
pub struct Driver {
    stage: Stage,
    phase: Phase,
    failure: Option<Error>,
    park: bool,
}

impl View for Driver {
    type V = DriverView;

    closed spec fn view(&self) -> DriverView {
        DriverView {
            stage: self.stage,
            phase: self.phase,
            failure: match self.failure {
                Some(e) => Some(e@),
                None => None,
            },
            park: self.park,
        }
    }
}

impl Driver {
    /// A driver that knows nothing of its input. Without `park` a failure ends it, because nobody
    /// holds controls to act on it.
    pub fn new(park: bool) -> (r: Self)
        ensures
            r@ == (DriverView {
                stage: Stage::Discovering,
                phase: Phase::Asking,
                failure: None,
                park,
            }),
    {
        Driver { stage: Stage::Discovering, phase: Phase::Asking, failure: None, park }
    }

    fn end(&mut self, effects: Vec<Effect>, result: Result<(), Error>) -> (r: Turn)
        ensures
            ({
                let before = Seq::new(effects@.len(), |i: int| effects@[i]@);
                let outcome = match result {
                    Ok(_) => Ok(()),
                    Err(e) => Err(e@),
                };
                (final(self)@, r.does(), r.wait@) == over(old(self)@, before, outcome)
            }),
    {
        let ghost before = Seq::new(effects@.len(), |i: int| effects@[i]@);
        self.phase = Phase::Over;
        self.failure = None;
        let mut effects = effects;
        match result {
            Ok(_) => {
                effects.push(Effect::Publish(Status::Ended));
                effects.push(Effect::Finish);
                effects.push(Effect::Silence);
                effects.push(Effect::Close);
                let turn = Turn { effects, wait: Wait::Exit(Ok(())) };
                assert(turn.does() =~= before + farewell(Ok(())));
                turn
            },
            Err(e) => {
                effects.push(Effect::Fail(e.duplicate()));
                effects.push(Effect::Abort(e.message()));
                effects.push(Effect::Silence);
                effects.push(Effect::Close);
                let ghost view = e@;
                let turn = Turn { effects, wait: Wait::Exit(Err(e)) };
                assert(turn.does() =~= before + farewell(Err(view)));
                turn
            },
        }
    }

    fn failed(&mut self, effects: Vec<Effect>, error: Error, closed: bool) -> (r: Turn)
        ensures
            ({
                let before = Seq::new(effects@.len(), |i: int| effects@[i]@);
                (final(self)@, r.does(), r.wait@) == parked(old(self)@, before, error@, closed)
            }),
    {
        let ghost before = Seq::new(effects@.len(), |i: int| effects@[i]@);
        let ghost view = error@;
        let mut effects = effects;
        effects.push(Effect::Fail(error.duplicate()));
        assert(Seq::new(effects@.len(), |i: int| effects@[i]@) =~= before.push(
            EffectView::Fail(view),
        ));
        if !self.park || closed {
            return self.end(effects, Err(error));
        }
        self.phase = Phase::Parked;
        self.failure = Some(error);
        let turn = Turn { effects, wait: Wait::Control };
        assert(turn.does() =~= before.push(EffectView::Fail(view)));
        turn
    }

    fn ask(&mut self, effects: Vec<Effect>) -> (r: Turn)
        ensures
            (final(self)@, r.does(), r.wait@) == again(
                old(self)@,
                Seq::new(effects@.len(), |i: int| effects@[i]@),
            ),
    {
        self.phase = Phase::Asking;
        self.failure = None;
        Turn { effects, wait: Wait::Ask }
    }

    /// Take in what happened, and decide what comes next. `closed` says whether the track is gone.
    pub fn step(&mut self, event: Event, closed: bool) -> (r: Turn)
        requires
            fits(event, old(self)@.phase),
        ensures
            (final(self)@, r.does(), r.wait@) == turn(old(self)@, event@, closed),
    {
        let ghost expected = turn(self@, event@, closed).1;
        let mut effects: Vec<Effect> = Vec::new();
        assert(Seq::new(effects@.len(), |i: int| effects@[i]@) =~= Seq::<EffectView>::empty());
        match event {
            Event::Asked { enabled } => {
                let wait: Wait = if !enabled {
                    effects.push(Effect::Silence);
                    effects.push(Effect::Publish(Status::Stopped));
                    self.phase = Phase::Idle;
                    Wait::Control
                } else if self.stage == Stage::Discovering {
                    effects.push(Effect::Publish(Status::Starting));
                    self.phase = Phase::Probing;
                    Wait::Probe
                } else {
                    self.phase = Phase::Running;
                    Wait::Run
                };
                let turn = Turn { effects, wait };
                assert(turn.does() =~= expected);
                turn
            },
            Event::Changed => {
                if self.phase == Phase::Probing {
                    effects.push(Effect::ResetBackoff);
                } else if self.phase == Phase::Running {
                    effects.push(Effect::Silence);
                    effects.push(Effect::ResetEpoch);
                }
                assert(Seq::new(effects@.len(), |i: int| effects@[i]@) =~= expected);
                self.ask(effects)
            },
            Event::Dropped => {
                if self.phase == Phase::Running {
                    effects.push(Effect::Silence);
                    assert(Seq::new(effects@.len(), |i: int| effects@[i]@) =~= seq![
                        EffectView::Silence,
                    ]);
                }
                self.end(effects, Ok(()))
            },
            Event::Closed => {
                if self.phase == Phase::Parked {
                    match self.failure.take() {
                        Some(e) => self.end(effects, Err(e)),
                        None => self.end(effects, Ok(())),
                    }
                } else {
                    self.end(effects, Ok(()))
                }
            },
            Event::Probed(Err(e)) => self.failed(effects, e, closed),
            Event::Probed(Ok(layout)) => {
                match crate::audio::layout::Layout::from_channels(layout.channels) {
                    Err(e) => self.failed(effects, e, closed),
                    Ok(pcm) => {
                        self.phase = Phase::Registering;
                        Turn {
                            effects,
                            wait: Wait::Register(
                                Shape { sample_rate: layout.sample_rate, layout: pcm },
                            ),
                        }
                    },
                }
            },
            Event::Registered(Err(e)) => self.failed(effects, e, closed),
            Event::Registered(Ok(_)) => {
                self.stage = Stage::Capturing;
                effects.push(Effect::Reserve);
                assert(Seq::new(effects@.len(), |i: int| effects@[i]@) =~= expected);
                self.ask(effects)
            },
            Event::Captured(result) => {
                effects.push(Effect::Silence);
                assert(Seq::new(effects@.len(), |i: int| effects@[i]@) =~= seq![
                    EffectView::Silence,
                ]);
                match result {
                    Ok(_) => self.end(effects, Ok(())),
                    Err(e) => self.failed(effects, e, closed),
                }
            },
        }
    }
}

/// A discovered layout is never probed for again: stopping, failing and replacing the input keep
/// the track's identity.
pub proof fn law_rendition_is_kept(d: DriverView, event: EventView, closed: bool)
    requires
        d.stage == Stage::Capturing,
    ensures
        turn(d, event, closed).0.stage == Stage::Capturing,
{
}

/// A driver that parks ends only when the controls go or the track does; until then a control
/// action makes it ask again.
pub proof fn law_parking_waits_for_a_control(d: DriverView, error: ErrorView)
    requires
        d.park,
        d.phase == Phase::Running,
    ensures
        ({
            let failed = turn(d, EventView::Captured(Err(error)), false);
            &&& failed.2 == WaitView::Control
            &&& turn(failed.0, EventView::Changed, false).2 == WaitView::Ask
            &&& turn(failed.0, EventView::Dropped, false).2 == WaitView::Exit(Ok(()))
            &&& turn(failed.0, EventView::Closed, true).2 == WaitView::Exit(Err(error))
        }),
{
}

/// Without controls a failure is returned, never waited on.
pub proof fn law_unattended_failure_returns(d: DriverView, error: ErrorView, closed: bool)
    requires
        !d.park,
    ensures
        turn(d, EventView::Captured(Err(error)), closed).2 == WaitView::Exit(Err(error)),
        turn(d, EventView::Probed(Err(error)), closed).2 == WaitView::Exit(Err(error)),
        turn(d, EventView::Registered(Err(error)), closed).2 == WaitView::Exit(Err(error)),
{
}

/// The capture ends with its track finished where nothing failed, and aborted with the failure's
/// words where something did. Either way the source falls silent and is closed, as the last thing.
pub proof fn law_an_end_finishes_or_aborts(d: DriverView, event: EventView, closed: bool)
    ensures
        ({
            let (after, does, wait) = turn(d, event, closed);
            &&& does.contains(EffectView::Close) <==> wait is Exit
            &&& after.phase == Phase::Over <==> wait is Exit
            &&& does.contains(EffectView::Finish) <==> wait is Exit && wait->Exit_0 is Ok
            &&& does.contains(EffectView::Publish(Status::Ended)) <==> wait is Exit
                && wait->Exit_0 is Ok
            &&& wait matches WaitView::Exit(Err(e)) ==> does.contains(
                EffectView::Abort(message(e)),
            ) && does.contains(EffectView::Fail(e))
            &&& wait is Exit ==> does.last() == EffectView::Close && does.contains(
                EffectView::Silence,
            ) && after.failure is None
            &&& does.contains(EffectView::Reserve) <==> event is Registered && event->Registered_0 is Ok
            &&& does.contains(EffectView::ResetBackoff) <==> event is Changed && d.phase
                == Phase::Probing
            &&& does.contains(EffectView::ResetEpoch) <==> event is Changed && d.phase
                == Phase::Running
            &&& does.contains(EffectView::Publish(Status::Starting)) <==> event == (
            EventView::Asked { enabled: true }) && d.stage == Stage::Discovering
            &&& does.contains(EffectView::Publish(Status::Stopped)) <==> event == (
            EventView::Asked { enabled: false })
            &&& does.contains(EffectView::Silence) <==> {
                ||| wait is Exit
                ||| event == (EventView::Asked { enabled: false })
                ||| event is Changed && d.phase == Phase::Running
                ||| event is Captured
            }
        }),
{
    let (after, does, wait) = turn(d, event, closed);
    lemma_contains(does, EffectView::Close);
    lemma_contains(does, EffectView::Finish);
    lemma_contains(does, EffectView::Publish(Status::Ended));
    lemma_contains(does, EffectView::Publish(Status::Starting));
    lemma_contains(does, EffectView::Publish(Status::Stopped));
    lemma_contains(does, EffectView::Silence);
    lemma_contains(does, EffectView::Reserve);
    lemma_contains(does, EffectView::ResetBackoff);
    lemma_contains(does, EffectView::ResetEpoch);
    if let WaitView::Exit(Err(e)) = wait {
        lemma_contains(does, EffectView::Abort(message(e)));
        lemma_contains(does, EffectView::Fail(e));
    }
}

proof fn lemma_contains(does: Seq<EffectView>, effect: EffectView)
    requires
        does.len() <= 6,
    ensures
        does.contains(effect) <==> {
            ||| does.len() > 0 && does[0] == effect
            ||| does.len() > 1 && does[1] == effect
            ||| does.len() > 2 && does[2] == effect
            ||| does.len() > 3 && does[3] == effect
            ||| does.len() > 4 && does[4] == effect
            ||| does.len() > 5 && does[5] == effect
        },
{
}

/// What the driver waits for. A capture that is enabled is probed until its shape is known and run
/// from then on; one that is not waits for a control, and so does one that failed where it may park
/// and its track is open. It ends well when the track is closed or the controls are gone, but with
/// the failure where it was parked on one.
pub proof fn law_the_driver_waits_for_what_comes_next(
    d: DriverView,
    event: EventView,
    closed: bool,
)
    ensures
        ({
            let (after, does, wait) = turn(d, event, closed);
            &&& after.park == d.park
            &&& after.stage == (if event is Registered && event->Registered_0 is Ok {
                Stage::Capturing
            } else {
                d.stage
            })
            &&& match wait {
                WaitView::Ask => after.phase == Phase::Asking && after.failure is None && (
                event is Changed || event is Registered && event->Registered_0 is Ok),
                WaitView::Probe => event == (EventView::Asked { enabled: true }) && d.stage
                    == Stage::Discovering && after.phase == Phase::Probing,
                WaitView::Run => event == (EventView::Asked { enabled: true }) && d.stage
                    == Stage::Capturing && after.phase == Phase::Running && does.len() == 0,
                WaitView::Register(shape) => {
                    &&& event matches EventView::Probed(Ok(found)) && {
                        &&& found.channels > 0
                        &&& shape.sample_rate == found.sample_rate
                        &&& shape.layout == wave_layout(found.channels)
                    }
                    &&& after.phase == Phase::Registering
                    &&& does.len() == 0
                },
                WaitView::Control => {
                    ||| event == (EventView::Asked { enabled: false }) && after.phase
                        == Phase::Idle
                    ||| {
                        &&& after.phase == Phase::Parked
                        &&& d.park && !closed
                        &&& after.failure is Some
                        &&& fails(event, after.failure->0)
                        &&& does.last() == EffectView::Fail(after.failure->0)
                    }
                },
                WaitView::Exit(Ok(_)) => event is Dropped || event is Captured && event->Captured_0 is Ok
                    || event is Closed && !(d.phase == Phase::Parked && d.failure is Some),
                WaitView::Exit(Err(e)) => {
                    ||| event is Closed && d.phase == Phase::Parked && d.failure == Some(e)
                    ||| fails(event, e) && (!d.park || closed)
                },
            }
        }),
{
}

/// Whether an event brings this failure: of a probe, a registration or a capture, or of a device
/// without channels.
pub open spec fn fails(event: EventView, error: ErrorView) -> bool {
    ||| event == EventView::Probed(Err(error))
    ||| event == EventView::Registered(Err(error))
    ||| event == EventView::Captured(Err(error))
    ||| event matches EventView::Probed(Ok(found)) && found.channels == 0 && error == no_channels()
}

} // verus!
