//! What the controls of a publication ask for, and the state it publishes.

use crate::audio::capture::device::{Config, Device, DeviceView, Source, SourceView};
use crate::audio::error::{message, Error, ErrorView};
use crate::text::same;
use vstd::prelude::*;

verus! {

/// The capture publication's current lifecycle state.
#[derive(Clone, Copy, Debug, PartialEq, Eq, Structural)]
#[non_exhaustive]
pub enum Status {
    /// Capture was explicitly stopped.
    Stopped,
    /// Capture is enabled and waiting for a subscriber.
    Waiting,
    /// The selected input is being probed or opened.
    Starting,
    /// Post-processing samples are being encoded and published.
    Live,
    /// The input is unavailable and will be retried automatically when possible.
    Failed,
    /// The track ended, so the driver has stopped.
    Ended,
}

/// A snapshot of a capture-backed publication's lifecycle.
#[derive(Clone, Debug)]
pub struct State {
    status: Status,
    source: Source,
    device: Option<Device>,
    failure: Option<Error>,
}

/// What a [`State`] says.
#[verifier::ext_equal]
pub struct StateView {
    pub status: Status,
    pub source: SourceView,
    pub device: Option<DeviceView>,
    pub failure: Option<ErrorView>,
}

/// What an optional device says.
pub open spec fn device_view(device: Option<Device>) -> Option<DeviceView> {
    match device {
        Some(device) => Some(device@),
        None => None,
    }
}

/// What an optional error says.
pub open spec fn error_view(error: Option<Error>) -> Option<ErrorView> {
    match error {
        Some(error) => Some(error@),
        None => None,
    }
}

impl View for State {
    type V = StateView;

    closed spec fn view(&self) -> StateView {
        StateView {
            status: self.status,
            source: self.source@,
            device: device_view(self.device),
            failure: error_view(self.failure),
        }
    }
}

impl State {
    /// The publication's current lifecycle state.
    pub fn status(&self) -> (r: Status)
        ensures
            r == self@.status,
    {
        self.status
    }

    /// The selected source, including an unresolved default microphone.
    pub fn source(&self) -> (r: &Source)
        ensures
            r@ == self@.source,
    {
        &self.source
    }

    /// The concrete microphone in use, or the last one that failed while live.
    pub fn device(&self) -> (r: Option<&Device>)
        ensures
            match r {
                Some(device) => self@.device == Some(device@),
                None => self@.device is None,
            },
    {
        match &self.device {
            Some(device) => Some(device),
            None => None,
        }
    }

    /// The most recent input failure while [`Status::Failed`].
    pub fn failure(&self) -> (r: Option<&Error>)
        ensures
            match r {
                Some(error) => self@.failure == Some(error@),
                None => self@.failure is None,
            },
    {
        match &self.failure {
            Some(error) => Some(error),
            None => None,
        }
    }
}

/// Whether two failures read the same.
pub open spec fn same_failure(a: Option<ErrorView>, b: Option<ErrorView>) -> bool {
    match (a, b) {
        (None, None) => true,
        (Some(a), Some(b)) => message(a) == message(b),
        _ => false,
    }
}

/// Whether an observer cannot tell two states apart.
pub open spec fn same_state(a: StateView, b: StateView) -> bool {
    same_failure(a.failure, b.failure) && a.status == b.status && a.source == b.source && a.device
        == b.device
}

/// The next revision number. Numbers are reused after the last one.
pub open spec fn next_revision(revision: u64) -> u64 {
    if revision == u64::MAX {
        0
    } else {
        (revision + 1) as u64
    }
}

fn bump(revision: u64) -> (r: u64)
    ensures
        r == next_revision(revision),
{
    if revision == u64::MAX {
        0
    } else {
        revision + 1
    }
}

/// A revision is always another than the one before it, so an observer of one sees the change.
pub proof fn law_revision_changes(revision: u64)
    ensures
        next_revision(revision) != revision,
{
}

/// The published lifecycle, with a number for each change.
#[derive(Debug)]
pub struct Published {
    state: State,
    revision: u64,
}

impl Published {
    /// The latest state.
    pub closed spec fn now(self) -> StateView {
        self.state@
    }

    /// The number of the latest change.
    pub closed spec fn at(self) -> u64 {
        self.revision
    }

    /// A publication of `source` that is starting.
    pub fn new(source: Source) -> (r: Self)
        ensures
            r.now() == (StateView {
                status: Status::Starting,
                source: source@,
                device: None,
                failure: None,
            }),
            r.at() == 0,
    {
        Published {
            state: State { status: Status::Starting, source, device: None, failure: None },
            revision: 0,
        }
    }

    /// The latest state.
    pub fn state(&self) -> (r: &State)
        ensures
            r@ == self.now(),
    {
        &self.state
    }

    /// The number of the latest change.
    pub fn revision(&self) -> (r: u64)
        ensures
            r == self.at(),
    {
        self.revision
    }

    /// Publish a lifecycle transition, skipping one that changes nothing, so that no observer wakes
    /// on a transition it cannot see.
    pub fn publish(
        &mut self,
        source: &Source,
        status: Status,
        device: Option<Device>,
        failure: Option<Error>,
    )
        ensures
            ({
                let next = StateView {
                    status,
                    source: source@,
                    device: device_view(device),
                    failure: error_view(failure),
                };
                if same_state(old(self).now(), next) {
                    final(self).now() == old(self).now() && final(self).at() == old(self).at()
                } else {
                    final(self).now() == next && final(self).at() == next_revision(old(self).at())
                }
            }),
    {
        let failure_kept: bool = match (&self.state.failure, &failure) {
            (None, None) => true,
            (Some(before), Some(now)) => {
                let a = before.message();
                let b = now.message();
                same(a.as_str(), b.as_str())
            },
            _ => false,
        };
        let device_kept: bool = match (&self.state.device, &device) {
            (None, None) => true,
            (Some(before), Some(now)) => before.matches(now),
            _ => false,
        };
        if failure_kept && self.state.status == status && self.state.source.matches(source)
            && device_kept {
            return ;
        }
        self.state = State { status, source: source.duplicate(), device, failure };
        self.revision = bump(self.revision);
    }

    /// Publish a failure, keeping whichever device is already on record so a microphone that died
    /// while live stays identifiable.
    pub fn fail(&mut self, source: &Source, error: &Error)
        ensures
            ({
                let next = StateView {
                    status: Status::Failed,
                    source: source@,
                    device: old(self).now().device,
                    failure: Some(error@),
                };
                if same_state(old(self).now(), next) {
                    final(self).now() == old(self).now() && final(self).at() == old(self).at()
                } else {
                    final(self).now() == next && final(self).at() == next_revision(old(self).at())
                }
            }),
    {
        let device = match &self.state.device {
            Some(device) => Some(device.duplicate()),
            None => None,
        };
        let failure = Some(error.duplicate());
        self.publish(source, Status::Failed, device, failure);
    }
}

/// What the controls ask for, with a number for each change.
#[derive(Debug)]
pub struct Desired {
    /// The input and its capture settings.
    pub config: Config,
    /// Whether capture is enabled.
    pub enabled: bool,
    /// The number of the latest change.
    pub revision: u64,
}

impl Desired {
    /// Capture with `config` at once.
    pub fn new(config: Config) -> (r: Self)
        ensures
            r.config == config,
            r.enabled,
            r.revision == 0,
    {
        Desired { config, enabled: true, revision: 0 }
    }

    /// Enable capture using the selected source.
    ///
    /// Calling this while live is a no-op. Calling it after a terminal input failure retries
    /// immediately instead of waiting for the source to change.
    pub fn start(&mut self, failed: bool)
        ensures
            final(self).config == old(self).config,
            final(self).enabled,
            final(self).revision == (if old(self).enabled && !failed {
                old(self).revision
            } else {
                next_revision(old(self).revision)
            }),
    {
        if self.enabled && !failed {
            return ;
        }
        self.enabled = true;
        self.revision = bump(self.revision);
    }

    /// Release the input while retaining the track and catalog rendition.
    pub fn stop(&mut self)
        ensures
            final(self).config == old(self).config,
            !final(self).enabled,
            final(self).revision == (if old(self).enabled {
                next_revision(old(self).revision)
            } else {
                old(self).revision
            }),
    {
        if !self.enabled {
            return ;
        }
        self.enabled = false;
        self.revision = bump(self.revision);
    }

    /// Replace the selected input without changing the track identity. If capture is stopped, the
    /// new input opens on the next start.
    pub fn replace(&mut self, source: Source)
        ensures
            final(self).enabled == old(self).enabled,
            final(self).config.sample_rate == old(self).config.sample_rate,
            final(self).config.channels == old(self).config.channels,
            final(self).config.source@ == source@,
            final(self).revision == (if old(self).config.source@ == source@ {
                old(self).revision
            } else {
                next_revision(old(self).revision)
            }),
    {
        if self.config.source.matches(&source) {
            return ;
        }
        self.config.source = source;
        self.revision = bump(self.revision);
    }
}

/// Whether something changed since `observed`, and from now on it did not.
pub fn changed(revision: u64, observed: &mut u64) -> (r: bool)
    ensures
        r == (revision != *old(observed)),
        *final(observed) == revision,
{
    if revision == *observed {
        false
    } else {
        *observed = revision;
        true
    }
}

/// Two states are the same where status, source and device are, and where both have no failure or
/// failures that read alike.
pub proof fn law_states_are_told_apart_by_what_they_show(a: StateView, b: StateView)
    ensures
        same_state(a, b) <==> {
            &&& a.status == b.status
            &&& a.source == b.source
            &&& a.device == b.device
            &&& a.failure is Some <==> b.failure is Some
            &&& a.failure is Some ==> message(a.failure->0) == message(b.failure->0)
        },
        same_state(a, a),
        same_state(a, b) == same_state(b, a),
{
}

/// Revisions count up by one and start over at zero behind the last.
pub proof fn law_revisions_count_up(revision: u64)
    ensures
        revision < 18_446_744_073_709_551_615 ==> next_revision(revision) == revision + 1,
        revision == 18_446_744_073_709_551_615 ==> next_revision(revision) == 0,
{
}

} // verus!
