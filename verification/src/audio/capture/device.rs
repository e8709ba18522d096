//! Choosing a capture device and the format it runs at.

use crate::audio::error::{Error, ErrorView};
use crate::text::{quote, quoted, same};
use vstd::prelude::*;
use vstd::string::StringExecFns;

verus! {

/// Where the audio comes from.
#[derive(Clone, Debug, PartialEq, Eq)]
#[non_exhaustive]
pub enum Source {
    /// An audio input device, by its id. `None` opens the system default input.
    Microphone(Option<String>),
    /// System (desktop) audio: everything the machine is playing, minus this process.
    System,
}

/// What a [`Source`] selects.
#[verifier::ext_equal]
pub enum SourceView {
    Microphone(Option<Seq<char>>),
    System,
}

impl View for Source {
    type V = SourceView;

    open spec fn view(&self) -> SourceView {
        match self {
            Source::Microphone(Some(id)) => SourceView::Microphone(Some(id@)),
            Source::Microphone(None) => SourceView::Microphone(None),
            Source::System => SourceView::System,
        }
    }
}

/// The default microphone.
impl Default for Source {
    fn default() -> (r: Self)
        ensures
            r@ == SourceView::Microphone(None),
    {
        Source::Microphone(None)
    }
}

impl Source {
    /// Whether two sources select the same input.
    pub fn matches(&self, other: &Source) -> (r: bool)
        ensures
            r == (self@ == other@),
    {
        match (self, other) {
            (Source::System, Source::System) => true,
            (Source::Microphone(None), Source::Microphone(None)) => true,
            (Source::Microphone(Some(a)), Source::Microphone(Some(b))) => same(
                a.as_str(),
                b.as_str(),
            ),
            _ => false,
        }
    }

    /// The same source again.
    pub fn duplicate(&self) -> (r: Self)
        ensures
            r@ == self@,
    {
        match self {
            Source::System => Source::System,
            Source::Microphone(None) => Source::Microphone(None),
            Source::Microphone(Some(id)) => Source::Microphone(Some(id.as_str().to_owned())),
        }
    }
}

/// An audio input.
#[derive(Clone, Debug, PartialEq, Eq)]
pub struct Device {
    /// Opaque identifier: pass to [`Source::Microphone`].
    pub id: String,
    /// Human-readable name.
    pub name: String,
    /// Whether this is the system default input.
    pub default: bool,
}

/// What a [`Device`] says.
#[verifier::ext_equal]
pub struct DeviceView {
    pub id: Seq<char>,
    pub name: Seq<char>,
    pub default: bool,
}

impl View for Device {
    type V = DeviceView;

    open spec fn view(&self) -> DeviceView {
        DeviceView { id: self.id@, name: self.name@, default: self.default }
    }
}

impl Device {
    /// The [`Source`] that captures this device.
    pub fn source(&self) -> (r: Source)
        ensures
            r@ == SourceView::Microphone(Some(self.id@)),
    {
        Source::Microphone(Some(self.id.as_str().to_owned()))
    }

    /// Whether two devices are the same.
    pub fn matches(&self, other: &Device) -> (r: bool)
        ensures
            r == (self@ == other@),
    {
        same(self.id.as_str(), other.id.as_str()) && same(self.name.as_str(), other.name.as_str())
            && self.default == other.default
    }

    /// The same device again.
    pub fn duplicate(&self) -> (r: Self)
        ensures
            r@ == self@,
    {
        Device {
            id: self.id.as_str().to_owned(),
            name: self.name.as_str().to_owned(),
            default: self.default,
        }
    }
}

/// Describe the host's inputs by their names, which are their ids too.
pub fn describe(names: &Vec<String>, default: &Option<String>) -> (r: Vec<Device>)
    ensures
        r@.len() == names@.len(),
        forall|i: int|
            0 <= i < r@.len() ==> (#[trigger] r@[i])@ == (DeviceView {
                id: names@[i]@,
                name: names@[i]@,
                default: default is Some && default->0@ == names@[i]@,
            }),
{
    let mut devices: Vec<Device> = Vec::new();
    let mut i: usize = 0;
    while i < names.len()
        invariant
            0 <= i <= names@.len(),
            devices@.len() == i,
            forall|j: int|
                0 <= j < i ==> (#[trigger] devices@[j])@ == (DeviceView {
                    id: names@[j]@,
                    name: names@[j]@,
                    default: default is Some && default->0@ == names@[j]@,
                }),
        decreases names@.len() - i,
    {
        let is_default: bool = match default {
            Some(default) => same(names[i].as_str(), default.as_str()),
            None => false,
        };
        devices.push(
            Device {
                id: names[i].as_str().to_owned(),
                name: names[i].as_str().to_owned(),
                default: is_default,
            },
        );
        i = i + 1;
    }
    devices
}

/// What an input that is not there is refused with.
pub open spec fn missing_device(selector: Option<Seq<char>>) -> ErrorView {
    match selector {
        Some(name) => ErrorView::Device("input device "@ + quoted(name) + " not found"@),
        None => ErrorView::Device("no default input device"@),
    }
}

/// Find the selected input among the host's: the first of that name, or the default one.
pub fn select(names: &Vec<String>, has_default: bool, selector: Option<&str>) -> (r: Result<
    Option<usize>,
    Error,
>)
    ensures
        match selector {
            Some(name) => match r {
                Ok(Some(i)) => i < names@.len() && names@[i as int]@ == name@ && forall|j: int|
                    0 <= j < i ==> (#[trigger] names@[j])@ != name@,
                Ok(None) => false,
                Err(e) => e@ == missing_device(Some(name@)) && forall|j: int|
                    0 <= j < names@.len() ==> (#[trigger] names@[j])@ != name@,
            },
            None => match r {
                Ok(found) => has_default && found is None,
                Err(e) => !has_default && e@ == missing_device(None),
            },
        },
{
    match selector {
        Some(name) => {
            let mut i: usize = 0;
            while i < names.len()
                invariant
                    0 <= i <= names@.len(),
                    selector is Some,
                    selector->0 == name,
                    forall|j: int| 0 <= j < i ==> (#[trigger] names@[j])@ != name@,
                decreases names@.len() - i,
            {
                if same(names[i].as_str(), name) {
                    return Ok(Some(i));
                }
                i = i + 1;
            }
            let mut text = "input device ".to_owned();
            let quoted = quote(name);
            text.append(quoted.as_str());
            text.append(" not found");
            Err(Error::Device(text))
        },
        None => if has_default {
            Ok(None)
        } else {
            Err(Error::Device("no default input device".to_owned()))
        },
    }
}

/// A PCM stream's shape.
#[derive(Clone, Copy, Debug, PartialEq, Eq, Structural)]
pub struct Layout {
    /// Samples per second, per channel.
    pub sample_rate: u32,
    /// Interleaved channels.
    pub channels: u32,
}

/// Audio capture configuration. All fields are hints.
#[derive(Clone, Debug)]
#[non_exhaustive]
pub struct Config {
    /// What to capture.
    pub source: Source,
    /// Samples per second to ask the device for. `None` takes its default.
    pub sample_rate: Option<u32>,
    /// Channels to ask the device for. `None` takes its default.
    pub channels: Option<u32>,
}

impl Default for Config {
    fn default() -> (r: Self)
        ensures
            r.source@ == SourceView::Microphone(None),
            r.sample_rate is None,
            r.channels is None,
    {
        Config { source: Source::Microphone(None), sample_rate: None, channels: None }
    }
}

/// The stream shape to ask a device for, given its own default. A device takes at most `u16`
/// channels, so a larger count keeps its low bits.
pub fn negotiate(default_rate: u32, default_channels: u16, config: &Config) -> (r: (u32, u16))
    ensures
        r.0 == (match config.sample_rate {
            Some(rate) => rate,
            None => default_rate,
        }),
        r.1 == (match config.channels {
            Some(channels) => (channels % 0x1_0000) as u16,
            None => default_channels,
        }),
{
    let rate: u32 = match config.sample_rate {
        Some(rate) => rate,
        None => default_rate,
    };
    let channels: u16 = match config.channels {
        Some(channels) => (channels % 0x1_0000) as u16,
        None => default_channels,
    };
    (rate, channels)
}

/// How a device delivers samples.
#[derive(Debug)]
pub enum SampleFormat {
    /// Floating point.
    F32,
    /// Signed 16-bit.
    I16,
    /// Unsigned 16-bit.
    U16,
    /// Anything else, by name.
    Other(String),
}

/// Refuse a sample format that cannot be converted.
pub fn check_format(format: &SampleFormat) -> (r: Result<(), Error>)
    ensures
        match *format {
            SampleFormat::Other(name) => r is Err && r->Err_0@ == ErrorView::Unsupported(
                "unsupported input sample format "@ + name@,
            ),
            _ => r is Ok,
        },
{
    match format {
        SampleFormat::Other(name) => {
            let mut text = "unsupported input sample format ".to_owned();
            text.append(name.as_str());
            Err(Error::Unsupported(text))
        },
        _ => Ok(()),
    }
}

/// One buffer read from a capture source.
#[derive(Debug, PartialEq, Eq)]
pub struct Samples<T> {
    /// Interleaved PCM.
    pub data: Vec<T>,
    /// Set when buffers were dropped before this one, because the reader fell behind. The samples
    /// are not contiguous with the previous read, so the timeline must be re-anchored: the encoder
    /// counts samples, so a swallowed gap becomes permanent drift behind wall clock.
    pub gap: bool,
}

/// What waiting for the first buffer of an opened input came to.
#[derive(Debug)]
pub enum First<T> {
    /// It arrived.
    Samples(Samples<T>),
    /// The input stopped.
    Stopped,
    /// The input failed.
    Failed(Error),
    /// Nothing arrived in time.
    TimedOut,
}

/// Judge the first buffer of a microphone, so a permission failure is an error rather than a silent
/// hang.
pub fn first_buffer<T>(device: &str, first: First<T>) -> (r: Result<Samples<T>, Error>)
    ensures
        match first {
            First::Samples(samples) => r == Ok::<Samples<T>, Error>(samples),
            First::Stopped => r is Err && r->Err_0@ == ErrorView::Capture(
                "microphone "@ + device@ + " stopped before any samples"@,
            ),
            First::Failed(e) => r == Err::<Samples<T>, Error>(e),
            First::TimedOut => r is Err && r->Err_0@ == ErrorView::Capture(
                "no samples from microphone "@ + device@ + " within 5s (permission denied?)"@,
            ),
        },
{
    match first {
        First::Samples(samples) => Ok(samples),
        First::Stopped => {
            let mut text = "microphone ".to_owned();
            text.append(device);
            text.append(" stopped before any samples");
            Err(Error::Capture(text))
        },
        First::Failed(e) => Err(e),
        First::TimedOut => {
            let mut text = "no samples from microphone ".to_owned();
            text.append(device);
            text.append(" within 5s (permission denied?)");
            Err(Error::Capture(text))
        },
    }
}

/// Choose between a stream error and a buffer that are both there. The error wins, so a dead device
/// is never kept alive just to drain already-buffered audio. A buffer of `None` is the end of the
/// stream.
pub fn arbitrate<T>(error: Option<Error>, samples: Option<Samples<T>>) -> (r: Result<
    Option<Samples<T>>,
    Error,
>)
    ensures
        match error {
            Some(e) => r == Err::<Option<Samples<T>>, Error>(e),
            None => r == Ok::<Option<Samples<T>>, Error>(samples),
        },
{
    match error {
        Some(e) => Err(e),
        None => Ok(samples),
    }
}

/// Why an input cannot be captured, and whether that can clear by itself.
#[derive(Debug)]
pub struct Failure {
    error: Error,
    retryable: bool,
}

impl Failure {
    /// What failed.
    pub closed spec fn error(self) -> ErrorView {
        self.error@
    }

    /// Whether a retry can help.
    pub closed spec fn retryable(self) -> bool {
        self.retryable
    }

    /// A failure that can clear when the device or host state changes.
    pub fn retry(error: Error) -> (r: Self)
        ensures
            r.error() == error@,
            r.retryable(),
    {
        Failure { error, retryable: true }
    }

    /// A failure that stays until somebody acts.
    pub fn fatal(error: Error) -> (r: Self)
        ensures
            r.error() == error@,
            !r.retryable(),
    {
        Failure { error, retryable: false }
    }

    /// Whether a retry can help.
    pub fn is_retryable(&self) -> (r: bool)
        ensures
            r == self.retryable(),
    {
        self.retryable
    }

    /// The error alone.
    pub fn into_error(self) -> (r: Error)
        ensures
            r@ == self.error(),
    {
        self.error
    }
}

} // verus!
