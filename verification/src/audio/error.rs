//! What can go wrong with audio.

use crate::text::{decimal_text, has_suffix, push_decimal};
use vstd::prelude::*;
use vstd::string::StringExecFns;

verus! {

/// Errors of audio capture, encoding and decoding.
#[derive(Clone, Debug, PartialEq, Eq)]
#[non_exhaustive]
#[allow(inconsistent_fields)]
pub enum Error {
    /// The requested configuration is outside what the codec supports. Picking different settings
    /// fixes it.
    Unsupported(String),
    /// No audio device matched the requested selector, or the machine has no default input.
    Device(String),
    /// The capture backend failed or delivered nothing.
    Capture(String),
    /// The playback backend failed.
    Playback(String),
    /// A packet could not be decoded. The stream itself may be fine.
    Decode(String),
    /// The input buffer was not aligned to the codec's frame size.
    Misaligned {
        /// The buffer length received, in bytes.
        got: usize,
        /// The buffer length required, in bytes.
        expected: usize,
    },
    /// The sample-rate converter could not be constructed.
    ResamplerConstruction(String),
    /// The sample-rate converter rejected an input buffer or ratio change.
    Resample(String),
    /// The catalog failed.
    Hang(String),
    /// The container failed.
    Mux(String),
    /// The transport failed.
    Net(String),
    /// A timestamp overflowed.
    TimeOverflow,
}

/// What an [`Error`] says.
#[verifier::ext_equal]
#[allow(inconsistent_fields)]
pub enum ErrorView {
    Unsupported(Seq<char>),
    Device(Seq<char>),
    Capture(Seq<char>),
    Playback(Seq<char>),
    Decode(Seq<char>),
    Misaligned { got: usize, expected: usize },
    ResamplerConstruction(Seq<char>),
    Resample(Seq<char>),
    Hang(Seq<char>),
    Mux(Seq<char>),
    Net(Seq<char>),
    TimeOverflow,
}

impl View for Error {
    type V = ErrorView;

    open spec fn view(&self) -> ErrorView {
        match self {
            Error::Unsupported(text) => ErrorView::Unsupported(text@),
            Error::Device(text) => ErrorView::Device(text@),
            Error::Capture(text) => ErrorView::Capture(text@),
            Error::Playback(text) => ErrorView::Playback(text@),
            Error::Decode(text) => ErrorView::Decode(text@),
            Error::Misaligned { got, expected } => ErrorView::Misaligned {
                got: *got,
                expected: *expected,
            },
            Error::ResamplerConstruction(text) => ErrorView::ResamplerConstruction(text@),
            Error::Resample(text) => ErrorView::Resample(text@),
            Error::Hang(text) => ErrorView::Hang(text@),
            Error::Mux(text) => ErrorView::Mux(text@),
            Error::Net(text) => ErrorView::Net(text@),
            Error::TimeOverflow => ErrorView::TimeOverflow,
        }
    }
}

/// How an error reads.
pub open spec fn message(e: ErrorView) -> Seq<char> {
    match e {
        ErrorView::Unsupported(text) => "unsupported audio configuration: "@ + text,
        ErrorView::Device(text) => "audio device: "@ + text,
        ErrorView::Capture(text) => "audio capture: "@ + text,
        ErrorView::Playback(text) => "audio playback: "@ + text,
        ErrorView::Decode(text) => "audio decode: "@ + text,
        ErrorView::Misaligned { got, expected } => "input buffer length "@ + decimal_text(
            got as nat,
        ) + " bytes does not match expected "@ + decimal_text(expected as nat),
        ErrorView::ResamplerConstruction(text) => "resample construction: "@ + text,
        ErrorView::Resample(text) => "resample: "@ + text,
        ErrorView::Hang(text) => text,
        ErrorView::Mux(text) => text,
        ErrorView::Net(text) => text,
        ErrorView::TimeOverflow => "time overflow"@,
    }
}

fn prefixed(prefix: &str, text: &str) -> (r: String)
    ensures
        r@ == prefix@ + text@,
{
    let mut s = prefix.to_owned();
    s.append(text);
    s
}

impl Error {
    /// How the error reads.
    pub fn message(&self) -> (r: String)
        ensures
            r@ == message(self@),
    {
        match self {
            Error::Unsupported(text) => prefixed("unsupported audio configuration: ", text.as_str()),
            Error::Device(text) => prefixed("audio device: ", text.as_str()),
            Error::Capture(text) => prefixed("audio capture: ", text.as_str()),
            Error::Playback(text) => prefixed("audio playback: ", text.as_str()),
            Error::Decode(text) => prefixed("audio decode: ", text.as_str()),
            Error::Misaligned { got, expected } => {
                let mut s = "input buffer length ".to_owned();
                push_decimal(&mut s, *got as u64);
                s.append(" bytes does not match expected ");
                push_decimal(&mut s, *expected as u64);
                s
            },
            Error::ResamplerConstruction(text) => prefixed(
                "resample construction: ",
                text.as_str(),
            ),
            Error::Resample(text) => prefixed("resample: ", text.as_str()),
            Error::Hang(text) => text.as_str().to_owned(),
            Error::Mux(text) => text.as_str().to_owned(),
            Error::Net(text) => text.as_str().to_owned(),
            Error::TimeOverflow => "time overflow".to_owned(),
        }
    }

    /// The same error again, so a failure can be reported to more than one observer.
    pub fn duplicate(&self) -> (r: Self)
        ensures
            r@ == self@,
    {
        match self {
            Error::Unsupported(text) => Error::Unsupported(text.as_str().to_owned()),
            Error::Device(text) => Error::Device(text.as_str().to_owned()),
            Error::Capture(text) => Error::Capture(text.as_str().to_owned()),
            Error::Playback(text) => Error::Playback(text.as_str().to_owned()),
            Error::Decode(text) => Error::Decode(text.as_str().to_owned()),
            Error::Misaligned { got, expected } => Error::Misaligned {
                got: *got,
                expected: *expected,
            },
            Error::ResamplerConstruction(text) => Error::ResamplerConstruction(
                text.as_str().to_owned(),
            ),
            Error::Resample(text) => Error::Resample(text.as_str().to_owned()),
            Error::Hang(text) => Error::Hang(text.as_str().to_owned()),
            Error::Mux(text) => Error::Mux(text.as_str().to_owned()),
            Error::Net(text) => Error::Net(text.as_str().to_owned()),
            Error::TimeOverflow => Error::TimeOverflow,
        }
    }
}

/// The words of an error end with what it is about, and a length that does not fit stands before the
/// one expected.
pub proof fn law_messages_end_with_their_subject(text: Seq<char>, got: usize, expected: usize)
    ensures
        has_suffix(message(ErrorView::Unsupported(text)), text),
        has_suffix(message(ErrorView::Device(text)), text),
        has_suffix(message(ErrorView::Capture(text)), text),
        has_suffix(message(ErrorView::Playback(text)), text),
        has_suffix(message(ErrorView::Decode(text)), text),
        has_suffix(message(ErrorView::ResamplerConstruction(text)), text),
        has_suffix(message(ErrorView::Resample(text)), text),
        message(ErrorView::Hang(text)) == text,
        message(ErrorView::Mux(text)) == text,
        message(ErrorView::Net(text)) == text,
        ("input buffer length "@ + decimal_text(got as nat)).is_prefix_of(
            message(ErrorView::Misaligned { got, expected }),
        ),
        has_suffix(
            message(ErrorView::Misaligned { got, expected }),
            decimal_text(expected as nat),
        ),
{
    lemma_ends("unsupported audio configuration: "@, text);
    lemma_ends("audio device: "@, text);
    lemma_ends("audio capture: "@, text);
    lemma_ends("audio playback: "@, text);
    lemma_ends("audio decode: "@, text);
    lemma_ends("resample construction: "@, text);
    lemma_ends("resample: "@, text);
    let length = "input buffer length "@ + decimal_text(got as nat);
    let all = message(ErrorView::Misaligned { got, expected });
    lemma_ends(
        length + " bytes does not match expected "@,
        decimal_text(expected as nat),
    );
    assert(length =~= all.take(length.len() as int));
}

proof fn lemma_ends(front: Seq<char>, back: Seq<char>)
    ensures
        has_suffix(front + back, back),
{
    assert((front + back).skip(front.len() as int) =~= back);
}

} // verus!
