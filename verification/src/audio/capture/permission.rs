//! Whether the microphone may be opened.

use crate::audio::error::{Error, ErrorView};
use vstd::prelude::*;

verus! {

/// What the system says about microphone access.
#[derive(Clone, Copy, Debug, PartialEq, Eq, Structural)]
pub enum Access {
    /// Access was granted.
    Authorized,
    /// Access was refused.
    Denied,
    /// A policy rules access out.
    Restricted,
    /// The user was not asked yet.
    NotDetermined,
    /// Anything else.
    Unknown,
}

/// What to do about microphone access.
#[derive(Debug)]
pub enum Verdict {
    /// Open the input.
    Proceed,
    /// Ask the user first.
    Ask,
    /// Give up.
    Refuse(Error),
}

/// What a refused microphone is reported as.
pub open spec fn denied() -> ErrorView {
    ErrorView::Capture(
        "microphone access denied; grant it in System Settings > Privacy & Security > Microphone"@,
    )
}

fn denied_error() -> (r: Error)
    ensures
        r@ == denied(),
{
    Error::Capture(
        "microphone access denied; grant it in System Settings > Privacy & Security > Microphone".to_owned(),
    )
}

/// Decide what a known access status means. An unknown one does not block capture: waiting for the
/// first buffer catches a genuine hang.
pub fn judge_access(access: Access) -> (r: Verdict)
    ensures
        match access {
            Access::Authorized => r is Proceed,
            Access::Denied => r is Refuse && r->Refuse_0@ == denied(),
            Access::Restricted => r is Refuse && r->Refuse_0@ == ErrorView::Capture(
                "microphone access is restricted by system policy (parental controls / MDM)"@,
            ),
            Access::NotDetermined => r is Ask,
            Access::Unknown => r is Proceed,
        },
{
    match access {
        Access::Authorized => Verdict::Proceed,
        Access::Denied => Verdict::Refuse(denied_error()),
        Access::Restricted => Verdict::Refuse(
            Error::Capture(
                "microphone access is restricted by system policy (parental controls / MDM)".to_owned(),
            ),
        ),
        Access::NotDetermined => Verdict::Ask,
        Access::Unknown => Verdict::Proceed,
    }
}

/// Decide what the user's answer means. A prompt that was dismissed, or not answered in time, does
/// not block capture either.
pub fn judge_answer(granted: Option<bool>) -> (r: Result<(), Error>)
    ensures
        match granted {
            Some(false) => r is Err && r->Err_0@ == denied(),
            _ => r is Ok,
        },
{
    match granted {
        Some(false) => Err(denied_error()),
        _ => Ok(()),
    }
}

} // verus!
