//! The object that describes a recording.

use super::error::{Error, ErrorView};
use super::id::ID_MAX;
use crate::text::{decimal_text, push_decimal};
use vstd::prelude::*;
use vstd::string::StringExecFns;

verus! {

/// The version that every `.info` carries.
pub const VERSION: u64 = 1;

/// Immutable track properties stored at `<encoded-track>/.info`.
#[derive(Clone, Copy, Debug, PartialEq, Eq, Structural)]
pub struct Info {
    /// Recording format version; must be [`VERSION`].
    pub version: u64,
    /// Publisher tie-break priority, 0 through 255.
    pub priority: u8,
    /// Units per second for this track's timestamps, 1 through 2^53 - 1.
    pub timescale: u64,
}

/// What is wrong with an `.info`, if anything.
pub open spec fn info_fault(info: Info) -> Option<ErrorView> {
    if info.version != VERSION {
        Some(ErrorView::Version(info.version))
    } else if info.timescale == 0 || info.timescale > ID_MAX {
        Some(ErrorView::Timescale(info.timescale))
    } else {
        None
    }
}

/// What is wrong with replacing `existing` by `intended`, if anything: an `.info` is immutable.
pub open spec fn info_conflict(existing: Info, intended: Info) -> Option<ErrorView> {
    if existing.priority != intended.priority {
        Some(ErrorView::Priority(existing.priority, intended.priority))
    } else if existing.timescale != intended.timescale {
        Some(ErrorView::TimescaleMismatch(existing.timescale, intended.timescale))
    } else {
        None
    }
}

/// An `.info` as compact JSON, its members in the order of the fields.
pub open spec fn info_json(info: Info) -> Seq<char> {
    "{\"version\":"@ + decimal_text(info.version as nat) + ",\"priority\":"@ + decimal_text(
        info.priority as nat,
    ) + ",\"timescale\":"@ + decimal_text(info.timescale as nat) + "}"@
}

impl Info {
    /// The current version with `priority` and `timescale`.
    pub fn new(priority: u8, timescale: u64) -> (r: Result<Self, Error>)
        ensures
            match r {
                Ok(info) => info == (Info { version: VERSION, priority, timescale }) && info_fault(
                    info,
                ) is None,
                Err(e) => info_fault(Info { version: VERSION, priority, timescale }) == Some(e@),
            },
    {
        let info = Info { version: VERSION, priority, timescale };
        info.validate()?;
        Ok(info)
    }

    /// Refuse an unknown version or a timescale out of range.
    pub fn validate(&self) -> (r: Result<(), Error>)
        ensures
            match r {
                Ok(_) => info_fault(*self) is None,
                Err(e) => info_fault(*self) == Some(e@),
            },
    {
        if self.version != VERSION {
            return Err(Error::Version(self.version));
        }
        if self.timescale == 0 || self.timescale > ID_MAX {
            return Err(Error::Timescale(self.timescale));
        }
        Ok(())
    }

    /// Encode as compact JSON, refusing what could not be decoded again.
    pub fn encode(&self) -> (r: Result<String, Error>)
        ensures
            match r {
                Ok(json) => info_fault(*self) is None && json@ == info_json(*self),
                Err(e) => info_fault(*self) == Some(e@),
            },
    {
        self.validate()?;
        let mut json = "{\"version\":".to_owned();
        push_decimal(&mut json, self.version);
        json.append(",\"priority\":");
        push_decimal(&mut json, self.priority as u64);
        json.append(",\"timescale\":");
        push_decimal(&mut json, self.timescale);
        json.append("}");
        Ok(json)
    }

    /// Accept an `.info` that is already stored in place of `self` only where the two agree.
    pub fn reconcile(&self, existing: &Info) -> (r: Result<(), Error>)
        ensures
            match r {
                Ok(_) => info_conflict(*existing, *self) is None,
                Err(e) => info_conflict(*existing, *self) == Some(e@),
            },
    {
        if existing.priority != self.priority {
            return Err(Error::Priority { existing: existing.priority, intended: self.priority });
        }
        if existing.timescale != self.timescale {
            return Err(
                Error::TimescaleMismatch {
                    existing: existing.timescale,
                    intended: self.timescale,
                },
            );
        }
        Ok(())
    }
}

/// An `.info` is accepted where its version is 1 and its timescale is positive and below two to the
/// power of 53. Another version is refused before the timescale is looked at.
pub proof fn law_an_info_has_version_one_and_a_timescale(info: Info)
    ensures
        match info_fault(info) {
            None => info.version == 1 && 0 < info.timescale < 9_007_199_254_740_992,
            Some(ErrorView::Version(found)) => info.version != 1 && found == info.version,
            Some(ErrorView::Timescale(found)) => info.version == 1 && found == info.timescale && (
            info.timescale == 0 || info.timescale >= 9_007_199_254_740_992),
            _ => false,
        },
{
}

/// An `.info` that is stored is kept in place of another only where both have one priority and one
/// timescale. Otherwise the refusal names the stored value and then the new one, the priorities
/// where these differ.
pub proof fn law_a_stored_info_is_not_replaced(existing: Info, intended: Info)
    ensures
        match info_conflict(existing, intended) {
            None => existing.priority == intended.priority && existing.timescale
                == intended.timescale,
            Some(ErrorView::Priority(stored, new)) => stored == existing.priority && new
                == intended.priority && stored != new,
            Some(ErrorView::TimescaleMismatch(stored, new)) => stored == existing.timescale && new
                == intended.timescale && stored != new && existing.priority == intended.priority,
            _ => false,
        },
{
}

/// An `.info` is written as one JSON object of three members without spaces, each in decimal: the
/// version, the priority and the timescale.
pub proof fn law_an_info_is_three_members(info: Info)
    ensures
        info_json(info) == seq!['{', '"', 'v', 'e', 'r', 's', 'i', 'o', 'n', '"', ':']
            + decimal_text(info.version as nat) + seq![
            ',',
            '"',
            'p',
            'r',
            'i',
            'o',
            'r',
            'i',
            't',
            'y',
            '"',
            ':',
        ] + decimal_text(info.priority as nat) + seq![
            ',',
            '"',
            't',
            'i',
            'm',
            'e',
            's',
            'c',
            'a',
            'l',
            'e',
            '"',
            ':',
        ] + decimal_text(info.timescale as nat) + seq!['}'],
{
    reveal_strlit("{\"version\":");
    reveal_strlit(",\"priority\":");
    reveal_strlit(",\"timescale\":");
    reveal_strlit("}");
    assert("{\"version\":"@ =~= seq!['{', '"', 'v', 'e', 'r', 's', 'i', 'o', 'n', '"', ':']);
    assert(",\"priority\":"@ =~= seq![',', '"', 'p', 'r', 'i', 'o', 'r', 'i', 't', 'y', '"', ':']);
    assert(",\"timescale\":"@ =~= seq![
        ',',
        '"',
        't',
        'i',
        'm',
        'e',
        's',
        'c',
        'a',
        'l',
        'e',
        '"',
        ':',
    ]);
    assert("}"@ =~= seq!['}']);
}

} // verus!
