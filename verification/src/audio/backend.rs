//! Choosing among codec backends.
//!
//! The platform's backends are tried before the software ones, skipping any that does not handle the
//! codec. The first that opens is used.

use super::error::{message, Error, ErrorView};
use crate::text::{quote, quoted, same};
use vstd::prelude::*;
use vstd::string::StringExecFns;

verus! {

/// Backend selection.
#[derive(Clone, Debug, PartialEq, Eq)]
#[non_exhaustive]
pub enum Kind {
    /// Pick the available backend automatically.
    Auto,
    /// Require the built-in software backend.
    Software,
    /// Require a backend by its stable lowercase name.
    Named(String),
}

impl Default for Kind {
    fn default() -> (r: Self)
        ensures
            r is Auto,
    {
        Kind::Auto
    }
}

/// A backend: its name, and whether it handles the codec.
#[derive(Clone, Debug, PartialEq, Eq)]
pub struct Candidate {
    /// The stable lowercase name.
    pub name: String,
    /// Whether it handles the codec.
    pub supports: bool,
}

/// What a [`Candidate`] says.
#[verifier::ext_equal]
pub struct CandidateView {
    pub name: Seq<char>,
    pub supports: bool,
}

impl View for Candidate {
    type V = CandidateView;

    open spec fn view(&self) -> CandidateView {
        CandidateView { name: self.name@, supports: self.supports }
    }
}

/// What candidates say.
pub open spec fn views(candidates: Seq<Candidate>) -> Seq<CandidateView> {
    Seq::new(candidates.len(), |i: int| candidates[i]@)
}

/// The candidates of this name, in order.
pub open spec fn named(candidates: Seq<CandidateView>, name: Seq<char>) -> Seq<CandidateView>
    decreases candidates.len(),
{
    if candidates.len() == 0 {
        Seq::empty()
    } else if candidates.last().name == name {
        named(candidates.drop_last(), name).push(candidates.last())
    } else {
        named(candidates.drop_last(), name)
    }
}

/// The candidates that `kind` allows, in the order to try them.
pub open spec fn allowed(
    kind: Kind,
    platform: Seq<CandidateView>,
    software: Seq<CandidateView>,
) -> Seq<CandidateView> {
    match kind {
        Kind::Auto => platform + software,
        Kind::Software => software,
        Kind::Named(name) => named(platform + software, name@),
    }
}

fn append_all(out: &mut Vec<Candidate>, candidates: &Vec<Candidate>)
    ensures
        views(final(out)@) == views(old(out)@) + views(candidates@),
{
    let ghost before = views(out@);
    let mut i: usize = 0;
    assert(before =~= before + views(candidates@).take(0));
    while i < candidates.len()
        invariant
            0 <= i <= candidates@.len(),
            views(out@) == before + views(candidates@).take(i as int),
        decreases candidates@.len() - i,
    {
        let ghost prior = views(out@);
        out.push(
            Candidate {
                name: candidates[i].name.as_str().to_owned(),
                supports: candidates[i].supports,
            },
        );
        assert(views(out@) =~= prior.push(candidates@[i as int]@));
        assert(views(out@) =~= before + views(candidates@).take(i + 1));
        i = i + 1;
    }
    assert(views(candidates@).take(i as int) =~= views(candidates@));
}

/// The candidates that `kind` allows, in the order to try them.
pub fn candidates(kind: &Kind, platform: &Vec<Candidate>, software: &Vec<Candidate>) -> (r: Vec<
    Candidate,
>)
    ensures
        views(r@) == allowed(*kind, views(platform@), views(software@)),
{
    let mut all: Vec<Candidate> = Vec::new();
    assert(views(all@) =~= Seq::empty());
    match kind {
        Kind::Auto => {
            append_all(&mut all, platform);
            append_all(&mut all, software);
            assert(views(all@) =~= views(platform@) + views(software@));
            all
        },
        Kind::Software => {
            append_all(&mut all, software);
            assert(views(all@) =~= views(software@));
            all
        },
        Kind::Named(name) => {
            append_all(&mut all, platform);
            append_all(&mut all, software);
            let ghost every = views(platform@) + views(software@);
            assert(views(all@) =~= every);
            let mut out: Vec<Candidate> = Vec::new();
            let mut i: usize = 0;
            assert(every.take(0) =~= Seq::empty());
            assert(views(out@) =~= Seq::empty());
            while i < all.len()
                invariant
                    0 <= i <= all@.len(),
                    views(all@) == every,
                    views(out@) == named(every.take(i as int), name@),
                decreases all@.len() - i,
            {
                let ghost prior = views(out@);
                assert(every[i as int] == all@[i as int]@);
                assert(every.take(i + 1).drop_last() =~= every.take(i as int));
                assert(every.take(i + 1).last() == every[i as int]);
                if same(all[i].name.as_str(), name.as_str()) {
                    out.push(
                        Candidate {
                            name: all[i].name.as_str().to_owned(),
                            supports: all[i].supports,
                        },
                    );
                    assert(views(out@) =~= prior.push(every[i as int]));
                }
                i = i + 1;
            }
            assert(every.take(i as int) =~= every);
            out
        },
    }
}

/// A backend that refused, and why.
#[derive(Debug)]
pub struct Refusal {
    /// The backend's name.
    pub name: String,
    /// Why it refused.
    pub error: Error,
}

/// What a refusal says.
pub open spec fn reason(refusal: (Seq<char>, ErrorView)) -> Seq<char> {
    refusal.0 + ": "@ + message(refusal.1)
}

/// The parts one after the other, with a comma and a space between them.
pub open spec fn listed(parts: Seq<Seq<char>>) -> Seq<char>
    decreases parts.len(),
{
    if parts.len() == 0 {
        Seq::empty()
    } else if parts.len() == 1 {
        parts[0]
    } else {
        listed(parts.drop_last()) + ", "@ + parts.last()
    }
}

/// What refusals say.
pub open spec fn refusals(refused: Seq<Refusal>) -> Seq<(Seq<char>, ErrorView)> {
    Seq::new(refused.len(), |i: int| (refused[i].name@, refused[i].error@))
}

/// What is left of the candidates once one was tried or skipped.
#[derive(Debug)]
pub struct Selection {
    candidates: Vec<Candidate>,
    next: usize,
    refused: Vec<Refusal>,
}

impl Selection {
    /// The candidates that were not tried or skipped yet.
    pub closed spec fn left(self) -> Seq<CandidateView> {
        views(self.candidates@).skip(self.next as int)
    }

    /// What refused so far, in order.
    pub closed spec fn refusals(self) -> Seq<(Seq<char>, ErrorView)> {
        refusals(self.refused@)
    }

    /// Whether the selection is consistent.
    pub closed spec fn wf(self) -> bool {
        self.next <= self.candidates@.len()
    }

    /// Select among `candidates`, in order.
    pub fn new(candidates: Vec<Candidate>) -> (r: Self)
        ensures
            r.wf(),
            r.left() == views(candidates@),
            r.refusals().len() == 0,
    {
        let r = Selection { candidates, next: 0, refused: Vec::new() };
        assert(r.left() =~= views(candidates@));
        r
    }

    /// The next backend to open: the first that is left and handles the codec. `None` where none
    /// does.
    pub fn next(&mut self) -> (r: Option<String>)
        requires
            old(self).wf(),
        ensures
            final(self).wf(),
            final(self).refusals() == old(self).refusals(),
            match r {
                Some(name) => exists|k: int|
                    #![trigger old(self).left()[k]]
                    0 <= k < old(self).left().len() && old(self).left()[k].supports && old(
                        self).left()[k].name == name@ && final(self).left() == old(
                        self).left().skip(k + 1) && forall|j: int|
                        0 <= j < k ==> !(#[trigger] old(self).left()[j]).supports,
                None => final(self).left().len() == 0 && forall|j: int|
                    0 <= j < old(self).left().len() ==> !(#[trigger] old(self).left()[j]).supports,
            },
    {
        let ghost start = self.next as int;
        let ghost left = self.left();
        while self.next < self.candidates.len()
            invariant
                start <= self.next <= self.candidates@.len(),
                start == old(self).next,
                left == old(self).left(),
                self.candidates == old(self).candidates,
                self.refused == old(self).refused,
                left == views(self.candidates@).skip(start),
                0 <= start,
                forall|j: int| 0 <= j < self.next - start ==> !(#[trigger] left[j]).supports,
            decreases self.candidates@.len() - self.next,
        {
            let i: usize = self.next;
            self.next = self.next + 1;
            assert(left[i - start] == self.candidates@[i as int]@);
            if self.candidates[i].supports {
                assert(self.left() =~= left.skip(i - start + 1));
                return Some(self.candidates[i].name.as_str().to_owned());
            }
        }
        assert(self.left().len() == 0);
        None
    }

    /// Take note that a backend refused.
    pub fn refuse(&mut self, name: String, error: Error)
        requires
            old(self).wf(),
        ensures
            final(self).wf(),
            final(self).left() == old(self).left(),
            final(self).refusals() == old(self).refusals().push((name@, error@)),
    {
        let ghost before = self.refusals();
        let ghost item = (name@, error@);
        self.refused.push(Refusal { name, error });
        assert(self.refusals() =~= before.push(item));
    }

    /// Why no backend opened. One refusal is the whole answer, so it is kept as it is; several are
    /// listed; none leaves the answer open.
    pub fn verdict(self) -> (r: Option<Error>)
        ensures
            match r {
                None => self.refusals().len() == 0,
                Some(e) => if self.refusals().len() == 1 {
                    e@ == self.refusals()[0].1
                } else {
                    self.refusals().len() > 1 && e@ == ErrorView::Unsupported(
                        listed(
                            Seq::new(
                                self.refusals().len(),
                                |i: int| reason(self.refusals()[i]),
                            ),
                        ),
                    )
                },
            },
    {
        let ghost all = self.refusals();
        let mut refused = self.refused;
        assert forall|i: int| 0 <= i < all.len() implies all[i] == (
            refused@[i].name@,
            refused@[i].error@,
        ) by {}
        if refused.len() == 0 {
            return None;
        }
        if refused.len() == 1 {
            let only = refused.remove(0);
            return Some(only.error);
        }
        let ghost reasons = Seq::new(all.len(), |i: int| reason(all[i]));
        let mut text = String::new();
        let mut i: usize = 0;
        assert(reasons.take(0) =~= Seq::empty());
        while i < refused.len()
            invariant
                0 <= i <= refused@.len(),
                all.len() == refused@.len(),
                forall|j: int|
                    0 <= j < all.len() ==> all[j] == (
                        refused@[j].name@,
                        refused@[j].error@,
                    ),
                reasons == Seq::new(all.len(), |i: int| reason(all[i])),
                text@ == listed(reasons.take(i as int)),
            decreases refused@.len() - i,
        {
            let ghost before = text@;
            assert(reasons.take(i + 1).drop_last() =~= reasons.take(i as int));
            assert(reasons.take(i + 1).last() == reasons[i as int]);
            if i > 0 {
                text.append(", ");
            }
            text.append(refused[i].name.as_str());
            text.append(": ");
            let message = refused[i].error.message();
            text.append(message.as_str());
            proof {
                assert(reasons[i as int] == refused@[i as int].name@ + ": "@ + message@);
                if i > 0 {
                    assert(text@ =~= before + ", "@ + reasons[i as int]);
                } else {
                    assert(text@ =~= reasons[0]);
                    assert(reasons.take(1)[0] == reasons[0]);
                }
            }
            i = i + 1;
        }
        assert(reasons.take(i as int) =~= reasons);
        Some(Error::Unsupported(text))
    }
}

/// Names one after the other, with a comma and a space between them.
pub fn list_names(names: &Vec<String>) -> (r: String)
    ensures
        r@ == listed(Seq::new(names@.len(), |i: int| names@[i]@)),
{
    let ghost parts = Seq::new(names@.len(), |i: int| names@[i]@);
    let mut text = String::new();
    let mut i: usize = 0;
    assert(parts.take(0) =~= Seq::empty());
    while i < names.len()
        invariant
            0 <= i <= names@.len(),
            parts == Seq::new(names@.len(), |i: int| names@[i]@),
            text@ == listed(parts.take(i as int)),
        decreases names@.len() - i,
    {
        let ghost before = text@;
        assert(parts.take(i + 1).drop_last() =~= parts.take(i as int));
        assert(parts.take(i + 1).last() == parts[i as int]);
        if i > 0 {
            text.append(", ");
        }
        text.append(names[i].as_str());
        proof {
            if i > 0 {
                assert(text@ =~= before + ", "@ + parts[i as int]);
            } else {
                assert(text@ =~= parts[0]);
                assert(parts.take(1)[0] == parts[0]);
            }
        }
        i = i + 1;
    }
    assert(parts.take(i as int) =~= parts);
    text
}

/// What a codec is refused with where no decoder handles it, or none of that name does.
pub open spec fn no_decoder(kind: Kind, codec: Seq<char>, available: Seq<char>) -> ErrorView {
    match kind {
        Kind::Named(name) => ErrorView::Unsupported(
            "no audio decoder named "@ + quoted(name@) + " for "@ + codec
                + " (this build has: "@ + available + ")"@,
        ),
        _ => ErrorView::Unsupported("unsupported audio codec: "@ + codec),
    }
}

/// What a codec is refused with where no decoder handles it.
pub fn refuse_decoder(kind: &Kind, codec: &str, available: &Vec<String>) -> (r: Error)
    ensures
        r@ == no_decoder(
            *kind,
            codec@,
            listed(Seq::new(available@.len(), |i: int| available@[i]@)),
        ),
{
    match kind {
        Kind::Named(name) => {
            let quoted = quote(name.as_str());
            let list = list_names(available);
            let mut text = "no audio decoder named ".to_owned();
            text.append(quoted.as_str());
            text.append(" for ");
            text.append(codec);
            text.append(" (this build has: ");
            text.append(list.as_str());
            text.append(")");
            Error::Unsupported(text)
        },
        _ => {
            let mut text = "unsupported audio codec: ".to_owned();
            text.append(codec);
            Error::Unsupported(text)
        },
    }
}

/// What a codec is refused with where no encoder emits it, or none of that name or tier does.
pub open spec fn no_encoder(kind: Kind, codec: Seq<char>, names: Seq<Seq<char>>) -> ErrorView {
    let available = if names.len() == 0 {
        "none"@
    } else {
        listed(names)
    };
    ErrorView::Unsupported(
        (match kind {
            Kind::Named(name) => "no audio encoder named "@ + quoted(name@) + " for "@ + codec,
            Kind::Software => "no software "@ + codec + " audio encoder"@,
            Kind::Auto => "no "@ + codec + " audio encoder"@,
        }) + " (this build has: "@ + available + ")"@,
    )
}

/// What a codec is refused with where no encoder emits it.
pub fn refuse_encoder(kind: &Kind, codec: &str, available: &Vec<String>) -> (r: Error)
    ensures
        r@ == no_encoder(*kind, codec@, Seq::new(available@.len(), |i: int| available@[i]@)),
{
    let list = if available.len() == 0 {
        "none".to_owned()
    } else {
        list_names(available)
    };
    let mut text = match kind {
        Kind::Named(name) => {
            let quoted = quote(name.as_str());
            let mut text = "no audio encoder named ".to_owned();
            text.append(quoted.as_str());
            text.append(" for ");
            text.append(codec);
            text
        },
        Kind::Software => {
            let mut text = "no software ".to_owned();
            text.append(codec);
            text.append(" audio encoder");
            text
        },
        Kind::Auto => {
            let mut text = "no ".to_owned();
            text.append(codec);
            text.append(" audio encoder");
            text
        },
    };
    text.append(" (this build has: ");
    text.append(list.as_str());
    text.append(")");
    Error::Unsupported(text)
}

/// A named backend is the only one tried: every candidate a name allows has that name, so a refusal
/// does not fall back to another.
pub proof fn law_a_name_allows_no_other(candidates: Seq<CandidateView>, name: Seq<char>, i: int)
    requires
        0 <= i < named(candidates, name).len(),
    ensures
        named(candidates, name)[i].name == name,
    decreases candidates.len(),
{
    let rest = named(candidates.drop_last(), name);
    if i < rest.len() {
        law_a_name_allows_no_other(candidates.drop_last(), name, i);
    }
}

/// Platform backends come before software ones where nothing else is asked for, and asking for
/// software leaves them out.
pub proof fn law_platform_first(platform: Seq<CandidateView>, software: Seq<CandidateView>)
    ensures
        allowed(Kind::Auto, platform, software).take(platform.len() as int) == platform,
        allowed(Kind::Auto, platform, software).skip(platform.len() as int) == software,
        allowed(Kind::Software, platform, software) == software,
{
    assert((platform + software).take(platform.len() as int) =~= platform);
    assert((platform + software).skip(platform.len() as int) =~= software);
}

/// Any backend is allowed where none is asked for, the platform's before the software ones. A
/// request for software allows those alone, and one by name those of that name, in the same order.
pub proof fn law_backends_are_allowed_as_asked(
    platform: Seq<CandidateView>,
    software: Seq<CandidateView>,
    name: String,
    kind: Kind,
)
    ensures
        kind is Auto ==> allowed(kind, platform, software) == platform + software,
        kind is Software ==> allowed(kind, platform, software) == software,
        kind == Kind::Named(name) ==> forall|i: int|
            0 <= i < allowed(kind, platform, software).len() ==> (#[trigger] allowed(
                kind,
                platform,
                software,
            )[i]).name == name@,
        kind == Kind::Named(name) ==> allowed(kind, platform, software) == named(platform, name@)
            + named(software, name@),
{
    if kind == Kind::Named(name) {
        lemma_named_parts(platform, software, name@);
        lemma_named_names(platform + software, name@);
    }
}

/// One candidate is found by name exactly where it has the name.
pub proof fn law_a_candidate_is_found_by_its_name(candidate: CandidateView, name: Seq<char>)
    ensures
        candidate.name == name ==> named(seq![candidate], name) == seq![candidate],
        candidate.name != name ==> named(seq![candidate], name) == Seq::<CandidateView>::empty(),
{
    reveal_with_fuel(named, 2);
    assert(seq![candidate].drop_last() =~= Seq::empty());
    assert(Seq::<CandidateView>::empty().push(candidate) =~= seq![candidate]);
}

proof fn lemma_named_parts(a: Seq<CandidateView>, b: Seq<CandidateView>, name: Seq<char>)
    ensures
        named(a + b, name) == named(a, name) + named(b, name),
    decreases b.len(),
{
    if b.len() == 0 {
        assert(a + b =~= a);
        assert(named(a, name) + Seq::<CandidateView>::empty() =~= named(a, name));
    } else {
        lemma_named_parts(a, b.drop_last(), name);
        assert((a + b).drop_last() =~= a + b.drop_last());
        assert((a + b).last() == b.last());
        assert((named(a, name) + named(b.drop_last(), name)).push(b.last()) =~= named(a, name)
            + named(b.drop_last(), name).push(b.last()));
    }
}

proof fn lemma_named_names(candidates: Seq<CandidateView>, name: Seq<char>)
    ensures
        forall|i: int|
            0 <= i < named(candidates, name).len() ==> (#[trigger] named(candidates, name)[i]).name
                == name,
    decreases candidates.len(),
{
    if candidates.len() > 0 {
        let init = named(candidates.drop_last(), name);
        lemma_named_names(candidates.drop_last(), name);
        let all = named(candidates, name);
        assert forall|i: int| 0 <= i < all.len() implies (#[trigger] all[i]).name == name by {
            if i < init.len() {
                assert(all[i] == init[i]);
            }
        }
    }
}

/// Reasons and names are listed with a comma and a space between two.
pub proof fn law_parts_are_listed_with_commas(parts: Seq<Seq<char>>, part: Seq<char>)
    ensures
        listed(Seq::empty()) == Seq::<char>::empty(),
        listed(seq![part]) == part,
        parts.len() > 0 ==> listed(parts.push(part)) == listed(parts) + seq![',', ' '] + part,
{
    reveal_strlit(", ");
    assert(", "@ =~= seq![',', ' ']);
    assert(parts.push(part).drop_last() =~= parts);
}

} // verus!
