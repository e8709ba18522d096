use moq_media::audio::backend::{
    candidates, refuse_decoder, refuse_encoder, Candidate, Kind, Selection,
};
use moq_media::audio::error::Error;

fn backend(name: &str, supports: bool) -> Candidate {
    Candidate {
        name: name.to_string(),
        supports,
    }
}

fn platform_stub() -> Candidate {
    backend("platform", true)
}

fn refusing() -> Candidate {
    backend("refusing", true)
}

fn also_refusing() -> Candidate {
    backend("also-refusing", true)
}

fn software_stub() -> Candidate {
    backend("software", true)
}

fn pcm_only() -> Candidate {
    backend("pcm-only", false)
}

/// Open the first allowed candidate: those named `refusing` refuse with `refusal`.
fn pick(
    kind: Kind,
    platform: Vec<Candidate>,
    software: Vec<Candidate>,
    refusal: &str,
) -> Result<String, Error> {
    let mut selection = Selection::new(candidates(&kind, &platform, &software));
    while let Some(name) = selection.next() {
        assert_ne!(name, "pcm-only", "opened for a codec it does not advertise");
        if !name.ends_with("refusing") {
            return Ok(name);
        }
        selection.refuse(name, Error::Unsupported(refusal.to_string()));
    }
    Err(selection.verdict().expect("nothing was tried"))
}

/// What a decoder and an encoder refuse with.
const REFUSALS: [&str; 2] = ["not this track", "not these settings"];

#[test]
fn mod_auto_prefers_platform() {
    for refusal in REFUSALS {
        let name = pick(
            Kind::Auto,
            vec![pcm_only(), platform_stub()],
            vec![software_stub()],
            refusal,
        )
        .unwrap();
        assert_eq!(name, "platform");
    }
}

#[test]
fn mod_auto_falls_back_to_software() {
    for refusal in REFUSALS {
        let name = pick(Kind::Auto, vec![refusing()], vec![software_stub()], refusal).unwrap();
        assert_eq!(name, "software");
    }
}

#[test]
fn mod_software_skips_platform() {
    for refusal in REFUSALS {
        let name = pick(
            Kind::Software,
            vec![platform_stub()],
            vec![software_stub()],
            refusal,
        )
        .unwrap();
        assert_eq!(name, "software");
    }
}

#[test]
fn mod_named_forces_one() {
    for refusal in REFUSALS {
        let name = pick(
            Kind::Named("software".into()),
            vec![platform_stub()],
            vec![pcm_only(), software_stub()],
            refusal,
        )
        .unwrap();
        assert_eq!(name, "software");
    }
}

/// A named backend that refuses is the answer: nothing else is tried.
#[test]
fn mod_named_refusal_does_not_fall_back() {
    for refusal in REFUSALS {
        let err = pick(
            Kind::Named("refusing".into()),
            vec![refusing()],
            vec![software_stub()],
            refusal,
        )
        .unwrap_err();
        assert!(err.message().contains(refusal), "{err:?}");
    }
}

#[test]
fn mod_every_refusal_is_reported() {
    for refusal in REFUSALS {
        let err = pick(
            Kind::Auto,
            vec![refusing()],
            vec![also_refusing()],
            refusal,
        )
        .unwrap_err();
        let message = err.message();
        assert!(
            message.contains("refusing: ") && message.contains("also-refusing: "),
            "{message}"
        );
    }
}

/// No AAC encoder is wired in, so `Auto` refuses and says there is nothing to
/// fall back to.
#[test]
fn aac_without_a_platform_encoder_is_refused() {
    let message = refuse_encoder(&Kind::Auto, "aac", &Vec::new()).message();
    assert!(message.contains("aac") && message.contains("none"), "{message}");
}

/// An unknown name says what this build has for the codec instead.
#[test]
fn mod_unknown_name_lists_the_alternatives() {
    let kind = Kind::Named("opus".into());
    let available = vec!["libopus".to_string()];
    assert!(candidates(&kind, &Vec::new(), &vec![backend("libopus", true)]).is_empty());
    for error in [
        refuse_decoder(&kind, "opus", &available),
        refuse_encoder(&kind, "opus", &available),
    ] {
        let message = error.message();
        assert!(
            message.contains("\"opus\"") && message.contains("libopus"),
            "{message}"
        );
    }
}

/// Asking for a real backend that does not decode the codec is refused, not
/// quietly swapped for one that does.
#[test]
fn named_backend_for_another_codec_is_refused() {
    let kind = Kind::Named("pcm".into());
    let software = vec![backend("pcm", false), backend("libopus", true)];
    let mut selection = Selection::new(candidates(&kind, &Vec::new(), &software));
    assert_eq!(selection.next(), None);
    assert!(selection.verdict().is_none());
    assert!(matches!(
        refuse_decoder(&kind, "opus", &vec!["libopus".to_string()]),
        Error::Unsupported(_)
    ));
}

#[test]
fn mod_software_backends_open_by_name() {
    for name in ["pcm", "libopus"] {
        let picked = pick(
            Kind::Named(name.into()),
            Vec::new(),
            vec![backend("pcm", true), backend("libopus", true)],
            "",
        )
        .unwrap();
        assert_eq!(picked, name);
    }
}

#[test]
fn a_single_refusal_is_kept_as_it_is() {
    let mut selection = Selection::new(vec![refusing()]);
    let name = selection.next().unwrap();
    selection.refuse(name, Error::Decode("broken".to_string()));
    assert_eq!(selection.next(), None);
    assert_eq!(selection.verdict(), Some(Error::Decode("broken".to_string())));
    assert_eq!(
        refuse_decoder(&Kind::Auto, "future", &Vec::new()),
        Error::Unsupported("unsupported audio codec: future".to_string())
    );
    assert_eq!(
        refuse_encoder(&Kind::Software, "aac", &vec!["x".to_string(), "y".to_string()]),
        Error::Unsupported("no software aac audio encoder (this build has: x, y)".to_string())
    );
}
