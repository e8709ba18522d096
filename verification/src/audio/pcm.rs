//! Uncompressed PCM: little-endian 32-bit samples.

use super::error::{Error, ErrorView};
use crate::text::{decimal_text, push_decimal};
use crate::time::Duration;
use vstd::prelude::*;
use vstd::string::StringExecFns;

verus! {

/// Bytes of one sample.
pub const BYTES_PER_SAMPLE: usize = 4;

/// Bits per second of a stream.
pub fn bitrate(sample_rate: u32, channels: u32) -> (r: Result<u64, Error>)
    ensures
        match r {
            Ok(bits) => bits == sample_rate * channels * 32,
            Err(e) => sample_rate * channels * 32 > u64::MAX && e@ == ErrorView::Unsupported(
                "pcm bitrate does not fit 64 bits"@,
            ),
        },
{
    assert(sample_rate * channels * 32 <= u32::MAX * u32::MAX * 32) by (nonlinear_arith)
        requires
            sample_rate <= u32::MAX,
            channels <= u32::MAX,
    ;
    assert(sample_rate * channels <= u32::MAX * u32::MAX) by (nonlinear_arith)
        requires
            sample_rate <= u32::MAX,
            channels <= u32::MAX,
    ;
    let bits: u128 = sample_rate as u128 * channels as u128 * 32;
    if bits > u64::MAX as u128 {
        return Err(Error::Unsupported("pcm bitrate does not fit 64 bits".to_owned()));
    }
    Ok(bits as u64)
}

/// Bytes of this many frames.
pub fn frame_bytes(frames: usize, channels: u32) -> (r: Result<usize, Error>)
    ensures
        match r {
            Ok(bytes) => bytes == frames * channels * BYTES_PER_SAMPLE,
            Err(e) => frames * channels * BYTES_PER_SAMPLE > usize::MAX && e@
                == ErrorView::Unsupported("pcm frame does not fit in memory"@),
        },
{
    assert(frames * channels <= u64::MAX * u32::MAX) by (nonlinear_arith)
        requires
            frames <= u64::MAX,
            channels <= u32::MAX,
    ;
    let bytes: u128 = frames as u128 * channels as u128 * BYTES_PER_SAMPLE as u128;
    if bytes > usize::MAX as u128 {
        return Err(Error::Unsupported("pcm frame does not fit in memory".to_owned()));
    }
    Ok(bytes as usize)
}

/// Whether a frame of this duration holds a whole number of samples, and at least one.
pub open spec fn whole_samples(sample_rate: u32, duration: Duration) -> bool {
    let scaled = sample_rate * duration.nanos;
    scaled > 0 && scaled % 1_000_000_000 == 0
}

/// Samples per channel in one frame of this duration.
pub fn frame_size(sample_rate: u32, duration: Duration) -> (r: Result<usize, Error>)
    ensures
        match r {
            Ok(frames) => whole_samples(sample_rate, duration) && frames == sample_rate
                * duration.nanos / 1_000_000_000,
            Err(e) => if !whole_samples(sample_rate, duration) {
                e@ == ErrorView::Unsupported(
                    "pcm frame duration must contain a whole number of samples"@,
                )
            } else {
                sample_rate * duration.nanos / 1_000_000_000 > usize::MAX && e@
                    == ErrorView::Unsupported("pcm frame does not fit in memory"@)
            },
        },
{
    let seconds: u128 = duration.nanos / 1_000_000_000;
    let rest: u128 = duration.nanos % 1_000_000_000;
    assert(sample_rate * rest <= u32::MAX * 1_000_000_000) by (nonlinear_arith)
        requires
            sample_rate <= u32::MAX,
            rest < 1_000_000_000,
    ;
    let part: u128 = sample_rate as u128 * rest;
    proof {
        lemma_scaled(sample_rate as int, duration.nanos as int);
    }
    if sample_rate == 0 || duration.nanos == 0 || part % 1_000_000_000 != 0 {
        return Err(
            Error::Unsupported(
                "pcm frame duration must contain a whole number of samples".to_owned(),
            ),
        );
    }
    let frames: Option<u128> = match (sample_rate as u128).checked_mul(seconds) {
        Some(whole) => whole.checked_add(part / 1_000_000_000),
        None => None,
    };
    match frames {
        Some(frames) if frames <= usize::MAX as u128 => Ok(frames as usize),
        _ => Err(Error::Unsupported("pcm frame does not fit in memory".to_owned())),
    }
}

proof fn lemma_scaled(rate: int, nanos: int)
    requires
        0 <= rate,
        0 <= nanos,
    ensures
        (rate * nanos) % 1_000_000_000 == (rate * (nanos % 1_000_000_000)) % 1_000_000_000,
        rate * nanos / 1_000_000_000 == rate * (nanos / 1_000_000_000) + rate * (nanos
            % 1_000_000_000) / 1_000_000_000,
        rate * nanos > 0 <==> rate != 0 && nanos != 0,
        rate * (nanos % 1_000_000_000) >= 0,
        rate * (nanos / 1_000_000_000) >= 0,
{
    let q = nanos / 1_000_000_000;
    let m = nanos % 1_000_000_000;
    assert(rate * nanos == 1_000_000_000 * (rate * q) + rate * m) by (nonlinear_arith)
        requires
            nanos == 1_000_000_000 * q + m,
    ;
    assert(rate * m >= 0 && rate * q >= 0) by (nonlinear_arith)
        requires
            rate >= 0,
            m >= 0,
            q >= 0,
    ;
    assert(rate * nanos > 0 <==> rate != 0 && nanos != 0) by (nonlinear_arith)
        requires
            rate >= 0,
            nanos >= 0,
    ;
}

/// What a catalog says of a PCM track.
#[derive(Clone, Debug)]
pub struct Catalog {
    /// Samples per second, per channel.
    pub sample_rate: u32,
    /// Channels.
    pub channel_count: u32,
    /// Bits per second, where declared.
    pub bitrate: Option<u64>,
    /// Whether a codec header is declared.
    pub described: bool,
}

/// Why a PCM catalog is refused, if it is.
pub open spec fn catalog_fault(catalog: Catalog) -> Option<ErrorView> {
    let bits = catalog.sample_rate * catalog.channel_count * 32;
    if catalog.sample_rate == 0 {
        Some(ErrorView::Unsupported("pcm sample rate must be greater than zero"@))
    } else if catalog.channel_count == 0 {
        Some(ErrorView::Unsupported("pcm channel count must be greater than zero"@))
    } else if catalog.described {
        Some(ErrorView::Unsupported("pcm catalog description must be absent"@))
    } else if bits > u64::MAX {
        Some(ErrorView::Unsupported("pcm bitrate does not fit 64 bits"@))
    } else if catalog.bitrate is Some && catalog.bitrate->0 != bits {
        Some(
            ErrorView::Unsupported(
                "pcm catalog bitrate must be "@ + decimal_text(bits as nat) + " bits per second"@,
            ),
        )
    } else if catalog.channel_count * BYTES_PER_SAMPLE > usize::MAX {
        Some(ErrorView::Unsupported("pcm frame does not fit in memory"@))
    } else {
        None
    }
}

/// Check a PCM catalog, and give the bytes of one frame.
pub fn bytes_per_frame(catalog: &Catalog) -> (r: Result<usize, Error>)
    ensures
        match r {
            Ok(bytes) => catalog_fault(*catalog) is None && bytes == catalog.channel_count
                * BYTES_PER_SAMPLE && bytes > 0,
            Err(e) => catalog_fault(*catalog) == Some(e@),
        },
{
    if catalog.sample_rate == 0 {
        return Err(Error::Unsupported("pcm sample rate must be greater than zero".to_owned()));
    }
    if catalog.channel_count == 0 {
        return Err(Error::Unsupported("pcm channel count must be greater than zero".to_owned()));
    }
    if catalog.described {
        return Err(Error::Unsupported("pcm catalog description must be absent".to_owned()));
    }
    let bits: u64 = bitrate(catalog.sample_rate, catalog.channel_count)?;
    if let Some(declared) = catalog.bitrate {
        if declared != bits {
            let mut text = "pcm catalog bitrate must be ".to_owned();
            push_decimal(&mut text, bits);
            text.append(" bits per second");
            return Err(Error::Unsupported(text));
        }
    }
    frame_bytes(1, catalog.channel_count)
}

/// A duration holds whole samples where some positive number of them lasts exactly as long.
pub proof fn law_whole_samples_last_the_duration(sample_rate: u32, duration: Duration)
    ensures
        whole_samples(sample_rate, duration) <==> exists|n: int|
            n > 0 && #[trigger] (n * 1_000_000_000) == sample_rate * duration.nanos,
{
    let scaled = sample_rate * duration.nanos;
    if whole_samples(sample_rate, duration) {
        let n = scaled / 1_000_000_000;
        assert(n * 1_000_000_000 == scaled);
    }
}

/// Raw samples are listed with a rate, channels, and no description. A bitrate is 32 bits for each
/// sample, of which there is one for each channel, or is not given.
pub proof fn law_raw_samples_are_thirty_two_bits(catalog: Catalog)
    ensures
        catalog_fault(catalog) is None <==> {
            &&& catalog.sample_rate > 0
            &&& catalog.channel_count > 0
            &&& !catalog.described
            &&& catalog.sample_rate * catalog.channel_count * 32 <= u64::MAX
            &&& catalog.bitrate matches Some(bits) ==> bits == catalog.sample_rate
                * catalog.channel_count * 32
            &&& catalog.channel_count * 4 <= usize::MAX
        },
        8 * BYTES_PER_SAMPLE == 32,
{
}

} // verus!
