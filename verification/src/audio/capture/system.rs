//! System audio: its format, and the buffers it arrives in.

use super::device::Layout;
use crate::audio::error::{Error, ErrorView};
use crate::text::{decimal_text, push_decimal};
use vstd::prelude::*;
use vstd::string::StringExecFns;

verus! {

/// The sample rate system audio is captured at where none is asked for.
pub const DEFAULT_SAMPLE_RATE: u32 = 48_000;

/// The channels system audio is captured with where none are asked for.
pub const DEFAULT_CHANNELS: u32 = 2;

/// The format system audio will be captured at: exactly what was asked for, or the defaults.
pub fn format(sample_rate: Option<u32>, channels: Option<u32>) -> (r: Layout)
    ensures
        r.sample_rate == (match sample_rate {
            Some(rate) => rate,
            None => DEFAULT_SAMPLE_RATE,
        }),
        r.channels == (match channels {
            Some(channels) => channels,
            None => DEFAULT_CHANNELS,
        }),
{
    Layout {
        sample_rate: match sample_rate {
            Some(rate) => rate,
            None => DEFAULT_SAMPLE_RATE,
        },
        channels: match channels {
            Some(channels) => channels,
            None => DEFAULT_CHANNELS,
        },
    }
}

/// One delivered buffer: interleaved PCM plus the channel count it actually carried.
#[derive(Debug, PartialEq, Eq)]
pub struct Buffer<T> {
    /// The samples.
    pub samples: Vec<T>,
    /// How many channels are woven in.
    pub channels: u32,
}

/// One buffer of an audio buffer list.
#[derive(Debug)]
pub struct Plane<T> {
    /// Its samples.
    pub data: Vec<T>,
    /// How many channels it interleaves.
    pub channels: u32,
}

/// The frames that every one of the planes holds.
pub open spec fn common_frames<T>(planes: Seq<Plane<T>>) -> nat
    decreases planes.len(),
{
    if planes.len() == 0 {
        0
    } else if planes.len() == 1 {
        planes[0].data@.len()
    } else {
        let init = common_frames(planes.drop_last());
        let last = planes.last().data@.len();
        if last < init {
            last
        } else {
            init
        }
    }
}

/// The planes woven into frames, one sample of each plane in turn.
pub open spec fn woven<T>(planes: Seq<Plane<T>>) -> Seq<T> {
    Seq::new(
        common_frames(planes) * planes.len(),
        |i: int| planes[i % (planes.len() as int)].data@[i / (planes.len() as int)],
    )
}

proof fn lemma_common_frames<T>(planes: Seq<Plane<T>>, i: int)
    requires
        0 <= i < planes.len(),
    ensures
        common_frames(planes) <= planes[i].data@.len(),
    decreases planes.len(),
{
    if planes.len() > 1 && i < planes.len() - 1 {
        lemma_common_frames(planes.drop_last(), i);
    }
}

fn count_frames<T>(planes: &Vec<Plane<T>>) -> (r: usize)
    requires
        planes@.len() > 0,
    ensures
        r == common_frames(planes@),
{
    let mut frames: usize = planes[0].data.len();
    let mut i: usize = 1;
    assert(planes@.take(1)[0] == planes@[0]);
    while i < planes.len()
        invariant
            1 <= i <= planes@.len(),
            frames == common_frames(planes@.take(i as int)),
        decreases planes@.len() - i,
    {
        assert(planes@.take(i + 1).drop_last() =~= planes@.take(i as int));
        assert(planes@.take(i + 1).last() == planes@[i as int]);
        if planes[i].data.len() < frames {
            frames = planes[i].data.len();
        }
        i = i + 1;
    }
    assert(planes@.take(i as int) =~= planes@);
    frames
}

proof fn lemma_frame_index(k: int, n: int, j: int)
    requires
        0 <= j < n,
        0 <= k,
    ensures
        (k * n + j) / n == k,
        (k * n + j) % n == j,
{
    assert((k * n + j) / n == k && (k * n + j) % n == j) by {
        vstd::arithmetic::div_mod::lemma_fundamental_div_mod_converse(k * n + j, n, k, j);
    }
}

/// Take interleaved PCM out of a buffer list. One buffer is already interleaved; several hold one
/// channel each, and are woven. An empty list holds nothing.
pub fn samples<T: Copy>(planes: &Vec<Plane<T>>) -> (r: Option<Buffer<T>>)
    requires
        planes@.len() <= u32::MAX,
    ensures
        match r {
            None => planes@.len() == 0,
            Some(buffer) => if planes@.len() == 1 {
                buffer.samples@ == planes@[0].data@ && buffer.channels == planes@[0].channels
            } else {
                planes@.len() > 0 && buffer.samples@ == woven(planes@) && buffer.channels
                    == planes@.len()
            },
        },
{
    if planes.len() == 0 {
        return None;
    }
    if planes.len() == 1 {
        let mut out: Vec<T> = Vec::new();
        let only = &planes[0];
        let mut i: usize = 0;
        while i < only.data.len()
            invariant
                0 <= i <= only.data@.len(),
                out@ == only.data@.take(i as int),
            decreases only.data@.len() - i,
        {
            out.push(only.data[i]);
            assert(out@ =~= only.data@.take(i + 1));
            i = i + 1;
        }
        assert(out@ =~= only.data@);
        return Some(Buffer { samples: out, channels: only.channels });
    }
    let frames: usize = count_frames(planes);
    let ghost n = planes@.len() as int;
    let ghost all = woven(planes@);
    let mut out: Vec<T> = Vec::new();
    let mut k: usize = 0;
    while k < frames
        invariant
            0 <= k <= frames,
            frames == common_frames(planes@),
            n == planes@.len(),
            n > 1,
            all == woven(planes@),
            out@.len() == k * n,
            forall|i: int| 0 <= i < out@.len() ==> out@[i] == #[trigger] all[i],
        decreases frames - k,
    {
        let ghost start = out@.len();
        let mut j: usize = 0;
        assert((k + 1) * n <= frames * n) by (nonlinear_arith)
            requires
                k < frames,
                n > 0,
        ;
        assert((k + 1) * n == k * n + n) by (nonlinear_arith);
        while j < planes.len()
            invariant
                0 <= j <= planes@.len(),
                k < frames,
                frames == common_frames(planes@),
                n == planes@.len(),
                n > 1,
                all == woven(planes@),
                all.len() == frames * n,
                k * n + n <= frames * n,
                out@.len() == k * n + j,
                forall|i: int| 0 <= i < out@.len() ==> out@[i] == #[trigger] all[i],
            decreases planes@.len() - j,
        {
            proof {
                lemma_common_frames(planes@, j as int);
                lemma_frame_index(k as int, n, j as int);
            }
            out.push(planes[j].data[k]);
            assert(all[k * n + j] == planes@[j as int].data@[k as int]);
            j = j + 1;
        }
        k = k + 1;
    }
    assert(out@ =~= all);
    Some(Buffer { samples: out, channels: planes.len() as u32 })
}

/// What waiting for the first buffer of system audio came to.
#[derive(Debug)]
pub enum First<T> {
    /// It arrived.
    Buffer(Buffer<T>),
    /// The stream stopped.
    Stopped,
    /// Nothing arrived in time.
    TimedOut,
}

/// Judge the first buffer of system audio. One with another channel count than asked for is
/// refused: the encoder would get wrong-shaped frames.
pub fn first_buffer<T>(channels: u32, first: First<T>) -> (r: Result<Vec<T>, Error>)
    ensures
        match first {
            First::Buffer(buffer) => if buffer.channels == channels {
                r == Ok::<Vec<T>, Error>(buffer.samples)
            } else {
                r is Err && r->Err_0@ == ErrorView::Capture(
                    "system audio delivered "@ + decimal_text(buffer.channels as nat)
                        + " channels, not the "@ + decimal_text(channels as nat) + " requested"@,
                )
            },
            First::Stopped => r is Err && r->Err_0@ == ErrorView::Capture(
                "system audio stopped before any samples"@,
            ),
            First::TimedOut => r is Err && r->Err_0@ == ErrorView::Capture(
                "no system audio within 5s (screen recording permission?)"@,
            ),
        },
{
    match first {
        First::Buffer(buffer) => {
            if buffer.channels != channels {
                let mut text = "system audio delivered ".to_owned();
                push_decimal(&mut text, buffer.channels as u64);
                text.append(" channels, not the ");
                push_decimal(&mut text, channels as u64);
                text.append(" requested");
                return Err(Error::Capture(text));
            }
            Ok(buffer.samples)
        },
        First::Stopped => Err(
            Error::Capture("system audio stopped before any samples".to_owned()),
        ),
        First::TimedOut => Err(
            Error::Capture("no system audio within 5s (screen recording permission?)".to_owned()),
        ),
    }
}

/// Refuse to capture system audio without a display to attach to.
pub fn check_displays(count: usize) -> (r: Result<(), Error>)
    ensures
        match r {
            Ok(_) => count > 0,
            Err(e) => count == 0 && e@ == ErrorView::Capture(
                "no display to capture system audio from"@,
            ),
        },
{
    if count == 0 {
        return Err(Error::Capture("no display to capture system audio from".to_owned()));
    }
    Ok(())
}

/// Planes are cut to the shortest of them.
pub proof fn law_planes_are_cut_to_the_shortest<T>(planes: Seq<Plane<T>>)
    ensures
        planes.len() == 0 ==> common_frames(planes) == 0,
        planes.len() > 0 ==> exists|i: int|
            0 <= i < planes.len() && (#[trigger] planes[i]).data@.len() == common_frames(planes),
        forall|i: int|
            0 <= i < planes.len() ==> common_frames(planes) <= (#[trigger] planes[i]).data@.len(),
        DEFAULT_SAMPLE_RATE == 48_000,
        DEFAULT_CHANNELS == 2,
    decreases planes.len(),
{
    if planes.len() == 1 {
        assert(planes[0].data@.len() == common_frames(planes));
    } else if planes.len() > 1 {
        let init = planes.drop_last();
        law_planes_are_cut_to_the_shortest(init);
        assert forall|i: int| 0 <= i < init.len() implies init[i] == #[trigger] planes[i] by {}
        let i = choose|i: int|
            0 <= i < init.len() && (#[trigger] init[i]).data@.len() == common_frames(init);
        assert(planes[i] == init[i]);
        assert(planes[planes.len() - 1] == planes.last());
        assert forall|i: int| 0 <= i < planes.len() implies common_frames(planes) <= (
        #[trigger] planes[i]).data@.len() by {
            if i < init.len() {
                assert(common_frames(init) <= init[i].data@.len());
            }
        }
    }
}

/// Woven samples stand frame by frame, and in each frame plane by plane.
pub proof fn law_planes_are_woven_frame_by_frame<T>(
    planes: Seq<Plane<T>>,
    frame: int,
    plane: int,
)
    requires
        0 <= plane < planes.len(),
        0 <= frame < common_frames(planes),
    ensures
        woven(planes).len() == common_frames(planes) * planes.len(),
        woven(planes)[frame * planes.len() + plane] == planes[plane].data@[frame],
{
    let n = planes.len() as int;
    let i = frame * n + plane;
    vstd::arithmetic::div_mod::lemma_fundamental_div_mod_converse(i, n, frame, plane);
    let all = common_frames(planes) as int;
    assert(0 <= i < all * n) by (nonlinear_arith)
        requires
            i == frame * n + plane,
            0 <= plane < n,
            0 <= frame < all,
    ;
}

} // verus!
