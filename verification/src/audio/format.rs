//! How samples are packed into bytes.

use super::error::{Error, ErrorView};
use vstd::prelude::*;

verus! {

/// Raw PCM sample format.
///
/// Interleaved variants pack samples as `[c0_s0, c1_s0, c0_s1, c1_s1, ...]`. Planar variants pack as
/// `[c0_s0, c0_s1, ..., c1_s0, c1_s1, ...]`. Samples are little-endian.
#[derive(Clone, Copy, Debug, PartialEq, Eq, Structural)]
#[non_exhaustive]
pub enum AudioFormat {
    /// Unsigned bytes, interleaved.
    U8,
    /// Signed 16-bit words, interleaved.
    S16,
    /// Signed 32-bit words, interleaved.
    S32,
    /// Floating point, interleaved.
    F32,
    /// Unsigned bytes, planar.
    U8Planar,
    /// Signed 16-bit words, planar.
    S16Planar,
    /// Signed 32-bit words, planar.
    S32Planar,
    /// Floating point, planar.
    F32Planar,
}

/// Bytes of one sample.
pub open spec fn sample_bytes(format: AudioFormat) -> nat {
    match format {
        AudioFormat::U8 | AudioFormat::U8Planar => 1,
        AudioFormat::S16 | AudioFormat::S16Planar => 2,
        _ => 4,
    }
}

/// Whether each channel is stored contiguously.
pub open spec fn planar(format: AudioFormat) -> bool {
    match format {
        AudioFormat::U8Planar | AudioFormat::S16Planar | AudioFormat::S32Planar
        | AudioFormat::F32Planar => true,
        _ => false,
    }
}

/// The little-endian word of `n` bytes at `at`.
pub open spec fn word(data: Seq<u8>, at: int, n: nat) -> int
    decreases n,
{
    if n == 0 {
        0
    } else {
        data[at] + 256 * word(data, at + 1, (n - 1) as nat)
    }
}

/// The `n` little-endian bytes of a word.
pub open spec fn word_bytes(value: int, n: nat) -> Seq<u8>
    decreases n,
{
    if n == 0 {
        Seq::empty()
    } else {
        seq![(value % 256) as u8] + word_bytes(value / 256, (n - 1) as nat)
    }
}

/// Where the sample that is `i`th when interleaved is stored.
pub open spec fn place(format: AudioFormat, i: int, channels: int, frames: int) -> int {
    if planar(format) {
        (i % channels) * frames + i / channels
    } else {
        i
    }
}

/// The smallest multiple of `step` that is at least `n`.
pub open spec fn next_multiple(n: int, step: int) -> int {
    if n % step == 0 {
        n
    } else {
        n - n % step + step
    }
}

/// The raw words of a buffer, interleaved.
pub open spec fn words_of(format: AudioFormat, data: Seq<u8>, channels: int) -> Seq<u32> {
    let bytes = sample_bytes(format);
    let total = data.len() / bytes;
    Seq::new(
        total,
        |i: int|
            word(data, place(format, i, channels, total as int / channels) * bytes, bytes) as u32,
    )
}

/// What a layout without channels is refused with.
pub open spec fn no_channel() -> ErrorView {
    ErrorView::Unsupported("channel count must be > 0"@)
}

fn round_up(n: usize, step: usize) -> (r: usize)
    requires
        step > 0,
        n + step <= usize::MAX,
    ensures
        r == next_multiple(n as int, step as int),
{
    let rest: usize = n % step;
    if rest == 0 {
        n
    } else {
        proof {
            vstd::arithmetic::div_mod::lemma_mod_decreases(n as nat, step as nat);
        }
        n - rest + step
    }
}

proof fn lemma_word_bound(data: Seq<u8>, at: int, n: nat)
    requires
        n <= 4,
    ensures
        0 <= word(data, at, n),
        n == 1 ==> word(data, at, n) < 0x100,
        n == 2 ==> word(data, at, n) < 0x1_0000,
        word(data, at, n) <= u32::MAX,
{
    reveal_with_fuel(word, 5);
}

/// Where the words of a planar or interleaved buffer are stays within the buffer.
proof fn lemma_place(format: AudioFormat, i: int, channels: int, frames: int)
    requires
        channels > 0,
        0 <= i < frames * channels,
    ensures
        0 <= place(format, i, channels, frames) < frames * channels,
{
    let ch = i % channels;
    let frame = i / channels;
    assert(0 <= ch < channels && 0 <= frame < frames) by (nonlinear_arith)
        requires
            channels > 0,
            0 <= i < frames * channels,
            ch == i % channels,
            frame == i / channels,
    ;
    assert(0 <= ch * frames + frame < frames * channels) by (nonlinear_arith)
        requires
            0 <= ch < channels,
            0 <= frame < frames,
    ;
}

/// Distinct samples are stored at distinct places, and `place` of the channel and frame order is
/// its own inverse with channels and frames exchanged.
proof fn lemma_place_back(i: int, channels: int, frames: int)
    requires
        channels > 0,
        frames > 0,
        0 <= i < frames * channels,
    ensures
        ({
            let j = (i % channels) * frames + i / channels;
            0 <= j < frames * channels && (j % frames) * channels + j / frames == i
        }),
{
    let ch = i % channels;
    let frame = i / channels;
    let j = ch * frames + frame;
    assert(0 <= ch < channels && 0 <= frame < frames) by (nonlinear_arith)
        requires
            channels > 0,
            0 <= i < frames * channels,
            ch == i % channels,
            frame == i / channels,
    ;
    vstd::arithmetic::div_mod::lemma_fundamental_div_mod_converse(j, frames, ch, frame);
    vstd::arithmetic::div_mod::lemma_fundamental_div_mod(i, channels);
    assert(frame * channels + ch == i) by (nonlinear_arith)
        requires
            i == channels * frame + ch,
    ;
    assert(0 <= j < frames * channels) by (nonlinear_arith)
        requires
            0 <= ch < channels,
            0 <= frame < frames,
            j == ch * frames + frame,
    ;
}

impl AudioFormat {
    /// Bytes used per single-channel sample.
    pub fn bytes_per_sample(self) -> (r: usize)
        ensures
            r == sample_bytes(self),
    {
        match self {
            AudioFormat::U8 | AudioFormat::U8Planar => 1,
            AudioFormat::S16 | AudioFormat::S16Planar => 2,
            _ => 4,
        }
    }

    /// Whether channels are stored planar (each channel contiguous) rather than interleaved.
    pub fn is_planar(self) -> (r: bool)
        ensures
            r == planar(self),
    {
        match self {
            AudioFormat::U8Planar | AudioFormat::S16Planar | AudioFormat::S32Planar
            | AudioFormat::F32Planar => true,
            _ => false,
        }
    }

    /// Whether the underlying sample type is floating-point.
    pub fn is_float(self) -> (r: bool)
        ensures
            r == (self is F32 || self is F32Planar),
    {
        match self {
            AudioFormat::F32 | AudioFormat::F32Planar => true,
            _ => false,
        }
    }

    /// Read a raw PCM buffer in this format as interleaved words, one for each sample.
    pub fn to_interleaved_words(self, data: &[u8], channels: u32) -> (r: Result<Vec<u32>, Error>)
        requires
            data@.len() + 4 * channels <= usize::MAX,
        ensures
            match r {
                Ok(words) => {
                    &&& channels > 0
                    &&& data@.len() as int % (sample_bytes(self) * channels) == 0
                    &&& words@ == words_of(self, data@, channels as int)
                },
                Err(e) => if channels == 0 {
                    e@ == no_channel()
                } else {
                    &&& data@.len() as int % (sample_bytes(self) * channels) != 0
                    &&& e@ == (ErrorView::Misaligned {
                        got: data@.len() as usize,
                        expected: next_multiple(
                            data@.len() as int,
                            sample_bytes(self) * channels,
                        ) as usize,
                    })
                },
            },
    {
        let width: usize = channels as usize;
        if width == 0 {
            return Err(Error::Unsupported("channel count must be > 0".to_owned()));
        }
        let bytes: usize = self.bytes_per_sample();
        assert(0 < bytes * width <= 4 * channels) by (nonlinear_arith)
            requires
                0 < bytes <= 4,
                width == channels,
                width > 0,
        ;
        let step: usize = bytes * width;
        if data.len() % step != 0 {
            return Err(
                Error::Misaligned { got: data.len(), expected: round_up(data.len(), step) },
            );
        }
        let total: usize = data.len() / bytes;
        let frames: usize = total / width;
        proof {
            lemma_whole_frames(data@.len() as int, bytes as int, width as int);
        }
        let ghost all = words_of(self, data@, channels as int);
        let mut out: Vec<u32> = Vec::new();
        let mut i: usize = 0;
        while i < total
            invariant
                0 <= i <= total,
                width == channels,
                width > 0,
                bytes == sample_bytes(self),
                total == data@.len() / (bytes as nat),
                frames == total as int / width as int,
                total == frames * width,
                total * bytes == data@.len(),
                data@.len() <= usize::MAX,
                all == words_of(self, data@, channels as int),
                out@ == all.take(i as int),
            decreases total - i,
        {
            proof {
                lemma_place(self, i as int, width as int, frames as int);
            }
            let at: usize = if self.is_planar() {
                proof {
                    let ch = i as int % width as int;
                    let frame = i as int / width as int;
                    assert(0 <= ch * frames <= total) by (nonlinear_arith)
                        requires
                            0 <= ch * frames + frame < frames * width,
                            0 <= ch,
                            0 <= frames,
                            0 <= frame,
                            total == frames * width,
                    ;
                }
                (i % width) * frames + i / width
            } else {
                i
            };
            assert(at * bytes + bytes <= data@.len()) by (nonlinear_arith)
                requires
                    at < total,
                    total * bytes == data@.len(),
                    bytes > 0,
            ;
            assert(0 <= at * bytes) by (nonlinear_arith)
                requires
                    0 <= at,
                    0 < bytes,
            ;
            let value: u32 = read_word(data, at * bytes, bytes);
            out.push(value);
            assert(out@ =~= all.take(i + 1));
            i = i + 1;
        }
        assert(out@ =~= all);
        Ok(out)
    }

    /// Write interleaved words, one for each sample, as a raw PCM buffer in this format. A word
    /// keeps the low bytes that the format has room for.
    pub fn from_interleaved_words(self, words: &Vec<u32>, channels: u32) -> (r: Result<
        Vec<u8>,
        Error,
    >)
        requires
            words@.len() + channels <= usize::MAX,
            words@.len() * 4 <= usize::MAX,
        ensures
            match r {
                Ok(data) => {
                    &&& channels > 0
                    &&& words@.len() as int % channels as int == 0
                    &&& data@.len() == words@.len() * sample_bytes(self)
                    &&& forall|i: int|
                        0 <= i < words@.len() ==> data@.subrange(
                            place(self, i, channels as int, words@.len() as int / channels as int)
                                * sample_bytes(self),
                            place(self, i, channels as int, words@.len() as int / channels as int)
                                * sample_bytes(self) + sample_bytes(self),
                        ) == word_bytes(#[trigger] words@[i] as int, sample_bytes(self))
                },
                Err(e) => if channels == 0 {
                    e@ == no_channel()
                } else {
                    &&& words@.len() as int % channels as int != 0
                    &&& e@ == (ErrorView::Misaligned {
                        got: words@.len() as usize,
                        expected: next_multiple(words@.len() as int, channels as int) as usize,
                    })
                },
            },
    {
        let width: usize = channels as usize;
        if width == 0 {
            return Err(Error::Unsupported("channel count must be > 0".to_owned()));
        }
        if words.len() % width != 0 {
            return Err(
                Error::Misaligned { got: words.len(), expected: round_up(words.len(), width) },
            );
        }
        let bytes: usize = self.bytes_per_sample();
        let total: usize = words.len();
        let frames: usize = total / width;
        proof {
            vstd::arithmetic::div_mod::lemma_fundamental_div_mod(total as int, width as int);
            assert(frames * width == total) by (nonlinear_arith)
                requires
                    total == width * frames,
            ;
            assert(total * bytes <= total * 4) by (nonlinear_arith)
                requires
                    bytes <= 4,
            ;
        }
        let mut out: Vec<u8> = Vec::new();
        let mut j: usize = 0;
        assert(j * bytes == 0);
        while j < total
            invariant
                0 <= j <= total,
                width == channels,
                width > 0,
                bytes == sample_bytes(self),
                bytes <= 4,
                total == words@.len(),
                frames == total as int / width as int,
                frames * width == total,
                out@.len() == j * bytes,
                total * 4 <= usize::MAX,
                forall|k: int|
                    0 <= k < j ==> out@.subrange(k * bytes, k * bytes + bytes) == word_bytes(
                        words@[#[trigger] stored(self, k, width as int, frames as int)] as int,
                        bytes as nat,
                    ),
            decreases total - j,
        {
            proof {
                if planar(self) {
                    assert(frames > 0) by (nonlinear_arith)
                        requires
                            frames * width == total,
                            total > 0,
                            frames >= 0,
                    ;
                    assert(frames * width == width * frames) by (nonlinear_arith);
                    lemma_place_back(j as int, frames as int, width as int);
                    let ch = j as int % frames as int;
                    assert(0 <= ch * width <= total) by (nonlinear_arith)
                        requires
                            0 <= ch < frames,
                            frames * width == total,
                            width > 0,
                    ;
                }
            }
            let from: usize = if self.is_planar() {
                (j % frames) * width + j / frames
            } else {
                j
            };
            assert(from == stored(self, j as int, width as int, frames as int));
            let ghost before = out@;
            push_word(&mut out, words[from], bytes);
            assert((j + 1) * bytes == j * bytes + bytes) by (nonlinear_arith);
            assert forall|k: int| 0 <= k < j + 1 implies out@.subrange(k * bytes, k * bytes + bytes)
                == word_bytes(
                words@[#[trigger] stored(self, k, width as int, frames as int)] as int,
                bytes as nat,
            ) by {
                if k < j {
                    assert(0 <= k * bytes && k * bytes + bytes <= j * bytes) by (nonlinear_arith)
                        requires
                            0 <= k < j,
                            bytes > 0,
                    ;
                    assert(out@.subrange(k * bytes, k * bytes + bytes) =~= before.subrange(
                        k * bytes,
                        k * bytes + bytes,
                    ));
                } else {
                    assert(out@.subrange(k * bytes, k * bytes + bytes) =~= word_bytes(
                        words@[from as int] as int,
                        bytes as nat,
                    ));
                }
            }
            j = j + 1;
        }
        proof {
            assert forall|i: int| 0 <= i < words@.len() implies out@.subrange(
                place(self, i, channels as int, frames as int) * bytes,
                place(self, i, channels as int, frames as int) * bytes + bytes,
            ) == word_bytes(#[trigger] words@[i] as int, bytes as nat) by {
                let k = place(self, i, width as int, frames as int);
                lemma_place(self, i, width as int, frames as int);
                if planar(self) {
                    assert(frames > 0) by (nonlinear_arith)
                        requires
                            frames * width == total,
                            total > 0,
                            frames >= 0,
                    ;
                    lemma_place_back(i, width as int, frames as int);
                }
                assert(stored(self, k, width as int, frames as int) == i);
            }
        }
        Ok(out)
    }
}

/// Which interleaved sample is stored at place `k`.
pub open spec fn stored(format: AudioFormat, k: int, channels: int, frames: int) -> int {
    if planar(format) {
        (k % frames) * channels + k / frames
    } else {
        k
    }
}

proof fn lemma_whole_frames(len: int, bytes: int, width: int)
    requires
        bytes > 0,
        width > 0,
        len >= 0,
        len % (bytes * width) == 0,
    ensures
        (len / bytes) * bytes == len,
        (len / bytes / width) * width == len / bytes,
        len / bytes >= 0,
{
    let q = len / (bytes * width);
    assert(bytes * width > 0) by (nonlinear_arith)
        requires
            bytes > 0,
            width > 0,
    ;
    vstd::arithmetic::div_mod::lemma_fundamental_div_mod(len, bytes * width);
    let total = q * width;
    assert(len == total * bytes) by (nonlinear_arith)
        requires
            len == (bytes * width) * q,
            total == q * width,
    ;
    assert(len / bytes == total) by (nonlinear_arith)
        requires
            len == total * bytes,
            bytes > 0,
    ;
    assert(total / width == q) by (nonlinear_arith)
        requires
            total == q * width,
            width > 0,
    ;
    assert(q >= 0) by (nonlinear_arith)
        requires
            len == (bytes * width) * q,
            bytes * width > 0,
            len >= 0,
    ;
    assert(total >= 0) by (nonlinear_arith)
        requires
            total == q * width,
            q >= 0,
            width > 0,
    ;
}

fn read_word(data: &[u8], at: usize, n: usize) -> (r: u32)
    requires
        at + n <= data@.len(),
        n == 1 || n == 2 || n == 4,
    ensures
        r == word(data@, at as int, n as nat),
{
    proof {
        lemma_word_bound(data@, at as int, n as nat);
        reveal_with_fuel(word, 5);
    }
    if n == 1 {
        data[at] as u32
    } else if n == 2 {
        data[at] as u32 + 256 * data[at + 1] as u32
    } else {
        data[at] as u32 + 256 * (data[at + 1] as u32 + 256 * (data[at + 2] as u32 + 256 * data[at
            + 3] as u32))
    }
}

fn push_word(out: &mut Vec<u8>, value: u32, n: usize)
    requires
        n <= 4,
        old(out)@.len() + n <= usize::MAX,
    ensures
        final(out)@ == old(out)@ + word_bytes(value as int, n as nat),
        final(out)@.len() == old(out)@.len() + n,
{
    let ghost before = out@;
    let ghost all = word_bytes(value as int, n as nat);
    let mut rest: u32 = value;
    let mut i: usize = 0;
    assert(before =~= out@);
    while i < n
        invariant
            0 <= i <= n,
            n <= 4,
            out@ + word_bytes(rest as int, (n - i) as nat) == before + all,
            out@.len() == before.len() + i,
            before.len() + n <= usize::MAX,
        decreases n - i,
    {
        let ghost prior = out@;
        let ghost tail = word_bytes(rest as int, (n - i) as nat);
        let byte: u8 = (rest % 256) as u8;
        out.push(byte);
        assert(tail == seq![byte] + word_bytes(rest as int / 256, (n - i - 1) as nat));
        rest = rest / 256;
        assert(out@ + word_bytes(rest as int, (n - i - 1) as nat) =~= prior + tail);
        i = i + 1;
    }
    assert(out@ =~= before + all);
}

proof fn lemma_word_bytes(value: int, n: nat)
    ensures
        word_bytes(value, n).len() == n,
    decreases n,
{
    if n > 0 {
        lemma_word_bytes(value / 256, (n - 1) as nat);
    }
}

/// A word's bytes read back as the word, where the format has room for it.
proof fn lemma_word_roundtrip(data: Seq<u8>, at: int, value: int, n: nat)
    requires
        0 <= at,
        at + n <= data.len(),
        data.subrange(at, at + n) == word_bytes(value, n),
        0 <= value,
        n == 1 || n == 2 || n == 4,
        n == 1 ==> value < 0x100,
        n == 2 ==> value < 0x1_0000,
        value <= u32::MAX,
    ensures
        word(data, at, n) == value,
{
    reveal_with_fuel(word, 5);
    reveal_with_fuel(word_bytes, 5);
    let bytes = word_bytes(value, n);
    assert(bytes.len() == n) by {
        lemma_word_bytes(value, n);
    }
    assert forall|k: int| 0 <= k < n implies data[at + k] == bytes[k] by {
        assert(data.subrange(at, at + n)[k] == data[at + k]);
    }
    assert(data[at + 0] == bytes[0]);
    if n == 1 {
        assert(bytes[0] == (value % 256) as u8);
    } else if n == 2 {
        assert(data[at + 1] == bytes[1]);
        assert(bytes[0] == (value % 256) as u8);
        assert(bytes[1] == (value / 256 % 256) as u8);
    } else {
        assert(data[at + 1] == bytes[1]);
        assert(data[at + 2] == bytes[2]);
        assert(data[at + 3] == bytes[3]);
        assert(bytes[0] == (value % 256) as u8);
        assert(bytes[1] == (value / 256 % 256) as u8);
        assert(bytes[2] == (value / 256 / 256 % 256) as u8);
        assert(bytes[3] == (value / 256 / 256 / 256 % 256) as u8);
    }
}

/// Writing words and reading the buffer gives the words back, interleaved or planar, where every
/// word fits the format.
pub proof fn law_reading_undoes_writing(
    format: AudioFormat,
    words: Seq<u32>,
    data: Seq<u8>,
    channels: u32,
)
    requires
        channels > 0,
        words.len() as int % channels as int == 0,
        data.len() == words.len() * sample_bytes(format),
        forall|i: int|
            0 <= i < words.len() ==> data.subrange(
                place(format, i, channels as int, words.len() as int / channels as int)
                    * sample_bytes(format),
                place(format, i, channels as int, words.len() as int / channels as int)
                    * sample_bytes(format) + sample_bytes(format),
            ) == word_bytes(#[trigger] words[i] as int, sample_bytes(format)),
        forall|i: int|
            0 <= i < words.len() ==> (sample_bytes(format) == 1 ==> (#[trigger] words[i]) < 0x100)
                && (sample_bytes(format) == 2 ==> words[i] < 0x1_0000),
    ensures
        words_of(format, data, channels as int) == words,
{
    let bytes = sample_bytes(format);
    let n = words.len() as int;
    let width = channels as int;
    let frames = n / width;
    assert(data.len() / bytes == n) by (nonlinear_arith)
        requires
            data.len() == n * bytes,
            bytes > 0,
    ;
    vstd::arithmetic::div_mod::lemma_fundamental_div_mod(n, width);
    assert(frames * width == n) by (nonlinear_arith)
        requires
            n == width * frames,
    ;
    assert forall|i: int| 0 <= i < n implies words_of(format, data, width)[i] == words[i] by {
        let k = place(format, i, width, frames);
        lemma_place(format, i, width, frames);
        assert(0 <= k * bytes && k * bytes + bytes <= n * bytes) by (nonlinear_arith)
            requires
                0 <= k < n,
                bytes > 0,
        ;
        lemma_word_roundtrip(data, k * bytes, words[i] as int, bytes);
    }
    assert(words_of(format, data, width) =~= words);
}

/// The byte at `at`, as a number.
spec fn byte_at(data: Seq<u8>, at: int) -> int {
    data[at] as int
}

proof fn lemma_words(data: Seq<u8>, at: int)
    ensures
        word(data, at, 1) == byte_at(data, at),
        word(data, at, 2) == byte_at(data, at) + 0x100 * byte_at(data, at + 1),
        word(data, at, 4) == byte_at(data, at) + 0x100 * byte_at(data, at + 1) + 0x1_0000 * byte_at(
            data,
            at + 2,
        ) + 0x100_0000 * byte_at(data, at + 3),
{
    reveal_with_fuel(word, 5);
    assert(at + 1 + 1 == at + 2);
    assert(at + 2 + 1 == at + 3);
}

/// How each format is stored: whether channel by channel, and in how many bytes a sample.
pub proof fn law_each_format_is_stored_as_its_name_says()
    ensures
        !planar(AudioFormat::U8) && sample_bytes(AudioFormat::U8) == 1,
        !planar(AudioFormat::S16) && sample_bytes(AudioFormat::S16) == 2,
        !planar(AudioFormat::S32) && sample_bytes(AudioFormat::S32) == 4,
        !planar(AudioFormat::F32) && sample_bytes(AudioFormat::F32) == 4,
        planar(AudioFormat::U8Planar) && sample_bytes(AudioFormat::U8Planar) == 1,
        planar(AudioFormat::S16Planar) && sample_bytes(AudioFormat::S16Planar) == 2,
        planar(AudioFormat::S32Planar) && sample_bytes(AudioFormat::S32Planar) == 4,
        planar(AudioFormat::F32Planar) && sample_bytes(AudioFormat::F32Planar) == 4,
{
}

/// An interleaved buffer is read in its own order: sample `i` is the little-endian word at `i` times
/// the sample's size, whatever the number of channels.
pub proof fn law_interleaved_samples_keep_their_order(data: Seq<u8>, channels: int, i: int)
    requires
        channels > 0,
        0 <= i,
    ensures
        words_of(AudioFormat::U8, data, channels).len() == data.len(),
        words_of(AudioFormat::S16, data, channels).len() == data.len() / 2,
        words_of(AudioFormat::S32, data, channels).len() == data.len() / 4,
        words_of(AudioFormat::F32, data, channels).len() == data.len() / 4,
        i < data.len() ==> words_of(AudioFormat::U8, data, channels)[i] == data[i],
        2 * i + 1 < data.len() ==> words_of(AudioFormat::S16, data, channels)[i] == data[2 * i]
            + 0x100 * data[2 * i + 1],
        4 * i + 3 < data.len() ==> words_of(AudioFormat::S32, data, channels)[i] == data[4 * i]
            + 0x100 * data[4 * i + 1] + 0x1_0000 * data[4 * i + 2] + 0x100_0000 * data[4 * i + 3],
        4 * i + 3 < data.len() ==> words_of(AudioFormat::F32, data, channels)[i] == data[4 * i]
            + 0x100 * data[4 * i + 1] + 0x1_0000 * data[4 * i + 2] + 0x100_0000 * data[4 * i + 3],
{
    lemma_words(data, i);
    lemma_words(data, 2 * i);
    lemma_words(data, 4 * i);
}

/// A planar buffer holds one channel after the other: the sample of channel `c` in frame `f` is the
/// little-endian word of that frame in that channel's part, and comes out interleaved.
pub proof fn law_planar_samples_are_interleaved(
    data: Seq<u8>,
    channels: int,
    frames: int,
    c: int,
    f: int,
)
    requires
        0 <= c < channels,
        0 <= f < frames,
    ensures
        data.len() == frames * channels ==> words_of(AudioFormat::U8Planar, data, channels)[f
            * channels + c] == data[c * frames + f],
        data.len() == 2 * (frames * channels) ==> words_of(
            AudioFormat::S16Planar,
            data,
            channels,
        )[f * channels + c] == data[2 * (c * frames + f)] + 0x100 * data[2 * (c * frames + f) + 1],
        data.len() == 4 * (frames * channels) ==> words_of(
            AudioFormat::S32Planar,
            data,
            channels,
        )[f * channels + c] == data[4 * (c * frames + f)] + 0x100 * data[4 * (c * frames + f) + 1]
            + 0x1_0000 * data[4 * (c * frames + f) + 2] + 0x100_0000 * data[4 * (c * frames + f)
            + 3],
        data.len() == 4 * (frames * channels) ==> words_of(
            AudioFormat::F32Planar,
            data,
            channels,
        )[f * channels + c] == data[4 * (c * frames + f)] + 0x100 * data[4 * (c * frames + f) + 1]
            + 0x1_0000 * data[4 * (c * frames + f) + 2] + 0x100_0000 * data[4 * (c * frames + f)
            + 3],
{
    let at = c * frames + f;
    lemma_words(data, at);
    lemma_words(data, 2 * at);
    lemma_words(data, 4 * at);
    lemma_located(channels, frames, c, f);
    if data.len() == frames * channels {
        lemma_planar_word(AudioFormat::U8Planar, data, channels, frames, c, f);
    }
    if data.len() == 2 * (frames * channels) {
        lemma_planar_word(AudioFormat::S16Planar, data, channels, frames, c, f);
    }
    if data.len() == 4 * (frames * channels) {
        lemma_planar_word(AudioFormat::S32Planar, data, channels, frames, c, f);
        lemma_planar_word(AudioFormat::F32Planar, data, channels, frames, c, f);
    }
}

proof fn lemma_planar_word(
    format: AudioFormat,
    data: Seq<u8>,
    channels: int,
    frames: int,
    c: int,
    f: int,
)
    requires
        planar(format),
        0 <= c < channels,
        0 <= f < frames,
        data.len() == sample_bytes(format) * (frames * channels),
    ensures
        words_of(format, data, channels)[f * channels + c] == word(
            data,
            sample_bytes(format) * (c * frames + f),
            sample_bytes(format),
        ) as u32,
{
    let total = frames * channels;
    lemma_located(channels, frames, c, f);
    assert(total / channels == frames) by (nonlinear_arith)
        requires
            total == frames * channels,
            channels > 0,
    ;
    let bytes = sample_bytes(format) as int;
    vstd::arithmetic::div_mod::lemma_div_multiples_vanish(total, bytes);
    assert(data.len() / sample_bytes(format) == total);
    assert((c * frames + f) * bytes == bytes * (c * frames + f)) by (nonlinear_arith);
    assert(place(format, f * channels + c, channels, frames) == c * frames + f);
}

proof fn lemma_located(channels: int, frames: int, c: int, f: int)
    requires
        0 <= c < channels,
        0 <= f < frames,
    ensures
        (f * channels + c) % channels == c,
        (f * channels + c) / channels == f,
        0 <= f * channels + c < frames * channels,
        0 <= c * frames + f < frames * channels,
{
    vstd::arithmetic::div_mod::lemma_fundamental_div_mod_converse(f * channels + c, channels, f, c);
    assert(0 <= f * channels + c < frames * channels) by (nonlinear_arith)
        requires
            0 <= c < channels,
            0 <= f < frames,
    ;
    assert(0 <= c * frames + f < frames * channels) by (nonlinear_arith)
        requires
            0 <= c < channels,
            0 <= f < frames,
    ;
}

/// Where the sample of channel `c` in frame `f` is stored: behind the samples of the frames before it,
/// or in a planar buffer behind the channels before it.
pub proof fn law_samples_are_stored_by_frame_or_by_channel(
    format: AudioFormat,
    channels: int,
    frames: int,
    c: int,
    f: int,
)
    requires
        0 <= c < channels,
        0 <= f < frames,
    ensures
        place(format, f * channels + c, channels, frames) == if format is U8 || format is S16
            || format is S32 || format is F32 {
            f * channels + c
        } else {
            c * frames + f
        },
{
    lemma_located(channels, frames, c, f);
}

/// The bytes of a word, lowest first; those the format has no room for are left out.
pub proof fn law_words_are_little_endian(value: int)
    requires
        value >= 0,
    ensures
        word_bytes(value, 1) == seq![(value % 0x100) as u8],
        word_bytes(value, 2) == seq![(value % 0x100) as u8, (value / 0x100 % 0x100) as u8],
        word_bytes(value, 4) == seq![
            (value % 0x100) as u8,
            (value / 0x100 % 0x100) as u8,
            (value / 0x1_0000 % 0x100) as u8,
            (value / 0x100_0000 % 0x100) as u8,
        ],
{
    reveal_with_fuel(word_bytes, 5);
    assert(value / 256 / 256 == value / 0x1_0000);
    assert(value / 256 / 256 / 256 == value / 0x100_0000);
    assert(word_bytes(value, 1) =~= seq![(value % 0x100) as u8]);
    assert(word_bytes(value, 2) =~= seq![(value % 0x100) as u8, (value / 0x100 % 0x100) as u8]);
    assert(word_bytes(value, 4) =~= seq![
        (value % 0x100) as u8,
        (value / 0x100 % 0x100) as u8,
        (value / 0x1_0000 % 0x100) as u8,
        (value / 0x100_0000 % 0x100) as u8,
    ]);
}

/// A misaligned buffer is told the next length that would do: a multiple, and the least that is not
/// shorter.
pub proof fn law_the_expected_length_is_the_next_that_fits(n: int, step: int)
    requires
        n >= 0,
        step > 0,
    ensures
        next_multiple(n, step) % step == 0,
        n <= next_multiple(n, step) < n + step,
{
    vstd::arithmetic::div_mod::lemma_fundamental_div_mod(n, step);
    let q = n / step;
    let r = n % step;
    assert(0 <= r < step) by (nonlinear_arith)
        requires
            r == n % step,
            step > 0,
    ;
    if r != 0 {
        assert(next_multiple(n, step) == (q + 1) * step) by (nonlinear_arith)
            requires
                n == step * q + r,
                next_multiple(n, step) == n - r + step,
        ;
        vstd::arithmetic::div_mod::lemma_mod_multiples_basic(q + 1, step);
    }
}

} // verus!
