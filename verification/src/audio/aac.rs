//! AAC constraints.
//!
//! Only the decode side exists: this library reads AAC-LC that a gateway produced.

use super::error::{Error, ErrorView};
use crate::text::{decimal_text, push_decimal};
use vstd::prelude::*;
use vstd::string::StringExecFns;

verus! {

/// The object type of AAC-LC, the one profile that is decoded.
pub const PROFILE_LC: u8 = 2;

/// The widest sample rate a config can name: the escape from the frequency table is a 24-bit field.
pub const MAX_SAMPLE_RATE: u32 = 0xFF_FFFF;

/// What an `AudioSpecificConfig` declares.
#[derive(Clone, Copy, Debug, PartialEq, Eq, Structural)]
pub struct Config {
    /// The audio object type.
    pub profile: u8,
    /// Samples per second.
    pub sample_rate: u32,
    /// Channels, or zero where the channel configuration names none.
    pub channel_count: u32,
}

/// Why the decoder cannot open a config, if it cannot.
pub open spec fn config_fault(config: Config) -> Option<ErrorView> {
    if config.profile != PROFILE_LC {
        Some(
            ErrorView::Unsupported(
                "only AAC-LC is supported (got mp4a.40."@ + decimal_text(config.profile as nat)
                    + ")"@,
            ),
        )
    } else if config.channel_count != 1 && config.channel_count != 2 {
        Some(
            ErrorView::Unsupported(
                "aac decoding is limited to mono and stereo (got "@ + decimal_text(
                    config.channel_count as nat,
                ) + " channels)"@,
            ),
        )
    } else if config.sample_rate > MAX_SAMPLE_RATE {
        Some(
            ErrorView::Unsupported(
                "aac sample rate must fit 24 bits (got "@ + decimal_text(
                    config.sample_rate as nat,
                ) + ")"@,
            ),
        )
    } else {
        None
    }
}

/// Reject what the decoder can't open, by the numbers a config actually carries.
pub fn validate(config: &Config) -> (r: Result<(), Error>)
    ensures
        match r {
            Ok(_) => config_fault(*config) is None,
            Err(e) => config_fault(*config) == Some(e@),
        },
{
    if config.profile != PROFILE_LC {
        let mut text = "only AAC-LC is supported (got mp4a.40.".to_owned();
        push_decimal(&mut text, config.profile as u64);
        text.append(")");
        return Err(Error::Unsupported(text));
    }
    if config.channel_count != 1 && config.channel_count != 2 {
        let mut text = "aac decoding is limited to mono and stereo (got ".to_owned();
        push_decimal(&mut text, config.channel_count as u64);
        text.append(" channels)");
        return Err(Error::Unsupported(text));
    }
    if config.sample_rate > MAX_SAMPLE_RATE {
        let mut text = "aac sample rate must fit 24 bits (got ".to_owned();
        push_decimal(&mut text, config.sample_rate as u64);
        text.append(")");
        return Err(Error::Unsupported(text));
    }
    Ok(())
}

/// Bit `k` of `data`, the most significant of each byte first.
pub open spec fn bit(data: Seq<u8>, k: int) -> int {
    let shift = 7 - k % 8;
    (data[k / 8] as int / (if shift == 0 {
        1
    } else if shift == 1 {
        2
    } else if shift == 2 {
        4
    } else if shift == 3 {
        8
    } else if shift == 4 {
        16
    } else if shift == 5 {
        32
    } else if shift == 6 {
        64
    } else {
        128
    })) % 2
}

/// The number in the `n` bits from `at` on.
pub open spec fn field(data: Seq<u8>, at: int, n: nat) -> int
    decreases n,
{
    if n == 0 {
        0
    } else {
        field(data, at, (n - 1) as nat) * 2 + bit(data, at + n - 1)
    }
}

/// The sample rate of a frequency index, where the table names one.
pub open spec fn table_rate(index: int) -> Option<u32> {
    if index == 0 {
        Some(96_000)
    } else if index == 1 {
        Some(88_200)
    } else if index == 2 {
        Some(64_000)
    } else if index == 3 {
        Some(48_000)
    } else if index == 4 {
        Some(44_100)
    } else if index == 5 {
        Some(32_000)
    } else if index == 6 {
        Some(24_000)
    } else if index == 7 {
        Some(22_050)
    } else if index == 8 {
        Some(16_000)
    } else if index == 9 {
        Some(12_000)
    } else if index == 10 {
        Some(11_025)
    } else if index == 11 {
        Some(8_000)
    } else if index == 12 {
        Some(7_350)
    } else {
        None
    }
}

/// The channels of a channel configuration.
pub open spec fn config_channels(configuration: int) -> int {
    if 1 <= configuration <= 6 {
        configuration
    } else if configuration == 7 {
        8
    } else {
        0
    }
}

/// Where the fields after the object type start: a type of 31 escapes to a longer one.
pub open spec fn after_type(data: Seq<u8>) -> int {
    if field(data, 0, 5) == 31 {
        11
    } else {
        5
    }
}

/// The object type.
pub open spec fn object_type(data: Seq<u8>) -> int {
    if field(data, 0, 5) == 31 {
        32 + field(data, 5, 6)
    } else {
        field(data, 0, 5)
    }
}

/// What `data` declares, or `None` where it ends too soon or names a reserved rate.
pub open spec fn parsed(data: Seq<u8>) -> Option<Config> {
    let bits = data.len() * 8;
    let at = after_type(data);
    let index = field(data, at, 4);
    let explicit = index == 15;
    let channels_at = if explicit {
        at + 28
    } else {
        at + 4
    };
    if bits < 5 || bits < at + 4 || bits < channels_at + 4 {
        None
    } else if !explicit && table_rate(index) is None {
        None
    } else {
        Some(
            Config {
                profile: object_type(data) as u8,
                sample_rate: if explicit {
                    field(data, at + 4, 24) as u32
                } else {
                    table_rate(index)->0
                },
                channel_count: config_channels(field(data, channels_at, 4)) as u32,
            },
        )
    }
}

fn read_bit(data: &Vec<u8>, k: usize) -> (r: u32)
    requires
        k / 8 < data@.len(),
    ensures
        r == bit(data@, k as int),
        r <= 1,
{
    let byte: u32 = data[k / 8] as u32;
    let shift: usize = 7 - k % 8;
    let divisor: u32 = if shift == 0 {
        1
    } else if shift == 1 {
        2
    } else if shift == 2 {
        4
    } else if shift == 3 {
        8
    } else if shift == 4 {
        16
    } else if shift == 5 {
        32
    } else if shift == 6 {
        64
    } else {
        128
    };
    (byte / divisor) % 2
}

/// What a field of `n` bits stays below.
spec fn limit(n: nat) -> int
    decreases n,
{
    if n == 0 {
        1
    } else {
        2 * limit((n - 1) as nat)
    }
}

proof fn lemma_field_bound(data: Seq<u8>, at: int, n: nat)
    ensures
        0 <= field(data, at, n) < limit(n),
    decreases n,
{
    if n > 0 {
        lemma_field_bound(data, at, (n - 1) as nat);
        let k = at + n - 1;
        assert(0 <= bit(data, k) <= 1);
    }
}

fn read_field(data: &Vec<u8>, at: usize, n: usize) -> (r: u32)
    requires
        at + n <= data@.len() * 8,
        n <= 24,
        at <= 64,
    ensures
        r == field(data@, at as int, n as nat),
        r < limit(n as nat),
{
    let mut value: u32 = 0;
    let mut i: usize = 0;
    while i < n
        invariant
            0 <= i <= n,
            n <= 24,
            at <= 64,
            at + n <= data@.len() * 8,
            value == field(data@, at as int, i as nat),
            value < limit(i as nat),
            limit(i as nat) <= 0x100_0000,
        decreases n - i,
    {
        proof {
            lemma_field_bound(data@, at as int, (i + 1) as nat);
            reveal_with_fuel(limit, 26);
            lemma_limit(i as nat);
        }
        value = value * 2 + read_bit(data, at + i);
        i = i + 1;
    }
    value
}

proof fn lemma_limit(n: nat)
    requires
        n < 24,
    ensures
        limit(n) <= 0x80_0000,
        limit((n + 1) as nat) <= 0x100_0000,
{
    reveal_with_fuel(limit, 26);
}

proof fn lemma_limits()
    ensures
        limit(4) == 16,
        limit(5) == 32,
        limit(6) == 64,
        limit(24) == 0x100_0000,
{
    reveal_with_fuel(limit, 26);
}

fn rate_of(index: u32) -> (r: Option<u32>)
    ensures
        r == table_rate(index as int),
{
    match index {
        0 => Some(96_000),
        1 => Some(88_200),
        2 => Some(64_000),
        3 => Some(48_000),
        4 => Some(44_100),
        5 => Some(32_000),
        6 => Some(24_000),
        7 => Some(22_050),
        8 => Some(16_000),
        9 => Some(12_000),
        10 => Some(11_025),
        11 => Some(8_000),
        12 => Some(7_350),
        _ => None,
    }
}

impl Config {
    /// Read an `AudioSpecificConfig`.
    pub fn parse(data: &Vec<u8>) -> (r: Result<Self, Error>)
        ensures
            match r {
                Ok(config) => parsed(data@) == Some(config),
                Err(e) => parsed(data@) is None && e@ == ErrorView::Mux("invalid aac config"@),
            },
    {
        proof {
            lemma_limits();
            lemma_field_bound(data@, 0, 5);
            lemma_field_bound(data@, 5, 6);
        }
        let len: usize = if data.len() < 16 {
            data.len()
        } else {
            16
        };
        let bits: usize = len * 8;
        if bits < 5 {
            return Err(Error::Mux("invalid aac config".to_owned()));
        }
        let short: u32 = read_field(data, 0, 5);
        let at: usize = if short == 31 {
            11
        } else {
            5
        };
        if bits < at + 4 {
            return Err(Error::Mux("invalid aac config".to_owned()));
        }
        let profile: u32 = if short == 31 {
            32 + read_field(data, 5, 6)
        } else {
            short
        };
        let index: u32 = read_field(data, at, 4);
        let channels_at: usize = if index == 15 {
            at + 28
        } else {
            at + 4
        };
        if bits < channels_at + 4 {
            return Err(Error::Mux("invalid aac config".to_owned()));
        }
        let sample_rate: u32 = if index == 15 {
            read_field(data, at + 4, 24)
        } else {
            match rate_of(index) {
                Some(rate) => rate,
                None => {
                    return Err(Error::Mux("invalid aac config".to_owned()));
                },
            }
        };
        let configuration: u32 = read_field(data, channels_at, 4);
        let channel_count: u32 = if 1 <= configuration && configuration <= 6 {
            configuration
        } else if configuration == 7 {
            8
        } else {
            0
        };
        Ok(Config { profile: profile as u8, sample_rate, channel_count })
    }
}

/// The frequency index of a sample rate, or the escape to an explicit one.
pub open spec fn rate_index(rate: u32) -> int {
    if rate == 96_000 {
        0
    } else if rate == 88_200 {
        1
    } else if rate == 64_000 {
        2
    } else if rate == 48_000 {
        3
    } else if rate == 44_100 {
        4
    } else if rate == 32_000 {
        5
    } else if rate == 24_000 {
        6
    } else if rate == 22_050 {
        7
    } else if rate == 16_000 {
        8
    } else if rate == 12_000 {
        9
    } else if rate == 11_025 {
        10
    } else if rate == 8_000 {
        11
    } else if rate == 7_350 {
        12
    } else {
        15
    }
}

fn index_of(rate: u32) -> (r: u32)
    ensures
        r == rate_index(rate),
        r < 16,
{
    match rate {
        96_000 => 0,
        88_200 => 1,
        64_000 => 2,
        48_000 => 3,
        44_100 => 4,
        32_000 => 5,
        24_000 => 6,
        22_050 => 7,
        16_000 => 8,
        12_000 => 9,
        11_025 => 10,
        8_000 => 11,
        7_350 => 12,
        _ => 15,
    }
}

/// The shortest `AudioSpecificConfig` of a config that the decoder can open: an object type of five
/// bits, a frequency index of four with an explicit rate of 24 where the table names none, and a
/// channel configuration of four.
pub open spec fn synthesized(config: Config) -> Seq<u8> {
    let index = rate_index(config.sample_rate);
    let head = config.profile * 8 + index / 2;
    let low = (index % 2) * 128;
    if index == 15 {
        let rate = config.sample_rate as int;
        seq![
            head as u8,
            (low + rate / 0x2_0000) as u8,
            (rate / 0x200 % 256) as u8,
            (rate / 2 % 256) as u8,
            (rate % 2 * 128 + config.channel_count * 8) as u8,
        ]
    } else {
        seq![head as u8, (low + config.channel_count * 8) as u8]
    }
}

impl Config {
    /// Write the `AudioSpecificConfig` of a config that the decoder can open.
    pub fn encode(&self) -> (r: Vec<u8>)
        requires
            config_fault(*self) is None,
        ensures
            r@ == synthesized(*self),
    {
        let index: u32 = index_of(self.sample_rate);
        let head: u32 = self.profile as u32 * 8 + index / 2;
        let low: u32 = (index % 2) * 128;
        let mut out: Vec<u8> = Vec::new();
        if index == 15 {
            let rate: u32 = self.sample_rate;
            out.push(head as u8);
            out.push((low + rate / 0x2_0000) as u8);
            out.push((rate / 0x200 % 256) as u8);
            out.push((rate / 2 % 256) as u8);
            out.push((rate % 2 * 128 + self.channel_count * 8) as u8);
        } else {
            out.push(head as u8);
            out.push((low + self.channel_count * 8) as u8);
        }
        assert(out@ =~= synthesized(*self));
        out
    }
}

proof fn lemma_concat(data: Seq<u8>, at: int, n: nat, m: nat)
    ensures
        field(data, at, n + m) == field(data, at, n) * limit(m) + field(data, at + n, m),
    decreases m,
{
    if m > 0 {
        let k = (m - 1) as nat;
        lemma_concat(data, at, n, k);
        assert(field(data, at, n + m) == field(data, at, n + k) * 2 + bit(data, at + n + m - 1));
        assert((field(data, at, n) * limit(k)) * 2 == field(data, at, n) * (2 * limit(k)))
            by (nonlinear_arith);
    }
}

proof fn lemma_bits(b: u8)
    ensures
        b as int / 8 == (((b as int / 128 % 2 * 2 + b as int / 64 % 2) * 2 + b as int / 32 % 2) * 2
            + b as int / 16 % 2) * 2 + b as int / 8 % 2,
        b as int % 8 == (b as int / 4 % 2 * 2 + b as int / 2 % 2) * 2 + b as int % 2,
        b as int / 128 % 2 == b as int / 128,
{
    assert(b / 8 == (((b / 128 % 2 * 2 + b / 64 % 2) * 2 + b / 32 % 2) * 2 + b / 16 % 2) * 2 + b / 8
        % 2) by (bit_vector);
    assert(b % 8 == (b / 4 % 2 * 2 + b / 2 % 2) * 2 + b % 2) by (bit_vector);
    assert(b / 128 % 2 == b / 128) by (bit_vector);
}

proof fn lemma_byte_bits(data: Seq<u8>, k: int)
    requires
        0 <= k < data.len(),
    ensures
        bit(data, 8 * k) == data[k] as int / 128 % 2,
        bit(data, 8 * k + 1) == data[k] as int / 64 % 2,
        bit(data, 8 * k + 2) == data[k] as int / 32 % 2,
        bit(data, 8 * k + 3) == data[k] as int / 16 % 2,
        bit(data, 8 * k + 4) == data[k] as int / 8 % 2,
        bit(data, 8 * k + 5) == data[k] as int / 4 % 2,
        bit(data, 8 * k + 6) == data[k] as int / 2 % 2,
        bit(data, 8 * k + 7) == data[k] as int % 2,
{
}

/// The fields that lie in one byte.
proof fn lemma_byte_fields(data: Seq<u8>, k: int)
    requires
        0 <= k < data.len(),
    ensures
        field(data, 8 * k, 1) == data[k] as int / 128,
        field(data, 8 * k, 5) == data[k] as int / 8,
        field(data, 8 * k + 5, 3) == data[k] as int % 8,
        field(data, 8 * k + 1, 4) == data[k] as int / 8 - data[k] as int / 128 * 16,
{
    lemma_byte_bits(data, k);
    lemma_bits(data[k]);
    assert(field(data, 8 * k, 0) == 0);
    assert(field(data, 8 * k, 1) == bit(data, 8 * k));
    assert(field(data, 8 * k, 2) == field(data, 8 * k, 1) * 2 + bit(data, 8 * k + 1));
    assert(field(data, 8 * k, 3) == field(data, 8 * k, 2) * 2 + bit(data, 8 * k + 2));
    assert(field(data, 8 * k, 4) == field(data, 8 * k, 3) * 2 + bit(data, 8 * k + 3));
    assert(field(data, 8 * k, 5) == field(data, 8 * k, 4) * 2 + bit(data, 8 * k + 4));
    assert(field(data, 8 * k + 5, 0) == 0);
    assert(field(data, 8 * k + 5, 1) == bit(data, 8 * k + 5));
    assert(field(data, 8 * k + 5, 2) == field(data, 8 * k + 5, 1) * 2 + bit(data, 8 * k + 6));
    assert(field(data, 8 * k + 5, 3) == field(data, 8 * k + 5, 2) * 2 + bit(data, 8 * k + 7));
    assert(field(data, 8 * k + 1, 0) == 0);
    assert(field(data, 8 * k + 1, 1) == bit(data, 8 * k + 1));
    assert(field(data, 8 * k + 1, 2) == field(data, 8 * k + 1, 1) * 2 + bit(data, 8 * k + 2));
    assert(field(data, 8 * k + 1, 3) == field(data, 8 * k + 1, 2) * 2 + bit(data, 8 * k + 3));
    assert(field(data, 8 * k + 1, 4) == field(data, 8 * k + 1, 3) * 2 + bit(data, 8 * k + 4));
}

/// A byte, and a byte without its first bit.
proof fn lemma_byte(data: Seq<u8>, k: int)
    requires
        0 <= k < data.len(),
    ensures
        field(data, 8 * k, 8) == data[k] as int,
        field(data, 8 * k + 1, 7) == data[k] as int % 128,
{
    lemma_byte_fields(data, k);
    lemma_small_limits();
    lemma_concat(data, 8 * k, 5, 3);
    lemma_concat(data, 8 * k + 1, 4, 3);
    assert(8 * k + 1 + 4 == 8 * k + 5);
}

proof fn lemma_small_limits()
    ensures
        limit(1) == 2,
        limit(3) == 8,
        limit(8) == 256,
{
    reveal_with_fuel(limit, 10);
}

proof fn lemma_rate_bytes(rate: int)
    requires
        0 <= rate <= MAX_SAMPLE_RATE,
    ensures
        (rate / 0x2_0000) * 256 + rate / 0x200 % 256 == rate / 0x200,
        (rate / 0x200) * 256 + rate / 2 % 256 == rate / 2,
        (rate / 2) * 2 + rate % 2 == rate,
{
    let high = rate / 0x200;
    let mid = rate / 2;
    assert(high / 256 == rate / 0x2_0000);
    assert(mid / 256 == high);
}

proof fn lemma_explicit_rate(data: Seq<u8>, rate: int)
    requires
        data.len() == 5,
        0 <= rate <= MAX_SAMPLE_RATE,
        data[1] as int % 128 == rate / 0x2_0000,
        data[2] as int == rate / 0x200 % 256,
        data[3] as int == rate / 2 % 256,
        data[4] as int / 128 == rate % 2,
    ensures
        field(data, 9, 24) == rate,
{
    lemma_byte(data, 1);
    lemma_byte(data, 2);
    lemma_byte(data, 3);
    lemma_byte_fields(data, 4);
    lemma_rate_bytes(rate);
    lemma_small_limits();
    lemma_concat(data, 9, 7, 8);
    lemma_concat(data, 9, 15, 8);
    lemma_concat(data, 9, 23, 1);
}

/// Reading what was synthesized gives the config back.
pub proof fn law_parse_undoes_encode(config: Config)
    requires
        config_fault(config) is None,
    ensures
        parsed(synthesized(config)) == Some(config),
{
    let data = synthesized(config);
    let index = rate_index(config.sample_rate);
    let rate = config.sample_rate as int;
    let channels = config.channel_count as int;
    lemma_limits();
    lemma_byte_fields(data, 0);
    lemma_byte_fields(data, 1);
    assert(data[0] as int == 16 + index / 2);
    assert(field(data, 0, 5) == 2);
    lemma_concat(data, 5, 3, 1);
    lemma_small_limits();
    assert(field(data, 5, 3) == index / 2);
    assert(field(data, 8, 1) == data[1] as int / 128);
    if index == 15 {
        assert(data[1] as int == 128 + rate / 0x2_0000);
        assert(field(data, 5, 4) == 15);
        lemma_byte_fields(data, 4);
        lemma_explicit_rate(data, rate);
        assert(field(data, 33, 4) == channels);
    } else {
        assert(data[1] as int == (index % 2) * 128 + channels * 8);
        assert(field(data, 5, 4) == index);
        assert(field(data, 9, 4) == channels);
        assert(table_rate(index) == Some(config.sample_rate));
    }
}

/// What a catalog says of an AAC track.
#[derive(Clone, Debug)]
pub struct Catalog {
    /// The object type of the codec string.
    pub profile: u8,
    /// Samples per second, per channel.
    pub sample_rate: u32,
    /// Channels.
    pub channel_count: u32,
    /// The codec header, where declared.
    pub description: Option<Vec<u8>>,
}

/// The header to open a decoder with, or why there is none.
pub open spec fn described(catalog: Catalog) -> Result<Seq<u8>, ErrorView> {
    let config = Config {
        profile: catalog.profile,
        sample_rate: catalog.sample_rate,
        channel_count: catalog.channel_count,
    };
    let chosen = match catalog.description {
        Some(description) => if description@.len() < 2 {
            Err(
                ErrorView::Unsupported(
                    "aac description must be at least 2 bytes (got "@ + decimal_text(
                        description@.len(),
                    ) + ")"@,
                ),
            )
        } else {
            Ok(description@)
        },
        None => if catalog.sample_rate == 0 || catalog.channel_count == 0 {
            Err(
                ErrorView::Unsupported(
                    "aac catalog without a description must declare a sample rate and channel count"@,
                ),
            )
        } else if config_fault(config) is Some {
            Err(config_fault(config)->0)
        } else {
            Ok(synthesized(config))
        },
    };
    match chosen {
        Err(e) => Err(e),
        Ok(description) => match parsed(description) {
            None => Err(ErrorView::Mux("invalid aac config"@)),
            Some(config) => match config_fault(config) {
                Some(fault) => Err(fault),
                None => Ok(description),
            },
        },
    }
}

fn copy_bytes(bytes: &Vec<u8>) -> (r: Vec<u8>)
    ensures
        r@ == bytes@,
{
    let mut out: Vec<u8> = Vec::new();
    let mut i: usize = 0;
    while i < bytes.len()
        invariant
            0 <= i <= bytes@.len(),
            out@ == bytes@.take(i as int),
        decreases bytes@.len() - i,
    {
        out.push(bytes[i]);
        assert(out@ =~= bytes@.take(i + 1));
        i = i + 1;
    }
    assert(out@ =~= bytes@);
    out
}

/// The `AudioSpecificConfig` to open a decoder with, validated as AAC-LC.
///
/// Prefers the catalog's description verbatim, since re-encoding the parsed fields would drop any
/// extension it carries. A catalog without one gets one synthesized from the declared profile, rate
/// and channel count, which are checked first: synthesis has no room for what the decoder cannot
/// open.
pub fn description(catalog: &Catalog) -> (r: Result<Vec<u8>, Error>)
    ensures
        match r {
            Ok(description) => described(*catalog) == Ok::<Seq<u8>, ErrorView>(description@),
            Err(e) => described(*catalog) == Err::<Seq<u8>, ErrorView>(e@),
        },
{
    let chosen: Vec<u8> = match &catalog.description {
        Some(description) => {
            if description.len() < 2 {
                let mut text = "aac description must be at least 2 bytes (got ".to_owned();
                push_decimal(&mut text, description.len() as u64);
                text.append(")");
                return Err(Error::Unsupported(text));
            }
            copy_bytes(description)
        },
        None => {
            if catalog.sample_rate == 0 || catalog.channel_count == 0 {
                return Err(
                    Error::Unsupported(
                        "aac catalog without a description must declare a sample rate and channel count".to_owned(),
                    ),
                );
            }
            let config = Config {
                profile: catalog.profile,
                sample_rate: catalog.sample_rate,
                channel_count: catalog.channel_count,
            };
            validate(&config)?;
            config.encode()
        },
    };
    let parsed = Config::parse(&chosen)?;
    validate(&parsed)?;
    Ok(chosen)
}

/// Whether the frequency table names `rate` at `index`.
pub open spec fn in_table(index: int, rate: u32) -> bool {
    ||| index == 0 && rate == 96000
    ||| index == 1 && rate == 88200
    ||| index == 2 && rate == 64000
    ||| index == 3 && rate == 48000
    ||| index == 4 && rate == 44100
    ||| index == 5 && rate == 32000
    ||| index == 6 && rate == 24000
    ||| index == 7 && rate == 22050
    ||| index == 8 && rate == 16000
    ||| index == 9 && rate == 12000
    ||| index == 10 && rate == 11025
    ||| index == 11 && rate == 8000
    ||| index == 12 && rate == 7350
}

/// Each frequency index stands for the rate of its row and for no other, each rate of the table is
/// written with its row's index, and every other rate is spelled out, which index 15 announces.
pub proof fn law_a_frequency_index_stands_for_its_row(index: int, rate: u32)
    ensures
        table_rate(index) == Some(rate) <==> in_table(index, rate),
        in_table(index, rate) ==> rate_index(rate) == index,
        (forall|i: int| !in_table(i, rate)) ==> rate_index(rate) == 15,
        !(0 <= index <= 12) ==> table_rate(index) is None,
{
    if rate_index(rate) != 15 {
        assert(in_table(rate_index(rate), rate));
    }
}

/// A header is opened exactly where it is AAC-LC, object type 2, in mono or stereo, at a rate of at
/// most 24 bits.
pub proof fn law_only_low_complexity_mono_and_stereo_open(config: Config)
    ensures
        config_fault(config) is None <==> config.profile == 2 && (config.channel_count == 1
            || config.channel_count == 2) && config.sample_rate < 0x100_0000,
{
}

/// The channels of each channel configuration: its number up to six, eight for seven, and none else.
pub proof fn law_channel_configurations(configuration: int)
    ensures
        config_channels(0) == 0,
        config_channels(1) == 1,
        config_channels(2) == 2,
        config_channels(3) == 3,
        config_channels(4) == 4,
        config_channels(5) == 5,
        config_channels(6) == 6,
        config_channels(7) == 8,
        configuration > 7 ==> config_channels(configuration) == 0,
{
}

/// Where the fields of a plain header lie: the object type in the first five bits, the frequency index
/// in the next four and the channel configuration in the four after it.
pub proof fn law_a_plain_header_is_read_bit_by_bit(data: Seq<u8>)
    requires
        data.len() >= 2,
        data[0] < 248,
        data[0] as int % 8 * 2 + data[1] as int / 128 != 15,
    ensures
        ({
            let index = data[0] as int % 8 * 2 + data[1] as int / 128;
            match parsed(data) {
                Some(config) => {
                    &&& config.profile == data[0] / 8
                    &&& in_table(index, config.sample_rate)
                    &&& config.channel_count == config_channels(data[1] as int / 8 % 16)
                },
                None => index == 13 || index == 14,
            }
        }),
{
    lemma_limits();
    lemma_small_limits();
    lemma_byte_fields(data, 0);
    lemma_byte_fields(data, 1);
    lemma_concat(data, 5, 3, 1);
    let index = data[0] as int % 8 * 2 + data[1] as int / 128;
    assert(field(data, 5, 4) == index);
    assert(field(data, 0, 5) == data[0] as int / 8);
    assert(field(data, 9, 4) == data[1] as int / 8 % 16);
    if table_rate(index) is Some {
        law_a_frequency_index_stands_for_its_row(index, table_rate(index)->0);
    }
}

/// Where the fields of a header that spells its rate out lie: 24 bits of it behind the index, and the
/// channel configuration behind them.
pub proof fn law_a_spelled_rate_is_read_bit_by_bit(data: Seq<u8>)
    requires
        data.len() >= 2,
        data[0] < 248,
        data[0] as int % 8 * 2 + data[1] as int / 128 == 15,
    ensures
        match parsed(data) {
            Some(config) => {
                &&& data.len() >= 5
                &&& config.profile == data[0] / 8
                &&& config.sample_rate == data[1] as int % 128 * 0x2_0000 + data[2] * 0x200
                    + data[3] * 2 + data[4] as int / 128
                &&& config.channel_count == config_channels(data[4] as int / 8 % 16)
            },
            None => data.len() < 5,
        },
{
    lemma_limits();
    lemma_small_limits();
    lemma_byte_fields(data, 0);
    lemma_byte_fields(data, 1);
    lemma_concat(data, 5, 3, 1);
    assert(field(data, 5, 4) == 15);
    assert(field(data, 0, 5) == data[0] as int / 8);
    if data.len() >= 5 {
        lemma_byte(data, 1);
        lemma_byte(data, 2);
        lemma_byte(data, 3);
        lemma_byte_fields(data, 4);
        lemma_concat(data, 9, 7, 8);
        lemma_concat(data, 9, 15, 8);
        lemma_concat(data, 9, 23, 1);
        assert(field(data, 33, 4) == data[4] as int / 8 % 16);
    }
}

/// A header of under two bytes declares nothing.
pub proof fn law_a_short_header_is_refused(data: Seq<u8>)
    requires
        data.len() < 2,
    ensures
        parsed(data) is None,
{
}

/// An object type of 31 stands for a longer one: six more bits, counted from 32. The fields behind it
/// lie six bits further on.
pub proof fn law_a_long_object_type_is_read_bit_by_bit(data: Seq<u8>)
    requires
        data.len() >= 3,
        data[0] >= 248,
        data[1] as int / 2 % 16 != 15,
    ensures
        match parsed(data) {
            Some(config) => {
                &&& config.profile == 32 + data[0] as int % 8 * 8 + data[1] as int / 32
                &&& in_table(data[1] as int / 2 % 16, config.sample_rate)
                &&& config.channel_count == config_channels(
                    data[1] as int % 2 * 8 + data[2] as int / 32,
                )
            },
            None => data[1] as int / 2 % 16 >= 13,
        },
{
    lemma_limits();
    lemma_small_limits();
    lemma_byte_fields(data, 0);
    lemma_byte_bits(data, 1);
    lemma_byte_bits(data, 2);
    lemma_bits(data[1]);
    lemma_bits(data[2]);
    assert(field(data, 0, 5) == 31);
    assert(field(data, 8, 0) == 0);
    assert(field(data, 8, 1) == bit(data, 8));
    assert(field(data, 8, 2) == field(data, 8, 1) * 2 + bit(data, 9));
    assert(field(data, 8, 3) == field(data, 8, 2) * 2 + bit(data, 10));
    lemma_concat(data, 5, 3, 3);
    assert(field(data, 11, 0) == 0);
    assert(field(data, 11, 1) == bit(data, 11));
    assert(field(data, 11, 2) == field(data, 11, 1) * 2 + bit(data, 12));
    assert(field(data, 11, 3) == field(data, 11, 2) * 2 + bit(data, 13));
    assert(field(data, 11, 4) == field(data, 11, 3) * 2 + bit(data, 14));
    assert(field(data, 15, 0) == 0);
    assert(field(data, 15, 1) == bit(data, 15));
    assert(field(data, 15, 2) == field(data, 15, 1) * 2 + bit(data, 16));
    assert(field(data, 15, 3) == field(data, 15, 2) * 2 + bit(data, 17));
    assert(field(data, 15, 4) == field(data, 15, 3) * 2 + bit(data, 18));
    let b = data[1];
    let e = data[2];
    assert(b / 32 == (b / 128 % 2 * 2 + b / 64 % 2) * 2 + b / 32 % 2 && b / 2 % 16 == ((b / 16 % 2 * 2
        + b / 8 % 2) * 2 + b / 4 % 2) * 2 + b / 2 % 2) by (bit_vector);
    assert(e / 32 == (e / 128 % 2 * 2 + e / 64 % 2) * 2 + e / 32 % 2) by (bit_vector);
    let index = b as int / 2 % 16;
    assert(field(data, 11, 4) == index);
    assert(field(data, 5, 6) == data[0] as int % 8 * 8 + b as int / 32);
    assert(field(data, 15, 4) == b as int % 2 * 8 + e as int / 32);
    if table_rate(index) is Some {
        law_a_frequency_index_stands_for_its_row(index, table_rate(index)->0);
    }
}

/// A synthesized header holds nothing but its fields: two bytes where the table names the rate, and
/// five where it is spelled out, with every bit behind them zero.
pub proof fn law_a_synthesized_header_holds_its_fields(config: Config, index: int)
    requires
        config_fault(config) is None,
    ensures
        in_table(index, config.sample_rate) ==> synthesized(config) == seq![
            (16 + index / 2) as u8,
            (index % 2 * 128 + config.channel_count * 8) as u8,
        ],
        (forall|i: int| !in_table(i, config.sample_rate)) ==> synthesized(config) == seq![
            23u8,
            (128 + config.sample_rate as int / 0x2_0000) as u8,
            (config.sample_rate as int / 0x200 % 256) as u8,
            (config.sample_rate as int / 2 % 256) as u8,
            (config.sample_rate as int % 2 * 128 + config.channel_count * 8) as u8,
        ],
{
    law_a_frequency_index_stands_for_its_row(index, config.sample_rate);
}

/// A decoder is opened with the declared header as it is, or where there is none with one that
/// declares what the catalog does; and always with one it can open.
pub proof fn law_a_decoder_is_opened_with_what_was_declared(catalog: Catalog)
    ensures
        described(catalog) matches Ok(bytes) ==> {
            &&& parsed(bytes) is Some
            &&& config_fault(parsed(bytes)->0) is None
            &&& match catalog.description {
                Some(description) => bytes == description@,
                None => parsed(bytes) == Some(
                    Config {
                        profile: catalog.profile,
                        sample_rate: catalog.sample_rate,
                        channel_count: catalog.channel_count,
                    },
                ),
            }
        },
        catalog.description matches Some(description) ==> (described(catalog) is Ok
            <==> description@.len() >= 2 && parsed(description@) is Some && config_fault(
            parsed(description@)->0,
        ) is None),
        catalog.description is None ==> (described(catalog) is Ok <==> catalog.profile == 2 && (
        catalog.channel_count == 1 || catalog.channel_count == 2) && 0 < catalog.sample_rate
            < 0x100_0000),
{
    let config = Config {
        profile: catalog.profile,
        sample_rate: catalog.sample_rate,
        channel_count: catalog.channel_count,
    };
    if config_fault(config) is None {
        law_parse_undoes_encode(config);
    }
}

} // verus!
