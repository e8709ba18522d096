//! Variable-length integers, as QUIC writes them.

use super::error::Error;
use vstd::prelude::*;
use vstd::slice::slice_subrange;

verus! {

/// One past the largest value a variable-length integer can carry: two of its 64 bits say how
/// many bytes it takes.
pub const VARINT_LIMIT: u64 = 0x4000_0000_0000_0000;

/// The shortest encoding of `v`, big-endian, the top two bits of the first byte naming the
/// length: 1, 2, 4 or 8 bytes.
pub open spec fn varint(v: u64) -> Seq<u8> {
    if v < 0x40 {
        seq![v as u8]
    } else if v < 0x4000 {
        seq![(0x40 + v / 0x100) as u8, (v % 0x100) as u8]
    } else if v < 0x4000_0000 {
        seq![
            (0x80 + v / 0x100_0000) as u8,
            (v / 0x1_0000 % 0x100) as u8,
            (v / 0x100 % 0x100) as u8,
            (v % 0x100) as u8,
        ]
    } else {
        seq![
            (0xc0 + v / 0x100_0000_0000_0000) as u8,
            (v / 0x1_0000_0000_0000 % 0x100) as u8,
            (v / 0x100_0000_0000 % 0x100) as u8,
            (v / 0x1_0000_0000 % 0x100) as u8,
            (v / 0x100_0000 % 0x100) as u8,
            (v / 0x1_0000 % 0x100) as u8,
            (v / 0x100 % 0x100) as u8,
            (v % 0x100) as u8,
        ]
    }
}

/// How many bytes the integer that starts with `first` takes.
pub open spec fn varint_width(first: u8) -> int {
    if first < 0x40 {
        1
    } else if first < 0x80 {
        2
    } else if first < 0xc0 {
        4
    } else {
        8
    }
}

/// The big-endian value of `s`.
pub open spec fn big_endian(s: Seq<u8>) -> int
    decreases s.len(),
{
    if s.len() == 0 {
        0
    } else {
        big_endian(s.drop_last()) * 0x100 + s.last()
    }
}

/// Whether `s` starts with a whole integer.
pub open spec fn starts_with_varint(s: Seq<u8>) -> bool {
    s.len() > 0 && s.len() >= varint_width(s[0])
}

/// The integer that `s` starts with: its bytes without the two length bits.
pub open spec fn leading_varint(s: Seq<u8>) -> int {
    big_endian(s.take(varint_width(s[0])).update(0, s[0] % 0x40))
}

/// What follows the integer that `s` starts with.
pub open spec fn after_varint(s: Seq<u8>) -> Seq<u8> {
    s.skip(varint_width(s[0]))
}

/// The value of two, four and eight bytes, written out.
proof fn lemma_big_endian(s: Seq<u8>)
    requires
        s.len() == 1 || s.len() == 2 || s.len() == 4 || s.len() == 8,
    ensures
        s.len() == 1 ==> big_endian(s) == s[0],
        s.len() == 2 ==> big_endian(s) == s[0] * 0x100 + s[1],
        s.len() == 4 ==> big_endian(s) == ((s[0] * 0x100 + s[1]) * 0x100 + s[2]) * 0x100 + s[3],
        s.len() == 8 ==> big_endian(s) == ((((((s[0] * 0x100 + s[1]) * 0x100 + s[2]) * 0x100 + s[3])
            * 0x100 + s[4]) * 0x100 + s[5]) * 0x100 + s[6]) * 0x100 + s[7],
{
    reveal_with_fuel(big_endian, 9);
}

/// A leading integer always fits the range that can be written.
pub proof fn lemma_leading_varint_bound(s: Seq<u8>)
    requires
        starts_with_varint(s),
    ensures
        0 <= leading_varint(s) < VARINT_LIMIT,
{
    lemma_big_endian(s.take(varint_width(s[0])).update(0, s[0] % 0x40));
}

/// The eight base-256 digits of `v`, put together again.
proof fn lemma_digits(v: u64)
    ensures
        v == v / 0x100 * 0x100 + v % 0x100,
        v / 0x100 == v / 0x1_0000 * 0x100 + v / 0x100 % 0x100,
        v / 0x1_0000 == v / 0x100_0000 * 0x100 + v / 0x1_0000 % 0x100,
        v / 0x100_0000 == v / 0x1_0000_0000 * 0x100 + v / 0x100_0000 % 0x100,
        v / 0x1_0000_0000 == v / 0x100_0000_0000 * 0x100 + v / 0x1_0000_0000 % 0x100,
        v / 0x100_0000_0000 == v / 0x1_0000_0000_0000 * 0x100 + v / 0x100_0000_0000 % 0x100,
        v / 0x1_0000_0000_0000 == v / 0x100_0000_0000_0000 * 0x100 + v / 0x1_0000_0000_0000 % 0x100,
{
}

/// Reading back what was written gives the same value, and leaves what came after it.
pub proof fn lemma_varint_roundtrip(v: u64, rest: Seq<u8>)
    requires
        v < VARINT_LIMIT,
    ensures
        starts_with_varint(varint(v) + rest),
        leading_varint(varint(v) + rest) == v,
        after_varint(varint(v) + rest) == rest,
        1 <= varint(v).len() <= 8,
{
    let e = varint(v);
    let s = e + rest;
    assert(s[0] == e[0]);
    lemma_digits(v);
    if v < 0x40 {
        assert(e[0] == v);
    } else if v < 0x4000 {
        assert(e[0] == 0x40 + v / 0x100);
    } else if v < 0x4000_0000 {
        assert(e[0] == 0x80 + v / 0x100_0000);
    } else {
        assert(e[0] == 0xc0 + v / 0x100_0000_0000_0000);
    }
    assert(varint_width(s[0]) == e.len());
    assert(s.take(varint_width(s[0])) =~= e);
    let digits = e.update(0, s[0] % 0x40);
    lemma_big_endian(digits);
    assert(after_varint(s) =~= rest);
}

/// Append `value`, refusing one that does not fit.
pub fn write_varint(buf: &mut Vec<u8>, value: u64) -> (r: Result<(), Error>)
    ensures
        r == (if value < VARINT_LIMIT {
            Ok::<(), Error>(())
        } else {
            Err(Error::Overflow)
        }),
        final(buf)@ == (if value < VARINT_LIMIT {
            old(buf)@ + varint(value)
        } else {
            old(buf)@
        }),
{
    if value >= VARINT_LIMIT {
        return Err(Error::Overflow);
    }
    if value < 0x40 {
        buf.push(value as u8);
    } else if value < 0x4000 {
        buf.push((0x40 + value / 0x100) as u8);
        buf.push((value % 0x100) as u8);
    } else if value < 0x4000_0000 {
        buf.push((0x80 + value / 0x100_0000) as u8);
        buf.push((value / 0x1_0000 % 0x100) as u8);
        buf.push((value / 0x100 % 0x100) as u8);
        buf.push((value % 0x100) as u8);
    } else {
        buf.push((0xc0 + value / 0x100_0000_0000_0000) as u8);
        buf.push((value / 0x1_0000_0000_0000 % 0x100) as u8);
        buf.push((value / 0x100_0000_0000 % 0x100) as u8);
        buf.push((value / 0x1_0000_0000 % 0x100) as u8);
        buf.push((value / 0x100_0000 % 0x100) as u8);
        buf.push((value / 0x1_0000 % 0x100) as u8);
        buf.push((value / 0x100 % 0x100) as u8);
        buf.push((value % 0x100) as u8);
    }
    assert(buf@ =~= old(buf)@ + varint(value));
    Ok(())
}

/// Take the integer off the front of `buf`, refusing a truncated one.
pub fn read_varint(buf: &mut &[u8]) -> (r: Result<u64, Error>)
    ensures
        match r {
            Ok(v) => starts_with_varint(old(buf)@) && v == leading_varint(old(buf)@) && final(buf)@
                == after_varint(old(buf)@),
            Err(e) => !starts_with_varint(old(buf)@) && e == Error::Table && final(buf)@ == old(
                buf,
            )@,
        },
{
    let s: &[u8] = *buf;
    if s.len() == 0 {
        return Err(Error::Table);
    }
    let first: u8 = s[0];
    let width: usize = if first < 0x40 {
        1
    } else if first < 0x80 {
        2
    } else if first < 0xc0 {
        4
    } else {
        8
    };
    if s.len() < width {
        return Err(Error::Table);
    }
    let mut value: u64 = (first % 0x40) as u64;
    let mut i: usize = 1;
    let ghost digits = s@.take(width as int).update(0, (first % 0x40) as u8);
    assert(digits.take(1) =~= seq![digits[0]]);
    proof {
        lemma_big_endian(digits.take(1));
    }
    while i < width
        invariant
            1 <= i <= width <= s@.len(),
            width <= 8,
            digits == s@.take(width as int).update(0, (first % 0x40) as u8),
            value == big_endian(digits.take(i as int)),
            i == 1 ==> value < 0x40,
            i == 2 ==> value < 0x4000,
            i == 3 ==> value < 0x40_0000,
            i == 4 ==> value < 0x4000_0000,
            i == 5 ==> value < 0x40_0000_0000,
            i == 6 ==> value < 0x4000_0000_0000,
            i == 7 ==> value < 0x40_0000_0000_0000,
        decreases width - i,
    {
        assert(digits.take(i + 1).drop_last() =~= digits.take(i as int));
        assert(digits.take(i + 1).last() == s@[i as int]);
        value = value * 0x100 + s[i] as u64;
        i = i + 1;
    }
    assert(digits.take(width as int) =~= digits);
    *buf = slice_subrange(s, width, s.len());
    Ok(value)
}

/// An integer is read from its bytes, the first of them without its top two bits, the highest first;
/// those two bits say whether it takes one, two, four or eight bytes.
pub proof fn law_integers_are_read_byte_by_byte(s: Seq<u8>)
    requires
        s.len() > 0,
    ensures
        ({
            let form = s[0] as int / 64;
            let head = s[0] as int % 64;
            &&& form == 0 ==> starts_with_varint(s) && leading_varint(s) == head && after_varint(s)
                == s.skip(1)
            &&& form == 1 ==> (starts_with_varint(s) <==> s.len() >= 2)
            &&& form == 1 && s.len() >= 2 ==> leading_varint(s) == head * 0x100 + s[1]
                && after_varint(s) == s.skip(2)
            &&& form == 2 ==> (starts_with_varint(s) <==> s.len() >= 4)
            &&& form == 2 && s.len() >= 4 ==> leading_varint(s) == head * 0x100_0000 + s[1]
                * 0x1_0000 + s[2] * 0x100 + s[3] && after_varint(s) == s.skip(4)
            &&& form == 3 ==> (starts_with_varint(s) <==> s.len() >= 8)
            &&& form == 3 && s.len() >= 8 ==> leading_varint(s) == head * 0x100_0000_0000_0000
                + s[1] * 0x1_0000_0000_0000 + s[2] * 0x100_0000_0000 + s[3] * 0x1_0000_0000 + s[4]
                * 0x100_0000 + s[5] * 0x1_0000 + s[6] * 0x100 + s[7] && after_varint(s) == s.skip(8)
        }),
        !starts_with_varint(Seq::<u8>::empty()),
{
    if s.len() >= varint_width(s[0]) {
        lemma_big_endian(s.take(varint_width(s[0])).update(0, s[0] % 0x40));
    }
}

/// An integer is written in as few bytes as hold it, and read back from them: below 2^6 in one, below
/// 2^14 in two, below 2^30 in four, and else in eight. Those past 2^62 cannot be written.
pub proof fn law_integers_are_written_in_few_bytes(v: u64)
    requires
        v < 0x4000_0000_0000_0000,
    ensures
        varint(v).len() == if v < 64 {
            1nat
        } else if v < 16384 {
            2
        } else if v < 1073741824 {
            4
        } else {
            8
        },
        starts_with_varint(varint(v)),
        leading_varint(varint(v)) == v,
        VARINT_LIMIT == 0x4000_0000_0000_0000,
{
    lemma_varint_roundtrip(v, Seq::empty());
    assert(varint(v) + Seq::empty() =~= varint(v));
}

} // verus!
