//! Fixed-width ids, which sort as text in the order of their numbers.

use super::error::{Error, ErrorView};
use crate::text::{
    decimal, digit_char, is_digit, lemma_sorts_irreflexive, lemma_sorts_transitive, padded, push_padded,
    sorts_before,
};
use vstd::prelude::*;

verus! {

/// The largest group id, segment id or frame timestamp: the largest integer that every JSON
/// reader keeps exactly.
pub const ID_MAX: u64 = 0x1f_ffff_ffff_ffff;

/// The number of decimal digits in an id field.
pub const ID_WIDTH: usize = 19;

/// Whether `id` is inside the recording range.
pub open spec fn id_in_range(id: u64) -> bool {
    id <= ID_MAX
}

/// Refuse an id outside 0 through 2^53 - 1.
pub fn check_id(id: u64) -> (r: Result<u64, Error>)
    ensures
        r == (if id_in_range(id) {
            Ok::<u64, Error>(id)
        } else {
            Err(Error::Id(id))
        }),
{
    if id > ID_MAX {
        Err(Error::Id(id))
    } else {
        Ok(id)
    }
}

/// Refuse a group range whose ends are outside the recording range, or that runs backwards.
pub fn check_range(smallest: u64, largest: u64) -> (r: Result<(), Error>)
    ensures
        r == (if !id_in_range(largest) {
            Err::<(), Error>(Error::Id(largest))
        } else if !id_in_range(smallest) {
            Err(Error::Id(smallest))
        } else if largest < smallest {
            Err(Error::Bounds { smallest, largest })
        } else {
            Ok(())
        }),
{
    if largest > ID_MAX {
        return Err(Error::Id(largest));
    }
    if smallest > ID_MAX {
        return Err(Error::Id(smallest));
    }
    if largest < smallest {
        return Err(Error::Bounds { smallest, largest });
    }
    Ok(())
}

/// The id that `field` writes, or why it writes none: it must be 19 digits and name an id in
/// range.
pub open spec fn id_field(field: Seq<char>) -> Result<u64, ErrorView> {
    if field.len() != ID_WIDTH || !(forall|i: int| 0 <= i < field.len() ==> is_digit(#[trigger] field[i])) {
        Err(ErrorView::Path(field))
    } else if decimal(field) > ID_MAX {
        Err(ErrorView::Id(decimal(field) as u64))
    } else {
        Ok(decimal(field) as u64)
    }
}

/// Write a group or segment id as 19 zero-padded decimal digits.
pub fn format_id(id: u64) -> (r: Result<String, Error>)
    ensures
        match r {
            Ok(field) => id_in_range(id) && field@ == padded(id as int, ID_WIDTH as nat),
            Err(e) => !id_in_range(id) && e@ == ErrorView::Id(id),
        },
{
    check_id(id)?;
    let mut field = String::new();
    push_padded(&mut field, id, ID_WIDTH);
    assert(field@ =~= padded(id as int, ID_WIDTH as nat));
    Ok(field)
}

/// Parse a 19-digit decimal id field, refusing values outside the recording range.
pub fn parse_id(field: &str) -> (r: Result<u64, Error>)
    ensures
        match r {
            Ok(id) => id_field(field@) == Ok::<u64, ErrorView>(id),
            Err(e) => id_field(field@) == Err::<u64, ErrorView>(e@),
        },
{
    broadcast use vstd::string::is_ascii_spec_bytes;

    if !field.is_ascii() {
        return Err(Error::Path(field.to_owned()));
    }
    let bytes: &[u8] = field.as_bytes();
    if bytes.len() != ID_WIDTH {
        return Err(Error::Path(field.to_owned()));
    }
    let mut id: u64 = 0;
    let mut i: usize = 0;
    while i < bytes.len()
        invariant
            0 <= i <= bytes@.len(),
            bytes@.len() == field@.len() == ID_WIDTH,
            forall|j: int| 0 <= j < field@.len() ==> #[trigger] bytes@[j] == field@[j] as u8,
            vstd::utf8::is_ascii_chars(field@),
            forall|j: int| 0 <= j < i ==> is_digit(#[trigger] field@[j]),
            id == decimal(field@.take(i as int)),
            0 <= id < pow10(i as nat),
        decreases bytes@.len() - i,
    {
        let b: u8 = bytes[i];
        proof {
            assert(bytes@[i as int] == field@[i as int] as u8);
            assert((field@[i as int] as int) < 128);
            lemma_pow10(i as nat);
        }
        if b < 0x30 || b > 0x39 {
            assert(!is_digit(field@[i as int]));
            return Err(Error::Path(field.to_owned()));
        }
        assert(field@.take(i + 1).drop_last() =~= field@.take(i as int));
        id = id * 10 + (b - 0x30) as u64;
        i = i + 1;
    }
    assert(field@.take(i as int) =~= field@);
    check_id(id)
}

/// The power of ten.
spec fn pow10(n: nat) -> int
    decreases n,
{
    if n == 0 {
        1
    } else {
        10 * pow10((n - 1) as nat)
    }
}

proof fn lemma_pow10(i: nat)
    requires
        i < ID_WIDTH,
    ensures
        pow10(i + 1) == 10 * pow10(i),
        pow10(i + 1) <= 10_000_000_000_000_000_000,
{
    reveal_with_fuel(pow10, 20);
}

proof fn lemma_padded(n: int, width: nat)
    requires
        0 <= n < pow10(width),
    ensures
        padded(n, width).len() == width,
        forall|i: int| 0 <= i < width ==> is_digit(#[trigger] padded(n, width)[i]),
        decimal(padded(n, width)) == n,
    decreases width,
{
    if width > 0 {
        lemma_padded(n / 10, (width - 1) as nat);
        let init = padded(n / 10, (width - 1) as nat);
        let all = padded(n, width);
        assert(all.drop_last() =~= init);
        assert(digit_char(n % 10) as int == '0' as int + n % 10);
        assert forall|i: int| 0 <= i < width implies is_digit(#[trigger] all[i]) by {
            if i < width - 1 {
                assert(all[i] == init[i]);
            }
        }
    }
}

/// Parsing a formatted id gives the id back.
pub proof fn law_parse_undoes_format(id: u64)
    requires
        id_in_range(id),
    ensures
        id_field(padded(id as int, ID_WIDTH as nat)) == Ok::<u64, ErrorView>(id),
{
    assert(pow10(19) == 10_000_000_000_000_000_000) by {
        reveal_with_fuel(pow10, 20);
    }
    lemma_padded(id as int, ID_WIDTH as nat);
}

proof fn lemma_digits(s: Seq<char>)
    requires
        forall|i: int| 0 <= i < s.len() ==> is_digit(#[trigger] s[i]),
    ensures
        padded(decimal(s), s.len()) == s,
        decimal(s) >= 0,
    decreases s.len(),
{
    if s.len() > 0 {
        let init = s.drop_last();
        let d = s.last() as int - '0' as int;
        assert forall|i: int| 0 <= i < init.len() implies is_digit(#[trigger] init[i]) by {
            assert(init[i] == s[i]);
        }
        lemma_digits(init);
        assert(is_digit(s[s.len() - 1]));
        assert(0 <= d < 10);
        assert(decimal(s) / 10 == decimal(init));
        assert(decimal(s) % 10 == d);
        assert(digit_char(d) == s.last());
        assert(init.push(s.last()) =~= s);
    } else {
        assert(s =~= Seq::empty());
    }
}

/// Formatting a parsed id gives its text back, so each id has one text.
pub proof fn law_format_undoes_parse(field: Seq<char>)
    requires
        id_field(field) is Ok,
    ensures
        id_in_range(id_field(field)->Ok_0),
        padded(id_field(field)->Ok_0 as int, ID_WIDTH as nat) == field,
{
    lemma_digits(field);
}

proof fn lemma_padded_sorts(a: int, b: int, width: nat)
    requires
        0 <= a < b < pow10(width),
    ensures
        sorts_before(padded(a, width), padded(b, width)),
    decreases width,
{
    if width > 0 {
        let w = (width - 1) as nat;
        lemma_padded(a / 10, w);
        lemma_padded(b / 10, w);
        let p = padded(a / 10, w);
        let q = padded(b / 10, w);
        if a / 10 == b / 10 {
            assert(digit_char(a % 10) < digit_char(b % 10));
            lemma_last_sorts(p, digit_char(a % 10), digit_char(b % 10));
        } else {
            lemma_padded_sorts(a / 10, b / 10, w);
            lemma_push_sorts(p, q, digit_char(a % 10), digit_char(b % 10));
        }
    }
}

/// Texts that differ in their last character alone sort by it.
proof fn lemma_last_sorts(p: Seq<char>, x: char, y: char)
    requires
        x < y,
    ensures
        sorts_before(p.push(x), p.push(y)),
    decreases p.len(),
{
    if p.len() > 0 {
        lemma_last_sorts(p.skip(1), x, y);
        assert(p.push(x).skip(1) =~= p.skip(1).push(x));
        assert(p.push(y).skip(1) =~= p.skip(1).push(y));
    }
}

/// A character more at the end of each keeps the order of texts of one length.
proof fn lemma_push_sorts(p: Seq<char>, q: Seq<char>, x: char, y: char)
    requires
        p.len() == q.len(),
        sorts_before(p, q),
    ensures
        sorts_before(p.push(x), q.push(y)),
    decreases p.len(),
{
    if p.len() > 0 && p[0] == q[0] {
        lemma_push_sorts(p.skip(1), q.skip(1), x, y);
        assert(p.push(x).skip(1) =~= p.skip(1).push(x));
        assert(q.push(y).skip(1) =~= q.skip(1).push(y));
    }
}

/// Formatted ids sort as text exactly as their numbers do, so a listing that starts after one id's
/// key holds the ids above it.
pub proof fn law_ids_sort_as_numbers(a: u64, b: u64)
    requires
        id_in_range(a),
        id_in_range(b),
    ensures
        sorts_before(padded(a as int, ID_WIDTH as nat), padded(b as int, ID_WIDTH as nat)) <==> a < b,
{
    assert(pow10(19) == 10_000_000_000_000_000_000) by {
        reveal_with_fuel(pow10, 20);
    }
    let x = padded(a as int, ID_WIDTH as nat);
    let y = padded(b as int, ID_WIDTH as nat);
    if a < b {
        lemma_padded_sorts(a as int, b as int, ID_WIDTH as nat);
    } else {
        lemma_sorts_irreflexive(x);
        if b < a {
            lemma_padded_sorts(b as int, a as int, ID_WIDTH as nat);
            if sorts_before(x, y) {
                lemma_sorts_transitive(x, y, x);
            }
        }
    }
}

/// An id is in range below two to the power of 53, and its field is 19 characters wide.
pub proof fn law_ids_fit_in_nineteen_digits(id: u64)
    ensures
        id_in_range(id) <==> id < 9_007_199_254_740_992,
        id_in_range(id) ==> padded(id as int, ID_WIDTH as nat).len() == 19,
{
    assert(pow10(19) == 10_000_000_000_000_000_000) by {
        reveal_with_fuel(pow10, 20);
    }
    if id_in_range(id) {
        lemma_padded(id as int, ID_WIDTH as nat);
    }
}

/// A field names an id where it is 19 decimal digits whose number is below two to the power of 53:
/// that number. A field of 19 digits that is too large is refused with its number, and any other
/// with its text.
pub proof fn law_a_field_is_nineteen_digits(field: Seq<char>)
    ensures
        ({
            let digits = field.len() == 19 && forall|i: int|
                0 <= i < field.len() ==> 48 <= (#[trigger] field[i]) as int <= 57;
            match id_field(field) {
                Ok(id) => digits && id < 9_007_199_254_740_992 && id == decimal(field),
                Err(ErrorView::Id(id)) => digits && id >= 9_007_199_254_740_992 && id == decimal(
                    field,
                ),
                Err(ErrorView::Path(text)) => !digits && text == field,
                _ => false,
            }
        }),
{
    if field.len() == 19 && forall|i: int| 0 <= i < field.len() ==> is_digit(#[trigger] field[i]) {
        lemma_decimal_bounds(field);
        assert(pow10(19) == 10_000_000_000_000_000_000) by {
            reveal_with_fuel(pow10, 20);
        }
        assert forall|i: int| 0 <= i < field.len() implies 48 <= (#[trigger] field[i]) as int
            <= 57 by {
            assert(is_digit(field[i]));
        }
    }
}

proof fn lemma_decimal_bounds(s: Seq<char>)
    requires
        forall|i: int| 0 <= i < s.len() ==> is_digit(#[trigger] s[i]),
    ensures
        0 <= decimal(s) < pow10(s.len()),
    decreases s.len(),
{
    if s.len() > 0 {
        let init = s.drop_last();
        assert forall|i: int| 0 <= i < init.len() implies is_digit(#[trigger] init[i]) by {
            assert(init[i] == s[i]);
        }
        lemma_decimal_bounds(init);
        assert(is_digit(s[s.len() - 1]));
    }
}

} // verus!
