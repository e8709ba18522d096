//! Track names as path parts.

use super::error::Error;
use vstd::prelude::*;
use vstd::string::StringExecFns;
use vstd::utf8::{decode_utf8, encode_utf8, encode_utf8_decode_utf8, is_ascii_chars, valid_utf8};

verus! {

/// Whether a byte of a track name stands for itself in a path: `A-Z a-z 0-9 _ -`.
pub open spec fn is_literal(b: u8) -> bool {
    ||| 0x30 <= b <= 0x39
    ||| 0x41 <= b <= 0x5a
    ||| 0x61 <= b <= 0x7a
    ||| b == 0x2d
    ||| b == 0x5f
}

/// The upper-case hexadecimal digit of `d`.
pub open spec fn hex_char(d: int) -> char {
    if d < 10 {
        (('0' as int) + d) as char
    } else {
        (('A' as int) + d - 10) as char
    }
}

/// How one byte of a track name is written in a path.
pub open spec fn encoded_byte(b: u8) -> Seq<char> {
    if is_literal(b) {
        seq![b as char]
    } else {
        seq!['%', hex_char(b as int / 16), hex_char(b as int % 16)]
    }
}

/// How the bytes of a track name are written in a path.
pub open spec fn percent_encoded(bytes: Seq<u8>) -> Seq<char>
    decreases bytes.len(),
{
    if bytes.len() == 0 {
        Seq::empty()
    } else {
        encoded_byte(bytes[0]) + percent_encoded(bytes.skip(1))
    }
}

/// The path segment that stands for a track name.
pub open spec fn track_segment(name: Seq<char>) -> Seq<char> {
    percent_encoded(encode_utf8(name))
}

/// The value of a hexadecimal digit of either case.
pub open spec fn hex_value(b: u8) -> Option<int> {
    if 0x30 <= b <= 0x39 {
        Some(b - 0x30)
    } else if 0x41 <= b <= 0x46 {
        Some(b - 0x37)
    } else if 0x61 <= b <= 0x66 {
        Some(b - 0x57)
    } else {
        None
    }
}

/// `bytes` with every `%` and two hexadecimal digits replaced by the byte they write.
pub open spec fn percent_decoded(bytes: Seq<u8>) -> Seq<u8>
    decreases bytes.len(),
{
    if bytes.len() == 0 {
        Seq::empty()
    } else if bytes[0] == 0x25 && bytes.len() >= 3 && hex_value(bytes[1]) is Some && hex_value(
        bytes[2],
    ) is Some {
        seq![(hex_value(bytes[1])->0 * 16 + hex_value(bytes[2])->0) as u8] + percent_decoded(
            bytes.skip(3),
        )
    } else {
        seq![bytes[0]] + percent_decoded(bytes.skip(1))
    }
}

/// `percent_encoding::percent_encode_byte`: `%` and the byte's two upper-case hexadecimal digits.
#[verifier::external_body]
fn percent_encode_byte(b: u8) -> (r: String)
    ensures
        r@ == seq!['%', hex_char(b as int / 16), hex_char(b as int % 16)],
{
    percent_encoding::percent_encode_byte(b).to_string()
}

/// Percent-encode every byte of `name` that does not stand for itself.
fn percent_encode(name: &str) -> (r: String)
    ensures
        r@ == track_segment(name@),
{
    let bytes: &[u8] = name.as_bytes();
    let mut r = String::new();
    let mut i: usize = 0;
    assert(bytes@.skip(0) =~= bytes@);
    while i < bytes.len()
        invariant
            0 <= i <= bytes@.len(),
            r@ + percent_encoded(bytes@.skip(i as int)) == percent_encoded(bytes@),
        decreases bytes@.len() - i,
    {
        let b: u8 = bytes[i];
        let ghost before = r@;
        assert(bytes@.skip(i as int).skip(1) =~= bytes@.skip(i + 1));
        let literal: bool = (0x30 <= b && b <= 0x39) || (0x41 <= b && b <= 0x5a) || (0x61 <= b && b
            <= 0x7a) || b == 0x2d || b == 0x5f;
        if literal {
            r.push(b as char);
        } else {
            let escaped = percent_encode_byte(b);
            r.append(escaped.as_str());
        }
        assert(r@ =~= before + encoded_byte(b));
        assert(r@ + percent_encoded(bytes@.skip(i + 1)) =~= before + (encoded_byte(b)
            + percent_encoded(bytes@.skip(i + 1))));
        i = i + 1;
    }
    assert(bytes@.skip(i as int) =~= Seq::empty());
    assert(r@ + percent_encoded(bytes@.skip(i as int)) =~= r@);
    r
}

/// `percent_encoding::percent_decode_str` and its `decode_utf8`: the string whose UTF-8 form is the
/// decoded bytes, or `None` where those bytes are no UTF-8.
#[verifier::external_body]
fn percent_decode(segment: &str) -> (r: Option<String>)
    ensures
        match r {
            Some(name) => encode_utf8(name@) == percent_decoded(encode_utf8(segment@)),
            None => !valid_utf8(percent_decoded(encode_utf8(segment@))),
        },
{
    match percent_encoding::percent_decode_str(segment).decode_utf8() {
        Ok(name) => Some(name.into_owned()),
        Err(_) => None,
    }
}

/// Percent-encode a track name as one object-store path segment.
pub fn encode_track(name: &str) -> (r: Result<String, Error>)
    ensures
        match r {
            Ok(segment) => name@.len() > 0 && segment@ == track_segment(name@),
            Err(e) => name@.len() == 0 && e == Error::Track,
        },
{
    if name.is_empty() {
        return Err(Error::Track);
    }
    Ok(percent_encode(name))
}

/// Decode a percent-encoded track name, refusing anything that is not how [`encode_track`] writes
/// a name.
pub fn decode_track(encoded: &str) -> (r: Result<String, Error>)
    ensures
        match r {
            Ok(name) => name@.len() > 0 && track_segment(name@) == encoded@,
            Err(e) => e == Error::Track && forall|name: Seq<char>|
                name.len() > 0 ==> #[trigger] track_segment(name) != encoded@,
        },
{
    proof {
        assert forall|name: Seq<char>| name.len() > 0 && track_segment(name) == encoded@ implies {
            &&& percent_decoded(encode_utf8(encoded@)) == encode_utf8(name)
            &&& valid_utf8(percent_decoded(encode_utf8(encoded@)))
        } by {
            law_segment_decodes(name);
            vstd::utf8::encode_utf8_valid_utf8(name);
        }
    }
    let name = match percent_decode(encoded) {
        Some(name) => name,
        None => {
            return Err(Error::Track);
        },
    };
    proof {
        assert forall|other: Seq<char>|
            other.len() > 0 && track_segment(other) == encoded@ implies other == name@ by {
            assert(encode_utf8(other) == encode_utf8(name@));
            encode_utf8_decode_utf8(other);
            encode_utf8_decode_utf8(name@);
        }
    }
    let again = encode_track(name.as_str())?;
    if again != encoded.to_owned() {
        return Err(Error::Track);
    }
    Ok(name)
}

/// The bytes of ASCII characters.
spec fn as_bytes(s: Seq<char>) -> Seq<u8> {
    Seq::new(s.len(), |i: int| s[i] as u8)
}

proof fn lemma_encoded_byte(b: u8)
    ensures
        1 <= encoded_byte(b).len() <= 3,
        is_ascii_chars(encoded_byte(b)),
        forall|i: int|
            0 <= i < encoded_byte(b).len() ==> {
                let c = #[trigger] encoded_byte(b)[i];
                c != '/' && c != '.' && (c as int) >= 0x21 && (c as int) < 0x7f
            },
        is_literal(b) ==> as_bytes(encoded_byte(b)) == seq![b],
        !is_literal(b) ==> {
            let e = as_bytes(encoded_byte(b));
            &&& e.len() == 3
            &&& e[0] == 0x25
            &&& hex_value(e[1]) == Some(b as int / 16)
            &&& hex_value(e[2]) == Some(b as int % 16)
        },
{
    let e = encoded_byte(b);
    if is_literal(b) {
        assert((b as char) as int == b as int);
        assert(as_bytes(e) =~= seq![b]);
    } else {
        let h = b as int / 16;
        let l = b as int % 16;
        assert(0 <= h < 16 && 0 <= l < 16);
        assert(e[0] == '%' && e[1] == hex_char(h) && e[2] == hex_char(l));
        assert(hex_char(h) as int == if h < 10 { 0x30 + h } else { 0x37 + h });
        assert(hex_char(l) as int == if l < 10 { 0x30 + l } else { 0x37 + l });
    }
}

proof fn lemma_percent_roundtrip(bytes: Seq<u8>)
    ensures
        is_ascii_chars(percent_encoded(bytes)),
        percent_encoded(bytes).len() >= bytes.len(),
        forall|i: int|
            0 <= i < percent_encoded(bytes).len() ==> {
                let c = #[trigger] percent_encoded(bytes)[i];
                c != '/' && c != '.' && (c as int) >= 0x21 && (c as int) < 0x7f
            },
        percent_decoded(as_bytes(percent_encoded(bytes))) == bytes,
    decreases bytes.len(),
{
    let s = percent_encoded(bytes);
    if bytes.len() == 0 {
        assert(as_bytes(s) =~= Seq::empty());
        assert(bytes =~= Seq::empty());
    } else {
        let rest = bytes.skip(1);
        let head = encoded_byte(bytes[0]);
        let tail = percent_encoded(rest);
        lemma_encoded_byte(bytes[0]);
        lemma_percent_roundtrip(rest);
        assert forall|i: int| 0 <= i < s.len() implies {
            let c = #[trigger] s[i];
            c != '/' && c != '.' && (c as int) >= 0x21 && (c as int) < 0x7f
        } by {
            if i < head.len() {
                assert(s[i] == head[i]);
            } else {
                assert(s[i] == tail[i - head.len()]);
            }
        }
        assert(as_bytes(s) =~= as_bytes(head) + as_bytes(tail));
        assert(as_bytes(s).skip(head.len() as int) =~= as_bytes(tail));
        assert(as_bytes(s)[0] == as_bytes(head)[0]);
        if !is_literal(bytes[0]) {
            assert(as_bytes(s)[1] == as_bytes(head)[1]);
            assert(as_bytes(s)[2] == as_bytes(head)[2]);
        }
        assert(seq![bytes[0]] + rest =~= bytes);
    }
}

/// A name's path segment decodes to the name's bytes, and no two names share a segment.
pub proof fn law_segment_decodes(name: Seq<char>)
    ensures
        percent_decoded(encode_utf8(track_segment(name))) == encode_utf8(name),
        forall|other: Seq<char>|
            #[trigger] track_segment(other) == track_segment(name) ==> other == name,
{
    lemma_percent_roundtrip(encode_utf8(name));
    vstd::utf8::is_ascii_chars_encode_utf8(track_segment(name));
    assert(encode_utf8(track_segment(name)) =~= as_bytes(track_segment(name)));
    assert forall|other: Seq<char>| #[trigger]
        track_segment(other) == track_segment(name) implies other == name by {
        lemma_percent_roundtrip(encode_utf8(other));
        encode_utf8_decode_utf8(other);
        encode_utf8_decode_utf8(name);
    }
}

/// A name's path segment is not empty, and holds no `/`, no `.` and no control character.
pub proof fn law_segment_is_a_part(name: Seq<char>)
    requires
        name.len() > 0,
    ensures
        track_segment(name).len() > 0,
        forall|i: int|
            0 <= i < track_segment(name).len() ==> {
                let c = #[trigger] track_segment(name)[i];
                c != '/' && c != '.' && 0x21 <= c as int && (c as int) < 0x7f
            },
{
    lemma_percent_roundtrip(encode_utf8(name));
    encode_utf8_decode_utf8(name);
    if encode_utf8(name).len() == 0 {
        assert(encode_utf8(name) =~= Seq::empty());
        assert(decode_utf8(encode_utf8(name)) =~= Seq::empty());
    }
}

/// The characters of a track name that stand for themselves are the ASCII letters and digits, `_`
/// and `-`.
pub proof fn law_letters_and_digits_stand_for_themselves(b: u8)
    ensures
        encoded_byte(b) == seq![b as char] <==> {
            ||| 'a' as int <= b <= 'z' as int
            ||| 'A' as int <= b <= 'Z' as int
            ||| '0' as int <= b <= '9' as int
            ||| b == '_' as int
            ||| b == '-' as int
        },
{
    let plain = seq![b as char];
    assert(plain.len() == 1);
    assert(encoded_byte(b).len() == 1 || encoded_byte(b).len() == 3);
}

/// Any other byte is written as `%` and two digits, of `0123456789ABCDEF`, that give its value: the
/// first counts sixteens.
pub proof fn law_other_bytes_are_two_hexadecimal_digits(b: u8)
    requires
        encoded_byte(b).len() != 1,
    ensures
        ({
            let e = encoded_byte(b);
            exists|h: int, l: int|
                {
                    &&& 0 <= h < 16
                    &&& 0 <= l < 16
                    &&& b == 16 * h + l
                    &&& e == seq!['%', #[trigger] digits_of_sixteen()[h], #[trigger]
                        digits_of_sixteen()[l]]
                }
        }),
{
    let h = b as int / 16;
    let l = b as int % 16;
    let all = digits_of_sixteen();
    assert(hex_char(h) == all[h]);
    assert(hex_char(l) == all[l]);
    assert(encoded_byte(b) == seq!['%', all[h], all[l]]);
}

/// The hexadecimal digits in the order of their values.
pub open spec fn digits_of_sixteen() -> Seq<char> {
    seq!['0', '1', '2', '3', '4', '5', '6', '7', '8', '9', 'A', 'B', 'C', 'D', 'E', 'F']
}

/// Bytes are written one after the other, each by itself.
pub proof fn law_bytes_are_written_in_order(front: Seq<u8>, b: u8, back: Seq<u8>)
    ensures
        percent_encoded(Seq::empty()) == Seq::<char>::empty(),
        percent_encoded(seq![b]) == encoded_byte(b),
        percent_encoded(front + back) == percent_encoded(front) + percent_encoded(back),
    decreases front.len(),
{
    reveal_with_fuel(percent_encoded, 2);
    assert(seq![b].skip(1) =~= Seq::empty());
    assert(encoded_byte(b) + Seq::<char>::empty() =~= encoded_byte(b));
    if front.len() == 0 {
        assert(front + back =~= back);
        assert(Seq::<char>::empty() + percent_encoded(back) =~= percent_encoded(back));
    } else {
        law_bytes_are_written_in_order(front.skip(1), b, back);
        assert((front + back).skip(1) =~= front.skip(1) + back);
        assert(encoded_byte(front[0]) + (percent_encoded(front.skip(1)) + percent_encoded(back))
            =~= encoded_byte(front[0]) + percent_encoded(front.skip(1)) + percent_encoded(back));
    }
}

} // verus!
