//! Text: comparing, joining and printing.

use vstd::prelude::*;

verus! {

/// `String::push`: appends one character.
pub assume_specification[ String::push ](s: &mut String, c: char)
    ensures
        final(s)@ == old(s)@.push(c),
;

/// The characters of `s`.
pub fn chars_of(s: &str) -> (r: Vec<char>)
    ensures
        r@ == s@,
{
    let mut r: Vec<char> = Vec::new();
    for c in it: s.chars()
        invariant
            r@ == it.seq().take(it.index()),
            it.seq() == s@,
    {
        r.push(c);
    }
    r
}

/// The characters `from..to` of `chars` as a string.
pub fn string_of(chars: &Vec<char>, from: usize, to: usize) -> (r: String)
    requires
        from <= to <= chars@.len(),
    ensures
        r@ == chars@.subrange(from as int, to as int),
{
    let mut r = String::new();
    let mut i: usize = from;
    while i < to
        invariant
            from <= i <= to <= chars@.len(),
            r@ == chars@.subrange(from as int, i as int),
        decreases to - i,
    {
        r.push(chars[i]);
        i = i + 1;
        assert(r@ =~= chars@.subrange(from as int, i as int));
    }
    r
}

/// The decimal digit `d`.
pub open spec fn digit_char(d: int) -> char {
    (('0' as int) + d) as char
}

/// Whether `c` is a decimal digit.
pub open spec fn is_digit(c: char) -> bool {
    '0' <= c <= '9'
}

/// The last `width` decimal digits of `n`, zero-padded.
pub open spec fn padded(n: int, width: nat) -> Seq<char>
    decreases width,
{
    if width == 0 {
        Seq::empty()
    } else {
        padded(n / 10, (width - 1) as nat).push(digit_char(n % 10))
    }
}

/// The number that decimal digits write.
pub open spec fn decimal(s: Seq<char>) -> int
    decreases s.len(),
{
    if s.len() == 0 {
        0
    } else {
        decimal(s.drop_last()) * 10 + (s.last() as int - '0' as int)
    }
}

/// Append the last `width` decimal digits of `n`.
pub fn push_padded(s: &mut String, n: u64, width: usize)
    ensures
        final(s)@ == old(s)@ + padded(n as int, width as nat),
    decreases width,
{
    if width > 0 {
        push_padded(s, n / 10, width - 1);
        let c: char = (0x30 + (n % 10) as u8) as char;
        s.push(c);
    }
    assert(s@ =~= old(s)@ + padded(n as int, width as nat));
}

/// Whether two strings hold the same characters.
pub fn same(a: &str, b: &str) -> (r: bool)
    ensures
        r == (a@ == b@),
{
    proof {
        vstd::utf8::encode_utf8_decode_utf8(a@);
        vstd::utf8::encode_utf8_decode_utf8(b@);
    }
    let x: &[u8] = a.as_bytes();
    let y: &[u8] = b.as_bytes();
    if x.len() != y.len() {
        return false;
    }
    let mut i: usize = 0;
    while i < x.len()
        invariant
            0 <= i <= x@.len(),
            x@.len() == y@.len(),
            x@ == vstd::utf8::encode_utf8(a@),
            y@ == vstd::utf8::encode_utf8(b@),
            forall|j: int| 0 <= j < i ==> x@[j] == y@[j],
        decreases x@.len() - i,
    {
        if x[i] != y[i] {
            return false;
        }
        i = i + 1;
    }
    assert(x@ =~= y@);
    true
}

/// Whether `s` ends with `suffix`.
pub open spec fn has_suffix(s: Seq<char>, suffix: Seq<char>) -> bool {
    s.len() >= suffix.len() && s.skip(s.len() - suffix.len()) == suffix
}

/// `s` without `suffix` at its end, or `None` where it does not end with it.
pub fn strip_suffix(s: &str, suffix: &str) -> (r: Option<String>)
    ensures
        r is Some <==> has_suffix(s@, suffix@),
        r matches Some(front) ==> front@ + suffix@ == s@,
{
    let chars = chars_of(s);
    let tail = chars_of(suffix);
    if chars.len() < tail.len() {
        return None;
    }
    let cut: usize = chars.len() - tail.len();
    let mut i: usize = 0;
    while i < tail.len()
        invariant
            0 <= i <= tail@.len(),
            cut == chars@.len() - tail@.len(),
            chars@ == s@,
            tail@ == suffix@,
            forall|j: int| 0 <= j < i ==> chars@[cut + j] == tail@[j],
        decreases tail@.len() - i,
    {
        assert(cut + i < chars.len());
        if chars[cut + i] != tail[i] {
            assert(s@.skip(s@.len() - suffix@.len())[i as int] != suffix@[i as int]);
            return None;
        }
        i = i + 1;
    }
    assert(s@.skip(cut as int) =~= suffix@);
    let front = string_of(&chars, 0, cut);
    assert(front@ + suffix@ =~= s@);
    Some(front)
}

/// Whether `s` ends with `suffix`.
pub fn ends_with(s: &str, suffix: &str) -> (r: bool)
    ensures
        r == has_suffix(s@, suffix@),
{
    strip_suffix(s, suffix).is_some()
}

/// Whether text `a` sorts strictly before text `b`: where they first part it has the smaller
/// character, or it ends there.
pub open spec fn sorts_before(a: Seq<char>, b: Seq<char>) -> bool
    decreases a.len(),
{
    if b.len() == 0 {
        false
    } else if a.len() == 0 {
        true
    } else if a[0] != b[0] {
        a[0] < b[0]
    } else {
        sorts_before(a.skip(1), b.skip(1))
    }
}

/// No text sorts before itself.
pub proof fn lemma_sorts_irreflexive(a: Seq<char>)
    ensures
        !sorts_before(a, a),
    decreases a.len(),
{
    if a.len() > 0 {
        lemma_sorts_irreflexive(a.skip(1));
    }
}

/// Of two texts that differ, one sorts before the other.
pub proof fn lemma_sorts_total(a: Seq<char>, b: Seq<char>)
    ensures
        a == b || sorts_before(a, b) || sorts_before(b, a),
    decreases a.len(),
{
    if a.len() == 0 {
        if b.len() == 0 {
            assert(a =~= b);
        }
    } else if b.len() > 0 && a[0] == b[0] {
        lemma_sorts_total(a.skip(1), b.skip(1));
        if a.skip(1) == b.skip(1) {
            assert(a =~= seq![a[0]] + a.skip(1));
            assert(b =~= seq![b[0]] + b.skip(1));
        }
    }
}

/// A text that sorts before another also sorts before what that one sorts before.
pub proof fn lemma_sorts_transitive(a: Seq<char>, b: Seq<char>, c: Seq<char>)
    requires
        sorts_before(a, b),
        sorts_before(b, c),
    ensures
        sorts_before(a, c),
    decreases a.len(),
{
    if a.len() > 0 && a[0] == b[0] && b[0] == c[0] {
        lemma_sorts_transitive(a.skip(1), b.skip(1), c.skip(1));
    }
}

/// What texts have in common at their front does not order them.
pub proof fn lemma_sorts_below(front: Seq<char>, a: Seq<char>, b: Seq<char>)
    ensures
        sorts_before(front + a, front + b) <==> sorts_before(a, b),
    decreases front.len(),
{
    if front.len() == 0 {
        assert(front + a =~= a);
        assert(front + b =~= b);
    } else {
        lemma_sorts_below(front.skip(1), a, b);
        assert((front + a).skip(1) =~= front.skip(1) + a);
        assert((front + b).skip(1) =~= front.skip(1) + b);
    }
}

/// A text sorts before a longer one exactly where it sorts before the part of its own length, or is
/// that part.
pub proof fn lemma_sorts_longer(a: Seq<char>, b: Seq<char>, more: Seq<char>)
    requires
        a.len() == b.len(),
        more.len() > 0,
    ensures
        sorts_before(a, b + more) <==> sorts_before(a, b) || a == b,
    decreases a.len(),
{
    if a.len() == 0 {
        assert(a =~= b);
    } else {
        assert((b + more).skip(1) =~= b.skip(1) + more);
        assert((b + more)[0] == b[0]);
        if a[0] == b[0] {
            lemma_sorts_longer(a.skip(1), b.skip(1), more);
            if a.skip(1) == b.skip(1) {
                assert(a =~= seq![a[0]] + a.skip(1));
                assert(b =~= seq![b[0]] + b.skip(1));
            }
        }
    }
}

/// Whether text `a` sorts strictly before text `b`.
pub fn is_before(a: &str, b: &str) -> (r: bool)
    ensures
        r == sorts_before(a@, b@),
{
    let x = chars_of(a);
    let y = chars_of(b);
    let mut i: usize = 0;
    assert(x@.skip(0) =~= x@);
    assert(y@.skip(0) =~= y@);
    while i < x.len() && i < y.len()
        invariant
            0 <= i <= x@.len(),
            i <= y@.len(),
            x@ == a@,
            y@ == b@,
            sorts_before(a@, b@) == sorts_before(x@.skip(i as int), y@.skip(i as int)),
        decreases x@.len() - i,
    {
        if x[i] != y[i] {
            return x[i] < y[i];
        }
        assert(x@.skip(i as int).skip(1) =~= x@.skip(i + 1));
        assert(y@.skip(i as int).skip(1) =~= y@.skip(i + 1));
        i = i + 1;
    }
    i < y.len()
}

/// `n` in decimal, without padding.
pub open spec fn decimal_text(n: nat) -> Seq<char>
    decreases n,
{
    if n < 10 {
        seq![digit_char(n as int)]
    } else {
        decimal_text(n / 10).push(digit_char(n as int % 10))
    }
}

/// Append `n` in decimal.
pub fn push_decimal(s: &mut String, n: u64)
    ensures
        final(s)@ == old(s)@ + decimal_text(n as nat),
{
    push_wide_decimal(s, n as u128);
}

/// Append `n` in decimal.
pub fn push_wide_decimal(s: &mut String, n: u128)
    ensures
        final(s)@ == old(s)@ + decimal_text(n as nat),
    decreases n,
{
    if n >= 10 {
        push_wide_decimal(s, n / 10);
    }
    let c: char = (0x30 + (n % 10) as u8) as char;
    s.push(c);
    assert(s@ =~= old(s)@ + decimal_text(n as nat));
}

/// How `text` reads in quotes, with what would not print in it escaped.
pub uninterp spec fn quoted(text: Seq<char>) -> Seq<char>;

/// The `{:?}` form of a string, as `std` formats it.
#[verifier::external_body]
pub(crate) fn quote(text: &str) -> (r: String)
    ensures
        r@ == quoted(text@),
{
    format!("{text:?}")
}

/// A number in decimal is its digits, each a character from `0` to `9` that counts ten times what
/// the same digit one place further right would, without a leading zero but for zero itself.
pub proof fn law_decimal_text_is_the_number(n: nat)
    ensures
        decimal_text(n).len() > 0,
        decimal(decimal_text(n)) == n,
        forall|i: int|
            0 <= i < decimal_text(n).len() ==> 48 <= (#[trigger] decimal_text(n)[i]) as int <= 57,
        decimal_text(n).len() > 1 ==> decimal_text(n)[0] != '0',
        decimal_text(n)[0] == '0' ==> n == 0,
    decreases n,
{
    reveal_with_fuel(decimal, 2);
    let all = decimal_text(n);
    if n < 10 {
        assert(all.drop_last() =~= Seq::empty());
        assert(all[0] as int == 48 + n);
    } else {
        law_decimal_text_is_the_number(n / 10);
        let init = decimal_text(n / 10);
        assert(all.drop_last() =~= init);
        assert(all.last() as int == 48 + n % 10);
        assert forall|i: int| 0 <= i < all.len() implies 48 <= (#[trigger] all[i]) as int
            <= 57 by {
            if i < init.len() {
                assert(all[i] == init[i]);
            }
        }
        assert(all[0] == init[0]);
    }
}

/// Digits write ten times what they write without the last one, and that one's value.
pub proof fn law_decimal_reads_digit_by_digit(digits: Seq<char>, digit: char)
    ensures
        decimal(Seq::empty()) == 0,
        decimal(digits.push(digit)) == 10 * decimal(digits) + (digit as int - 48),
{
    assert(digits.push(digit).drop_last() =~= digits);
}

/// Texts are ordered by the first place where they part, or by length where one ends there.
pub proof fn law_texts_sort_where_they_part(a: Seq<char>, b: Seq<char>)
    ensures
        sorts_before(a, b) <==> exists|k: int|
            {
                &&& 0 <= k <= a.len()
                &&& k < b.len()
                &&& #[trigger] a.take(k) == b.take(k)
                &&& k == a.len() || a[k] < b[k]
            },
    decreases a.len(),
{
    if sorts_before(a, b) {
        if a.len() == 0 || a[0] != b[0] {
            assert(a.take(0) =~= b.take(0));
        } else {
            let x = a.skip(1);
            let y = b.skip(1);
            law_texts_sort_where_they_part(x, y);
            let k = choose|k: int|
                {
                    &&& 0 <= k <= x.len()
                    &&& k < y.len()
                    &&& #[trigger] x.take(k) == y.take(k)
                    &&& k == x.len() || x[k] < y[k]
                };
            assert(a.take(k + 1) =~= seq![a[0]] + x.take(k));
            assert(b.take(k + 1) =~= seq![b[0]] + y.take(k));
            assert(a.take(k + 1) == b.take(k + 1));
        }
    }
    if exists|k: int|
        {
            &&& 0 <= k <= a.len()
            &&& k < b.len()
            &&& #[trigger] a.take(k) == b.take(k)
            &&& k == a.len() || a[k] < b[k]
        } {
        let k = choose|k: int|
            {
                &&& 0 <= k <= a.len()
                &&& k < b.len()
                &&& #[trigger] a.take(k) == b.take(k)
                &&& k == a.len() || a[k] < b[k]
            };
        if k > 0 {
            assert(a[0] == a.take(k)[0]);
            assert(b[0] == b.take(k)[0]);
            let x = a.skip(1);
            let y = b.skip(1);
            assert(x.take(k - 1) =~= a.take(k).skip(1));
            assert(y.take(k - 1) =~= b.take(k).skip(1));
            assert(x.take(k - 1) == y.take(k - 1));
            assert(k - 1 == x.len() || x[k - 1] < y[k - 1]);
            law_texts_sort_where_they_part(x, y);
        }
    }
}

/// A text ends with another where it is some text and the other behind it.
pub proof fn law_a_suffix_stands_behind_the_rest(s: Seq<char>, suffix: Seq<char>)
    ensures
        has_suffix(s, suffix) <==> exists|front: Seq<char>| s == #[trigger] (front + suffix),
{
    if has_suffix(s, suffix) {
        let front = s.take(s.len() - suffix.len());
        assert(s =~= front + suffix);
    }
    if exists|front: Seq<char>| s == #[trigger] (front + suffix) {
        let front = choose|front: Seq<char>| s == #[trigger] (front + suffix);
        assert(s.skip(front.len() as int) =~= suffix);
    }
}

} // verus!
