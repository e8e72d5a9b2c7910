//! Text helpers under the codec: ASCII bytes as characters, and decimal numbers.

use vstd::prelude::*;
use vstd::utf8::is_ascii_chars;

verus! {

/// `String::push` appends one character to the string and changes nothing else
/// (std documents it as "Appends the given char to the end of this String").
pub assume_specification[ String::push ](s: &mut String, c: char)
    ensures
        final(s)@ == old(s)@.push(c),
;

/// Every byte is below 128.
pub open spec fn is_ascii_bytes(b: Seq<u8>) -> bool {
    forall|i: int| 0 <= i < b.len() ==> #[trigger] b[i] < 128
}

/// The bytes read as characters, one for one.
pub open spec fn ascii_chars(b: Seq<u8>) -> Seq<char> {
    Seq::new(b.len(), |i: int| b[i] as char)
}

/// The characters written as bytes, one for one (meant for ASCII text).
pub open spec fn ascii_bytes(s: Seq<char>) -> Seq<u8> {
    Seq::new(s.len(), |i: int| s[i] as u8)
}

/// ASCII bytes read as characters are ASCII characters, and write back as
/// the same bytes.
pub proof fn lemma_ascii_chars_is_ascii(b: Seq<u8>)
    requires
        is_ascii_bytes(b),
    ensures
        is_ascii_chars(ascii_chars(b)),
        ascii_bytes(ascii_chars(b)) == b,
{
    assert forall|i: int| 0 <= i < b.len() implies '\0' <= #[trigger] ascii_chars(b)[i]
        <= '\u{7f}' by {
        assert(b[i] < 128);
    }
    assert(ascii_bytes(ascii_chars(b)) =~= b);
}

/// ASCII characters written as bytes are ASCII bytes, read back as the same
/// characters, and are the text's UTF-8 encoding.
pub proof fn lemma_ascii_bytes_is_ascii(s: Seq<char>)
    requires
        is_ascii_chars(s),
    ensures
        is_ascii_bytes(ascii_bytes(s)),
        ascii_chars(ascii_bytes(s)) == s,
        vstd::utf8::encode_utf8(s) == ascii_bytes(s),
{
    vstd::utf8::is_ascii_chars_encode_utf8(s);
    assert forall|i: int| 0 <= i < s.len() implies #[trigger] ascii_bytes(s)[i] < 128 by {
        assert('\0' <= s[i] <= '\u{7f}');
    }
    assert forall|i: int| 0 <= i < s.len() implies ascii_chars(ascii_bytes(s))[i] == s[i] by {
        assert('\0' <= s[i] <= '\u{7f}');
    }
    assert(ascii_chars(ascii_bytes(s)) =~= s);
    assert(vstd::utf8::encode_utf8(s) =~= ascii_bytes(s));
}

/// Whether every byte of the slice is ASCII.
pub fn all_ascii(b: &[u8]) -> (r: bool)
    ensures
        r == is_ascii_bytes(b@),
{
    let mut i: usize = 0;
    while i < b.len()
        invariant
            i <= b.len(),
            is_ascii_bytes(b@.take(i as int)),
        decreases b.len() - i,
    {
        if b[i] >= 128 {
            return false;
        }
        assert forall|j: int| 0 <= j < i + 1 implies #[trigger] b@.take(i + 1)[j] < 128 by {
            if j < i {
                assert(b@.take(i as int)[j] < 128);
            }
        }
        i += 1;
    }
    assert(b@.take(i as int) =~= b@);
    true
}

/// The bytes `b[from..to]` as a string, each byte one character.
pub fn ascii_to_string(b: &[u8], from: usize, to: usize) -> (s: String)
    requires
        from <= to <= b.len(),
    ensures
        s@ == ascii_chars(b@.subrange(from as int, to as int)),
{
    let mut s = String::new();
    let mut i: usize = from;
    while i < to
        invariant
            from <= i <= to <= b.len(),
            s@ == ascii_chars(b@.subrange(from as int, i as int)),
        decreases to - i,
    {
        s.push(b[i] as char);
        i += 1;
        assert(s@ =~= ascii_chars(b@.subrange(from as int, i as int)));
    }
    s
}

/// `'0'..='9'`.
pub open spec fn is_digit(c: char) -> bool {
    '0' <= c <= '9'
}

/// The number that a digit stands for.
pub open spec fn digit_value(c: char) -> nat {
    (c as int - '0' as int) as nat
}

/// The digit that stands for a number below ten.
pub open spec fn digit_char(d: nat) -> char {
    (d + '0' as nat) as char
}

/// Every character is a digit.
pub open spec fn all_digits(s: Seq<char>) -> bool {
    forall|i: int| 0 <= i < s.len() ==> is_digit(#[trigger] s[i])
}

/// The number that a run of decimal digits denotes; leading zeros count for nothing.
pub open spec fn decimal_value(s: Seq<char>) -> nat
    decreases s.len(),
{
    if s.len() == 0 {
        0
    } else {
        decimal_value(s.drop_last()) * 10 + digit_value(s.last())
    }
}

/// The shortest decimal numeral of `n`.
pub open spec fn decimal_digits(n: nat) -> Seq<char>
    decreases n,
{
    if n < 10 {
        seq![digit_char(n)]
    } else {
        decimal_digits(n / 10).push(digit_char(n % 10))
    }
}

/// A numeral reads back as its number, holds digits only, and is never empty.
pub proof fn lemma_decimal_roundtrip(n: nat)
    ensures
        decimal_value(decimal_digits(n)) == n,
        all_digits(decimal_digits(n)),
        decimal_digits(n).len() >= 1,
    decreases n,
{
    let s = decimal_digits(n);
    if n < 10 {
        assert(s.drop_last() =~= Seq::<char>::empty());
        assert(decimal_value(s.drop_last()) == 0);
        assert(digit_value(digit_char(n)) == n);
    } else {
        lemma_decimal_roundtrip(n / 10);
        assert(s.drop_last() =~= decimal_digits(n / 10));
        assert(digit_value(digit_char(n % 10)) == n % 10);
        assert forall|i: int| 0 <= i < s.len() implies is_digit(#[trigger] s[i]) by {
            if i < s.len() - 1 {
                assert(s[i] == decimal_digits(n / 10)[i]);
            }
        }
    }
}

/// Numbers below 2^64 take at most twenty digits, numbers below 2^31 at most ten.
pub proof fn lemma_decimal_len(n: nat)
    ensures
        n < 0x8000_0000 ==> decimal_digits(n).len() <= 10,
        n <= u64::MAX ==> decimal_digits(n).len() <= 20,
        decimal_digits(n).len() >= 1,
{
    reveal_with_fuel(decimal_digits, 21);
}

/// The number of digits of the decimal numeral of `n`.
pub fn decimal_len(n: u64) -> (len: usize)
    ensures
        len == decimal_digits(n as nat).len(),
        1 <= len <= 20,
    decreases n,
{
    proof {
        lemma_decimal_len(n as nat);
    }
    if n < 10 {
        1
    } else {
        proof {
            lemma_decimal_len((n / 10) as nat);
        }
        1 + decimal_len(n / 10)
    }
}

/// Appends the decimal numeral of `n` to `out`.
pub fn push_decimal(out: &mut String, n: u64)
    ensures
        final(out)@ == old(out)@ + decimal_digits(n as nat),
    decreases n,
{
    if n >= 10 {
        push_decimal(out, n / 10);
    }
    let d: u8 = (n % 10) as u8;
    out.push((d + 48u8) as char);
    assert(((d + 48u8) as char) == digit_char((n % 10) as nat));
    assert(final(out)@ =~= old(out)@ + decimal_digits(n as nat));
}

} // verus!
