//! Byte and character strings: ASCII text, decimal and hexadecimal
//! numerals, searching, and the byte order that `String` sorts by.

use vstd::prelude::*;
use vstd::utf8::*;
use vstd::string::*;
use crate::codec::string_from_utf8;

verus! {

/// The characters that a string of ASCII bytes stands for.
pub open spec fn ascii_chars(bytes: Seq<u8>) -> Seq<char> {
    Seq::new(bytes.len(), |i: int| bytes[i] as char)
}

/// Every byte is ASCII.
pub open spec fn is_ascii_bytes(bytes: Seq<u8>) -> bool {
    forall|i: int| 0 <= i < bytes.len() ==> #[trigger] bytes[i] < 128
}

/// ASCII bytes are valid UTF-8, and encode exactly their own characters.
pub proof fn lemma_ascii_utf8(bytes: Seq<u8>)
    requires
        is_ascii_bytes(bytes),
    ensures
        valid_utf8(bytes),
        decode_utf8(bytes) == ascii_chars(bytes),
        encode_utf8(ascii_chars(bytes)) == bytes,
{
    let c = ascii_chars(bytes);
    assert(is_ascii_chars(c)) by {
        assert forall|i: int| 0 <= i < c.len() implies '\0' <= #[trigger] c[i] <= '\u{7f}' by {
            assert(bytes[i] < 128);
        }
    }
    is_ascii_chars_encode_utf8(c);
    assert forall|i: int| 0 <= i < c.len() implies #[trigger] encode_utf8(c)[i] == bytes[i] by {
        assert(c[i] as u8 == encode_utf8(c)[i]);
        assert(bytes[i] < 128);
    }
    assert(encode_utf8(c) =~= bytes);
    encode_utf8_valid_utf8(c);
    encode_utf8_decode_utf8(c);
}

/// Makes a `String` of ASCII bytes.
pub fn ascii_string(bytes: Vec<u8>) -> (s: String)
    requires
        is_ascii_bytes(bytes@),
    ensures
        s@ == ascii_chars(bytes@),
{
    proof {
        lemma_ascii_utf8(bytes@);
    }
    match string_from_utf8(bytes) {
        Some(s) => s,
        None => {
            proof {
                assert(false);
            }
            String::new()
        },
    }
}

/// Appends the bytes of `s` to `v`.
pub fn push_bytes(v: &mut Vec<u8>, s: &[u8])
    ensures
        final(v)@ == old(v)@ + s@,
{
    let ghost start = v@;
    let mut i: usize = 0;
    while i < s.len()
        invariant
            i <= s@.len(),
            v@ == start + s@.take(i as int),
        decreases s@.len() - i,
    {
        v.push(s[i]);
        i = i + 1;
        assert(v@ =~= start + s@.take(i as int));
    }
    assert(s@.take(i as int) =~= s@);
}

/// The ASCII code of the decimal digit `d`.
pub open spec fn digit_byte(d: nat) -> u8 {
    (48 + d) as u8
}

/// The decimal numeral of `n`, without leading zeros, as ASCII bytes.
pub open spec fn decimal(n: nat) -> Seq<u8>
    decreases n,
{
    if n < 10 {
        seq![digit_byte(n)]
    } else {
        decimal(n / 10).push(digit_byte(n % 10))
    }
}

/// Writes `n` in decimal, as `format!("{}", n)` does.
pub fn decimal_bytes(n: usize) -> (v: Vec<u8>)
    ensures
        v@ == decimal(n as nat),
    decreases n,
{
    if n < 10 {
        let mut v: Vec<u8> = Vec::new();
        v.push((48 + n) as u8);
        v
    } else {
        let mut v = decimal_bytes(n / 10);
        v.push((48 + n % 10) as u8);
        v
    }
}

/// The character is one of `0` to `9`.
pub open spec fn is_digit_char(c: char) -> bool {
    '0' <= c && c <= '9'
}

/// Every character is a decimal digit.
pub open spec fn all_digits(s: Seq<char>) -> bool {
    forall|i: int| 0 <= i < s.len() ==> is_digit_char(#[trigger] s[i])
}

/// The value of a decimal digit.
pub open spec fn digit_value(c: char) -> nat {
    (c as int - 48) as nat
}

/// The value of a string of decimal digits (0 for the empty string).
pub open spec fn digits_value(s: Seq<char>) -> nat
    decreases s.len(),
{
    if s.len() == 0 {
        0
    } else {
        digits_value(s.drop_last()) * 10 + digit_value(s.last())
    }
}

/// What `usize::from_str` makes of a string: one optional leading `+`,
/// then at least one decimal digit and nothing else, with a value that
/// fits in a `usize`.
pub open spec fn parse_usize(s: Seq<char>) -> Option<usize> {
    let digits = if s.len() > 0 && s[0] == '+' {
        s.drop_first()
    } else {
        s
    };
    if digits.len() > 0 && all_digits(digits) && digits_value(digits) <= usize::MAX {
        Some(digits_value(digits) as usize)
    } else {
        None
    }
}

/// A digit string is worth at least as much as any of its prefixes.
pub proof fn lemma_digits_value_prefix(s: Seq<char>, k: int)
    requires
        0 <= k <= s.len(),
        all_digits(s),
    ensures
        digits_value(s.take(k)) <= digits_value(s),
    decreases s.len(),
{
    if k < s.len() {
        let t = s.drop_last();
        assert(all_digits(t)) by {
            assert forall|i: int| 0 <= i < t.len() implies is_digit_char(#[trigger] t[i]) by {
                assert(t[i] == s[i]);
            }
        }
        lemma_digits_value_prefix(t, k);
        assert(t.take(k) =~= s.take(k));
    } else {
        assert(s.take(k) =~= s);
    }
}

/// Parses the characters `s[from..to]` as `usize::from_str` does.
pub fn parse_usize_chars(s: &[char], from: usize, to: usize) -> (r: Option<usize>)
    requires
        from <= to <= s@.len(),
    ensures
        r == parse_usize(s@.subrange(from as int, to as int)),
{
    let ghost text = s@.subrange(from as int, to as int);
    let mut start = from;
    if from < to && s[from] == '+' {
        start = from + 1;
    }
    let ghost digits = s@.subrange(start as int, to as int);
    assert(digits =~= (if text.len() > 0 && text[0] == '+' { text.drop_first() } else { text }));
    if start == to {
        assert(digits.len() == 0);
        return None;
    }
    let mut value: usize = 0;
    let mut i: usize = start;
    while i < to
        invariant
            from <= start < to <= s@.len(),
            start <= i <= to,
            text == s@.subrange(from as int, to as int),
            digits == s@.subrange(start as int, to as int),
            digits == (if text.len() > 0 && text[0] == '+' { text.drop_first() } else { text }),
            all_digits(digits.take(i - start)),
            value == digits_value(digits.take(i - start)),
        decreases to - i,
    {
        let c = s[i];
        if !('0' <= c && c <= '9') {
            assert(digits[i - start] == c);
            return None;
        }
        let d = (c as u32 - 48) as usize;
        let ghost next = digits.take(i - start + 1);
        assert(next.drop_last() =~= digits.take(i - start));
        assert(next.last() == c);
        assert(digit_value(c) == d);
        assert(digits_value(next) == value * 10 + d);
        assert(all_digits(next)) by {
            assert forall|j: int| 0 <= j < next.len() implies is_digit_char(#[trigger] next[j]) by {
                if j < next.len() - 1 {
                    assert(next[j] == digits.take(i - start)[j]);
                }
            }
        }
        match value.checked_mul(10) {
            Some(m) => match m.checked_add(d) {
                Some(w) => {
                    value = w;
                },
                None => {
                    proof {
                        if all_digits(digits) {
                            lemma_digits_value_prefix(digits, i - start + 1);
                        }
                    }
                    return None;
                },
            },
            None => {
                proof {
                    if all_digits(digits) {
                        lemma_digits_value_prefix(digits, i - start + 1);
                    }
                }
                return None;
            },
        }
        i = i + 1;
    }
    assert(digits.take(i - start) =~= digits);
    Some(value)
}

/// A decimal numeral is a digit string, worth the number it was made of.
pub proof fn lemma_decimal_value(n: nat)
    ensures
        decimal(n).len() > 0,
        is_ascii_bytes(decimal(n)),
        all_digits(ascii_chars(decimal(n))),
        digits_value(ascii_chars(decimal(n))) == n,
        ascii_chars(decimal(n))[0] != '+',
    decreases n,
{
    let c = ascii_chars(decimal(n));
    if n < 10 {
        assert(c.drop_last() =~= Seq::<char>::empty());
        assert(digits_value(Seq::<char>::empty()) == 0);
        assert(c[0] == (48 + n) as u8 as char);
        assert(digit_value(c.last()) == n);
    } else {
        lemma_decimal_value(n / 10);
        let p = ascii_chars(decimal(n / 10));
        assert(c.drop_last() =~= p);
        assert(c[0] == p[0]);
        assert(c.last() == (48 + n % 10) as u8 as char);
        assert(digit_value(c.last()) == n % 10);
        assert(all_digits(c)) by {
            assert forall|i: int| 0 <= i < c.len() implies is_digit_char(#[trigger] c[i]) by {
                if i < c.len() - 1 {
                    assert(c[i] == p[i]);
                }
            }
        }
        assert((n / 10) * 10 + n % 10 == n) by (nonlinear_arith);
    }
}

/// Reading back the decimal numeral of a `usize` gives the number.
pub proof fn lemma_parse_decimal(n: usize)
    ensures
        parse_usize(ascii_chars(decimal(n as nat))) == Some(n),
{
    lemma_decimal_value(n as nat);
}

/// The lower-case hexadecimal digit for a value below 16, as ASCII.
pub open spec fn hex_digit(d: int) -> u8 {
    if d < 10 {
        (48 + d) as u8
    } else {
        (87 + d) as u8
    }
}

/// Each byte as two lower-case hexadecimal digits (`{:02x}`), as ASCII.
pub open spec fn hex_lower(bytes: Seq<u8>) -> Seq<u8>
    decreases bytes.len(),
{
    if bytes.len() == 0 {
        seq![]
    } else {
        hex_lower(bytes.drop_last()) + seq![
            hex_digit(bytes.last() as int / 16),
            hex_digit(bytes.last() as int % 16),
        ]
    }
}

/// A hexadecimal rendering is ASCII, two digits per byte.
pub proof fn lemma_hex_lower(bytes: Seq<u8>)
    ensures
        hex_lower(bytes).len() == 2 * bytes.len(),
        is_ascii_bytes(hex_lower(bytes)),
        forall|i: int| 0 <= i < hex_lower(bytes).len() ==> is_lower_hex_byte(#[trigger] hex_lower(bytes)[i]),
    decreases bytes.len(),
{
    if bytes.len() > 0 {
        lemma_hex_lower(bytes.drop_last());
        let h = hex_lower(bytes);
        let p = hex_lower(bytes.drop_last());
        assert forall|i: int| 0 <= i < h.len() implies is_lower_hex_byte(#[trigger] h[i]) by {
            if i < p.len() {
                assert(h[i] == p[i]);
            }
        }
    }
}

/// The ASCII code of a lower-case hexadecimal digit: `0`-`9` or `a`-`f`.
pub open spec fn is_lower_hex_byte(b: u8) -> bool {
    (48 <= b && b <= 57) || (97 <= b && b <= 102)
}

/// Every character is a lower-case hexadecimal digit.
pub open spec fn is_lower_hex_text(s: Seq<char>) -> bool {
    forall|i: int| 0 <= i < s.len() ==> ('0' <= #[trigger] s[i] && s[i] <= '9') || ('a' <= s[i] && s[i] <= 'f')
}

/// The characters of lower-case hexadecimal digit codes are lower-case
/// hexadecimal digits.
pub proof fn lemma_lower_hex_text(bytes: Seq<u8>)
    requires
        forall|i: int| 0 <= i < bytes.len() ==> is_lower_hex_byte(#[trigger] bytes[i]),
    ensures
        is_lower_hex_text(ascii_chars(bytes)),
{
    let c = ascii_chars(bytes);
    assert forall|i: int| 0 <= i < c.len() implies ('0' <= #[trigger] c[i] && c[i] <= '9') || ('a' <= c[i]
        && c[i] <= 'f') by {
        assert(is_lower_hex_byte(bytes[i]));
        assert(c[i] == bytes[i] as char);
    }
}

/// Renders bytes in lower-case hexadecimal.
pub fn hex_encode(bytes: &[u8]) -> (v: Vec<u8>)
    ensures
        v@ == hex_lower(bytes@),
{
    let mut v: Vec<u8> = Vec::new();
    let mut i: usize = 0;
    while i < bytes.len()
        invariant
            i <= bytes@.len(),
            v@ == hex_lower(bytes@.take(i as int)),
        decreases bytes@.len() - i,
    {
        let b = bytes[i];
        let hi = b / 16;
        let lo = b % 16;
        v.push(if hi < 10 { 48 + hi } else { 87 + hi });
        v.push(if lo < 10 { 48 + lo } else { 87 + lo });
        let ghost t = bytes@.take(i + 1);
        assert(t.drop_last() =~= bytes@.take(i as int));
        assert(t.last() == b);
        i = i + 1;
        assert(v@ =~= hex_lower(bytes@.take(i as int)));
    }
    assert(bytes@.take(i as int) =~= bytes@);
    v
}

/// The index of the first `x` in `s`, if there is one.
pub open spec fn first_index_of<T>(s: Seq<T>, x: T) -> Option<int>
    decreases s.len(),
{
    if s.len() == 0 {
        None
    } else if s[0] == x {
        Some(0)
    } else {
        match first_index_of(s.drop_first(), x) {
            Some(i) => Some(i + 1),
            None => None,
        }
    }
}

/// `first_index_of` finds the first occurrence, and finds none only when
/// there is none.
pub broadcast proof fn lemma_first_index_of<T>(s: Seq<T>, x: T)
    ensures
        match #[trigger] first_index_of(s, x) {
            Some(i) => 0 <= i < s.len() && s[i] == x && forall|j: int| 0 <= j < i ==> s[j] != x,
            None => forall|j: int| 0 <= j < s.len() ==> s[j] != x,
        },
    decreases s.len(),
{
    if s.len() > 0 && s[0] != x {
        lemma_first_index_of(s.drop_first(), x);
        match first_index_of(s.drop_first(), x) {
            Some(i) => {
                assert forall|j: int| 0 <= j < i + 1 implies s[j] != x by {
                    if j > 0 {
                        assert(s[j] == s.drop_first()[j - 1]);
                    }
                }
            },
            None => {
                assert forall|j: int| 0 <= j < s.len() implies s[j] != x by {
                    if j > 0 {
                        assert(s[j] == s.drop_first()[j - 1]);
                    }
                }
            },
        }
    }
}

/// An occurrence of `x` with none before it is the first.
pub proof fn lemma_first_index_at<T>(s: Seq<T>, x: T, i: int)
    requires
        0 <= i < s.len(),
        s[i] == x,
        forall|j: int| 0 <= j < i ==> s[j] != x,
    ensures
        first_index_of(s, x) == Some(i),
{
    lemma_first_index_of(s, x);
    let k = first_index_of(s, x);
    assert(k is Some);
    let kk = k->0;
    if kk < i {
    } else if kk > i {
    }
}

/// Finds the first byte `x` in `s[from..]`, giving its index in `s`.
pub fn find_byte(s: &[u8], from: usize, x: u8) -> (r: Option<usize>)
    requires
        from <= s@.len(),
    ensures
        match first_index_of(s@.skip(from as int), x) {
            Some(i) => r matches Some(k) && k == from + i,
            None => r is None,
        },
{
    broadcast use lemma_first_index_of;
    let ghost rest = s@.skip(from as int);
    let mut i = from;
    while i < s.len()
        invariant
            from <= i <= s@.len(),
            rest == s@.skip(from as int),
            forall|j: int| from <= j < i ==> s@[j] != x,
        decreases s@.len() - i,
    {
        if s[i] == x {
            proof {
                assert(rest[i - from] == x);
                assert(forall|j: int| 0 <= j < i - from ==> rest[j] == s@[from + j]);
                lemma_first_index_of(rest, x);
                let k = first_index_of(rest, x);
                assert(k is Some);
                let kk = k->0;
                assert(rest[kk] == s@[from + kk]);
                if kk < i - from {
                } else if kk > i - from {
                }
                assert(kk == i - from);
            }
            return Some(i);
        }
        i = i + 1;
    }
    assert(forall|j: int| 0 <= j < rest.len() ==> rest[j] == s@[from + j]);
    None
}

/// Finds the first character `x` in `s[from..to]`, giving its index in `s`.
pub fn find_char(s: &[char], from: usize, to: usize, x: char) -> (r: Option<usize>)
    requires
        from <= to <= s@.len(),
    ensures
        match first_index_of(s@.subrange(from as int, to as int), x) {
            Some(i) => r matches Some(k) && k == from + i,
            None => r is None,
        },
{
    broadcast use lemma_first_index_of;
    let ghost rest = s@.subrange(from as int, to as int);
    let mut i = from;
    while i < to
        invariant
            from <= i <= to <= s@.len(),
            rest == s@.subrange(from as int, to as int),
            forall|j: int| from <= j < i ==> s@[j] != x,
        decreases to - i,
    {
        if s[i] == x {
            proof {
                assert(rest[i - from] == x);
                assert(forall|j: int| 0 <= j < i - from ==> rest[j] == s@[from + j]);
                lemma_first_index_of(rest, x);
                let k = first_index_of(rest, x);
                assert(k is Some);
                let kk = k->0;
                assert(rest[kk] == s@[from + kk]);
                if kk < i - from {
                } else if kk > i - from {
                }
                assert(kk == i - from);
            }
            return Some(i);
        }
        i = i + 1;
    }
    assert(forall|j: int| 0 <= j < rest.len() ==> rest[j] == s@[from + j]);
    None
}

/// The characters of a string, one by one.
pub fn chars_of(s: &str) -> (v: Vec<char>)
    ensures
        v@ == s@,
{
    broadcast use vstd::string::group_string_axioms;

    let mut v: Vec<char> = Vec::new();
    for c in it: s.chars()
        invariant
            v@ == it.seq().take(it.index() as int),
    {
        v.push(c);
    }
    v
}

} // verus!
