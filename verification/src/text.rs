//! Character-level helpers: UTF-8 / UTF-16 widths, offset conversion between
//! the two encodings, and small string utilities shared by the other modules.

use vstd::prelude::*;
use vstd::utf8::*;

verus! {

broadcast use vstd::string::group_string_axioms;

/// Number of UTF-8 bytes that encode `c`.
pub open spec fn utf8_width(c: char) -> nat {
    let v = c as u32;
    if v < 0x80 {
        1
    } else if v < 0x800 {
        2
    } else if v < 0x10000 {
        3
    } else {
        4
    }
}

/// Number of UTF-16 code units that encode `c`.
pub open spec fn utf16_width(c: char) -> nat {
    if (c as u32) < 0x10000 {
        1
    } else {
        2
    }
}

/// Length in UTF-8 bytes of a character sequence (the length of its encoding).
pub open spec fn utf8_len(s: Seq<char>) -> nat {
    encode_utf8(s).len()
}

/// Length in UTF-16 code units of a character sequence.
pub open spec fn utf16_len(s: Seq<char>) -> nat
    decreases s.len(),
{
    if s.len() == 0 {
        0
    } else {
        utf16_len(s.drop_last()) + utf16_width(s.last())
    }
}

pub proof fn lemma_encode_scalar_len(c: char)
    ensures
        encode_scalar(c as u32).len() == utf8_width(c),
{
    char_is_scalar(c);
}

pub proof fn lemma_encode_utf8_concat(a: Seq<char>, b: Seq<char>)
    ensures
        encode_utf8(a + b) == encode_utf8(a) + encode_utf8(b),
    decreases a.len(),
{
    if a.len() == 0 {
        assert(a + b =~= b);
        assert(encode_utf8(a) + encode_utf8(b) =~= encode_utf8(b));
    } else {
        lemma_encode_utf8_concat(a.drop_first(), b);
        assert((a + b).drop_first() =~= a.drop_first() + b);
        assert(encode_utf8(a + b) =~= encode_utf8(a) + encode_utf8(b));
    }
}

pub proof fn lemma_utf8_len_push(s: Seq<char>, c: char)
    ensures
        utf8_len(s.push(c)) == utf8_len(s) + utf8_width(c),
{
    lemma_encode_utf8_concat(s, seq![c]);
    assert(s.push(c) =~= s + seq![c]);
    lemma_encode_scalar_len(c);
    assert(seq![c].drop_first() =~= Seq::<char>::empty());
    assert(encode_utf8(Seq::<char>::empty()) =~= Seq::<u8>::empty());
    assert(encode_utf8(seq![c]) =~= encode_scalar(c as u32));
}

/// The UTF-8 length of a prefix grows by the width of the next character.
pub proof fn lemma_utf8_len_take_step(s: Seq<char>, k: int)
    requires
        0 <= k < s.len(),
    ensures
        utf8_len(s.take(k + 1)) == utf8_len(s.take(k)) + utf8_width(s[k]),
{
    assert(s.take(k + 1) =~= s.take(k).push(s[k]));
    lemma_utf8_len_push(s.take(k), s[k]);
}

pub proof fn lemma_utf16_len_take_step(s: Seq<char>, k: int)
    requires
        0 <= k < s.len(),
    ensures
        utf16_len(s.take(k + 1)) == utf16_len(s.take(k)) + utf16_width(s[k]),
{
    assert(s.take(k + 1).drop_last() =~= s.take(k));
}

/// Prefix lengths strictly increase with the prefix.
pub proof fn lemma_prefix_lens_strict(s: Seq<char>, j: int, k: int)
    requires
        0 <= j < k <= s.len(),
    ensures
        utf16_len(s.take(j)) < utf16_len(s.take(k)),
        utf8_len(s.take(j)) < utf8_len(s.take(k)),
    decreases k - j,
{
    lemma_utf16_len_take_step(s, k - 1);
    lemma_utf8_len_take_step(s, k - 1);
    if j < k - 1 {
        lemma_prefix_lens_strict(s, j, k - 1);
    }
}

/// Two prefixes with the same UTF-16 (or UTF-8) length are the same prefix.
pub proof fn lemma_prefix_lens_injective(s: Seq<char>, j: int, k: int)
    requires
        0 <= j <= s.len(),
        0 <= k <= s.len(),
        utf16_len(s.take(j)) == utf16_len(s.take(k)) || utf8_len(s.take(j)) == utf8_len(
            s.take(k),
        ),
    ensures
        j == k,
{
    if j < k {
        lemma_prefix_lens_strict(s, j, k);
    } else if k < j {
        lemma_prefix_lens_strict(s, k, j);
    }
}

/// The number of leading characters of `s` whose UTF-16 length is `off`, if any.
#[verifier::opaque]
pub open spec fn chars_at_utf16(s: Seq<char>, off: int) -> Option<int> {
    if exists|k: int| 0 <= k <= s.len() && utf16_len(#[trigger] s.take(k)) == off {
        Some(choose|k: int| 0 <= k <= s.len() && utf16_len(#[trigger] s.take(k)) == off)
    } else {
        None
    }
}

/// The number of leading characters of `s` whose UTF-8 length is `b`, if any.
#[verifier::opaque]
pub open spec fn chars_at_byte(s: Seq<char>, b: int) -> Option<int> {
    if exists|k: int| 0 <= k <= s.len() && utf8_len(#[trigger] s.take(k)) == b {
        Some(choose|k: int| 0 <= k <= s.len() && utf8_len(#[trigger] s.take(k)) == b)
    } else {
        None
    }
}

/// What a defined prefix count satisfies.
pub proof fn lemma_chars_at_utf16_defined(s: Seq<char>, off: int)
    ensures
        chars_at_utf16(s, off) matches Some(k) ==> 0 <= k <= s.len() && utf16_len(s.take(k)) == off,
        chars_at_utf16(s, off) is None ==> forall|k: int|
            0 <= k <= s.len() ==> utf16_len(#[trigger] s.take(k)) != off,
{
    reveal(chars_at_utf16);
}

/// What a defined prefix count satisfies.
pub proof fn lemma_chars_at_byte_defined(s: Seq<char>, b: int)
    ensures
        chars_at_byte(s, b) matches Some(k) ==> 0 <= k <= s.len() && utf8_len(s.take(k)) == b,
        chars_at_byte(s, b) is None ==> forall|k: int|
            0 <= k <= s.len() ==> utf8_len(#[trigger] s.take(k)) != b,
{
    reveal(chars_at_byte);
}

/// Byte index of a UTF-16 offset: defined when the offset falls between characters.
pub open spec fn spec_utf16_to_byte(s: Seq<char>, off: int) -> Option<nat> {
    match chars_at_utf16(s, off) {
        Some(k) => Some(utf8_len(s.take(k))),
        None => None,
    }
}

/// UTF-16 offset of a byte index: defined when the index falls between characters.
pub open spec fn spec_byte_to_utf16(s: Seq<char>, b: int) -> Option<nat> {
    match chars_at_byte(s, b) {
        Some(k) => Some(utf16_len(s.take(k))),
        None => None,
    }
}

pub proof fn lemma_chars_at_utf16_is(s: Seq<char>, off: int, k: int)
    requires
        0 <= k <= s.len(),
        utf16_len(s.take(k)) == off,
    ensures
        chars_at_utf16(s, off) == Some(k),
{
    reveal(chars_at_utf16);
    let c = choose|j: int| 0 <= j <= s.len() && utf16_len(#[trigger] s.take(j)) == off;
    lemma_prefix_lens_injective(s, c, k);
}

pub proof fn lemma_chars_at_byte_is(s: Seq<char>, b: int, k: int)
    requires
        0 <= k <= s.len(),
        utf8_len(s.take(k)) == b,
    ensures
        chars_at_byte(s, b) == Some(k),
{
    reveal(chars_at_byte);
    let c = choose|j: int| 0 <= j <= s.len() && utf8_len(#[trigger] s.take(j)) == b;
    lemma_prefix_lens_injective(s, c, k);
}

/// The characters of `s`, in order.
pub fn str_chars(s: &str) -> (v: Vec<char>)
    ensures
        v@ == s@,
{
    let mut v: Vec<char> = Vec::new();
    for c in it: s.chars()
        invariant
            v@ == it.seq().take(it.index() as int),
            it.seq() == s@,
    {
        v.push(c);
    }
    v
}


/// UTF-8 width of a character.
pub fn char_utf8_width(c: char) -> (w: usize)
    ensures
        w == utf8_width(c),
{
    let v = c as u32;
    if v < 0x80 {
        1
    } else if v < 0x800 {
        2
    } else if v < 0x10000 {
        3
    } else {
        4
    }
}

/// UTF-16 width of a character.
pub fn char_utf16_width(c: char) -> (w: usize)
    ensures
        w == utf16_width(c),
{
    if (c as u32) < 0x10000 {
        1
    } else {
        2
    }
}

/// The UTF-8 encoding of a string slice fits in memory.
pub fn utf8_len_of(s: &str) -> (n: usize)
    ensures
        n == utf8_len(s@),
{
    let b = s.as_bytes();
    b.len()
}

pub proof fn lemma_prefix_le_total(s: Seq<char>, k: int)
    requires
        0 <= k <= s.len(),
    ensures
        utf8_len(s.take(k)) <= utf8_len(s),
        utf16_len(s.take(k)) <= utf16_len(s),
{
    assert(s.take(s.len() as int) =~= s);
    if k < s.len() {
        lemma_prefix_lens_strict(s, k, s.len() as int);
    }
}

/// The number of leading characters whose UTF-16 length is `off`, if any.
pub fn char_index_at_utf16(chars: &Vec<char>, off: u32) -> (res: Option<usize>)
    ensures
        match res {
            Some(k) => chars_at_utf16(chars@, off as int) == Some(k as int) && k <= chars.len(),
            None => chars_at_utf16(chars@, off as int) is None,
        },
{
    let ghost s = chars@;
    let off64 = off as u64;
    let mut seen: u64 = 0;
    let mut i: usize = 0;
    while i < chars.len()
        invariant
            chars@ == s,
            i <= chars.len(),
            off64 == off,
            seen == utf16_len(s.take(i as int)),
            seen <= off64,
            forall|k: int| 0 <= k < i ==> utf16_len(#[trigger] s.take(k)) < off64,
        decreases chars.len() - i,
    {
        if seen == off64 {
            proof {
                lemma_chars_at_utf16_is(s, off64 as int, i as int);
            }
            return Some(i);
        }
        proof {
            lemma_utf16_len_take_step(s, i as int);
        }
        seen = seen + char_utf16_width(chars[i]) as u64;
        i = i + 1;
        if seen > off64 {
            proof {
                reveal(chars_at_utf16);
                assert forall|k: int| 0 <= k <= s.len() implies utf16_len(#[trigger] s.take(k))
                    != off by {
                    if k > i {
                        lemma_prefix_lens_strict(s, i as int, k);
                    }
                }
            }
            return None;
        }
    }
    if seen == off64 {
        proof {
            lemma_chars_at_utf16_is(s, off64 as int, i as int);
        }
        Some(i)
    } else {
        proof {
            reveal(chars_at_utf16);
        }
        None
    }
}

/// UTF-8 length of the first `k` characters.
pub fn prefix_utf8_len(chars: &Vec<char>, k: usize, total: usize) -> (n: usize)
    requires
        k <= chars.len(),
        total == utf8_len(chars@),
    ensures
        n == utf8_len(chars@.take(k as int)),
{
    let ghost s = chars@;
    let mut n: usize = 0;
    let mut i: usize = 0;
    while i < k
        invariant
            chars@ == s,
            total == utf8_len(s),
            i <= k <= chars.len(),
            n == utf8_len(s.take(i as int)),
        decreases k - i,
    {
        proof {
            lemma_utf8_len_take_step(s, i as int);
            lemma_prefix_le_total(s, i + 1);
        }
        n = n + char_utf8_width(chars[i]);
        i = i + 1;
    }
    n
}

/// Converts a UTF-16 code-unit offset into a UTF-8 byte index within `text`.
///
/// Returns `None` when the offset is past the end of the text or falls inside
/// a surrogate pair; the end of the text is a valid position.
pub fn utf16_offset_to_byte_index(text: &str, utf16_offset: u32) -> (res: Option<usize>)
    ensures
        match res {
            Some(b) => spec_utf16_to_byte(text@, utf16_offset as int) == Some(b as nat),
            None => spec_utf16_to_byte(text@, utf16_offset as int) is None,
        },
{
    let chars = str_chars(text);
    let total = utf8_len_of(text);
    match char_index_at_utf16(&chars, utf16_offset) {
        Some(k) => Some(prefix_utf8_len(&chars, k, total)),
        None => None,
    }
}

/// The number of leading characters whose UTF-8 length is `byte_index`, if any.
pub fn char_index_at_byte(chars: &Vec<char>, total: usize, byte_index: usize) -> (res: Option<usize>)
    requires
        total == utf8_len(chars@),
    ensures
        match res {
            Some(k) => chars_at_byte(chars@, byte_index as int) == Some(k as int) && k <= chars.len(),
            None => chars_at_byte(chars@, byte_index as int) is None,
        },
{
    let ghost s = chars@;
    if byte_index > total {
        proof {
            reveal(chars_at_byte);
            assert forall|k: int| 0 <= k <= s.len() implies utf8_len(#[trigger] s.take(k))
                != byte_index by {
                lemma_prefix_le_total(s, k);
            }
        }
        return None;
    }
    let mut byte: usize = 0;
    let mut i: usize = 0;
    while i < chars.len()
        invariant
            chars@ == s,
            total == utf8_len(s),
            byte_index <= total,
            i <= chars.len(),
            byte == utf8_len(s.take(i as int)),
            byte <= byte_index,
            forall|k: int| 0 <= k < i ==> utf8_len(#[trigger] s.take(k)) < byte_index,
        decreases chars.len() - i,
    {
        if byte == byte_index {
            proof {
                lemma_chars_at_byte_is(s, byte_index as int, i as int);
            }
            return Some(i);
        }
        proof {
            lemma_utf8_len_take_step(s, i as int);
            lemma_prefix_le_total(s, i + 1);
        }
        byte = byte + char_utf8_width(chars[i]);
        i = i + 1;
        if byte > byte_index {
            proof {
                reveal(chars_at_byte);
                assert forall|k: int| 0 <= k <= s.len() implies utf8_len(#[trigger] s.take(k))
                    != byte_index by {
                    if k > i {
                        lemma_prefix_lens_strict(s, i as int, k);
                    }
                }
            }
            return None;
        }
    }
    proof {
        assert(s.take(s.len() as int) =~= s);
        lemma_chars_at_byte_is(s, byte_index as int, i as int);
    }
    Some(i)
}

/// UTF-16 length of the first `k` characters.
pub fn prefix_utf16_len(chars: &Vec<char>, k: usize) -> (n: u128)
    requires
        k <= chars.len(),
    ensures
        n == utf16_len(chars@.take(k as int)),
{
    let ghost s = chars@;
    let mut n: u128 = 0;
    let mut i: usize = 0;
    while i < k
        invariant
            chars@ == s,
            i <= k <= chars.len(),
            n == utf16_len(s.take(i as int)),
            n <= 2 * i,
        decreases k - i,
    {
        proof {
            lemma_utf16_len_take_step(s, i as int);
        }
        n = n + char_utf16_width(chars[i]) as u128;
        i = i + 1;
    }
    n
}

/// Converts a UTF-8 byte index into a UTF-16 code-unit offset within `text`.
///
/// Returns `None` when the index is past the end of the text or not on a
/// character boundary.
pub fn byte_index_to_utf16_offset(text: &str, byte_index: usize) -> (res: Option<u32>)
    requires
        match spec_byte_to_utf16(text@, byte_index as int) {
            Some(u) => u <= u32::MAX,
            None => true,
        },
    ensures
        match res {
            Some(u) => spec_byte_to_utf16(text@, byte_index as int) == Some(u as nat),
            None => spec_byte_to_utf16(text@, byte_index as int) is None,
        },
{
    let chars = str_chars(text);
    let total = utf8_len_of(text);
    match char_index_at_byte(&chars, total, byte_index) {
        Some(k) => Some(prefix_utf16_len(&chars, k) as u32),
        None => None,
    }
}

/// A UTF-16 offset that names a position between characters converts to a byte
/// index, and that byte index converts back to the same UTF-16 offset.
pub proof fn law_utf16_to_byte_round_trip(s: Seq<char>, off: int)
    requires
        spec_utf16_to_byte(s, off) is Some,
    ensures
        spec_byte_to_utf16(s, spec_utf16_to_byte(s, off)->0 as int) == Some(off as nat),
{
    lemma_chars_at_utf16_defined(s, off);
    let k = chars_at_utf16(s, off)->0;
    lemma_chars_at_byte_is(s, utf8_len(s.take(k)) as int, k);
}

/// A byte index on a character boundary converts to a UTF-16 offset, and that
/// offset converts back to the same byte index.
pub proof fn law_byte_to_utf16_round_trip(s: Seq<char>, b: int)
    requires
        spec_byte_to_utf16(s, b) is Some,
    ensures
        spec_utf16_to_byte(s, spec_byte_to_utf16(s, b)->0 as int) == Some(b as nat),
{
    lemma_chars_at_byte_defined(s, b);
    let k = chars_at_byte(s, b)->0;
    lemma_chars_at_utf16_is(s, utf16_len(s.take(k)) as int, k);
}


/// Whether two character vectors hold the same characters.
pub fn chars_eq(a: &Vec<char>, b: &Vec<char>) -> (r: bool)
    ensures
        r == (a@ == b@),
{
    if a.len() != b.len() {
        return false;
    }
    let mut i: usize = 0;
    while i < a.len()
        invariant
            a.len() == b.len(),
            i <= a.len(),
            forall|j: int| 0 <= j < i ==> a@[j] == b@[j],
        decreases a.len() - i,
    {
        if a[i] != b[i] {
            return false;
        }
        i = i + 1;
    }
    assert(a@ =~= b@);
    true
}

/// Whether a string slice holds exactly the characters of `word`.
pub fn str_is(s: &str, word: &str) -> (r: bool)
    ensures
        r == (s@ == word@),
{
    let a = str_chars(s);
    let b = str_chars(word);
    chars_eq(&a, &b)
}

/// Appends `src[lo..hi]` to `out`.
pub fn push_range(out: &mut Vec<char>, src: &Vec<char>, lo: usize, hi: usize)
    requires
        lo <= hi <= src.len(),
    ensures
        final(out)@ == old(out)@ + src@.subrange(lo as int, hi as int),
{
    let mut i = lo;
    while i < hi
        invariant
            lo <= i <= hi <= src.len(),
            out@ == old(out)@ + src@.subrange(lo as int, i as int),
        decreases hi - i,
    {
        out.push(src[i]);
        i = i + 1;
        assert(src@.subrange(lo as int, i as int) =~= src@.subrange(lo as int, i - 1).push(
            src@[i - 1],
        ));
    }
}

/// Appends every character of `src` to `out`.
pub fn push_all(out: &mut Vec<char>, src: &Vec<char>)
    ensures
        final(out)@ == old(out)@ + src@,
{
    push_range(out, src, 0, src.len());
    assert(src@.subrange(0, src@.len() as int) =~= src@);
}

/// Appends the characters of a string slice to `out`.
pub fn push_str(out: &mut Vec<char>, s: &str)
    ensures
        final(out)@ == old(out)@ + s@,
{
    let c = str_chars(s);
    push_all(out, &c);
}

/// Builds a `String` holding exactly the given characters.
///
/// Trusted: `String::from_iter` over the characters (`FromIterator<&char>`),
/// which appends each character in order.
#[verifier::external_body]
pub(crate) fn string_from_chars(v: &Vec<char>) -> (s: String)
    ensures
        s@ == v@,
{
    String::from_iter(v)
}

/// The value of an ASCII digit.
pub open spec fn digit_value(c: char) -> int {
    (c as u32) - ('0' as u32)
}

pub open spec fn is_digit(c: char) -> bool {
    '0' <= c <= '9'
}

/// Value of a string of decimal digits.
pub open spec fn decimal_value(s: Seq<char>) -> nat
    decreases s.len(),
{
    if s.len() == 0 {
        0
    } else {
        (decimal_value(s.drop_last()) * 10 + digit_value(s.last())) as nat
    }
}

/// The text after an optional leading `+` sign.
pub open spec fn unsigned_digits(s: Seq<char>) -> Seq<char> {
    if s.len() > 0 && s[0] == '+' {
        s.skip(1)
    } else {
        s
    }
}

/// What `str::parse` yields for an unsigned integer type whose largest value
/// is `max`: an optional `+` followed by one or more decimal digits whose
/// value is at most `max`.
#[verifier::opaque]
pub open spec fn spec_parse_unsigned(s: Seq<char>, max: nat) -> Option<nat> {
    let digits = unsigned_digits(s);
    if digits.len() > 0 && (forall|i: int| 0 <= i < digits.len() ==> is_digit(#[trigger] digits[i]))
        && decimal_value(digits) <= max {
        Some(decimal_value(digits))
    } else {
        None
    }
}

/// What `str::parse::<usize>` yields.
pub open spec fn spec_parse_usize(s: Seq<char>) -> Option<nat> {
    spec_parse_unsigned(s, usize::MAX as nat)
}

/// What `str::parse::<u64>` yields.
pub open spec fn spec_parse_u64(s: Seq<char>) -> Option<nat> {
    spec_parse_unsigned(s, u64::MAX as nat)
}

proof fn lemma_decimal_value_grows(s: Seq<char>, i: int, j: int)
    requires
        0 <= i <= j <= s.len(),
        forall|k: int| 0 <= k < s.len() ==> is_digit(#[trigger] s[k]),
    ensures
        decimal_value(s.take(i)) <= decimal_value(s.take(j)),
    decreases j - i,
{
    if i < j {
        lemma_decimal_value_grows(s, i, j - 1);
        assert(s.take(j).drop_last() =~= s.take(j - 1));
        assert(is_digit(s[j - 1]));
    }
}

/// Parses an unsigned decimal number no larger than `max`, the way
/// `str::parse` does for an unsigned type with that maximum.
pub fn parse_unsigned(s: &str, max: u64) -> (r: Option<u64>)
    ensures
        match r {
            Some(v) => spec_parse_unsigned(s@, max as nat) == Some(v as nat) && v <= max,
            None => spec_parse_unsigned(s@, max as nat) is None,
        },
{
    reveal(spec_parse_unsigned);
    let c = str_chars(s);
    let start: usize = if c.len() > 0 && c[0] == '+' {
        1
    } else {
        0
    };
    let ghost digits = unsigned_digits(s@);
    assert(digits =~= c@.skip(start as int));
    if start >= c.len() {
        return None;
    }
    let mut value: u64 = 0;
    let mut i = start;
    while i < c.len()
        invariant
            c@ == s@,
            digits == c@.skip(start as int),
            digits == unsigned_digits(s@),
            start <= i <= c.len(),
            forall|k: int| start <= k < i ==> is_digit(#[trigger] c@[k]),
            value == decimal_value(c@.subrange(start as int, i as int)),
            value <= max,
        decreases c.len() - i,
    {
        let ch = c[i];
        if !('0' <= ch && ch <= '9') {
            assert(!is_digit(digits[i - start]));
            assert(!(forall|k: int| 0 <= k < digits.len() ==> is_digit(#[trigger] digits[k])));
            proof {
                reveal(spec_parse_unsigned);
            }
            assert(spec_parse_unsigned(s@, max as nat) is None);
            return None;
        }
        let d = (ch as u32 - '0' as u32) as u64;
        assert(c@.subrange(start as int, i + 1).drop_last() =~= c@.subrange(start as int, i as int));
        if d > max || value > (max - d) / 10 {
            proof {
                if d <= max {
                    assert(value * 10 + d > max) by (nonlinear_arith)
                        requires
                            value > (max - d) / 10,
                            d <= max,
                    ;
                }
                assert(decimal_value(c@.subrange(start as int, i + 1)) > max);
                if forall|k: int| 0 <= k < digits.len() ==> is_digit(#[trigger] digits[k]) {
                    lemma_decimal_value_grows(digits, i + 1 - start, digits.len() as int);
                    assert(digits.take(i + 1 - start) =~= c@.subrange(start as int, i + 1));
                    assert(digits.take(digits.len() as int) =~= digits);
                }
                reveal(spec_parse_unsigned);
                assert(spec_parse_unsigned(s@, max as nat) is None);
            }
            return None;
        }
        assert(value * 10 + d <= max) by (nonlinear_arith)
            requires
                value <= (max - d) / 10,
                d <= max,
        ;
        value = value * 10 + d;
        i = i + 1;
    }
    assert(c@.subrange(start as int, c.len() as int) =~= digits);
    Some(value)
}

/// Parses a decimal `usize` the way `str::parse::<usize>` does.
pub fn parse_usize(s: &str) -> (r: Option<usize>)
    ensures
        match r {
            Some(v) => spec_parse_usize(s@) == Some(v as nat),
            None => spec_parse_usize(s@) is None,
        },
{
    match parse_unsigned(s, usize::MAX as u64) {
        Some(v) => Some(v as usize),
        None => None,
    }
}

/// The character of a decimal digit.
pub open spec fn digit_char(d: int) -> char {
    if d == 0 {
        '0'
    } else if d == 1 {
        '1'
    } else if d == 2 {
        '2'
    } else if d == 3 {
        '3'
    } else if d == 4 {
        '4'
    } else if d == 5 {
        '5'
    } else if d == 6 {
        '6'
    } else if d == 7 {
        '7'
    } else if d == 8 {
        '8'
    } else {
        '9'
    }
}

/// Decimal representation of `n`, without leading zeros.
pub open spec fn decimal(n: nat) -> Seq<char>
    decreases n,
{
    if n < 10 {
        seq![digit_char(n as int)]
    } else {
        decimal(n / 10).push(digit_char((n % 10) as int))
    }
}

/// The decimal representation of `n` is made of digits and reads back as `n`.
pub proof fn lemma_decimal_reads_back(n: nat)
    ensures
        decimal_value(decimal(n)) == n,
        forall|i: int| 0 <= i < decimal(n).len() ==> is_digit(#[trigger] decimal(n)[i]),
    decreases n,
{
    lemma_digit_char_value((n % 10) as int);
    if n >= 10 {
        lemma_decimal_reads_back(n / 10);
        assert(decimal(n).drop_last() =~= decimal(n / 10));
        assert(decimal(n).last() == digit_char((n % 10) as int));
        assert(n == (n / 10) * 10 + n % 10) by (nonlinear_arith);
        assert(decimal_value(decimal(n)) == decimal_value(decimal(n / 10)) * 10 + digit_value(digit_char((n % 10) as int)));
    } else {
        assert(decimal(n).drop_last() =~= Seq::<char>::empty());
        assert(decimal_value(decimal(n)) == decimal_value(Seq::<char>::empty()) * 10 + digit_value(digit_char((n % 10) as int)));
    }
}

proof fn lemma_digit_char_value(d: int)
    requires
        0 <= d < 10,
    ensures
        digit_value(digit_char(d)) == d,
        is_digit(digit_char(d)),
{
}

pub fn digit_to_char(d: u128) -> (c: char)
    requires
        d < 10,
    ensures
        c == digit_char(d as int),
{
    if d == 0 {
        '0'
    } else if d == 1 {
        '1'
    } else if d == 2 {
        '2'
    } else if d == 3 {
        '3'
    } else if d == 4 {
        '4'
    } else if d == 5 {
        '5'
    } else if d == 6 {
        '6'
    } else if d == 7 {
        '7'
    } else if d == 8 {
        '8'
    } else {
        '9'
    }
}

/// Appends the decimal representation of `n`.
pub fn push_decimal(out: &mut Vec<char>, n: u128)
    ensures
        final(out)@ == old(out)@ + decimal(n as nat),
    decreases n,
{
    if n >= 10 {
        push_decimal(out, n / 10);
    }
    out.push(digit_to_char(n % 10));
    assert(out@ =~= old(out)@ + decimal(n as nat));
}


pub proof fn lemma_utf16_len_concat(a: Seq<char>, b: Seq<char>)
    ensures
        utf16_len(a + b) == utf16_len(a) + utf16_len(b),
    decreases b.len(),
{
    if b.len() == 0 {
        assert(a + b =~= a);
    } else {
        lemma_utf16_len_concat(a, b.drop_last());
        assert((a + b).drop_last() =~= a + b.drop_last());
    }
}

} // verus!
