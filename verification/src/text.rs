//! Building and taking apart text: decimal and hexadecimal numbers, padded
//! columns, trimming and splitting.
//!
//! Everything here speaks of a string as the sequence of its characters.

use vstd::arithmetic::power::{lemma_pow0, pow};
use vstd::prelude::*;

verus! {

/// Trusted: `String::push` of the standard library appends one character to
/// the end of the string and leaves what was there as it was.
pub assume_specification[ String::push ](s: &mut String, ch: char)
    ensures
        final(s)@ == old(s)@.push(ch),
;

// ---------------------------------------------------------------------------
// Models
// ---------------------------------------------------------------------------

/// The character of one decimal digit.
pub open spec fn digit_char(d: int) -> char {
    (48 + d) as char
}

/// `n` in base ten, without leading zeros.
pub open spec fn decimal(n: nat) -> Seq<char>
    decreases n,
{
    if n < 10 {
        seq![digit_char(n as int)]
    } else {
        decimal(n / 10).push(digit_char((n % 10) as int))
    }
}

/// `n` in base ten, with a minus sign in front of a negative number.
pub open spec fn signed_decimal(n: int) -> Seq<char> {
    if n < 0 {
        seq!['-'] + decimal((-n) as nat)
    } else {
        decimal(n as nat)
    }
}

/// `n` times the character `c`.
pub open spec fn repeated(c: char, n: nat) -> Seq<char> {
    Seq::new(n, |i: int| c)
}

/// How many characters `s` lacks of `width`.
pub open spec fn lacking(s: Seq<char>, width: nat) -> nat {
    if s.len() < width {
        (width - s.len()) as nat
    } else {
        0
    }
}

/// `s` moved to the right edge of a column of `width` characters.
pub open spec fn pad_left(s: Seq<char>, width: nat) -> Seq<char> {
    repeated(' ', lacking(s, width)) + s
}

/// `s` moved to the left edge of a column of `width` characters.
pub open spec fn pad_right(s: Seq<char>, width: nat) -> Seq<char> {
    s + repeated(' ', lacking(s, width))
}

/// The character of one lowercase hexadecimal digit.
pub open spec fn hex_digit(d: int) -> char {
    if d < 10 {
        (48 + d) as char
    } else {
        (87 + d) as char
    }
}

/// A byte as two lowercase hexadecimal digits, the high one first.
pub open spec fn hex_byte(b: u8) -> Seq<char> {
    seq![hex_digit(b as int / 16), hex_digit(b as int % 16)]
}

/// Bytes as lowercase hexadecimal digits, two for each byte.
pub open spec fn hex_text(bytes: Seq<u8>) -> Seq<char> {
    Seq::new(
        2 * bytes.len(),
        |i: int|
            if i % 2 == 0 {
                hex_digit(bytes[i / 2] as int / 16)
            } else {
                hex_digit(bytes[i / 2] as int % 16)
            },
    )
}

/// The characters with the Unicode property `White_Space`.
pub open spec fn whitespace(c: char) -> bool {
    ||| '\u{9}' <= c <= '\u{d}'
    ||| c == ' '
    ||| c == '\u{85}'
    ||| c == '\u{a0}'
    ||| c == '\u{1680}'
    ||| '\u{2000}' <= c <= '\u{200a}'
    ||| c == '\u{2028}'
    ||| c == '\u{2029}'
    ||| c == '\u{202f}'
    ||| c == '\u{205f}'
    ||| c == '\u{3000}'
}

/// `core` is `s` without the white space around it.
pub open spec fn is_trimmed(s: Seq<char>, core: Seq<char>) -> bool {
    exists|from: int, to: int| #[trigger] trimmed_at(s, core, from, to)
}

/// `core` is what stands in `s` between `from` and `to`; outside there is only
/// white space, and `core` neither starts nor ends with any.
pub open spec fn trimmed_at(s: Seq<char>, core: Seq<char>, from: int, to: int) -> bool {
    &&& 0 <= from <= to <= s.len()
    &&& core == s.subrange(from, to)
    &&& forall|i: int| 0 <= i < from ==> whitespace(#[trigger] s[i])
    &&& forall|i: int| to <= i < s.len() ==> whitespace(#[trigger] s[i])
    &&& core.len() > 0 ==> !whitespace(core.first()) && !whitespace(core.last())
}

/// `pattern` stands in `s` at position `at`.
pub open spec fn occurs_at(s: Seq<char>, pattern: Seq<char>, at: int) -> bool {
    &&& 0 <= at
    &&& at + pattern.len() <= s.len()
    &&& s.subrange(at, at + pattern.len()) == pattern
}

/// `at` is the first position at which `pattern` stands in `s`.
pub open spec fn first_at(s: Seq<char>, pattern: Seq<char>, at: int) -> bool {
    &&& occurs_at(s, pattern, at)
    &&& forall|j: int| 0 <= j < at ==> !#[trigger] occurs_at(s, pattern, j)
}

/// `pattern` stands nowhere in `s`.
pub open spec fn absent(s: Seq<char>, pattern: Seq<char>) -> bool {
    forall|j: int| !#[trigger] occurs_at(s, pattern, j)
}

/// `s` begins with `prefix`.
pub open spec fn starts(s: Seq<char>, prefix: Seq<char>) -> bool {
    occurs_at(s, prefix, 0)
}

/// `c` is one of `0` to `9`.
pub open spec fn is_digit(c: char) -> bool {
    '0' <= c <= '9'
}

/// The number that a run of decimal digits stands for.
pub open spec fn digits_value(s: Seq<char>) -> nat
    decreases s.len(),
{
    if s.len() == 0 {
        0
    } else {
        10 * digits_value(s.drop_last()) + (s.last() as nat - 48) as nat
    }
}

/// The texts of some strings.
pub open spec fn texts(lines: Seq<String>) -> Seq<Seq<char>> {
    Seq::new(lines.len(), |i: int| lines[i]@)
}

/// The digits of a number: what is left after one leading plus sign.
pub open spec fn number_digits(s: Seq<char>) -> Seq<char> {
    if s.len() > 0 && s[0] == '+' {
        s.subrange(1, s.len() as int)
    } else {
        s
    }
}

/// What `s` stands for when it is read as a `u64`: an optional plus sign, then
/// at least one decimal digit and nothing else, and a value that fits.
pub open spec fn number_of(s: Seq<char>) -> Option<u64> {
    let digits = number_digits(s);
    if digits.len() > 0 && (forall|i: int| 0 <= i < digits.len() ==> is_digit(#[trigger] digits[i]))
        && digits_value(digits) <= u64::MAX {
        Some(digits_value(digits) as u64)
    } else {
        None
    }
}

// ---------------------------------------------------------------------------
// Numbers to text
// ---------------------------------------------------------------------------

/// One decimal digit.
fn digit(d: u8) -> (c: char)
    requires
        d < 10,
    ensures
        c == digit_char(d as int),
{
    (48 + d) as char
}

/// Append `n` in base ten.
pub fn push_decimal(out: &mut String, n: u64)
    ensures
        final(out)@ == old(out)@ + decimal(n as nat),
    decreases n,
{
    let last: u8 = (n % 10) as u8;
    if n >= 10 {
        push_decimal(out, n / 10);
    }
    out.push(digit(last));
    proof {
        let tail = seq![digit_char(last as int)];
        if n < 10 {
            assert(out@ =~= old(out)@ + decimal(n as nat));
        } else {
            assert(out@ =~= old(out)@ + decimal((n / 10) as nat).push(digit_char(last as int)));
        }
    }
}

/// `n` in base ten.
pub fn decimal_text(n: u64) -> (text: String)
    ensures
        text@ == decimal(n as nat),
{
    let mut text = String::new();
    push_decimal(&mut text, n);
    assert(text@ =~= decimal(n as nat));
    text
}

/// `n` in base ten, with its sign if it is negative.
pub fn signed_decimal_text(n: i64) -> (text: String)
    ensures
        text@ == signed_decimal(n as int),
{
    let mut text = String::new();
    if n < 0 {
        text.push('-');
        let magnitude: u64 = (-(n as i128)) as u64;
        push_decimal(&mut text, magnitude);
        assert(text@ =~= signed_decimal(n as int));
    } else {
        push_decimal(&mut text, n as u64);
        assert(text@ =~= signed_decimal(n as int));
    }
    text
}

/// How many characters a string has.
pub fn char_count(s: &str) -> (count: usize)
    ensures
        count == s@.len(),
{
    s.unicode_len()
}

/// Append `s` in a column of at least `width` characters, at its right edge.
pub fn push_right_aligned(out: &mut String, s: &str, width: usize)
    ensures
        final(out)@ == old(out)@ + pad_left(s@, width as nat),
{
    let count = char_count(s);
    let mut done: usize = count;
    while done < width
        invariant
            count == s@.len(),
            count <= done,
            done <= width || done == count,
            out@ == old(out)@ + repeated(' ', (done - count) as nat),
        decreases width - done,
    {
        out.push(' ');
        done += 1;
        assert(out@ =~= old(out)@ + repeated(' ', (done - count) as nat));
    }
    out.append(s);
    assert(out@ =~= old(out)@ + pad_left(s@, width as nat));
}

/// Append `s` in a column of at least `width` characters, at its left edge.
pub fn push_left_aligned(out: &mut String, s: &str, width: usize)
    ensures
        final(out)@ == old(out)@ + pad_right(s@, width as nat),
{
    let count = char_count(s);
    out.append(s);
    let mut done: usize = count;
    while done < width
        invariant
            count == s@.len(),
            count <= done,
            done <= width || done == count,
            out@ == old(out)@ + s@ + repeated(' ', (done - count) as nat),
        decreases width - done,
    {
        out.push(' ');
        done += 1;
        assert(out@ =~= old(out)@ + s@ + repeated(' ', (done - count) as nat));
    }
    assert(out@ =~= old(out)@ + pad_right(s@, width as nat));
}

// ---------------------------------------------------------------------------
// Hexadecimal
// ---------------------------------------------------------------------------

/// One lowercase hexadecimal digit.
fn hex_char(d: u8) -> (c: char)
    requires
        d < 16,
    ensures
        c == hex_digit(d as int),
{
    if d < 10 {
        (48 + d) as char
    } else {
        (87 + d) as char
    }
}

/// Append a byte as two lowercase hexadecimal digits.
pub fn push_hex_byte(out: &mut String, b: u8)
    ensures
        final(out)@ == old(out)@ + hex_byte(b),
{
    out.push(hex_char(b / 16));
    out.push(hex_char(b % 16));
    assert(out@ =~= old(out)@ + hex_byte(b));
}

/// Lowercase hex encoding.
pub fn hex_encode(bytes: &[u8]) -> (text: String)
    ensures
        text@ == hex_text(bytes@),
{
    let mut text = String::new();
    let mut i: usize = 0;
    while i < bytes.len()
        invariant
            i <= bytes@.len(),
            text@ == hex_text(bytes@.take(i as int)),
        decreases bytes.len() - i,
    {
        push_hex_byte(&mut text, bytes[i]);
        i += 1;
        proof {
            let before = hex_text(bytes@.take(i - 1));
            assert(text@ =~= hex_text(bytes@.take(i as int))) by {
                assert forall|k: int| 0 <= k < 2 * i implies text@[k] == hex_text(
                    bytes@.take(i as int),
                )[k] by {
                    if k < 2 * (i - 1) {
                        assert(text@[k] == before[k]);
                    } else {
                        assert(k / 2 == i - 1);
                    }
                }
            }
        }
    }
    assert(bytes@.take(i as int) =~= bytes@);
    text
}

// ---------------------------------------------------------------------------
// Taking text apart
// ---------------------------------------------------------------------------

/// The characters of a string, one by one.
pub fn chars_of(s: &str) -> (chars: Vec<char>)
    ensures
        chars@ == s@,
{
    let mut chars: Vec<char> = Vec::new();
    for c in it: s.chars()
        invariant
            it.seq() == s@,
            chars@ == s@.take(it.index() as int),
    {
        chars.push(c);
        assert(chars@ =~= s@.take(it.index() + 1));
    }
    assert(s@.take(s@.len() as int) =~= s@);
    chars
}

/// Whether a character is white space.
pub fn is_whitespace(c: char) -> (yes: bool)
    ensures
        yes == whitespace(c),
{
    ('\u{9}' <= c && c <= '\u{d}') || c == ' ' || c == '\u{85}' || c == '\u{a0}' || c == '\u{1680}'
        || ('\u{2000}' <= c && c <= '\u{200a}') || c == '\u{2028}' || c == '\u{2029}' || c
        == '\u{202f}' || c == '\u{205f}' || c == '\u{3000}'
}

/// `s` without the white space around it.
pub fn trim(s: &str) -> (core: &str)
    ensures
        is_trimmed(s@, core@),
{
    let chars = chars_of(s);
    let mut from: usize = 0;
    while from < chars.len() && is_whitespace(chars[from])
        invariant
            from <= chars@.len(),
            forall|i: int| 0 <= i < from ==> whitespace(#[trigger] chars@[i]),
        decreases chars.len() - from,
    {
        from += 1;
    }
    let mut to: usize = chars.len();
    while to > from && is_whitespace(chars[to - 1])
        invariant
            from <= to <= chars@.len(),
            forall|i: int| to <= i < chars@.len() ==> whitespace(#[trigger] chars@[i]),
        decreases to,
    {
        to -= 1;
    }
    let core = s.substring_char(from, to);
    proof {
        assert(core@ =~= s@.subrange(from as int, to as int));
        assert(trimmed_at(s@, core@, from as int, to as int));
    }
    core
}

/// Whether `pattern` stands in `s` at position `at`.
fn stands_at(s: &Vec<char>, pattern: &Vec<char>, at: usize) -> (yes: bool)
    requires
        at + pattern@.len() <= s@.len(),
    ensures
        yes == occurs_at(s@, pattern@, at as int),
{
    let mut k: usize = 0;
    while k < pattern.len()
        invariant
            at + pattern.len() <= s.len(),
            k <= pattern@.len(),
            forall|j: int| 0 <= j < k ==> s@[at + j] == #[trigger] pattern@[j],
        decreases pattern.len() - k,
    {
        if s[at + k] != pattern[k] {
            proof {
                let piece = s@.subrange(at as int, at + pattern@.len());
                assert(piece[k as int] != pattern@[k as int]);
            }
            return false;
        }
        k += 1;
    }
    assert(s@.subrange(at as int, at + pattern@.len()) =~= pattern@);
    true
}

/// The first position at which `pattern` stands in `s`.
pub fn find(s: &str, pattern: &str) -> (found: Option<usize>)
    ensures
        match found {
            Some(at) => first_at(s@, pattern@, at as int),
            None => absent(s@, pattern@),
        },
{
    let text = chars_of(s);
    let wanted = chars_of(pattern);
    if wanted.len() > text.len() {
        assert(absent(s@, pattern@));
        return None;
    }
    let last: usize = text.len() - wanted.len();
    let mut at: usize = 0;
    while at <= last
        invariant
            text@ == s@,
            wanted@ == pattern@,
            last + wanted@.len() == text@.len(),
            at <= last + 1,
            forall|j: int| 0 <= j < at ==> !#[trigger] occurs_at(s@, pattern@, j),
        decreases last + 1 - at,
    {
        if stands_at(&text, &wanted, at) {
            return Some(at);
        }
        if at == last {
            assert(absent(s@, pattern@)) by {
                assert forall|j: int| !#[trigger] occurs_at(s@, pattern@, j) by {
                    if 0 <= j <= last {
                        assert(j < at || j == at);
                    }
                }
            }
            return None;
        }
        at += 1;
    }
    None
}

/// Split `s` at the first place where `pattern` stands in it: what is in front
/// of that place, and what follows the pattern.
pub fn split_once<'a>(s: &'a str, pattern: &str) -> (parts: Option<(&'a str, &'a str)>)
    ensures
        match parts {
            Some((head, tail)) => {
                &&& first_at(s@, pattern@, head@.len() as int)
                &&& s@ == head@ + pattern@ + tail@
            },
            None => absent(s@, pattern@),
        },
{
    match find(s, pattern) {
        Some(at) => {
            let width = char_count(pattern);
            let total = char_count(s);
            let head = s.substring_char(0, at);
            let tail = s.substring_char(at + width, total);
            proof {
                let middle = s@.subrange(at as int, at + width);
                assert(middle == pattern@);
                assert(s@ =~= head@ + middle + tail@);
            }
            Some((head, tail))
        },
        None => None,
    }
}

/// Whether `s` begins with `prefix`.
pub fn starts_with(s: &str, prefix: &str) -> (yes: bool)
    ensures
        yes == starts(s@, prefix@),
{
    let text = chars_of(s);
    let wanted = chars_of(prefix);
    if wanted.len() > text.len() {
        return false;
    }
    stands_at(&text, &wanted, 0)
}

/// Whether two strings hold the same characters.
pub fn same_text(a: &str, b: &str) -> (yes: bool)
    ensures
        yes == (a@ == b@),
{
    let left = chars_of(a);
    let right = chars_of(b);
    if left.len() != right.len() {
        return false;
    }
    let yes = stands_at(&left, &right, 0);
    assert(a@.subrange(0, a@.len() as int) =~= a@);
    yes
}

/// Read a `u64` in base ten.
pub fn parse_u64(s: &str) -> (value: Option<u64>)
    ensures
        value == number_of(s@),
{
    let chars = chars_of(s);
    let start: usize = if chars.len() > 0 && chars[0] == '+' {
        1
    } else {
        0
    };
    let ghost digits = number_digits(s@);
    proof {
        assert(digits =~= chars@.subrange(start as int, chars@.len() as int));
    }
    if start == chars.len() {
        return None;
    }
    let mut value: u64 = 0;
    let mut i: usize = start;
    while i < chars.len()
        invariant
            start <= i <= chars@.len(),
            digits == chars@.subrange(start as int, chars@.len() as int),
            digits == number_digits(s@),
            digits.len() > 0,
            forall|k: int| 0 <= k < i - start ==> is_digit(#[trigger] digits[k]),
            value == digits_value(digits.take(i - start)),
        decreases chars.len() - i,
    {
        let c = chars[i];
        let ghost k = i - start;
        assert(digits[k] == c);
        if !('0' <= c && c <= '9') {
            assert(!is_digit(digits[k]));
            return None;
        }
        let d: u64 = (c as u32 - 48) as u64;
        proof {
            assert(digits.take(k + 1).drop_last() =~= digits.take(k));
            assert(digits_value(digits.take(k + 1)) == 10 * value + d);
            lemma_digits_grow(digits, k + 1);
        }
        if value > (u64::MAX - d) / 10 {
            assert(10 * value + d > u64::MAX);
            return None;
        }
        value = 10 * value + d;
        i += 1;
    }
    assert(digits.take(digits.len() as int) =~= digits);
    Some(value)
}

/// A longer run of digits never stands for a smaller number.
proof fn lemma_digits_grow(digits: Seq<char>, k: int)
    requires
        0 <= k <= digits.len(),
    ensures
        digits_value(digits.take(k)) <= digits_value(digits),
    decreases digits.len() - k,
{
    if k == digits.len() {
        assert(digits.take(k) =~= digits);
    } else {
        lemma_digits_grow(digits, k + 1);
        assert(digits.take(k + 1).drop_last() =~= digits.take(k));
    }
}

// ---------------------------------------------------------------------------
// Laws
// ---------------------------------------------------------------------------

/// A number that was written in base ten is read back as the same number.
pub proof fn law_decimal_read_back(n: u64)
    ensures
        number_of(decimal(n as nat)) == Some(n),
{
    lemma_decimal_digits(n as nat);
    let s = decimal(n as nat);
    assert(is_digit(s[0]));
    assert(number_digits(s) == s);
}

/// Decimal digits count in tens from the left: the front part of a number moves up by as
/// many places as follow it. A single digit is what it says.
pub proof fn law_digits_count_in_tens(front: Seq<char>, back: Seq<char>, d: int)
    requires
        0 <= d < 10,
    ensures
        digits_value(front + back) == digits_value(front) * pow(10, back.len()) + digits_value(back),
        digits_value(Seq::<char>::empty()) == 0,
        digits_value(seq![("0123456789"@)[d]]) == d,
    decreases back.len(),
{
    reveal_strlit("0123456789");
    let one = seq![("0123456789"@)[d]];
    reveal_with_fuel(digits_value, 2);
    assert(one.drop_last() =~= Seq::<char>::empty());
    assert(digits_value(one) == d);
    if back.len() == 0 {
        assert(front + back =~= front);
        lemma_pow0(10);
        assert(digits_value(front) * 1 == digits_value(front));
    } else {
        let shorter = back.drop_last();
        assert((front + back).drop_last() =~= front + shorter);
        assert((front + back).last() == back.last());
        law_digits_count_in_tens(front, shorter, d);
        let f = digits_value(front) as int;
        let unit = pow(10, shorter.len());
        reveal(pow);
        assert(pow(10, back.len()) == 10 * unit);
        assert(10 * (f * unit) == f * (10 * unit)) by (nonlinear_arith);
    }
}

/// A number is written with decimal digits only, stands for itself, and has no zero in
/// front unless it is zero.
pub proof fn law_decimal_is_canonical(n: nat)
    ensures
        decimal(n).len() > 0,
        forall|i: int| 0 <= i < decimal(n).len() ==> '0' <= #[trigger] decimal(n)[i] <= '9',
        digits_value(decimal(n)) == n,
        decimal(n)[0] == '0' ==> n == 0 && decimal(n).len() == 1,
    decreases n,
{
    lemma_decimal_digits(n);
    if n >= 10 {
        law_decimal_is_canonical(n / 10);
        assert(decimal(n)[0] == decimal(n / 10)[0]);
    }
}

/// Two numbers that are written alike are the same.
pub proof fn law_decimal_determines_the_number(a: nat, b: nat)
    requires
        decimal(a) == decimal(b),
    ensures
        a == b,
{
    lemma_decimal_digits(a);
    lemma_decimal_digits(b);
}

/// A negative number has a minus sign in front of its size, any other number no sign.
pub proof fn law_sign_stands_in_front(n: int)
    ensures
        n < 0 ==> {
            &&& signed_decimal(n)[0] == '-'
            &&& digits_value(signed_decimal(n).skip(1)) == -n
        },
        n >= 0 ==> digits_value(signed_decimal(n)) == n && signed_decimal(n)[0] != '-',
{
    if n < 0 {
        lemma_decimal_digits((-n) as nat);
        assert(signed_decimal(n).skip(1) =~= decimal((-n) as nat));
    } else {
        lemma_decimal_digits(n as nat);
        assert(is_digit(decimal(n as nat)[0]));
    }
}

/// What can be read as a number: decimal digits and nothing else, with at most one plus
/// sign in front, that stand for no more than 64 bits hold.
pub proof fn law_numbers_are_digits(s: Seq<char>)
    ensures
        s.len() > 0 && (forall|i: int| 0 <= i < s.len() ==> '0' <= #[trigger] s[i] <= '9')
            && digits_value(s) <= u64::MAX ==> {
            &&& number_of(s) == Some(digits_value(s) as u64)
            &&& number_of(seq!['+'] + s) == Some(digits_value(s) as u64)
        },
        s.len() == 0 ==> number_of(s) is None && number_of(seq!['+'] + s) is None,
        (exists|i: int| 1 <= i < s.len() && !('0' <= #[trigger] s[i] <= '9')) ==> number_of(
            s,
        ) is None,
        s.len() > 0 && s[0] != '+' && !('0' <= s[0] <= '9') ==> number_of(s) is None,
        s.len() > 0 && s[0] != '+' && digits_value(s) > u64::MAX ==> number_of(s) is None,
{
    let plus = seq!['+'] + s;
    assert(plus.subrange(1, plus.len() as int) =~= s);
    if s.len() > 0 && (forall|i: int| 0 <= i < s.len() ==> '0' <= #[trigger] s[i] <= '9') {
        assert('0' <= s[0] <= '9');
        assert(number_digits(s) == s);
        assert(forall|i: int| 0 <= i < s.len() ==> is_digit(#[trigger] s[i]));
    }
    if exists|i: int| 1 <= i < s.len() && !('0' <= #[trigger] s[i] <= '9') {
        let i = choose|i: int| 1 <= i < s.len() && !('0' <= #[trigger] s[i] <= '9');
        let digits = number_digits(s);
        if s[0] == '+' {
            assert(digits[i - 1] == s[i]);
            assert(!is_digit(digits[i - 1]));
        } else {
            assert(digits == s);
            assert(!is_digit(digits[i]));
        }
    }
    if s.len() > 0 && s[0] != '+' {
        assert(number_digits(s) == s);
        assert(is_digit(s[0]) == ('0' <= s[0] <= '9'));
    }
}

/// A column is as wide as asked, or as what stands in it where that is wider. What stands
/// in it is at the one edge, and up to the other there are spaces.
pub proof fn law_columns(s: Seq<char>, width: nat)
    ensures
        pad_left(s, width).len() == if s.len() < width {
            width
        } else {
            s.len()
        },
        pad_right(s, width).len() == pad_left(s, width).len(),
        pad_left(s, width).skip(pad_left(s, width).len() - s.len()) == s,
        pad_right(s, width).take(s.len() as int) == s,
        forall|i: int|
            0 <= i < pad_left(s, width).len() - s.len() ==> #[trigger] pad_left(s, width)[i] == ' ',
        forall|i: int|
            s.len() <= i < pad_right(s, width).len() ==> #[trigger] pad_right(s, width)[i] == ' ',
{
    assert(pad_left(s, width).skip(pad_left(s, width).len() - s.len()) =~= s);
    assert(pad_right(s, width).take(s.len() as int) =~= s);
}

/// Bytes are written as two hexadecimal digits each, in order, the high digit first.
pub proof fn law_hex_digits(bytes: Seq<u8>, i: int)
    requires
        0 <= i < bytes.len(),
    ensures
        hex_text(bytes).len() == 2 * bytes.len(),
        hex_text(bytes)[2 * i] == ("0123456789abcdef"@)[bytes[i] as int / 16],
        hex_text(bytes)[2 * i + 1] == ("0123456789abcdef"@)[bytes[i] as int % 16],
        hex_byte(bytes[i]) == seq![
            ("0123456789abcdef"@)[bytes[i] as int / 16],
            ("0123456789abcdef"@)[bytes[i] as int % 16],
        ],
{
    reveal_strlit("0123456789abcdef");
    lemma_hex_digit(bytes[i] as int / 16);
    lemma_hex_digit(bytes[i] as int % 16);
    assert((2 * i) / 2 == i && (2 * i + 1) / 2 == i);
    assert(hex_byte(bytes[i]) =~= seq![
        ("0123456789abcdef"@)[bytes[i] as int / 16],
        ("0123456789abcdef"@)[bytes[i] as int % 16],
    ]);
}

proof fn lemma_hex_digit(d: int)
    requires
        0 <= d < 16,
    ensures
        hex_digit(d) == ("0123456789abcdef"@)[d],
{
    reveal_strlit("0123456789abcdef");
    assert(d == 0 || d == 1 || d == 2 || d == 3 || d == 4 || d == 5 || d == 6 || d == 7 || d == 8
        || d == 9 || d == 10 || d == 11 || d == 12 || d == 13 || d == 14 || d == 15);
}

/// A text begins with a prefix just when it is that prefix and something behind it, and a
/// pattern stands in a text just where the text is something, the pattern, and something
/// again.
pub proof fn law_parts_of_a_text(before: Seq<char>, pattern: Seq<char>, after: Seq<char>)
    ensures
        starts(pattern + after, pattern),
        occurs_at(before + pattern + after, pattern, before.len() as int),
        starts(after, pattern) ==> after == pattern + after.skip(pattern.len() as int),
        !absent(before + pattern + after, pattern),
{
    assert((pattern + after).subrange(0, pattern.len() as int) =~= pattern);
    let whole = before + pattern + after;
    assert(whole.subrange(before.len() as int, (before.len() + pattern.len()) as int) =~= pattern);
    assert(occurs_at(whole, pattern, before.len() as int));
    if starts(after, pattern) {
        assert(after.subrange(0, pattern.len() as int) == pattern);
        assert(after =~= after.subrange(0, pattern.len() as int) + after.skip(
            pattern.len() as int,
        ));
    }
}

/// Below 128 white space is the space and the five control characters from the tab on.
/// Nothing that is seen is white space there.
pub proof fn law_ascii_white_space(c: char)
    requires
        (c as int) < 128,
    ensures
        whitespace(c) <==> c as int == 32 || 9 <= c as int <= 13,
{
}

/// What `decimal` writes is a run of digits that stands for the number.
pub(crate) proof fn lemma_decimal_digits(n: nat)
    ensures
        decimal(n).len() > 0,
        forall|i: int| 0 <= i < decimal(n).len() ==> is_digit(#[trigger] decimal(n)[i]),
        digits_value(decimal(n)) == n,
    decreases n,
{
    if n < 10 {
        let s = decimal(n);
        assert(s.drop_last() =~= Seq::<char>::empty());
        assert(digits_value(s.drop_last()) == 0);
    } else {
        lemma_decimal_digits(n / 10);
        assert(decimal(n).drop_last() =~= decimal(n / 10));
    }
}

/// Hex text determines the bytes that it was made from, and has two digits for
/// each of them.
pub proof fn law_hex_determines_bytes(a: Seq<u8>, b: Seq<u8>)
    ensures
        hex_text(a).len() == 2 * a.len(),
        hex_text(a) == hex_text(b) ==> a == b,
{
    if hex_text(a) == hex_text(b) {
        assert(hex_text(a).len() == hex_text(b).len());
        assert forall|i: int| 0 <= i < a.len() implies a[i] == b[i] by {
            assert(hex_text(a)[2 * i] == hex_text(b)[2 * i]);
            assert(hex_text(a)[2 * i + 1] == hex_text(b)[2 * i + 1]);
            assert((2 * i) / 2 == i && (2 * i + 1) / 2 == i);
        }
        assert(a =~= b);
    }
}

/// There is one way to take the white space off the ends of a text.
pub proof fn law_trimming_is_unique(s: Seq<char>, a: Seq<char>, b: Seq<char>)
    requires
        is_trimmed(s, a),
        is_trimmed(s, b),
    ensures
        a == b,
{
    let (f, t) = choose|from: int, to: int| #[trigger] trimmed_at(s, a, from, to);
    let (g, u) = choose|from: int, to: int| #[trigger] trimmed_at(s, b, from, to);
    if a.len() > 0 {
        assert(s[f] == a.first() && s[t - 1] == a.last());
        assert(g <= f && t <= u);
    }
    if b.len() > 0 {
        assert(s[g] == b.first() && s[u - 1] == b.last());
        assert(f <= g && u <= t);
    }
    assert(a =~= b);
}

/// Text is trimmed to what stands in it between white space.
pub proof fn law_white_space_is_trimmed(before: Seq<char>, core: Seq<char>, after: Seq<char>)
    requires
        forall|i: int| 0 <= i < before.len() ==> whitespace(#[trigger] before[i]),
        forall|i: int| 0 <= i < after.len() ==> whitespace(#[trigger] after[i]),
        core.len() > 0 ==> !whitespace(core.first()) && !whitespace(core.last()),
    ensures
        is_trimmed(before + core + after, core),
        forall|other: Seq<char>| #[trigger]
            is_trimmed(before + core + after, other) ==> other == core,
{
    let text = before + core + after;
    let from = before.len() as int;
    let to = from + core.len();
    assert(text.subrange(from, to) =~= core);
    assert forall|i: int| to <= i < text.len() implies whitespace(#[trigger] text[i]) by {
        assert(text[i] == after[i - to]);
    }
    assert(trimmed_at(text, core, from, to));
    assert forall|other: Seq<char>| #[trigger] is_trimmed(text, other) implies other == core by {
        law_trimming_is_unique(text, core, other);
    }
}

} // verus!
