//! String literals: which literal texts are read, and what they stand for.
//!
//! The value of a string literal is computed by the `literalext` crate. That
//! crate does not validate its input and panics on text it cannot follow, so
//! the shape it can follow is stated here and checked before every call.

use literalext::DummyLiteral;
use literalext::LiteralExt;
use vstd::prelude::*;

verus! {

pub open spec fn is_hex_digit(c: char) -> bool {
    ('0' <= c && c <= '9') || ('a' <= c && c <= 'f') || ('A' <= c && c <= 'F')
}

pub open spec fn hex_digit_value(c: char) -> int {
    if '0' <= c && c <= '9' {
        c as int - '0' as int
    } else if 'a' <= c && c <= 'f' {
        10 + c as int - 'a' as int
    } else {
        10 + c as int - 'A' as int
    }
}

/// How many hexadecimal digits stand in `s` from `from` on, counting at most `max`.
pub open spec fn hex_run(s: Seq<char>, from: int, max: nat) -> nat
    decreases max,
{
    if max == 0 || from < 0 || from >= s.len() || !is_hex_digit(s[from]) {
        0
    } else {
        1 + hex_run(s, from + 1, (max - 1) as nat)
    }
}

/// The number that the `digits` hexadecimal digits of `s` from `from` on spell.
pub open spec fn hex_number(s: Seq<char>, from: int, digits: nat) -> int
    decreases digits,
{
    if digits == 0 {
        0
    } else {
        16 * hex_number(s, from, (digits - 1) as nat) + hex_digit_value(s[from + digits - 1])
    }
}

/// Whether `value` is a Unicode scalar value.
pub open spec fn is_scalar_value(value: int) -> bool {
    0 <= value <= 0x10FFFF && !(0xD800 <= value <= 0xDFFF)
}

/// Whether `c` alone, after a backslash, is a complete escape.
pub open spec fn is_simple_escape(c: char) -> bool {
    c == 'n' || c == 'r' || c == 't' || c == '\\' || c == '0' || c == '\'' || c == '"'
        || c == '\r' || c == '\n'
}

/// Where the escape ends whose backslash stands just before `j`, if the text
/// holds a complete escape there.
///
/// Besides the one-character escapes these are `\x` with two hexadecimal
/// digits of value at most 0x80, and `\u{..}` with at most six hexadecimal
/// digits that spell a Unicode scalar value.
pub open spec fn escape_end(s: Seq<char>, j: int) -> Option<int> {
    if j < 0 || j >= s.len() {
        None
    } else if is_simple_escape(s[j]) {
        Some(j + 1)
    } else if s[j] == 'x' {
        if j + 2 < s.len() && is_hex_digit(s[j + 1]) && is_hex_digit(s[j + 2]) && 16
            * hex_digit_value(s[j + 1]) + hex_digit_value(s[j + 2]) <= 0x80 {
            Some(j + 3)
        } else {
            None
        }
    } else if s[j] == 'u' {
        let digits = hex_run(s, j + 2, 6);
        if j + 1 < s.len() && s[j + 1] == '{' && j + 2 + digits < s.len() && s[j + 2 + digits]
            == '}' && is_scalar_value(hex_number(s, j + 2, digits)) {
            Some(j + 3 + digits)
        } else {
            None
        }
    } else {
        None
    }
}

/// Whether `s` from `i` on is the rest of a quoted string: characters and
/// escapes, then the closing quote as the last character of the text. A
/// carriage return stands only before a line feed.
pub open spec fn string_rest_ok(s: Seq<char>, i: int) -> bool
    decreases s.len() - i,
{
    if i < 0 || i >= s.len() {
        false
    } else if s[i] == '"' {
        i == s.len() - 1
    } else if s[i] == '\\' {
        match escape_end(s, i + 1) {
            Some(end) => i < end && string_rest_ok(s, end),
            None => false,
        }
    } else if s[i] == '\r' {
        i + 1 < s.len() && s[i + 1] == '\n' && string_rest_ok(s, i + 2)
    } else {
        string_rest_ok(s, i + 1)
    }
}

/// Whether `s` holds a double quote at two places or more.
pub open spec fn has_two_quotes(s: Seq<char>) -> bool {
    exists|i: int, j: int| 0 <= i < j < s.len() && s[i] == '"' && s[j] == '"'
}

/// Whether the text begins as a string literal does: with a double quote, or
/// with `r` as a raw string.
pub open spec fn starts_as_string(s: Seq<char>) -> bool {
    s.len() > 0 && (s[0] == '"' || s[0] == 'r')
}

/// Whether the text of a literal can be read: any text that does not begin
/// as a string literal, a quoted string that is well formed to its closing
/// quote, or a raw string with its two quotes.
pub open spec fn literal_text_ok(s: Seq<char>) -> bool {
    if s.len() > 0 && s[0] == '"' {
        string_rest_ok(s, 1)
    } else if s.len() > 0 && s[0] == 'r' {
        has_two_quotes(s)
    } else {
        true
    }
}

/// The string that a string literal with this source text stands for, as
/// `literalext` reads it.
pub uninterp spec fn string_literal_value(text: Seq<char>) -> Seq<char>;

/// Whether the text is that of a string literal that can be read.
pub open spec fn is_string_literal(s: Seq<char>) -> bool {
    starts_as_string(s) && literal_text_ok(s)
}

/// Calls `LiteralExt::parse_string` of `literalext` on a `DummyLiteral` made
/// of `text`.
///
/// Trusted: the result is `Some` exactly when the text begins with a double
/// quote or with `r`, and then holds the named value of the text. The outside
/// function decides on the first byte alone whether it returns `None`. On
/// quoted text it then panics at an escape it does not know, at a carriage
/// return without a line feed, at the end of the text before the closing
/// quote and at anything behind that quote; on raw text where it finds no
/// two quotes. `literal_text_ok` leaves all of those out. After a backslash
/// and a line break the outside function skips white space, which here
/// counts as ordinary characters; that admits no text on which it panics.
#[verifier::external_body]
fn parse_string(text: &str) -> (value: Option<String>)
    requires
        literal_text_ok(text@),
    ensures
        value is Some <==> starts_as_string(text@),
        value matches Some(v) ==> v@ == string_literal_value(text@),
{
    DummyLiteral(text).parse_string()
}

fn hex_digit(c: char) -> (b: bool)
    ensures
        b == is_hex_digit(c),
{
    ('0' <= c && c <= '9') || ('a' <= c && c <= 'f') || ('A' <= c && c <= 'F')
}

fn digit_value(c: char) -> (v: u32)
    requires
        is_hex_digit(c),
    ensures
        v == hex_digit_value(c),
        v < 16,
{
    if '0' <= c && c <= '9' {
        c as u32 - '0' as u32
    } else if 'a' <= c && c <= 'f' {
        10 + (c as u32 - 'a' as u32)
    } else {
        10 + (c as u32 - 'A' as u32)
    }
}

fn simple_escape(c: char) -> (b: bool)
    ensures
        b == is_simple_escape(c),
{
    c == 'n' || c == 'r' || c == 't' || c == '\\' || c == '0' || c == '\'' || c == '"'
        || c == '\r' || c == '\n'
}

/// The characters of `text`, in order.
fn chars_of(text: &str) -> (chars: Vec<char>)
    ensures
        chars@ == text@,
{
    let mut chars: Vec<char> = Vec::new();
    for c in it: text.chars()
        invariant
            it.seq() == text@,
            chars@ == it.seq().take(it.index() as int),
    {
        chars.push(c);
        assert(chars@ =~= it.seq().take(it.index() + 1));
    }
    assert(chars@ =~= text@);
    chars
}

/// Where the escape behind the backslash just before `j` ends.
fn find_escape_end(chars: &Vec<char>, j: usize) -> (end: Option<usize>)
    requires
        j <= chars.len(),
    ensures
        match end {
            Some(e) => escape_end(chars@, j as int) == Some(e as int) && j < e <= chars.len(),
            None => escape_end(chars@, j as int) is None,
        },
{
    let n = chars.len();
    if j >= n {
        return None;
    }
    let c = chars[j];
    if simple_escape(c) {
        Some(j + 1)
    } else if c == 'x' {
        if n - j > 2 && hex_digit(chars[j + 1]) && hex_digit(chars[j + 2]) {
            let value = 16 * digit_value(chars[j + 1]) + digit_value(chars[j + 2]);
            if value <= 0x80 {
                Some(j + 3)
            } else {
                None
            }
        } else {
            None
        }
    } else if c == 'u' {
        if n - j < 2 || chars[j + 1] != '{' {
            return None;
        }
        let start = j + 2;
        let mut digits: usize = 0;
        let mut value: u32 = 0;
        while digits < 6 && digits < n - start && hex_digit(chars[start + digits])
            invariant
                start <= n,
                n == chars.len(),
                digits <= 6,
                digits <= n - start,
                hex_run(chars@, start as int, 6) == digits + hex_run(
                    chars@,
                    start + digits,
                    (6 - digits) as nat,
                ),
                value == hex_number(chars@, start as int, digits as nat),
                digits == 0 ==> value == 0,
                digits == 1 ==> value < 0x10,
                digits == 2 ==> value < 0x100,
                digits == 3 ==> value < 0x1000,
                digits == 4 ==> value < 0x1_0000,
                digits == 5 ==> value < 0x10_0000,
                digits == 6 ==> value < 0x100_0000,
            decreases 6 - digits,
        {
            value = 16 * value + digit_value(chars[start + digits]);
            digits += 1;
        }
        let scalar = value <= 0x10FFFF && !(0xD800 <= value && value <= 0xDFFF);
        if digits < n - start && chars[start + digits] == '}' && scalar {
            Some(start + digits + 1)
        } else {
            None
        }
    } else {
        None
    }
}

/// Whether the characters from `from` on finish a quoted string.
fn check_string_rest(chars: &Vec<char>, from: usize) -> (ok: bool)
    requires
        from <= chars.len(),
    ensures
        ok == string_rest_ok(chars@, from as int),
{
    let n = chars.len();
    let mut i: usize = from;
    while i < n
        invariant
            i <= n,
            n == chars.len(),
            string_rest_ok(chars@, from as int) == string_rest_ok(chars@, i as int),
        decreases n - i,
    {
        let c = chars[i];
        if c == '"' {
            return i == n - 1;
        } else if c == '\\' {
            match find_escape_end(chars, i + 1) {
                Some(end) => {
                    i = end;
                },
                None => {
                    return false;
                },
            }
        } else if c == '\r' {
            if n - i < 2 || chars[i + 1] != '\n' {
                return false;
            }
            i += 2;
        } else {
            i += 1;
        }
    }
    false
}

/// Whether the characters hold two double quotes.
fn check_two_quotes(chars: &Vec<char>) -> (ok: bool)
    ensures
        ok == has_two_quotes(chars@),
{
    let n = chars.len();
    let mut first: Option<usize> = None;
    let mut i: usize = 0;
    while i < n
        invariant
            i <= n,
            n == chars.len(),
            first is None ==> forall|k: int| 0 <= k < i ==> chars@[k] != '"',
            first matches Some(f) ==> f < i && chars@[f as int] == '"' && forall|k: int|
                0 <= k < i && k != f ==> chars@[k] != '"',
        decreases n - i,
    {
        if chars[i] == '"' {
            match first {
                Some(f) => {
                    assert(0 <= f < i < chars@.len() && chars@[f as int] == '"' && chars@[i as int]
                        == '"');
                    return true;
                },
                None => {
                    first = Some(i);
                },
            }
        }
        i += 1;
    }
    false
}

/// Whether the text of a literal can be read.
pub fn check_literal_text(text: &str) -> (ok: bool)
    ensures
        ok == literal_text_ok(text@),
{
    let chars = chars_of(text);
    if chars.len() == 0 {
        true
    } else if chars[0] == '"' {
        check_string_rest(&chars, 1)
    } else if chars[0] == 'r' {
        check_two_quotes(&chars)
    } else {
        true
    }
}

/// The string that the literal with source text `text` stands for, if it is
/// a string literal that can be read.
pub fn string_value(text: &str) -> (value: Option<String>)
    ensures
        value is Some <==> is_string_literal(text@),
        value matches Some(v) ==> v@ == string_literal_value(text@),
{
    if check_literal_text(text) {
        parse_string(text)
    } else {
        None
    }
}

} // verus!
