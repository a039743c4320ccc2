//! Decoding of one escape sequence, such as `\n`, `\x41` or `\u{1F980}`.

use vstd::prelude::*;
use vstd::utf8::encode_utf8;
use crate::err::{error_at, error_over, perr, ParseError, ParseErrorKind, Span};
use crate::grammar::{is_escape, lemma_escape_agrees_with_grammar};
use crate::text::{
    ascii_prefix, byte_offset, char_width, is_ascii_char, lemma_byte_after_ascii_prefix,
    lemma_char_range, lemma_offset_is_boundary, lemma_subrange_bytes, utf8_len, width_from_lead,
};

verus! {

/// Which values a `\x` escape may denote. The rule differs between kinds of
/// literal, so the decoder takes it as an argument.
#[derive(Debug, Clone, Copy, PartialEq, Eq, Structural)]
pub enum HexRange {
    /// Up to `\x7F`: the rule for literals that hold characters, since a
    /// larger value would name no ASCII character.
    Ascii,
    /// Up to `\xFF`: the rule for literals that hold bytes.
    Byte,
}

impl HexRange {
    /// The largest value that a `\x` escape may denote.
    pub open spec fn spec_max(&self) -> u8 {
        match *self {
            HexRange::Ascii => 0x7F,
            HexRange::Byte => 0xFF,
        }
    }

    /// The largest value that a `\x` escape may denote.
    #[verifier::when_used_as_spec(spec_max)]
    pub fn max(&self) -> (m: u8)
        ensures
            m == self.spec_max(),
    {
        match *self {
            HexRange::Ascii => 0x7F,
            HexRange::Byte => 0xFF,
        }
    }
}

/// Whether `c` is a hexadecimal digit, in either case.
pub open spec fn is_hex_digit(c: char) -> bool {
    ||| '0' <= c <= '9'
    ||| 'a' <= c <= 'f'
    ||| 'A' <= c <= 'F'
}

/// The number that the hexadecimal digit `c` stands for.
pub open spec fn hex_value(c: char) -> int
    recommends
        is_hex_digit(c),
{
    if '0' <= c <= '9' {
        c as int - '0' as int
    } else if 'a' <= c <= 'f' {
        c as int - 'a' as int + 10
    } else {
        c as int - 'A' as int + 10
    }
}

/// The number that a sequence of hexadecimal digits stands for, the most
/// significant digit first.
pub open spec fn hex_number(digits: Seq<char>) -> int
    decreases digits.len(),
{
    if digits.len() == 0 {
        0
    } else {
        16 * hex_number(digits.drop_last()) + hex_value(digits.last())
    }
}

/// How many hexadecimal digits stand in `s` from index `from` on without a
/// gap, counting no more than `limit` of them.
pub open spec fn hex_run(s: Seq<char>, from: int, limit: int) -> int
    decreases limit,
{
    if limit <= 0 || from < 0 || from >= s.len() || !is_hex_digit(s[from]) {
        0
    } else {
        1 + hex_run(s, from + 1, limit - 1)
    }
}

/// Sixteen to the power of `n`.
pub open spec fn pow16(n: nat) -> nat
    decreases n,
{
    if n == 0 {
        1
    } else {
        16 * pow16((n - 1) as nat)
    }
}

/// Whether `v` is a Unicode scalar value: a code point that is no surrogate.
pub open spec fn is_scalar_value(v: int) -> bool {
    0 <= v <= 0x10_FFFF && !(0xD800 <= v <= 0xDFFF)
}

/// The character that the escapes of two characters denote: `escape` is the
/// character after the backslash. `None` where there is no such escape.
pub open spec fn simple_escape(escape: char) -> Option<char> {
    if escape == 'n' {
        Some('\n')
    } else if escape == 't' {
        Some('\t')
    } else if escape == 'r' {
        Some('\r')
    } else if escape == '\\' {
        Some('\\')
    } else if escape == '\'' {
        Some('\'')
    } else if escape == '"' {
        Some('"')
    } else if escape == '0' {
        Some('\0')
    } else {
        None
    }
}

/// What a body that begins with `\x` decodes to. Spans count from the
/// backslash.
///
/// The escape is the backslash, `x` and exactly two hexadecimal digits, whose
/// value must not exceed `hex.max()`. An error covers what was accepted of the
/// escape: `\x` and the digits that follow it directly, two at most.
pub open spec fn hex_escape_spec(body: Seq<char>, hex: HexRange) -> Result<(char, usize), ParseError> {
    let digits = hex_run(body, 2, 2);
    if digits < 2 {
        Err(error_over(0, 2 + digits, ParseErrorKind::InvalidHexEscape))
    } else {
        let value = hex_number(body.subrange(2, 4));
        if value > hex.spec_max() {
            Err(error_over(0, 4, ParseErrorKind::InvalidHexEscape))
        } else {
            Ok((value as char, 4usize))
        }
    }
}

/// What a body that begins with `\u` decodes to. Spans count from the
/// backslash.
///
/// The escape is the backslash, `u`, `{`, one to six hexadecimal digits and
/// `}`. An error covers what was accepted of the escape: `\u` where no `{`
/// follows; `\u{` and the digits read, six at most, where no `}` follows
/// them; all of `\u{}`; and the whole escape where its digits denote no
/// scalar value.
pub open spec fn unicode_escape_spec(body: Seq<char>) -> Result<(char, usize), ParseError> {
    if body.len() < 3 || body[2] != '{' {
        Err(error_over(0, 2, ParseErrorKind::MalformedUnicodeEscape))
    } else {
        let digits = hex_run(body, 3, 6);
        if body.len() <= 3 + digits || body[3 + digits] != '}' {
            Err(error_over(0, 3 + digits, ParseErrorKind::MalformedUnicodeEscape))
        } else if digits == 0 {
            Err(error_over(0, 4, ParseErrorKind::MalformedUnicodeEscape))
        } else {
            let value = hex_number(body.subrange(3, 3 + digits));
            if is_scalar_value(value) {
                Ok((value as char, (4 + digits) as usize))
            } else {
                Err(error_over(0, 4 + digits, ParseErrorKind::UnicodeEscapeOutOfRange))
            }
        }
    }
}

/// What a body that begins with a backslash decodes to: the character that
/// its escape denotes and the number of bytes of the escape, or the error.
/// Spans count from the backslash.
pub open spec fn escape_spec(body: Seq<char>, hex: HexRange) -> Result<(char, usize), ParseError>
    recommends
        body.len() > 0,
        body[0] == '\\',
{
    if body.len() < 2 {
        Err(error_at(0, ParseErrorKind::UnterminatedEscape))
    } else if let Some(c) = simple_escape(body[1]) {
        Ok((c, 2usize))
    } else if body[1] == 'x' {
        hex_escape_spec(body, hex)
    } else if body[1] == 'u' {
        unicode_escape_spec(body)
    } else {
        Err(error_over(0, 1 + char_width(body[1]), ParseErrorKind::UnknownEscapeCharacter))
    }
}

/// What `unescape` returns: as `escape_spec`, with every span moved by
/// `offset`, the place of the backslash in the text that holds the body.
pub open spec fn unescape_spec(body: Seq<char>, offset: usize, hex: HexRange) -> Result<
    (char, usize),
    ParseError,
>
    recommends
        body.len() > 0,
        body[0] == '\\',
{
    match escape_spec(body, hex) {
        Ok(decoded) => Ok(decoded),
        Err(e) => Err(e.spec_shifted(offset)),
    }
}

/// `char::from_u32` of the standard library: the character with code `i`
/// where `i` is a Unicode scalar value, and `None` for every other number.
pub assume_specification[ std::primitive::char::from_u32 ](i: u32) -> (r: Option<char>)
    ensures
        is_scalar_value(i as int) ==> r == Some(i as char),
        !is_scalar_value(i as int) ==> r is None,
;

/// The value of a hexadecimal digit given as a byte, `None` for other bytes.
pub fn hex_digit_value(digit: u8) -> (r: Option<u8>)
    ensures
        match r {
            Some(v) => is_hex_digit(digit as char) && v == hex_value(digit as char),
            None => !is_hex_digit(digit as char),
        },
{
    if '0' as u8 <= digit && digit <= '9' as u8 {
        Some(digit - '0' as u8)
    } else if 'a' as u8 <= digit && digit <= 'f' as u8 {
        Some(digit - 'a' as u8 + 10)
    } else if 'A' as u8 <= digit && digit <= 'F' as u8 {
        Some(digit - 'A' as u8 + 10)
    } else {
        None
    }
}

/// A byte that follows only ASCII characters is a digit exactly if the
/// character it begins is one, and then has the same value.
proof fn lemma_digit_byte(s: Seq<char>, k: int)
    requires
        ascii_prefix(s, k),
        k < s.len(),
    ensures
        is_hex_digit(encode_utf8(s)[k] as char) <==> is_hex_digit(s[k]),
        is_hex_digit(s[k]) ==> hex_value(encode_utf8(s)[k] as char) == hex_value(s[k]),
        is_hex_digit(s[k]) ==> is_ascii_char(s[k]),
{
    lemma_byte_after_ascii_prefix(s, k);
    lemma_char_range(s[k]);
}

/// One more digit multiplies the number read so far by sixteen and adds the
/// digit.
proof fn lemma_hex_number_step(s: Seq<char>, from: int, n: int)
    requires
        0 <= from,
        0 <= n,
        from + n < s.len(),
    ensures
        hex_number(s.subrange(from, from + n + 1)) == 16 * hex_number(s.subrange(from, from + n))
            + hex_value(s[from + n]),
{
    let longer = s.subrange(from, from + n + 1);
    assert(longer.drop_last() =~= s.subrange(from, from + n));
    assert(longer.last() == s[from + n]);
}

/// Decodes the escape `\x..` at the start of `input`.
fn hex_escape(input: &str, hex: HexRange) -> (r: Result<(char, usize), ParseError>)
    requires
        ascii_prefix(input@, 2),
    ensures
        r == hex_escape_spec(input@, hex),
{
    let bytes = input.as_bytes();
    let ghost s = input@;
    proof {
        reveal_with_fuel(hex_run, 3);
        lemma_byte_after_ascii_prefix(s, 2);
    }
    if bytes.len() < 3 {
        return Err(perr(Some(Span::Range { start: 0, end: 2 }), ParseErrorKind::InvalidHexEscape));
    }
    proof {
        lemma_digit_byte(s, 2);
    }
    let high: u8 = match hex_digit_value(bytes[2]) {
        Some(v) => v,
        None => {
            return Err(
                perr(Some(Span::Range { start: 0, end: 2 }), ParseErrorKind::InvalidHexEscape),
            );
        },
    };
    proof {
        lemma_byte_after_ascii_prefix(s, 3);
    }
    if bytes.len() < 4 {
        return Err(perr(Some(Span::Range { start: 0, end: 3 }), ParseErrorKind::InvalidHexEscape));
    }
    proof {
        lemma_digit_byte(s, 3);
    }
    let low: u8 = match hex_digit_value(bytes[3]) {
        Some(v) => v,
        None => {
            return Err(
                perr(Some(Span::Range { start: 0, end: 3 }), ParseErrorKind::InvalidHexEscape),
            );
        },
    };
    let value: u8 = 16 * high + low;
    proof {
        lemma_hex_number_step(s, 2, 0);
        lemma_hex_number_step(s, 2, 1);
        assert(s.subrange(2, 2).len() == 0);
        assert(hex_number(s.subrange(2, 4)) == value);
    }
    if value > hex.max() {
        return Err(perr(Some(Span::Range { start: 0, end: 4 }), ParseErrorKind::InvalidHexEscape));
    }
    Ok((value as char, 4))
}

/// Decodes the escape `\u..` at the start of `input`.
fn unicode_escape(input: &str) -> (r: Result<(char, usize), ParseError>)
    requires
        ascii_prefix(input@, 2),
    ensures
        r == unicode_escape_spec(input@),
{
    let bytes = input.as_bytes();
    let n = bytes.len();
    let ghost s = input@;
    proof {
        lemma_byte_after_ascii_prefix(s, 2);
    }
    if n < 3 || bytes[2] != '{' as u8 {
        proof {
            if n >= 3 {
                lemma_char_range(s[2]);
            }
        }
        return Err(
            perr(Some(Span::Range { start: 0, end: 2 }), ParseErrorKind::MalformedUnicodeEscape),
        );
    }
    proof {
        lemma_char_range(s[2]);
        assert(ascii_prefix(s, 3));
        assert(s.subrange(3, 3).len() == 0);
    }
    let mut digits: usize = 0;
    let mut value: u32 = 0;
    loop
        invariant
            bytes@ == encode_utf8(s),
            n == bytes.len(),
            digits <= 6,
            3 + digits <= n,
            ascii_prefix(s, 3 + digits),
            hex_run(s, 3, 6) == digits + hex_run(s, 3 + digits, 6 - digits),
            value == hex_number(s.subrange(3, 3 + digits)),
            value < pow16(digits as nat),
        ensures
            hex_run(s, 3, 6) == digits,
        decreases 6 - digits,
    {
        proof {
            lemma_byte_after_ascii_prefix(s, 3 + digits);
        }
        if digits >= 6 || 3 + digits >= n {
            break ;
        }
        proof {
            lemma_digit_byte(s, 3 + digits);
            lemma_hex_number_step(s, 3, digits as int);
            reveal_with_fuel(pow16, 7);
        }
        match hex_digit_value(bytes[3 + digits]) {
            Some(v) => {
                value = 16 * value + v as u32;
                digits = digits + 1;
            },
            None => {
                break ;
            },
        }
    }
    proof {
        lemma_byte_after_ascii_prefix(s, 3 + digits);
        if 3 + digits < n {
            lemma_char_range(s[3 + digits]);
        }
    }
    if 3 + digits >= n || bytes[3 + digits] != '}' as u8 {
        return Err(
            perr(
                Some(Span::Range { start: 0, end: 3 + digits }),
                ParseErrorKind::MalformedUnicodeEscape,
            ),
        );
    }
    if digits == 0 {
        return Err(
            perr(Some(Span::Range { start: 0, end: 4 }), ParseErrorKind::MalformedUnicodeEscape),
        );
    }
    match char::from_u32(value) {
        Some(c) => Ok((c, 4 + digits)),
        None => Err(
            perr(
                Some(Span::Range { start: 0, end: 4 + digits }),
                ParseErrorKind::UnicodeEscapeOutOfRange,
            ),
        ),
    }
}

/// Decodes the escape sequence at the start of `input`, which begins with a
/// backslash, into the character that it denotes and the number of bytes of
/// the escape. `offset` is the place of the backslash in the text that
/// `input` was taken from: the spans of errors are counted from the start of
/// that text.
pub fn unescape(input: &str, offset: usize, hex: HexRange) -> (r: Result<(char, usize), ParseError>)
    requires
        input@.len() > 0,
        input@[0] == '\\',
        offset + utf8_len(input@) <= usize::MAX,
    ensures
        r == unescape_spec(input@, offset, hex),
        r matches Ok((c, taken)) ==> taken <= input@.len() && is_escape(
            input@.subrange(0, taken as int),
            c,
            hex,
        ) && utf8_len(input@.subrange(0, taken as int)) == taken,
        r matches Err(e) ==> e.span matches Some(span) && offset <= span.spec_start()
            <= span.spec_end() <= offset + utf8_len(input@),
{
    let bytes = input.as_bytes();
    let ghost s = input@;
    proof {
        lemma_escape_reach(s, hex);
        lemma_escape_length(s, hex);
        if let Ok((c, taken)) = escape_spec(s, hex) {
            lemma_escape_agrees_with_grammar(s, hex, c, taken);
        }
        lemma_char_range(s[0]);
        assert(ascii_prefix(s, 1));
        lemma_byte_after_ascii_prefix(s, 1);
        if s.len() > 1 {
            lemma_char_range(s[1]);
        }
    }
    if bytes.len() < 2 {
        return Err(perr(Some(Span::Point(0)), ParseErrorKind::UnterminatedEscape).shifted(offset));
    }
    let kind: u8 = bytes[1];
    let decoded = if kind == 'n' as u8 {
        Ok(('\n', 2))
    } else if kind == 't' as u8 {
        Ok(('\t', 2))
    } else if kind == 'r' as u8 {
        Ok(('\r', 2))
    } else if kind == '\\' as u8 {
        Ok(('\\', 2))
    } else if kind == '\'' as u8 {
        Ok(('\'', 2))
    } else if kind == '"' as u8 {
        Ok(('"', 2))
    } else if kind == '0' as u8 {
        Ok(('\0', 2))
    } else if kind == 'x' as u8 {
        hex_escape(input, hex)
    } else if kind == 'u' as u8 {
        unicode_escape(input)
    } else {
        Err(
            perr(
                Some(Span::Range { start: 0, end: 1 + width_from_lead(kind) }),
                ParseErrorKind::UnknownEscapeCharacter,
            ),
        )
    };
    match decoded {
        Ok(found) => Ok(found),
        Err(e) => Err(e.shifted(offset)),
    }
}

/// What `hex_run` counts: that many digits stand at `from`, within `s`, and
/// where the count stays under the limit, no digit follows them.
pub proof fn lemma_hex_run(s: Seq<char>, from: int, limit: int)
    requires
        0 <= from <= s.len(),
        0 <= limit,
    ensures
        0 <= hex_run(s, from, limit) <= limit,
        from + hex_run(s, from, limit) <= s.len(),
        forall|i: int| from <= i < from + hex_run(s, from, limit) ==> is_hex_digit(#[trigger] s[i]),
        hex_run(s, from, limit) < limit ==> from + hex_run(s, from, limit) == s.len()
            || !is_hex_digit(s[from + hex_run(s, from, limit)]),
    decreases limit,
{
    if limit == 0 || from >= s.len() || !is_hex_digit(s[from]) {
    } else {
        lemma_hex_run(s, from + 1, limit - 1);
    }
}

/// A number of `n` hexadecimal digits is at least zero and less than the
/// `n`-th power of sixteen.
pub proof fn lemma_hex_number_bounds(digits: Seq<char>)
    requires
        forall|i: int| 0 <= i < digits.len() ==> is_hex_digit(#[trigger] digits[i]),
    ensures
        0 <= hex_number(digits) < pow16(digits.len()),
    decreases digits.len(),
{
    if digits.len() > 0 {
        lemma_hex_number_bounds(digits.drop_last());
        lemma_char_range(digits.last());
    }
}

/// Digits are ASCII: an ASCII prefix that digits follow reaches over them.
pub proof fn lemma_digits_extend_ascii_prefix(s: Seq<char>, from: int, n: int)
    requires
        ascii_prefix(s, from),
        0 <= n,
        from + n <= s.len(),
        forall|i: int| from <= i < from + n ==> is_hex_digit(#[trigger] s[i]),
    ensures
        ascii_prefix(s, from + n),
{
    assert forall|i: int| 0 <= i < from + n implies is_ascii_char(#[trigger] s[i]) by {
        lemma_char_range(s[i]);
    }
}

/// How many characters at the start of the body the outcome of `escape_spec`
/// speaks of: those of the escape where it decodes, which are all ASCII, and
/// those that the span of the error covers where it does not. Either way
/// they take ten bytes at most.
pub proof fn lemma_escape_reach(body: Seq<char>, hex: HexRange) -> (reach: int)
    requires
        body.len() > 0,
        body[0] == '\\',
    ensures
        0 <= reach <= body.len(),
        byte_offset(body, reach) <= utf8_len(body),
        byte_offset(body, reach) <= 10,
        match escape_spec(body, hex) {
            Ok((c, taken)) => taken == reach && taken == byte_offset(body, reach) && ascii_prefix(
                body,
                reach,
            ),
            Err(e) => e.span == Some(Span::Point(0)) && reach == 0 || e.span == Some(
                Span::Range { start: 0, end: byte_offset(body, reach) as usize },
            ),
        },
{
    lemma_char_range(body[0]);
    assert(ascii_prefix(body, 1));
    lemma_byte_after_ascii_prefix(body, 0);
    lemma_byte_after_ascii_prefix(body, 1);
    if body.len() < 2 {
        0
    } else {
        lemma_char_range(body[1]);
        lemma_subrange_bytes(body, 0, 2);
        if simple_escape(body[1]) is Some {
            assert(ascii_prefix(body, 2));
            lemma_byte_after_ascii_prefix(body, 2);
            2
        } else if body[1] == 'x' {
            assert(ascii_prefix(body, 2));
            let digits = hex_run(body, 2, 2);
            lemma_hex_run(body, 2, 2);
            lemma_digits_extend_ascii_prefix(body, 2, digits);
            lemma_byte_after_ascii_prefix(body, 2 + digits);
            2 + digits
        } else if body[1] == 'u' {
            assert(ascii_prefix(body, 2));
            lemma_byte_after_ascii_prefix(body, 2);
            if body.len() < 3 || body[2] != '{' {
                2
            } else {
                lemma_char_range(body[2]);
                assert(ascii_prefix(body, 3));
                let digits = hex_run(body, 3, 6);
                lemma_hex_run(body, 3, 6);
                lemma_digits_extend_ascii_prefix(body, 3, digits);
                lemma_byte_after_ascii_prefix(body, 3 + digits);
                if body.len() <= 3 + digits || body[3 + digits] != '}' {
                    3 + digits
                } else {
                    lemma_char_range(body[3 + digits]);
                    assert(ascii_prefix(body, 4 + digits));
                    lemma_byte_after_ascii_prefix(body, 4 + digits);
                    4 + digits
                }
            }
        } else {
            2
        }
    }
}

/// The length that a decoded escape reports is the length of its text: that
/// many characters stand at the start of the body, each of one byte.
pub proof fn lemma_escape_length(body: Seq<char>, hex: HexRange)
    requires
        body.len() > 0,
        body[0] == '\\',
    ensures
        escape_spec(body, hex) matches Ok((c, taken)) ==> 2 <= taken <= body.len() && ascii_prefix(
            body,
            taken as int,
        ) && utf8_len(body.subrange(0, taken as int)) == taken,
{
    let reach = lemma_escape_reach(body, hex);
    if escape_spec(body, hex) is Ok {
        lemma_hex_run(body, 2, 2);
        if body.len() >= 3 {
            lemma_hex_run(body, 3, 6);
        }
    }
}

/// Both ends of the span of every error of `unescape_spec` are character
/// boundaries of the text that holds the body, where the body is the part
/// `from..to` of `text` and the offset handed over is that of the backslash
/// in `text`.
pub proof fn lemma_unescape_spans_on_boundaries(text: Seq<char>, from: int, to: int, hex: HexRange)
    requires
        0 <= from < to <= text.len(),
        text[from] == '\\',
        utf8_len(text) <= usize::MAX,
    ensures
        unescape_spec(text.subrange(from, to), byte_offset(text, from) as usize, hex) matches Err(e)
            ==> e.span is Some && e.on_boundaries(text),
{
    let body = text.subrange(from, to);
    let offset = byte_offset(text, from);
    let reach = lemma_escape_reach(body, hex);
    lemma_subrange_bytes(text, from, from + reach);
    lemma_subrange_bytes(text, from, to);
    lemma_subrange_bytes(body, 0, reach);
    assert(body.subrange(0, reach) =~= text.subrange(from, from + reach));
    assert(body.subrange(0, 0) =~= text.subrange(from, from));
    lemma_offset_is_boundary(text, from);
    lemma_offset_is_boundary(text, from + reach);
}

} // verus!
