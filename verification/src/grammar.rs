//! The grammar of character literals, stated on its own, and the proof that
//! the parser accepts exactly what the grammar describes.
//!
//! ```text
//! char-literal := "'" char-body "'"
//! char-body    := simple-char | escape-seq
//! simple-char  := any character except "'", "\" and a bare line feed,
//!                 tab or carriage return
//! escape-seq   := "\" ( "n" | "t" | "r" | "\" | "'" | "\"" | "0"
//!                     | "x" hex-digit hex-digit
//!                     | "u" "{" hex-digit{1,6} "}" )
//! ```

use vstd::prelude::*;
use crate::char::parse_spec;
use crate::err::ParseError;
use crate::escape::{
    escape_spec, hex_number, hex_run, is_hex_digit, lemma_escape_length, lemma_hex_number_bounds,
    lemma_hex_run, simple_escape, HexRange,
};
use crate::text::{
    lemma_char_range, lemma_encode_concat, lemma_scalar_width, lemma_utf8_len_zero, utf8_len,
};

verus! {

/// Whether every character of `digits` is a hexadecimal digit.
pub open spec fn all_hex_digits(digits: Seq<char>) -> bool {
    forall|i: int| 0 <= i < digits.len() ==> is_hex_digit(#[trigger] digits[i])
}

/// Whether `text` is a backslash and one of `n t r \ ' " 0`, and denotes `c`.
pub open spec fn is_simple_escape(text: Seq<char>, c: char) -> bool {
    &&& text.len() == 2
    &&& text[0] == '\\'
    &&& simple_escape(text[1]) == Some(c)
}

/// Whether `text` is `\x` and two hexadecimal digits whose value is the code
/// of `c`, within what `hex` admits.
pub open spec fn is_hex_escape(text: Seq<char>, c: char, hex: HexRange) -> bool {
    &&& text.len() == 4
    &&& text[0] == '\\'
    &&& text[1] == 'x'
    &&& all_hex_digits(text.subrange(2, 4))
    &&& hex_number(text.subrange(2, 4)) == c as int
    &&& c as int <= hex.spec_max()
}

/// Whether `text` is `\u{`, one to six hexadecimal digits whose value is the
/// code of `c`, and `}`.
pub open spec fn is_unicode_escape(text: Seq<char>, c: char) -> bool {
    &&& 5 <= text.len() <= 10
    &&& text[0] == '\\'
    &&& text[1] == 'u'
    &&& text[2] == '{'
    &&& text.last() == '}'
    &&& all_hex_digits(text.subrange(3, text.len() - 1))
    &&& hex_number(text.subrange(3, text.len() - 1)) == c as int
}

/// Whether `text` is an escape sequence that denotes `c`.
pub open spec fn is_escape(text: Seq<char>, c: char, hex: HexRange) -> bool {
    ||| is_simple_escape(text, c)
    ||| is_hex_escape(text, c, hex)
    ||| is_unicode_escape(text, c)
}

/// Whether `c` may stand for itself between the quotes of a literal.
pub open spec fn is_plain_char(c: char) -> bool {
    c != '\'' && c != '\\' && c != '\n' && c != '\t' && c != '\r'
}

/// Whether `text` is a character literal that denotes `c`.
pub open spec fn is_char_literal(text: Seq<char>, c: char) -> bool {
    &&& text.len() >= 3
    &&& text[0] == '\''
    &&& text.last() == '\''
    &&& ({
        let body = text.subrange(1, text.len() - 1);
        ||| body.len() == 1 && body[0] == c && is_plain_char(c)
        ||| is_escape(body, c, HexRange::Ascii)
    })
}

/// Where `count` digits stand at `from` and either the limit is reached or no
/// digit follows them, `hex_run` counts exactly them.
pub proof fn lemma_hex_run_exact(s: Seq<char>, from: int, count: int, limit: int)
    requires
        0 <= from,
        0 <= count <= limit,
        from + count <= s.len(),
        forall|i: int| from <= i < from + count ==> is_hex_digit(#[trigger] s[i]),
        count == limit || from + count == s.len() || !is_hex_digit(s[from + count]),
    ensures
        hex_run(s, from, limit) == count,
    decreases count,
{
    if count > 0 {
        assert(is_hex_digit(s[from]));
        lemma_hex_run_exact(s, from + 1, count - 1, limit - 1);
    }
}

/// The decoder accepts exactly the escapes of the grammar: a body that begins
/// with a backslash decodes to `c` with length `taken` if and only if its
/// first `taken` characters are an escape sequence that denotes `c`.
pub proof fn lemma_escape_agrees_with_grammar(body: Seq<char>, hex: HexRange, c: char, taken: usize)
    requires
        body.len() > 0,
        body[0] == '\\',
    ensures
        escape_spec(body, hex) == Ok::<(char, usize), ParseError>((c, taken)) <==> taken
            <= body.len() && is_escape(body.subrange(0, taken as int), c, hex),
{
    let text = body.subrange(0, taken as int);
    if escape_spec(body, hex) == Ok::<(char, usize), ParseError>((c, taken)) {
        lemma_escape_length(body, hex);
        if simple_escape(body[1]) is Some {
            assert(is_simple_escape(text, c));
        } else if body[1] == 'x' {
            lemma_hex_run(body, 2, 2);
            assert(text.subrange(2, 4) =~= body.subrange(2, 4));
            lemma_hex_number_bounds(body.subrange(2, 4));
            assert(is_hex_escape(text, c, hex));
        } else {
            let digits = hex_run(body, 3, 6);
            lemma_hex_run(body, 3, 6);
            assert(text.subrange(3, text.len() - 1) =~= body.subrange(3, 3 + digits));
            assert(is_unicode_escape(text, c));
        }
    }
    if taken <= body.len() && is_escape(text, c, hex) {
        if is_simple_escape(text, c) {
        } else if is_hex_escape(text, c, hex) {
            assert(text.subrange(2, 4) =~= body.subrange(2, 4));
            assert(is_hex_digit(text.subrange(2, 4)[0]) && is_hex_digit(text.subrange(2, 4)[1]));
            lemma_hex_run_exact(body, 2, 2, 2);
        } else {
            let digits = taken - 4;
            assert(text.subrange(3, text.len() - 1) =~= body.subrange(3, 3 + digits));
            assert forall|i: int| 3 <= i < 3 + digits implies is_hex_digit(#[trigger] body[i]) by {
                assert(body[i] == text.subrange(3, text.len() - 1)[i - 3]);
            }
            assert(body[3 + digits] == text.last());
            lemma_hex_run_exact(body, 3, digits, 6);
        }
    }
}

/// Every escape sequence of the grammar decodes to the character that it
/// denotes, and the length that the decoder reports is the length of the
/// sequence, which is the same in characters and in bytes.
pub proof fn lemma_escape_decodes_with_its_length(text: Seq<char>, c: char, hex: HexRange)
    requires
        is_escape(text, c, hex),
    ensures
        escape_spec(text, hex) == Ok::<(char, usize), ParseError>((c, text.len() as usize)),
        utf8_len(text) == text.len(),
{
    assert(text.subrange(0, text.len() as int) =~= text);
    lemma_escape_agrees_with_grammar(text, hex, c, text.len() as usize);
    lemma_escape_length(text, hex);
}

/// The parser accepts exactly the literals of the grammar: a text parses to
/// `c` if and only if it is a character literal that denotes `c`.
pub proof fn lemma_parse_agrees_with_grammar(text: Seq<char>, c: char)
    ensures
        parse_spec(text) == Ok::<char, ParseError>(c) <==> is_char_literal(text, c),
{
    let m = text.len() as int;
    if m >= 2 && text[0] == '\'' && text.last() == '\'' && m > 2 {
        let body = text.subrange(1, m - 1);
        let rest = body.subrange(1, body.len() as int);
        lemma_char_range(body[0]);
        lemma_utf8_len_zero(body);
        assert(body =~= seq![body[0]] + rest);
        lemma_encode_concat(seq![body[0]], rest);
        lemma_scalar_width(body[0]);
        lemma_utf8_len_zero(rest);
        if body[0] == '\\' {
            lemma_escape_length(body, HexRange::Ascii);
            if let Ok((found, taken)) = escape_spec(body, HexRange::Ascii) {
                lemma_escape_agrees_with_grammar(body, HexRange::Ascii, found, taken);
                lemma_escape_agrees_with_grammar(body, HexRange::Ascii, c, taken);
                if taken == body.len() {
                    assert(body.subrange(0, taken as int) =~= body);
                }
            }
            if is_escape(body, c, HexRange::Ascii) {
                assert(body.subrange(0, body.len() as int) =~= body);
                lemma_escape_agrees_with_grammar(body, HexRange::Ascii, c, body.len() as usize);
            }
        }
    }
}

/// A text denotes at most one character.
pub proof fn lemma_literal_denotes_one_char(text: Seq<char>, a: char, b: char)
    requires
        is_char_literal(text, a),
        is_char_literal(text, b),
    ensures
        a == b,
{
    lemma_parse_agrees_with_grammar(text, a);
    lemma_parse_agrees_with_grammar(text, b);
}

} // verus!
