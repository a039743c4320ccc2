//! Character literals, e.g. `'g'`, `'\n'` or `'\u{1F98A}'`.

use vstd::prelude::*;
use crate::buffer::Buffer;
use crate::err::{error_at, error_over, perr, ParseError, ParseErrorKind, Span};
use crate::escape::{
    escape_spec, lemma_escape_length, lemma_escape_reach, lemma_unescape_spans_on_boundaries,
    unescape, unescape_spec, HexRange,
};
use crate::grammar::{is_char_literal, lemma_parse_agrees_with_grammar};
use crate::text::{
    ascii_prefix, byte_len, byte_offset, char_width, is_ascii_char, len_utf8,
    lemma_byte_after_ascii_prefix, lemma_char_range, lemma_encode_injective, lemma_last_byte,
    lemma_offset_is_boundary, lemma_subrange_bytes, lemma_utf8_len_zero, str_eq, utf8_len,
};

verus! {

/// What the first unit of a literal's body decodes to: the character that it
/// denotes and the number of bytes that it takes, or the error. The unit is
/// an escape where the body begins with a backslash, and one character
/// otherwise. A bare `'`, line feed, tab or carriage return is refused.
/// Spans count from the opening quote, which stands one byte before the body.
pub open spec fn first_unit_spec(body: Seq<char>) -> Result<(char, usize), ParseError>
    recommends
        body.len() > 0,
{
    let first = body[0];
    if first == '\'' {
        Err(error_at(1, ParseErrorKind::UnescapedSingleQuote))
    } else if first == '\n' || first == '\t' || first == '\r' {
        Err(error_at(1, ParseErrorKind::UnescapedSpecialWhitespace))
    } else if first == '\\' {
        unescape_spec(body, 1, HexRange::Ascii)
    } else {
        Ok((first, char_width(first) as usize))
    }
}

/// What a text that begins with `'` parses to: the character that the
/// literal denotes, or the error.
pub open spec fn parse_quoted_spec(text: Seq<char>) -> Result<char, ParseError>
    recommends
        text.len() > 0,
        text[0] == '\'',
{
    if text.len() < 2 || text.last() != '\'' {
        Err(perr(None, ParseErrorKind::UnterminatedCharLiteral))
    } else {
        let body = text.subrange(1, text.len() - 1);
        if body.len() == 0 {
            Err(perr(None, ParseErrorKind::EmptyCharLiteral))
        } else {
            match first_unit_spec(body) {
                Err(e) => Err(e),
                Ok((c, taken)) => if taken < utf8_len(body) {
                    Err(
                        error_over(
                            1 + taken,
                            utf8_len(text) - 1,
                            ParseErrorKind::OverlongCharLiteral,
                        ),
                    )
                } else {
                    Ok(c)
                },
            }
        }
    }
}

/// What a text parses to: the character that the literal denotes, or the
/// error.
pub open spec fn parse_spec(text: Seq<char>) -> Result<char, ParseError> {
    if text.len() == 0 || text[0] != '\'' {
        Err(error_at(0, ParseErrorKind::DoesNotStartWithQuote))
    } else {
        parse_quoted_spec(text)
    }
}

/// A character literal, e.g. `'g'` or `'\n'`: the text as it was written,
/// and the character that it denotes.
#[derive(Debug)]
pub struct CharLit<B: Buffer> {
    raw: B,
    value: char,
}

/// What a `CharLit` holds.
pub ghost struct CharLitView {
    /// The text of the literal, quotes included.
    pub raw: Seq<char>,
    /// The character that the literal denotes.
    pub value: char,
}

impl<B: Buffer> View for CharLit<B> {
    type V = CharLitView;

    closed spec fn view(&self) -> CharLitView {
        CharLitView { raw: self.raw@, value: self.value }
    }
}

impl<B: Buffer> CharLit<B> {
    /// The text is a well-formed literal and denotes the value.
    #[verifier::type_invariant]
    spec fn wf(self) -> bool {
        parse_spec(self.raw@) == Ok::<char, ParseError>(self.value)
    }

    /// Parses the input as a character literal. Returns an error if the input
    /// is malformed, or `DoesNotStartWithQuote` if it is no character literal
    /// at all. In a character literal a `\x` escape denotes an ASCII character:
    /// a value above `7F` is an `InvalidHexEscape`.
    pub fn parse(input: B) -> (r: Result<Self, ParseError>)
        ensures
            match r {
                Ok(lit) => parse_spec(input@) == Ok::<char, ParseError>(lit@.value) && lit@.raw
                    == input@,
                Err(e) => parse_spec(input@) == Err::<char, ParseError>(e),
            },
            (input@.len() == 0 || input@[0] != '\'') <==> (r matches Err(e) && e.kind
                == ParseErrorKind::DoesNotStartWithQuote),
            r matches Ok(lit) ==> is_char_literal(input@, lit@.value),
            r matches Err(e) ==> e.on_boundaries(input@),
    {
        let text = input.as_str();
        let bytes = text.as_bytes();
        let n = bytes.len();
        proof {
            lemma_parse_spans_on_boundaries(text@);
            if let Ok(c) = parse_spec(text@) {
                lemma_parse_agrees_with_grammar(text@, c);
            }
            if text@.len() > 0 {
                lemma_char_range(text@[0]);
            }
            assert(ascii_prefix(text@, 0));
            lemma_byte_after_ascii_prefix(text@, 0);
            lemma_unquoted_is_no_char_literal(text@);
        }
        if n == 0 || bytes[0] != '\'' as u8 {
            return Err(perr(Some(Span::Point(0)), ParseErrorKind::DoesNotStartWithQuote));
        }
        match parse_impl(text) {
            Ok(value) => Ok(CharLit { raw: input, value }),
            Err(e) => Err(e),
        }
    }

    /// Returns the character value that this literal represents: what the
    /// text of the literal parses to.
    pub fn value(&self) -> (c: char)
        ensures
            c == self@.value,
            parse_spec(self@.raw) == Ok::<char, ParseError>(c),
            is_char_literal(self@.raw, c),
    {
        proof {
            use_type_invariant(self);
            lemma_parse_agrees_with_grammar(self@.raw, self.value);
        }
        self.value
    }

    /// Returns the raw input that was passed to `parse`.
    pub fn raw_input(&self) -> (s: &str)
        ensures
            s@ == self@.raw,
            parse_spec(s@) == Ok::<char, ParseError>(self@.value),
            is_char_literal(s@, self@.value),
    {
        proof {
            use_type_invariant(self);
            lemma_parse_agrees_with_grammar(self@.raw, self.value);
        }
        self.raw.as_str()
    }

    /// Returns the raw input that was passed to `parse`, potentially owned.
    pub fn into_raw_input(self) -> (b: B)
        ensures
            b@ == self@.raw,
            parse_spec(b@) == Ok::<char, ParseError>(self@.value),
            is_char_literal(b@, self@.value),
    {
        proof {
            use_type_invariant(&self);
            lemma_parse_agrees_with_grammar(self@.raw, self.value);
        }
        self.raw
    }
}

impl<'a> CharLit<&'a str> {
    /// Makes a copy of the underlying buffer and returns the owned version of
    /// `Self`.
    pub fn to_owned(&self) -> (r: CharLit<String>)
        ensures
            r@ == self@,
    {
        proof {
            use_type_invariant(self);
        }
        CharLit { raw: self.raw.to_owned(), value: self.value }
    }
}

impl<'a> Clone for CharLit<&'a str> {
    fn clone(&self) -> (r: Self)
        ensures
            r@ == self@,
    {
        *self
    }
}

impl<'a> Copy for CharLit<&'a str> {

}

impl Clone for CharLit<String> {
    fn clone(&self) -> (r: Self)
        ensures
            r@ == self@,
    {
        proof {
            use_type_invariant(self);
        }
        CharLit { raw: self.raw.clone(), value: self.value }
    }
}

impl<B: Buffer> PartialEq for CharLit<B> {
    /// Two literals are equal if their texts are equal. The values need no
    /// comparison: the text determines the value.
    fn eq(&self, other: &Self) -> (r: bool) {
        proof {
            use_type_invariant(self);
            use_type_invariant(other);
        }
        str_eq(self.raw.as_str(), other.raw.as_str())
    }
}

impl<B: Buffer> vstd::std_specs::cmp::PartialEqSpecImpl for CharLit<B> {
    open spec fn obeys_eq_spec() -> bool {
        true
    }

    open spec fn eq_spec(&self, other: &Self) -> bool {
        self@.raw == other@.raw
    }
}

impl<B: Buffer> Eq for CharLit<B> {

}

/// The text between the quotes of a literal.
fn between_quotes(input: &str) -> (body: &str)
    requires
        input@.len() >= 2,
        input@[0] == '\'',
        input@.last() == '\'',
    ensures
        body@ == input@.subrange(1, input@.len() - 1),
        utf8_len(input@) == utf8_len(body@) + 2,
{
    let ghost s = input@;
    let ghost m = s.len() as int;
    proof {
        lemma_char_range(s[0]);
        assert(ascii_prefix(s, 1));
        lemma_byte_after_ascii_prefix(s, 1);
        lemma_offset_is_boundary(s, 1);
        lemma_subrange_bytes(s, 1, m);
    }
    let (_, tail) = input.split_at(1);
    proof {
        lemma_encode_injective(tail@, s.subrange(1, m));
        assert(tail@.last() == s.last());
        lemma_last_byte(tail@);
        lemma_offset_is_boundary(tail@, m - 2);
        lemma_subrange_bytes(tail@, 0, m - 2);
        assert(tail@.drop_last() =~= tail@.subrange(0, m - 2));
        assert(tail@.subrange(0, m - 2) =~= s.subrange(1, m - 1));
        assert(tail@.subrange(0, 0) =~= Seq::<char>::empty());
    }
    let (body, _) = tail.split_at(byte_len(tail) - 1);
    proof {
        lemma_encode_injective(body@, tail@.subrange(0, m - 2));
    }
    body
}

/// Parses a text that begins with `'` as a character literal and returns the
/// character that it denotes.
pub fn parse_impl(input: &str) -> (r: Result<char, ParseError>)
    requires
        input@.len() > 0,
        input@[0] == '\'',
    ensures
        r == parse_quoted_spec(input@),
        r matches Err(e) ==> e.on_boundaries(input@),
{
    broadcast use vstd::string::group_string_axioms;

    let bytes = input.as_bytes();
    let n = bytes.len();
    let ghost s = input@;
    proof {
        lemma_parse_spans_on_boundaries(s);
        lemma_char_range(s[0]);
        assert(ascii_prefix(s, 1));
        lemma_byte_after_ascii_prefix(s, 1);
        lemma_last_byte(s);
        lemma_char_range(s.last());
    }
    if n == 1 {
        return Err(perr(None, ParseErrorKind::UnterminatedCharLiteral));
    }
    if bytes[n - 1] != '\'' as u8 {
        return Err(perr(None, ParseErrorKind::UnterminatedCharLiteral));
    }
    let inner = between_quotes(input);
    let mut chars = inner.chars();
    let first = match chars.next() {
        Some(c) => c,
        None => {
            return Err(perr(None, ParseErrorKind::EmptyCharLiteral));
        },
    };
    let (c, len) = if first == '\'' {
        return Err(perr(Some(Span::Point(1)), ParseErrorKind::UnescapedSingleQuote));
    } else if first == '\n' || first == '\t' || first == '\r' {
        return Err(perr(Some(Span::Point(1)), ParseErrorKind::UnescapedSpecialWhitespace));
    } else if first == '\\' {
        match unescape(inner, 1, HexRange::Ascii) {
            Ok(decoded) => decoded,
            Err(e) => {
                return Err(e);
            },
        }
    } else {
        (first, len_utf8(first))
    };
    if len < byte_len(inner) {
        return Err(
            perr(Some(Span::Range { start: len + 1, end: n - 1 }), ParseErrorKind::OverlongCharLiteral),
        );
    }
    Ok(c)
}

/// The parts of a text with both quotes: the body stands between two bytes.
proof fn lemma_quoted_layout(text: Seq<char>)
    requires
        text.len() >= 2,
        text[0] == '\'',
        text.last() == '\'',
    ensures
        utf8_len(text) == utf8_len(text.subrange(1, text.len() - 1)) + 2,
        byte_offset(text, 1) == 1,
        byte_offset(text, text.len() - 1) == utf8_len(text) - 1,
{
    let m = text.len() as int;
    lemma_char_range(text[0]);
    assert(ascii_prefix(text, 1));
    lemma_byte_after_ascii_prefix(text, 1);
    lemma_last_byte(text);
    assert(text.drop_last() =~= text.subrange(0, m - 1));
    lemma_subrange_bytes(text, 1, m - 1);
}

/// A text fails with `DoesNotStartWithQuote` exactly if it does not begin
/// with `'`, and such a text fails in no other way.
pub proof fn lemma_unquoted_is_no_char_literal(text: Seq<char>)
    ensures
        (text.len() == 0 || text[0] != '\'') <==> (parse_spec(text) matches Err(e) && e.kind
            == ParseErrorKind::DoesNotStartWithQuote),
        (text.len() == 0 || text[0] != '\'') ==> parse_spec(text) == Err::<char, ParseError>(
            error_at(0, ParseErrorKind::DoesNotStartWithQuote),
        ),
{
}

/// Both ends of the span of every error are character boundaries of the text
/// that was parsed: no span begins or ends inside the encoding of a
/// character, or beyond the text.
pub proof fn lemma_parse_spans_on_boundaries(text: Seq<char>)
    requires
        utf8_len(text) <= usize::MAX,
    ensures
        parse_spec(text) matches Err(e) ==> e.on_boundaries(text),
{
    let m = text.len() as int;
    lemma_offset_is_boundary(text, 0);
    lemma_subrange_bytes(text, 0, 0);
    if m >= 2 && text[0] == '\'' && text.last() == '\'' && m > 2 {
        let body = text.subrange(1, m - 1);
        lemma_quoted_layout(text);
        lemma_offset_is_boundary(text, 1);
        lemma_offset_is_boundary(text, m - 1);
        lemma_char_range(body[0]);
        if body[0] == '\\' {
            lemma_unescape_spans_on_boundaries(text, 1, m - 1, HexRange::Ascii);
            let reach = lemma_escape_reach(body, HexRange::Ascii);
            if escape_spec(body, HexRange::Ascii) is Ok {
                assert forall|i: int| 0 <= i < 1 + reach implies is_ascii_char(
                    #[trigger] text[i],
                ) by {
                    if i > 0 {
                        assert(text[i] == body[i - 1]);
                    }
                }
                lemma_byte_after_ascii_prefix(text, 1 + reach);
                lemma_offset_is_boundary(text, 1 + reach);
            }
        } else {
            lemma_byte_after_ascii_prefix(text, 1);
            lemma_offset_is_boundary(text, 2);
        }
    }
}

/// Where a literal holds an escape and parses, the length that the decoder
/// reports for the escape is the length of its text, in characters and in
/// bytes, and leads from the backslash exactly to the closing quote.
pub proof fn lemma_escape_ends_at_closing_quote(text: Seq<char>)
    requires
        parse_spec(text) is Ok,
        text[1] == '\\',
    ensures
        ({
            let body = text.subrange(1, text.len() - 1);
            &&& unescape_spec(body, 1, HexRange::Ascii) matches Ok((c, taken))
            &&& parse_spec(text) == Ok::<char, ParseError>(c)
            &&& taken == body.len()
            &&& taken == utf8_len(body)
            &&& 1 + taken == byte_offset(text, text.len() - 1)
            &&& 1 + taken == utf8_len(text) - 1
        }),
{
    let body = text.subrange(1, text.len() - 1);
    lemma_quoted_layout(text);
    lemma_escape_length(body, HexRange::Ascii);
    lemma_utf8_len_zero(body);
}

} // verus!
