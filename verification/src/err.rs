//! Errors of the literal parser: what went wrong, and where in the input.

use vstd::prelude::*;
use vstd::utf8::{encode_utf8, is_char_boundary};
use crate::text::utf8_len;

verus! {

/// The ways in which a character literal can be malformed.
#[derive(Debug, Clone, Copy, PartialEq, Eq, Structural)]
pub enum ParseErrorKind {
    /// The input does not begin with `'`: it is no character literal at all.
    /// A caller that tries several kinds of literal moves on to the next.
    DoesNotStartWithQuote,
    /// The closing `'` is missing.
    UnterminatedCharLiteral,
    /// Nothing stands between the two quotes.
    EmptyCharLiteral,
    /// A bare `'` stands between the quotes.
    UnescapedSingleQuote,
    /// A bare line feed, tab or carriage return stands between the quotes.
    UnescapedSpecialWhitespace,
    /// More than one character or escape stands between the quotes.
    OverlongCharLiteral,
    /// The character after a backslash starts no known escape.
    UnknownEscapeCharacter,
    /// A backslash is the last character of the body.
    UnterminatedEscape,
    /// `\x` is not followed by two hexadecimal digits that give an admitted
    /// value.
    InvalidHexEscape,
    /// `\u` is not followed by `{`, one to six hexadecimal digits and `}`.
    MalformedUnicodeEscape,
    /// The digits of a `\u{...}` escape denote no Unicode scalar value: a
    /// surrogate, or a number above `10FFFF`. Both cases share this kind.
    UnicodeEscapeOutOfRange,
}

/// A place in the input, in bytes from the start of the text that was parsed.
#[derive(Debug, Clone, Copy, PartialEq, Eq, Structural)]
pub enum Span {
    /// A single byte offset.
    Point(usize),
    /// The bytes from `start` up to, but not including, `end`.
    Range { start: usize, end: usize },
}

impl Span {
    /// Offset at which the span begins.
    pub open spec fn spec_start(&self) -> usize {
        match *self {
            Span::Point(at) => at,
            Span::Range { start, .. } => start,
        }
    }

    /// Offset at which the span ends; for a point, the point itself.
    pub open spec fn spec_end(&self) -> usize {
        match *self {
            Span::Point(at) => at,
            Span::Range { end, .. } => end,
        }
    }

    /// The span moved `by` bytes towards the end of the text.
    pub open spec fn spec_shifted(self, by: usize) -> Span {
        match self {
            Span::Point(at) => Span::Point((at + by) as usize),
            Span::Range { start, end } => Span::Range {
                start: (start + by) as usize,
                end: (end + by) as usize,
            },
        }
    }

    /// Whether the span lies within `text`, with both ends on character
    /// boundaries of its encoding.
    pub open spec fn on_boundaries(self, text: Seq<char>) -> bool {
        &&& self.spec_start() <= self.spec_end() <= utf8_len(text)
        &&& is_char_boundary(encode_utf8(text), self.spec_start() as int)
        &&& is_char_boundary(encode_utf8(text), self.spec_end() as int)
    }

    /// Offset at which the span begins.
    #[verifier::when_used_as_spec(spec_start)]
    pub fn start(&self) -> (at: usize)
        ensures
            at == self.spec_start(),
    {
        match *self {
            Span::Point(at) => at,
            Span::Range { start, .. } => start,
        }
    }

    /// Offset at which the span ends; for a point, the point itself.
    #[verifier::when_used_as_spec(spec_end)]
    pub fn end(&self) -> (at: usize)
        ensures
            at == self.spec_end(),
    {
        match *self {
            Span::Point(at) => at,
            Span::Range { end, .. } => end,
        }
    }

    /// Moves the span `by` bytes towards the end of the text: a span counted
    /// from the start of a part becomes one counted from the start of the
    /// whole, `by` being the offset of the part.
    #[verifier::when_used_as_spec(spec_shifted)]
    pub fn shifted(self, by: usize) -> (moved: Span)
        requires
            self.spec_start() + by <= usize::MAX,
            self.spec_end() + by <= usize::MAX,
        ensures
            moved == self.spec_shifted(by),
            moved.spec_start() == self.spec_start() + by,
            moved.spec_end() == self.spec_end() + by,
    {
        match self {
            Span::Point(at) => Span::Point(at + by),
            Span::Range { start, end } => Span::Range { start: start + by, end: end + by },
        }
    }
}

/// Why and where parsing failed.
#[derive(Debug, Clone, Copy, PartialEq, Eq, Structural)]
pub struct ParseError {
    /// What is wrong with the input.
    pub kind: ParseErrorKind,
    /// Which part of the input is at fault; `None` where the fault lies in
    /// the literal as a whole.
    pub span: Option<Span>,
}

impl ParseError {
    /// The error with its span, if any, moved `by` bytes towards the end.
    pub open spec fn spec_shifted(self, by: usize) -> ParseError {
        ParseError {
            kind: self.kind,
            span: match self.span {
                Some(span) => Some(span.spec_shifted(by)),
                None => None,
            },
        }
    }

    /// Whether the span, if any, lies within `text` on character boundaries.
    pub open spec fn on_boundaries(self, text: Seq<char>) -> bool {
        self.span matches Some(span) ==> span.on_boundaries(text)
    }

    /// Moves the span, if any, `by` bytes towards the end of the text.
    #[verifier::when_used_as_spec(spec_shifted)]
    pub fn shifted(self, by: usize) -> (moved: ParseError)
        requires
            self.span matches Some(span) ==> span.spec_end() + by <= usize::MAX
                && span.spec_start() + by <= usize::MAX,
        ensures
            moved == self.spec_shifted(by),
    {
        match self.span {
            Some(span) => ParseError { kind: self.kind, span: Some(span.shifted(by)) },
            None => self,
        }
    }
}

/// An error of the given kind at the given place.
pub open spec fn spec_perr(span: Option<Span>, kind: ParseErrorKind) -> ParseError {
    ParseError { kind, span }
}

/// An error of the given kind at the given place.
#[verifier::when_used_as_spec(spec_perr)]
pub fn perr(span: Option<Span>, kind: ParseErrorKind) -> (e: ParseError)
    ensures
        e == spec_perr(span, kind),
{
    ParseError { kind, span }
}

/// An error of the given kind that points at one byte offset.
pub open spec fn error_at(at: int, kind: ParseErrorKind) -> ParseError {
    ParseError { kind, span: Some(Span::Point(at as usize)) }
}

/// An error of the given kind that covers the bytes `start..end`.
pub open spec fn error_over(start: int, end: int, kind: ParseErrorKind) -> ParseError {
    ParseError { kind, span: Some(Span::Range { start: start as usize, end: end as usize }) }
}

} // verus!
