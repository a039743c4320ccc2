use charlit::escape::{hex_digit_value, unescape};
use charlit::{CharLit, HexRange, ParseError, ParseErrorKind, Span};

fn over(start: usize, end: usize, kind: ParseErrorKind) -> Result<(char, usize), ParseError> {
    Err(ParseError { kind, span: Some(Span::Range { start, end }) })
}

#[test]
fn simple_escapes_take_two_bytes() {
    assert_eq!(unescape("\\n", 0, HexRange::Ascii), Ok(('\n', 2)));
    assert_eq!(unescape("\\t", 0, HexRange::Ascii), Ok(('\t', 2)));
    assert_eq!(unescape("\\r", 0, HexRange::Ascii), Ok(('\r', 2)));
    assert_eq!(unescape("\\\\", 0, HexRange::Ascii), Ok(('\\', 2)));
    assert_eq!(unescape("\\'", 0, HexRange::Ascii), Ok(('\'', 2)));
    assert_eq!(unescape("\\\"", 0, HexRange::Ascii), Ok(('"', 2)));
    assert_eq!(unescape("\\0", 0, HexRange::Ascii), Ok(('\0', 2)));
}

#[test]
fn decoding_stops_after_one_escape() {
    assert_eq!(unescape("\\nabc", 5, HexRange::Ascii), Ok(('\n', 2)));
    assert_eq!(unescape("\\x41\\x42", 5, HexRange::Ascii), Ok(('A', 4)));
    assert_eq!(unescape("\\u{41}}", 5, HexRange::Ascii), Ok(('A', 6)));
    assert_eq!(unescape("\\u{1F980}é", 5, HexRange::Ascii), Ok(('🦀', 9)));
    assert_eq!(unescape("\\\\n", 5, HexRange::Ascii), Ok(('\\', 2)));
}

#[test]
fn hex_escapes_take_four_bytes() {
    assert_eq!(unescape("\\x41", 0, HexRange::Ascii), Ok(('A', 4)));
    assert_eq!(unescape("\\x00", 0, HexRange::Ascii), Ok(('\0', 4)));
    assert_eq!(unescape("\\x0a", 0, HexRange::Ascii), Ok(('\n', 4)));
    assert_eq!(unescape("\\x7F", 0, HexRange::Ascii), Ok(('\u{7F}', 4)));
    assert_eq!(unescape("\\x6B", 0, HexRange::Ascii), Ok(('k', 4)));
    assert_eq!(unescape("\\x6b", 0, HexRange::Ascii), Ok(('k', 4)));
}

#[test]
fn hex_range_decides_above_7f() {
    assert_eq!(unescape("\\x7F", 0, HexRange::Byte), Ok(('\u{7F}', 4)));
    assert_eq!(unescape("\\x80", 0, HexRange::Byte), Ok(('\u{80}', 4)));
    assert_eq!(unescape("\\xe9", 0, HexRange::Byte), Ok(('é', 4)));
    assert_eq!(unescape("\\xFF", 0, HexRange::Byte), Ok(('ÿ', 4)));
    assert_eq!(
        unescape("\\x80", 0, HexRange::Ascii),
        over(0, 4, ParseErrorKind::InvalidHexEscape)
    );
    assert_eq!(
        unescape("\\xFF", 3, HexRange::Ascii),
        over(3, 7, ParseErrorKind::InvalidHexEscape)
    );
    assert_eq!(HexRange::Ascii.max(), 0x7F);
    assert_eq!(HexRange::Byte.max(), 0xFF);
}

#[test]
fn invalid_hex_escapes() {
    assert_eq!(unescape("\\x", 0, HexRange::Byte), over(0, 2, ParseErrorKind::InvalidHexEscape));
    assert_eq!(unescape("\\x4", 0, HexRange::Byte), over(0, 3, ParseErrorKind::InvalidHexEscape));
    assert_eq!(unescape("\\xg1", 0, HexRange::Byte), over(0, 2, ParseErrorKind::InvalidHexEscape));
    assert_eq!(unescape("\\x4g", 0, HexRange::Byte), over(0, 3, ParseErrorKind::InvalidHexEscape));
    assert_eq!(unescape("\\x4é", 0, HexRange::Byte), over(0, 3, ParseErrorKind::InvalidHexEscape));
    assert_eq!(unescape("\\xé4", 0, HexRange::Byte), over(0, 2, ParseErrorKind::InvalidHexEscape));
    assert_eq!(unescape("\\x 41", 0, HexRange::Byte), over(0, 2, ParseErrorKind::InvalidHexEscape));
    assert_eq!(unescape("\\x0x41", 0, HexRange::Byte), over(0, 3, ParseErrorKind::InvalidHexEscape));
}

#[test]
fn unicode_escapes_take_their_text_length() {
    assert_eq!(unescape("\\u{0}", 0, HexRange::Ascii), Ok(('\0', 5)));
    assert_eq!(unescape("\\u{41}", 0, HexRange::Ascii), Ok(('A', 6)));
    assert_eq!(unescape("\\u{3A9}", 0, HexRange::Ascii), Ok(('Ω', 7)));
    assert_eq!(unescape("\\u{20ac}", 0, HexRange::Ascii), Ok(('€', 8)));
    assert_eq!(unescape("\\u{1F980}", 0, HexRange::Ascii), Ok(('🦀', 9)));
    assert_eq!(unescape("\\u{10FFFF}", 0, HexRange::Ascii), Ok(('\u{10FFFF}', 10)));
    assert_eq!(unescape("\\u{000041}", 0, HexRange::Byte), Ok(('A', 10)));
}

#[test]
fn unicode_escapes_that_denote_no_scalar_value() {
    assert_eq!(
        unescape("\\u{D800}", 0, HexRange::Ascii),
        over(0, 8, ParseErrorKind::UnicodeEscapeOutOfRange)
    );
    assert_eq!(
        unescape("\\u{dfff}", 2, HexRange::Ascii),
        over(2, 10, ParseErrorKind::UnicodeEscapeOutOfRange)
    );
    assert_eq!(
        unescape("\\u{110000}", 0, HexRange::Ascii),
        over(0, 10, ParseErrorKind::UnicodeEscapeOutOfRange)
    );
    assert_eq!(
        unescape("\\u{ffffff}x", 0, HexRange::Ascii),
        over(0, 10, ParseErrorKind::UnicodeEscapeOutOfRange)
    );
    assert_eq!(unescape("\\u{D7FF}", 0, HexRange::Ascii), Ok(('\u{D7FF}', 8)));
    assert_eq!(unescape("\\u{E000}", 0, HexRange::Ascii), Ok(('\u{E000}', 8)));
}

#[test]
fn malformed_unicode_escapes() {
    let kind = ParseErrorKind::MalformedUnicodeEscape;
    assert_eq!(unescape("\\u", 0, HexRange::Ascii), over(0, 2, kind));
    assert_eq!(unescape("\\u41", 0, HexRange::Ascii), over(0, 2, kind));
    assert_eq!(unescape("\\u}", 0, HexRange::Ascii), over(0, 2, kind));
    assert_eq!(unescape("\\ué", 0, HexRange::Ascii), over(0, 2, kind));
    assert_eq!(unescape("\\u{", 0, HexRange::Ascii), over(0, 3, kind));
    assert_eq!(unescape("\\u{é}", 0, HexRange::Ascii), over(0, 3, kind));
    assert_eq!(unescape("\\u{}", 0, HexRange::Ascii), over(0, 4, kind));
    assert_eq!(unescape("\\u{}41", 0, HexRange::Ascii), over(0, 4, kind));
    assert_eq!(unescape("\\u{41", 0, HexRange::Ascii), over(0, 5, kind));
    assert_eq!(unescape("\\u{41 }", 0, HexRange::Ascii), over(0, 5, kind));
    assert_eq!(unescape("\\u{4g}", 0, HexRange::Ascii), over(0, 4, kind));
    assert_eq!(unescape("\\u{1_F980}", 0, HexRange::Ascii), over(0, 4, kind));
    assert_eq!(unescape("\\u{_41}", 0, HexRange::Ascii), over(0, 3, kind));
    assert_eq!(unescape("\\u{123456", 0, HexRange::Ascii), over(0, 9, kind));
    assert_eq!(unescape("\\u{1234567}", 0, HexRange::Ascii), over(0, 9, kind));
    assert_eq!(unescape("\\u{0000000}", 0, HexRange::Ascii), over(0, 9, kind));
    assert_eq!(unescape("\\u{{41}", 0, HexRange::Ascii), over(0, 3, kind));
}

#[test]
fn unknown_escapes_cover_backslash_and_character() {
    let kind = ParseErrorKind::UnknownEscapeCharacter;
    assert_eq!(unescape("\\q", 0, HexRange::Ascii), over(0, 2, kind));
    assert_eq!(unescape("\\N", 0, HexRange::Ascii), over(0, 2, kind));
    assert_eq!(unescape("\\X41", 0, HexRange::Ascii), over(0, 2, kind));
    assert_eq!(unescape("\\U{41}", 0, HexRange::Ascii), over(0, 2, kind));
    assert_eq!(unescape("\\ ", 0, HexRange::Ascii), over(0, 2, kind));
    assert_eq!(unescape("\\1", 0, HexRange::Ascii), over(0, 2, kind));
    assert_eq!(unescape("\\\u{7F}", 0, HexRange::Ascii), over(0, 2, kind));
    assert_eq!(unescape("\\\u{80}", 0, HexRange::Ascii), over(0, 3, kind));
    assert_eq!(unescape("\\é", 0, HexRange::Ascii), over(0, 3, kind));
    assert_eq!(unescape("\\\u{7FF}", 0, HexRange::Ascii), over(0, 3, kind));
    assert_eq!(unescape("\\\u{800}", 0, HexRange::Ascii), over(0, 4, kind));
    assert_eq!(unescape("\\€", 0, HexRange::Ascii), over(0, 4, kind));
    assert_eq!(unescape("\\\u{FFFF}", 0, HexRange::Ascii), over(0, 4, kind));
    assert_eq!(unescape("\\\u{10000}", 0, HexRange::Ascii), over(0, 5, kind));
    assert_eq!(unescape("\\🦊x", 0, HexRange::Ascii), over(0, 5, kind));
}

#[test]
fn lone_backslash() {
    assert_eq!(
        unescape("\\", 0, HexRange::Ascii),
        Err(ParseError { kind: ParseErrorKind::UnterminatedEscape, span: Some(Span::Point(0)) })
    );
    assert_eq!(
        unescape("\\", 12, HexRange::Byte),
        Err(ParseError { kind: ParseErrorKind::UnterminatedEscape, span: Some(Span::Point(12)) })
    );
}

#[test]
fn offset_moves_every_span() {
    assert_eq!(
        unescape("\\q", 7, HexRange::Ascii),
        over(7, 9, ParseErrorKind::UnknownEscapeCharacter)
    );
    assert_eq!(unescape("\\x4", 7, HexRange::Ascii), over(7, 10, ParseErrorKind::InvalidHexEscape));
    assert_eq!(
        unescape("\\u{12", 100, HexRange::Ascii),
        over(100, 105, ParseErrorKind::MalformedUnicodeEscape)
    );
    assert_eq!(
        unescape("\\u{D800}", 1, HexRange::Ascii),
        over(1, 9, ParseErrorKind::UnicodeEscapeOutOfRange)
    );
    assert_eq!(unescape("\\n", 7, HexRange::Ascii), Ok(('\n', 2)));
}

#[test]
fn escape_length_reaches_the_closing_quote() {
    let literals = [
        "'\\n'", "'\\t'", "'\\r'", "'\\\\'", "'\\''", "'\\\"'", "'\\0'", "'\\x00'", "'\\x41'",
        "'\\x7f'", "'\\u{0}'", "'\\u{41}'", "'\\u{3A9}'", "'\\u{20AC}'", "'\\u{1F980}'",
        "'\\u{10FFFF}'",
    ];
    for literal in literals {
        let lit = CharLit::parse(literal).unwrap();
        let body = &literal[1..literal.len() - 1];
        let (c, taken) = unescape(body, 1, HexRange::Ascii).unwrap();
        assert_eq!(c, lit.value(), "{:?}", literal);
        assert_eq!(taken, body.len(), "{:?}", literal);
        assert_eq!(1 + taken, literal.len() - 1, "{:?}", literal);
        assert_eq!(&literal[1 + taken..], "'", "{:?}", literal);
    }
}

#[test]
fn hex_digits() {
    assert_eq!(hex_digit_value(b'0'), Some(0));
    assert_eq!(hex_digit_value(b'9'), Some(9));
    assert_eq!(hex_digit_value(b'a'), Some(10));
    assert_eq!(hex_digit_value(b'f'), Some(15));
    assert_eq!(hex_digit_value(b'A'), Some(10));
    assert_eq!(hex_digit_value(b'F'), Some(15));
    assert_eq!(hex_digit_value(b'g'), None);
    assert_eq!(hex_digit_value(b'G'), None);
    assert_eq!(hex_digit_value(b'/'), None);
    assert_eq!(hex_digit_value(b':'), None);
    assert_eq!(hex_digit_value(b'@'), None);
    assert_eq!(hex_digit_value(b'`'), None);
    assert_eq!(hex_digit_value(b'_'), None);
}

#[test]
fn hex_digits_of_every_byte() {
    for byte in 0..=255u8 {
        let expected = (byte as char).to_digit(16).map(|v| v as u8);
        assert_eq!(hex_digit_value(byte), expected, "{}", byte);
    }
}

#[test]
fn every_scalar_value_by_unicode_escape() {
    let mut code: u32 = 0;
    while code <= 0x11_0FFF {
        let body = format!("\\u{{{:x}}}", code);
        let result = unescape(body.as_str(), 0, HexRange::Ascii);
        match char::from_u32(code) {
            Some(c) => assert_eq!(result, Ok((c, body.len())), "{}", body),
            None => assert_eq!(
                result,
                over(0, body.len(), ParseErrorKind::UnicodeEscapeOutOfRange),
                "{}",
                body
            ),
        }
        code += if code < 0x1000 || (0xD700..0xE100).contains(&code) { 1 } else { 251 };
    }
}

#[test]
fn every_byte_by_hex_escape() {
    for byte in 0..=255u8 {
        let upper = format!("\\x{:02X}", byte);
        let lower = format!("\\x{:02x}", byte);
        let c = byte as char;
        assert_eq!(unescape(upper.as_str(), 0, HexRange::Byte), Ok((c, 4)));
        assert_eq!(unescape(lower.as_str(), 0, HexRange::Byte), Ok((c, 4)));
        if byte <= 0x7F {
            assert_eq!(unescape(upper.as_str(), 0, HexRange::Ascii), Ok((c, 4)));
        } else {
            assert_eq!(
                unescape(upper.as_str(), 0, HexRange::Ascii),
                over(0, 4, ParseErrorKind::InvalidHexEscape)
            );
        }
    }
}
