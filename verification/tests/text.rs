use charlit::text::{byte_len, len_utf8, str_eq, width_from_lead};
use charlit::Buffer;

#[test]
fn widths_at_the_limits() {
    assert_eq!(len_utf8('\0'), 1);
    assert_eq!(len_utf8('a'), 1);
    assert_eq!(len_utf8('\u{7F}'), 1);
    assert_eq!(len_utf8('\u{80}'), 2);
    assert_eq!(len_utf8('é'), 2);
    assert_eq!(len_utf8('\u{7FF}'), 2);
    assert_eq!(len_utf8('\u{800}'), 3);
    assert_eq!(len_utf8('€'), 3);
    assert_eq!(len_utf8('\u{FFFF}'), 3);
    assert_eq!(len_utf8('\u{10000}'), 4);
    assert_eq!(len_utf8('🦊'), 4);
    assert_eq!(len_utf8('\u{10FFFF}'), 4);
}

#[test]
fn widths_of_every_character() {
    for code in 0..=0x10FFFFu32 {
        if let Some(c) = char::from_u32(code) {
            let mut buffer = [0u8; 4];
            let encoded = c.encode_utf8(&mut buffer).as_bytes();
            assert_eq!(len_utf8(c), encoded.len());
            assert_eq!(width_from_lead(encoded[0]), encoded.len());
        }
    }
}

#[test]
fn widths_from_first_bytes() {
    assert_eq!(width_from_lead(0x00), 1);
    assert_eq!(width_from_lead(0x7F), 1);
    assert_eq!(width_from_lead(0xC2), 2);
    assert_eq!(width_from_lead(0xDF), 2);
    assert_eq!(width_from_lead(0xE0), 3);
    assert_eq!(width_from_lead(0xEF), 3);
    assert_eq!(width_from_lead(0xF0), 4);
    assert_eq!(width_from_lead(0xF4), 4);
}

#[test]
fn lengths_in_bytes() {
    assert_eq!(byte_len(""), 0);
    assert_eq!(byte_len("abc"), 3);
    assert_eq!(byte_len("é"), 2);
    assert_eq!(byte_len("'🦊'"), 6);
    assert_eq!(byte_len("a€b"), 5);
}

#[test]
fn equal_texts() {
    assert!(str_eq("", ""));
    assert!(str_eq("abc", "abc"));
    assert!(str_eq("'🦊'", "'🦊'"));
    assert!(!str_eq("abc", "abd"));
    assert!(!str_eq("abc", "ab"));
    assert!(!str_eq("", "a"));
    assert!(!str_eq("é", "e"));
    assert!(!str_eq("xbc", "abc"));
}

#[test]
fn buffers_give_their_text() {
    let borrowed: &str = "'a'";
    let owned = String::from("'🦊'");
    assert_eq!(Buffer::as_str(&borrowed), "'a'");
    assert_eq!(Buffer::as_str(&owned), "'🦊'");
}
