use wysiwyg::text::chars_of;
use wysiwyg::unicode::{EncodedText, Encoding, UnicodeStr, UnicodeStrExt, UnicodeString, UnicodeStringExt};

fn utf8(s: &str) -> EncodedText {
    EncodedText::new(chars_of(s), Encoding::Utf8)
}

fn utf16(s: &str) -> EncodedText {
    EncodedText::new(chars_of(s), Encoding::Utf16)
}

fn utf32(s: &str) -> EncodedText {
    EncodedText::new(chars_of(s), Encoding::Utf32)
}

fn st(v: Option<Vec<char>>) -> String {
    String::from_iter(v.unwrap())
}

#[test]
fn test_emoji_utf8() {
    let str = utf8("😄");
    let (prev, next) = str.find_graphemes_at(0);
    assert!(prev.is_none());
    assert_eq!("😄", st(next));
}

#[test]
fn test_emoji_complex_utf8() {
    let str = utf8("😮‍💨");
    let (prev, next) = str.find_graphemes_at(0);
    assert!(prev.is_none());
    assert_eq!("😮‍💨", st(next));
}

#[test]
fn test_index_inside_char_with_emoji_utf8() {
    let str = utf8("😮‍💨");
    let (prev, next) = str.find_graphemes_at(1);
    assert!(prev.is_none());
    assert!(next.is_none());
}

#[test]
fn test_emoji_complex_with_text_utf8() {
    let str = utf8("Test 😮‍💨");
    let (prev, next) = str.find_graphemes_at(5);
    assert_eq!(" ", st(prev));
    assert_eq!("😮‍💨", st(next));
}

#[test]
fn test_whitespace_before_postion_utf8() {
    let str = utf8("😮‍💨test 😮‍💨test");
    // Emoji has a length of 11 bytes
    assert_eq!(str.previous_whitespace_offset(28), 12);
    assert_eq!(str.previous_whitespace_offset(12), 12);
}

#[test]
fn test_whitespace_after_postion_utf8() {
    let str = utf8("test😮‍💨 test😮‍💨");
    // Emoji has a length of 11 bytes
    assert_eq!(str.next_whitespace_offset(3), 12);
    assert_eq!(str.next_whitespace_offset(19), 12);
}

#[test]
fn emoji_complex_with_text_in_other_encodings() {
    let (prev, next) = utf16("Test 😮‍💨").find_graphemes_at(5);
    assert_eq!(" ", st(prev));
    assert_eq!("😮‍💨", st(next));
    let (prev, next) = utf32("Test 😮‍💨").find_graphemes_at(5);
    assert_eq!(" ", st(prev));
    assert_eq!("😮‍💨", st(next));
    let (prev, next) = utf16("😮‍💨").find_graphemes_at(1);
    assert!(prev.is_none());
    assert!(next.is_none());
}

#[test]
fn whitespace_offsets_in_other_encodings() {
    let str = utf16("😮‍💨test 😮‍💨test");
    assert_eq!(str.previous_whitespace_offset(16), 6);
    assert_eq!(str.previous_whitespace_offset(6), 6);
    let str = utf16("test😮‍💨 test😮‍💨");
    assert_eq!(str.next_whitespace_offset(3), 6);
    assert_eq!(str.next_whitespace_offset(13), 6);
    let str = utf32("😮‍💨test 😮‍💨test");
    assert_eq!(str.previous_whitespace_offset(11), 3);
    assert_eq!(str.previous_whitespace_offset(3), 3);
    let str = utf32("test😮‍💨 test😮‍💨");
    assert_eq!(str.next_whitespace_offset(3), 4);
    assert_eq!(str.next_whitespace_offset(11), 4);
}

#[test]
fn lengths_and_indexes_by_encoding() {
    let s8 = utf8("a😄é");
    assert_eq!(s8.len(), 1 + 4 + 2);
    assert_eq!(utf16("a😄é").len(), 1 + 2 + 1);
    assert_eq!(utf32("a😄é").len(), 3);
    assert_eq!(utf16("a😄é").u8_map_index(3), 5);
    assert_eq!(utf16("a😄é").u8_map_index(2), 5);
    assert_eq!(utf32("a😄é").u8_map_index(3), 7);
    assert_eq!(s8.char_len(&'😄'), 4);
    assert_eq!(s8.char_at(1), '😄');
    assert!(utf8("").is_empty());
}

#[test]
fn editing_text() {
    let mut s = utf8("ac");
    s.insert(1, &chars_of("b"));
    assert_eq!(String::from_iter(s.chars()), "abc");
    s.push(&chars_of("d"));
    assert_eq!(s.remove_at(0), 'a');
    assert_eq!(s.pop_first(), Some('b'));
    assert_eq!(s.pop_last(), Some('d'));
    assert_eq!(String::from_iter(s.chars()), "c");
    assert_eq!(s.pop_last(), Some('c'));
    assert_eq!(s.pop_last(), None);
    assert_eq!(s.pop_first(), None);
}

#[test]
fn test_emoji_complex_with_text_utf16() {
    let str = utf16("Test 😮‍💨");
    let (prev, next) = str.find_graphemes_at(5);
    assert_eq!(" ", st(prev));
    assert_eq!("😮‍💨", st(next));
}

#[test]
fn test_index_inside_char_with_emoji_utf16() {
    let str = utf16("😮‍💨");
    let (prev, next) = str.find_graphemes_at(1);
    assert!(prev.is_none());
    assert!(next.is_none());
}

#[test]
fn test_whitespace_before_postion_utf16() {
    let str = utf16("😮‍💨test 😮‍💨test");
    assert_eq!(str.previous_whitespace_offset(16), 6);
    assert_eq!(str.previous_whitespace_offset(6), 6);
}

#[test]
fn test_whitespace_after_postion_utf16() {
    let str = utf16("test😮‍💨 test😮‍💨");
    assert_eq!(str.next_whitespace_offset(3), 6);
    assert_eq!(str.next_whitespace_offset(13), 6);
}

#[test]
fn test_emoji_complex_with_text_utf32() {
    let str = utf32("Test 😮‍💨");
    let (prev, next) = str.find_graphemes_at(5);
    assert_eq!(" ", st(prev));
    assert_eq!("😮‍💨", st(next));
}

#[test]
fn test_whitespace_before_postion_utf32() {
    let str = utf32("😮‍💨test 😮‍💨test");
    assert_eq!(str.previous_whitespace_offset(11), 3);
    assert_eq!(str.previous_whitespace_offset(3), 3);
}

#[test]
fn test_whitespace_after_postion_utf32() {
    let str = utf32("test😮‍💨 test😮‍💨");
    assert_eq!(str.next_whitespace_offset(3), 4);
    assert_eq!(str.next_whitespace_offset(11), 4);
}
