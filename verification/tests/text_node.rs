use wysiwyg::kinds::Direction;
use wysiwyg::leaf_nodes::{get_char_type, is_whitespace, CharType, TextNode};
use wysiwyg::text::chars_of;

fn utf(s: &str) -> Vec<char> {
    chars_of(s)
}

fn text(t: &TextNode) -> String {
    String::from_iter(t.data().iter())
}

#[test]
fn get_char_type_for_whitespace() {
    // space
    assert_eq!(get_char_type('\u{0020}'), CharType::Whitespace);
    // no break space
    assert_eq!(get_char_type('\u{00A0}'), CharType::Whitespace);
}

#[test]
fn get_char_type_for_punctuation() {
    assert_eq!(get_char_type('='), CharType::Punctuation);
    assert_eq!(get_char_type('-'), CharType::Punctuation);
    assert_eq!(get_char_type('_'), CharType::Punctuation);
    assert_eq!(get_char_type('$'), CharType::Punctuation);
    assert_eq!(get_char_type('#'), CharType::Punctuation);
    assert_eq!(get_char_type('@'), CharType::Punctuation);
    assert_eq!(get_char_type('.'), CharType::Punctuation);
    assert_eq!(get_char_type(','), CharType::Punctuation);
}

#[test]
fn get_char_type_for_other() {
    assert_eq!(get_char_type('1'), CharType::Other);
    assert_eq!(get_char_type('Q'), CharType::Other);
    assert_eq!(get_char_type('z'), CharType::Other);
}

#[test]
fn offset_is_inside_node_end_of_node() {
    let test_node = TextNode::from(utf("test"));
    assert!(!test_node.offset_is_inside_node(4, &Direction::Forwards));
    assert!(test_node.offset_is_inside_node(4, &Direction::Backwards))
}

#[test]
fn offset_is_inside_node_start_of_node() {
    let test_node = TextNode::from(utf("test"));
    assert!(test_node.offset_is_inside_node(0, &Direction::Forwards));
    assert!(!test_node.offset_is_inside_node(0, &Direction::Backwards));
}

#[test]
fn offset_is_inside_node_middle_of_node() {
    let test_node = TextNode::from(utf("test"));
    assert!(test_node.offset_is_inside_node(2, &Direction::Forwards));
    assert!(test_node.offset_is_inside_node(2, &Direction::Backwards));
}

#[test]
fn pushing_text_node() {
    let mut t1 = TextNode::from(utf("abc"));
    let t2 = TextNode::from(utf("def"));
    t1.push(&t2);
    let expected = TextNode::from(utf("abcdef"));
    assert_eq!(t1.data(), expected.data());
    assert_eq!(t1.handle().is_set(), expected.handle().is_set());
}

#[test]
fn pushing_empty_text_node_does_nothing() {
    let mut t1 = TextNode::from(utf("abc"));
    let t2 = TextNode::from(utf(""));
    t1.push(&t2);
    let expected = TextNode::from(utf("abc"));
    assert_eq!(t1.data(), expected.data());
    assert_eq!(t1.handle().is_set(), expected.handle().is_set());
}

#[test]
fn slicing_text_node() {
    let mut text_node = TextNode::from(utf("abcdefghi"));
    let after = text_node.slice_after(6);
    let mut before = text_node.slice_before(3);
    before.push(&text_node);
    before.push(&after);
    assert_eq!(text(&before), "abcdefghi")
}

#[test]
fn slicing_text_node_on_edge_does_nothing() {
    let mut text_node = TextNode::from(utf("abcdefghi"));
    text_node.slice_after(9);
    text_node.slice_before(0);
    assert_eq!(text(&text_node), "abcdefghi")
}

#[test]
fn slicing_text_node_in_the_middle_splits_its_text() {
    let mut text_node = TextNode::from(utf("abcdef"));
    let after = text_node.slice_after(2);
    assert_eq!(text(&text_node), "ab");
    assert_eq!(text(&after), "cdef");
    let before = text_node.slice_before(1);
    assert_eq!(text(&before), "a");
    assert_eq!(text(&text_node), "b");
}

#[test]
fn blank_text_is_only_spaces_and_controls() {
    assert!(TextNode::from(utf(" \t\n")).is_blank());
    assert!(TextNode::from(utf("")).is_blank());
    assert!(!TextNode::from(utf(" a ")).is_blank());
}

#[test]
fn text_node_is_empty_exactly_without_text() {
    assert!(TextNode::from(utf("")).is_empty());
    assert!(!TextNode::from(utf("a")).is_empty());
}

#[test]
fn white_space_is_what_the_standard_library_says() {
    for code in 0u32..0x3100 {
        if let Some(c) = char::from_u32(code) {
            assert_eq!(is_whitespace(c), c.is_whitespace(), "{:?}", c);
        }
    }
    assert!(is_whitespace('\u{3000}'));
    assert!(!is_whitespace('\u{200B}'));
}
