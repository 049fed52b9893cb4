use wysiwyg::dom::Dom;
use wysiwyg::kinds::{InlineFormatType, ListType};
use wysiwyg::markdown::{MarkdownError, MarkdownOptions, ToMarkdown};
use wysiwyg::text::chars_of;
use wysiwyg::tree::{DomNode, MentionNode};

fn utf(s: &str) -> Vec<char> {
    chars_of(s)
}

fn tn(s: &str) -> DomNode {
    DomNode::new_text(utf(s))
}

fn md(nodes: Vec<DomNode>) -> String {
    String::from_iter(Dom::new(nodes).to_markdown().ok().unwrap())
}

fn li(children: Vec<DomNode>) -> DomNode {
    DomNode::new_list_item(children)
}

#[test]
fn markdown_of_formatting() {
    assert_eq!(md(vec![tn("foo"), DomNode::new_formatting(InlineFormatType::Bold, vec![tn("bar")])]), "foo__bar__");
    assert_eq!(md(vec![DomNode::new_formatting(InlineFormatType::Italic, vec![tn("it")])]), "*it*");
    assert_eq!(md(vec![DomNode::new_formatting(InlineFormatType::StrikeThrough, vec![tn("s")])]), "~~s~~");
    assert_eq!(md(vec![DomNode::new_formatting(InlineFormatType::Underline, vec![tn("u")])]), "<u>u</u>");
    assert_eq!(md(vec![DomNode::new_formatting(InlineFormatType::InlineCode, vec![tn("c")])]), "`` c ``");
}

#[test]
fn markdown_of_nested_formatting() {
    assert_eq!(
        md(vec![DomNode::new_formatting(
            InlineFormatType::Italic,
            vec![DomNode::new_formatting(InlineFormatType::Bold, vec![tn("x")])]
        )]),
        "*__x__*"
    );
}

#[test]
fn markdown_of_link_escapes_its_address() {
    assert_eq!(
        md(vec![DomNode::new_link(utf("https://x.org/a(b)<c>"), vec![tn("text")])]),
        "[text](<https://x.org/a\\(b\\)\\<c\\>>)"
    );
}

#[test]
fn markdown_of_line_breaks() {
    assert_eq!(md(vec![tn("a"), DomNode::new_line_break(), tn("b")]), "a\\\nb");
    assert_eq!(
        md(vec![DomNode::new_formatting(
            InlineFormatType::InlineCode,
            vec![tn("a"), DomNode::new_line_break(), tn("b")]
        )]),
        "`` a b ``"
    );
}

#[test]
fn markdown_of_ordered_list() {
    assert_eq!(
        md(vec![DomNode::new_list(ListType::Ordered, vec![li(vec![tn("a")]), li(vec![tn("b")])])]),
        "1. a\n2. b"
    );
}

#[test]
fn markdown_of_unordered_list_indents_lines() {
    assert_eq!(
        md(vec![DomNode::new_list(
            ListType::Unordered,
            vec![li(vec![tn("a"), DomNode::new_line_break(), tn("b")]), li(vec![tn("c")])]
        )]),
        "* a\\\n  b\n* c"
    );
}

#[test]
fn markdown_of_list_skips_blank_text() {
    assert_eq!(
        md(vec![DomNode::new_list(ListType::Unordered, vec![tn("  "), li(vec![tn("a")])])]),
        "* a"
    );
}

#[test]
fn markdown_of_list_numbers_past_nine() {
    let items: Vec<DomNode> = (0..10).map(|_| li(vec![tn("x")])).collect();
    let out = md(vec![DomNode::new_list(ListType::Ordered, items)]);
    assert!(out.ends_with("\n10. x"));
    assert!(out.starts_with("1. x\n2. x"));
}

#[test]
fn markdown_of_list_with_invalid_item_is_an_error() {
    let dom = Dom::new(vec![DomNode::new_list(ListType::Ordered, vec![tn("x")])]);
    assert!(matches!(dom.to_markdown(), Err(MarkdownError::InvalidListItem(None))));
    let dom = Dom::new(vec![DomNode::new_list(
        ListType::Ordered,
        vec![DomNode::new_formatting(InlineFormatType::Bold, vec![tn("x")])],
    )]);
    match dom.to_markdown() {
        Err(MarkdownError::InvalidListItem(Some(name))) => {
            assert_eq!(String::from_iter(name), "strong")
        }
        _ => panic!("expected an error"),
    }
    let dom = Dom::new(vec![DomNode::new_list(ListType::Ordered, vec![DomNode::new_line_break()])]);
    match dom.to_markdown() {
        Err(MarkdownError::InvalidListItem(Some(name))) => assert_eq!(String::from_iter(name), "br"),
        _ => panic!("expected an error"),
    }
}

#[test]
fn markdown_of_code_block_and_quote() {
    assert_eq!(md(vec![DomNode::new_code_block(vec![tn("x")])]), "```\nx\n```\n");
    assert_eq!(md(vec![DomNode::new_quote(vec![tn("q")])]), "> q\n");
}

#[test]
fn markdown_separates_block_nodes() {
    assert_eq!(
        md(vec![DomNode::new_paragraph(vec![tn("a")]), DomNode::new_paragraph(vec![tn("b")])]),
        "a\nb"
    );
}

#[test]
fn markdown_of_at_room_mention() {
    let m = DomNode::Mention(MentionNode::new_at_room(Vec::new()));
    assert_eq!(md(vec![tn("hi "), m]), "hi @room");
}

#[test]
fn markdown_options_insert_then_contains() {
    let mut o = MarkdownOptions::empty();
    assert!(!o.contains(MarkdownOptions::ignore_line_break()));
    o.insert(MarkdownOptions::ignore_line_break());
    assert!(o.contains(MarkdownOptions::ignore_line_break()));
    assert!(o.contains(MarkdownOptions::empty()));
}

#[test]
fn markdown_with_option_writes_line_break_as_space() {
    let dom = Dom::new(vec![tn("a"), DomNode::new_line_break(), tn("b")]);
    let mut buf: Vec<char> = Vec::new();
    let r = dom.fmt_markdown(&mut buf, &MarkdownOptions::ignore_line_break());
    assert!(r.is_ok());
    assert_eq!(String::from_iter(buf), "a b");
}

#[test]
fn markdown_of_multi_line_ordered_items_indents_by_the_number() {
    let list = DomNode::new_list(
        ListType::Ordered,
        vec![li(vec![tn("a"), DomNode::new_line_break(), tn("b")]), li(vec![tn("c")])],
    );
    let mut buf: Vec<char> = Vec::new();
    assert!(list.fmt_markdown(&mut buf, &MarkdownOptions::empty()).is_ok());
    assert_eq!(String::from_iter(buf), "1. a\\\n  b\n2. c");
}

#[test]
fn markdown_of_multi_line_unordered_items_indents_by_two() {
    let list = DomNode::new_list(ListType::Unordered, vec![li(vec![tn("a"), DomNode::new_line_break(), tn("b")])]);
    let mut buf: Vec<char> = Vec::new();
    assert!(list.fmt_markdown(&mut buf, &MarkdownOptions::empty()).is_ok());
    assert_eq!(String::from_iter(buf), "* a\\\n  b");
}

#[test]
fn markdown_error_leaves_what_came_before_the_invalid_item() {
    let list = DomNode::new_list(
        ListType::Unordered,
        vec![tn(" "), li(vec![tn("a")]), DomNode::new_formatting(InlineFormatType::Bold, vec![tn("x")])],
    );
    let mut buf: Vec<char> = Vec::new();
    match list.fmt_markdown(&mut buf, &MarkdownOptions::empty()) {
        Err(MarkdownError::InvalidListItem(Some(name))) => assert_eq!(String::from_iter(name), "strong"),
        _ => panic!("expected an invalid list item"),
    }
    assert_eq!(String::from_iter(buf), "* a\n");
}
