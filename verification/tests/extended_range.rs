use wysiwyg::dom::Dom;
use wysiwyg::handle::DomHandle;
use wysiwyg::kinds::{InlineFormatType, ListType};
use wysiwyg::text::chars_of;
use wysiwyg::tree::DomNode;

// In these documents `~` stands for a zero-width space at the start of a
// text, and inline nodes next to block nodes sit in paragraphs.

fn tn(s: &str) -> DomNode {
    DomNode::new_text(chars_of(&s.replace('~', "\u{200b}")))
}

fn br() -> DomNode {
    DomNode::new_line_break()
}

fn ol(items: Vec<DomNode>) -> DomNode {
    DomNode::new_list(ListType::Ordered, items)
}

fn li(children: Vec<DomNode>) -> DomNode {
    DomNode::new_list_item(children)
}

fn p(children: Vec<DomNode>) -> DomNode {
    DomNode::new_paragraph(children)
}

fn strong(children: Vec<DomNode>) -> DomNode {
    DomNode::new_formatting(InlineFormatType::Bold, children)
}

#[test]
fn find_extended_selection_retrieves_single_text_node() {
    // abcdef|
    let dom = Dom::new(vec![tn("abcdef")]);
    assert_eq!(dom.find_extended_selection(3, 3), (0, 6));
}

#[test]
fn find_extended_selection_stops_at_leading_trailing_line_breaks() {
    // abc<br />def<br />ghi|
    let dom = Dom::new(vec![tn("abc"), br(), tn("def"), br(), tn("ghi")]);
    assert_eq!(dom.find_extended_selection(5, 6), (3, 8));
}

#[test]
fn find_extended_selection_stops_at_list_location() {
    // <ol><li>~abc</li><li>~def</li></ol>~ghi<br />jkl|
    let dom = Dom::new(vec![
        ol(vec![li(vec![tn("~abc")]), li(vec![tn("~def")])]),
        p(vec![tn("~ghi"), br(), tn("jkl")]),
    ]);
    assert_eq!(dom.find_extended_selection(9, 10), (8, 13));
}

#[test]
fn find_extended_selection_dont_stop_on_format_tags() {
    // <strong>abc</strong>defg<em>hij</em>kl|
    let dom = Dom::new(vec![
        strong(vec![tn("abc")]),
        tn("defg"),
        DomNode::new_formatting(InlineFormatType::Italic, vec![tn("hij")]),
        tn("kl"),
    ]);
    assert_eq!(dom.find_extended_selection(4, 6), (0, 12));
}

#[test]
fn find_extended_selection_stops_immediately_on_selected_linebreaks() {
    // abc<br />def<br />ghi|
    let dom = Dom::new(vec![tn("abc"), br(), tn("def"), br(), tn("ghi")]);
    assert_eq!(dom.find_extended_selection(3, 8), (3, 8));
    assert_eq!(dom.find_extended_selection(4, 6), (3, 8));
}

#[test]
fn find_extended_selection_stops_inside_list() {
    // abc<ol><li>~def|</li></ol>
    let dom = Dom::new(vec![p(vec![tn("abc")]), ol(vec![li(vec![tn("~def")])])]);
    assert_eq!(dom.find_extended_selection(4, 4), (3, 7));
}

#[test]
fn find_extended_selection_on_list_border_stops() {
    // abc<ol><li>~def</li></ol>~ghi|
    let dom = Dom::new(vec![p(vec![tn("abc")]), ol(vec![li(vec![tn("~def")])]), p(vec![tn("~ghi")])]);
    assert_eq!(dom.find_extended_selection(3, 3), (0, 3));
    assert_eq!(dom.find_extended_selection(7, 7), (3, 7));
    assert_eq!(dom.find_extended_selection(8, 8), (7, 11));
}

#[test]
fn find_extended_selection_from_last_list_item_stops_end_of_list() {
    // <ol><li>~abc</li><li><strong>~de</strong>f</li></ol>~ghi|
    let dom = Dom::new(vec![
        ol(vec![li(vec![tn("~abc")]), li(vec![strong(vec![tn("~de")]), tn("f")])]),
        p(vec![tn("~ghi")]),
    ]);
    assert_eq!(dom.find_extended_selection(6, 6), (4, 8));
}

#[test]
fn test_is_last_child_of_list() {
    // abc<ol><li>~def</li><li>~g<strong>hi</strong></li></ol>~jkl|
    let dom = Dom::new(vec![
        p(vec![tn("abc")]),
        ol(vec![li(vec![tn("~def")]), li(vec![tn("~g"), strong(vec![tn("hi")])])]),
        p(vec![tn("~jkl")]),
    ]);
    assert!(!dom.is_last_child_of_list(&DomHandle::from_raw(vec![0])));
    assert!(!dom.is_last_child_of_list(&DomHandle::from_raw(vec![1])));
    assert!(!dom.is_last_child_of_list(&DomHandle::from_raw(vec![1, 0])));
    assert!(dom.is_last_child_of_list(&DomHandle::from_raw(vec![1, 1])));
    assert!(!dom.is_last_child_of_list(&DomHandle::from_raw(vec![1, 1, 0])));
    assert!(dom.is_last_child_of_list(&DomHandle::from_raw(vec![1, 1, 1])));
    assert!(dom.is_last_child_of_list(&DomHandle::from_raw(vec![1, 1, 1, 0])));
    assert!(!dom.is_last_child_of_list(&DomHandle::from_raw(vec![2])));
}

#[test]
fn find_extended_range_gives_the_range_of_the_extended_selection() {
    let dom = Dom::new(vec![tn("abc"), br(), tn("def"), br(), tn("ghi")]);
    assert_eq!(dom.find_extended_range(5, 6), dom.find_range(3, 8));
}
