use wysiwyg::dom::Dom;
use wysiwyg::handle::DomHandle;
use wysiwyg::html::ToHtml;
use wysiwyg::kinds::{InlineFormatType, ListType};
use wysiwyg::text::chars_of;
use wysiwyg::tree::DomNode;

fn tn(s: &str) -> DomNode {
    DomNode::new_text(chars_of(s))
}

fn tag(t: &str, children: Vec<DomNode>) -> DomNode {
    DomNode::new_formatting_from_tag(chars_of(t), children)
}

fn ul(items: Vec<DomNode>) -> DomNode {
    DomNode::new_list(ListType::Unordered, items)
}

fn li(children: Vec<DomNode>) -> DomNode {
    DomNode::new_list_item(children)
}

#[test]
fn find_ranges_to_wrap_simple_text() {
    // Some text|
    let dom = Dom::new(vec![tn("Some text")]);
    let ret = dom.find_nodes_to_wrap_in_block(9, 9).unwrap();
    assert_eq!(ret.ancestor_handle, DomHandle::from_raw(Vec::new()));
    assert_eq!(ret.start_handle, DomHandle::from_raw(vec![0]));
    assert_eq!(ret.start_handle, DomHandle::from_raw(vec![0]));
}

#[test]
fn find_ranges_to_wrap_several_nodes() {
    // Some text| <b>and bold </b><i>and italic</i>
    let dom = Dom::new(vec![tn("Some text "), tag("b", vec![tn("and bold ")]), tag("i", vec![tn("and italic")])]);
    let ret = dom.find_nodes_to_wrap_in_block(9, 9).unwrap();
    assert_eq!(ret.ancestor_handle, DomHandle::from_raw(Vec::new()));
}

#[test]
fn find_ranges_to_wrap_several_nodes_with_line_break_at_end() {
    // Some text| <b>and bold </b><br/><i>and italic</i>
    let dom = Dom::new(vec![
        tn("Some text "),
        tag("b", vec![tn("and bold ")]),
        DomNode::new_line_break(),
        tag("i", vec![tn("and italic")]),
    ]);
    let ret = dom.find_nodes_to_wrap_in_block(9, 9).unwrap();
    assert_eq!(ret.ancestor_handle, DomHandle::from_raw(Vec::new()));
}

#[test]
fn find_ranges_to_wrap_several_nodes_with_line_break_at_start() {
    // Some text <br/><b>and bold </b><i>|and italic</i>
    let dom = Dom::new(vec![
        tn("Some text "),
        DomNode::new_line_break(),
        tag("b", vec![tn("and bold ")]),
        tag("i", vec![tn("and italic")]),
    ]);
    let ret = dom.find_nodes_to_wrap_in_block(20, 20).unwrap();
    assert_eq!(ret.ancestor_handle, DomHandle::from_raw(Vec::new()));
}

#[test]
fn find_ranges_to_wrap_list_item() {
    // <ul><li>Some text <b>and bold </b><i>|and italic</i></li></ul>
    let dom = Dom::new(vec![ul(vec![li(vec![
        tn("Some text "),
        tag("b", vec![tn("and bold ")]),
        tag("i", vec![tn("and italic")]),
    ])])]);
    let ret = dom.find_nodes_to_wrap_in_block(19, 19).unwrap();
    assert_eq!(ret.ancestor_handle, DomHandle::from_raw(vec![0, 0]));
}

#[test]
fn find_ranges_to_wrap_list_item_with_line_breaks() {
    // <ul><li>Some text <b>and bold </b><br/><i>and| italic</i></li></ul>
    let dom = Dom::new(vec![ul(vec![li(vec![
        tn("Some text "),
        tag("b", vec![tn("and bold ")]),
        DomNode::new_line_break(),
        tag("i", vec![tn("and italic")]),
    ])])]);
    let ret = dom.find_nodes_to_wrap_in_block(23, 23).unwrap();
    assert_eq!(ret.ancestor_handle, DomHandle::from_raw(vec![0, 0]));
}

#[test]
fn find_ranges_to_wrap_several_list_items() {
    // <ul><li>{First item</li><li>Second}| item</li></ul>
    let dom = Dom::new(vec![ul(vec![li(vec![tn("First item")]), li(vec![tn("Second item")])])]);
    let ret = dom.find_nodes_to_wrap_in_block(0, 16).unwrap();
    assert_eq!(ret.ancestor_handle, DomHandle::from_raw(vec![0]));
}

#[test]
fn find_ranges_to_wrap_list_and_external_nodes() {
    // {Text <ul><li>First item</li><li>Second}| item</li></ul>, the text in a paragraph
    let dom = Dom::new(vec![
        DomNode::new_paragraph(vec![tn("Text ")]),
        ul(vec![li(vec![tn("First item")]), li(vec![tn("Second item")])]),
    ]);
    let ret = dom.find_nodes_to_wrap_in_block(0, 21).unwrap();
    assert_eq!(ret.ancestor_handle, DomHandle::from_raw(Vec::new()));
}

#[test]
fn block_ancestor_of_a_nested_node_is_its_list_item() {
    let dom = Dom::new(vec![ul(vec![li(vec![tag("b", vec![tn("x")])])])]);
    assert_eq!(dom.find_block_ancestor_to_split(&DomHandle::from_raw(vec![0, 0, 0, 0])), DomHandle::from_raw(vec![0, 0]));
    assert_eq!(dom.find_block_ancestor_to_split(&DomHandle::from_raw(vec![0])), DomHandle::root());
}

#[test]
fn nothing_to_wrap_in_an_empty_document() {
    let dom = Dom::new(vec![]);
    assert!(dom.find_nodes_to_wrap_in_block(0, 0).is_none());
}

#[test]
fn inline_runs_among_block_nodes_go_into_paragraphs() {
    let mut d = Dom::new(vec![
        DomNode::new_text(chars_of("a")),
        DomNode::new_formatting(InlineFormatType::Bold, vec![DomNode::new_text(chars_of("b"))]),
        DomNode::new_paragraph(vec![DomNode::new_text(chars_of("c"))]),
        DomNode::new_text(chars_of("d")),
    ]);
    d.wrap_inline_nodes_into_paragraphs_at_container(&DomHandle::root());
    assert_eq!(String::from_iter(d.to_html()), "<p>a<strong>b</strong></p><p>c</p><p>d</p>");
    assert_eq!(d.children().len(), 3);
}

#[test]
fn inline_nodes_alone_are_not_wrapped() {
    let mut d = Dom::new(vec![DomNode::new_text(chars_of("a")), DomNode::new_line_break()]);
    d.wrap_inline_nodes_into_paragraphs_at_container(&DomHandle::root());
    assert_eq!(String::from_iter(d.to_html()), "a<br />");
    let mut e = Dom::new(vec![DomNode::new_paragraph(vec![DomNode::new_text(chars_of("a"))])]);
    e.wrap_inline_nodes_into_paragraphs_at_container(&DomHandle::root());
    assert_eq!(String::from_iter(e.to_html()), "<p>a</p>");
}
