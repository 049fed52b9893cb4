use wysiwyg::dom::Dom;
use wysiwyg::handle::DomHandle;
use wysiwyg::html::ToHtml;
use wysiwyg::kinds::ListType;
use wysiwyg::text::chars_of;
use wysiwyg::tree::DomNode;

fn tn(s: &str) -> DomNode {
    DomNode::new_text(chars_of(s))
}

fn tag(t: &str, children: Vec<DomNode>) -> DomNode {
    DomNode::new_formatting_from_tag(chars_of(t), children)
}

fn html(d: &Dom) -> String {
    String::from_iter(d.to_html())
}

fn h(path: Vec<usize>) -> DomHandle {
    DomHandle::from_raw(path)
}

/// Text|<b>bold</b><i>italic</i>
fn text_bold_italic() -> Dom {
    Dom::new(vec![tn("Text"), tag("b", vec![tn("bold")]), tag("i", vec![tn("italic")])])
}

/// <u>Text|<b>bold</b><i>italic</i></u>
fn underlined() -> Dom {
    Dom::new(vec![tag("u", vec![tn("Text"), tag("b", vec![tn("bold")]), tag("i", vec![tn("italic")])])])
}

/// <ul><li>Text|</li><li><b>bold</b><i>italic</i></li></ul>
fn list() -> Dom {
    Dom::new(vec![DomNode::new_list(
        ListType::Unordered,
        vec![
            DomNode::new_list_item(vec![tn("Text")]),
            DomNode::new_list_item(vec![tag("b", vec![tn("bold")]), tag("i", vec![tn("italic")])]),
        ],
    )])
}

#[test]
fn split_dom_simple() {
    let mut dom = text_bold_italic();
    let ret = dom.split_sub_tree_from(&h(vec![1, 0]), 2, 0);
    assert_eq!(html(&dom), "Text<b>bo</b>");
    assert_eq!(html(&ret), "<b>ld</b><i>italic</i>");
}

#[test]
fn split_dom_with_emojis() {
    // Offsets count characters here: 1 is after the first emoji.
    let mut dom = Dom::new(vec![
        tn("👍👍"),
        tag("b", vec![tn("👍👍")]),
        tag("i", vec![tn("👍👍")]),
    ]);
    let ret = dom.split_sub_tree_from(&h(vec![1, 0]), 1, 0);
    assert_eq!(html(&dom), "👍👍<b>👍</b>");
    assert_eq!(html(&ret), "<b>👍</b><i>👍👍</i>");
}

#[test]
fn split_dom_with_nested_formatting() {
    let mut dom = underlined();
    let ret = dom.split_sub_tree_from(&h(vec![0, 1, 0]), 2, 0);
    assert_eq!(html(&dom), "<u>Text<b>bo</b></u>");
    assert_eq!(html(&ret), "<u><b>ld</b><i>italic</i></u>");
}

#[test]
fn split_dom_with_nested_formatting_at_sub_level() {
    let mut dom = underlined();
    let ret = dom.split_sub_tree_from(&h(vec![0, 1, 0]), 2, 1);
    assert_eq!(html(&ret), "<u><b>ld</b><i>italic</i></u>");
    assert_eq!(html(&ret), "<u><b>ld</b><i>italic</i></u>");
}

#[test]
fn split_dom_with_lists() {
    let mut dom = list();
    let ret = dom.split_sub_tree_from(&h(vec![0, 1, 0, 0]), 2, 0);
    assert_eq!(html(&dom), "<ul><li>Text</li><li><b>bo</b></li></ul>");
    assert_eq!(html(&ret), "<ul><li><b>ld</b><i>italic</i></li></ul>");
}

#[test]
fn split_dom_with_lists_at_sub_level() {
    let mut dom = list();
    let ret = dom.split_sub_tree_from(&h(vec![0, 1, 0, 0]), 2, 1);
    assert_eq!(html(&ret), "<ul><li><b>ld</b><i>italic</i></li></ul>");
    assert_eq!(html(&ret), "<ul><li><b>ld</b><i>italic</i></li></ul>");
}

#[test]
fn split_dom_with_partial_handle() {
    let mut dom = underlined();
    let ret = dom.split_sub_tree_from(&h(vec![0, 1]), 2, 0);
    assert_eq!(html(&dom), "<u>Text<b>bo</b></u>");
    assert_eq!(html(&ret), "<u><b>ld</b><i>italic</i></u>");
}

#[test]
fn split_new_sub_trees() {
    let dom = text_bold_italic();
    let (left, left_handle, right, right_handle) = dom.split_new_sub_trees(&h(vec![1, 0]), 2, 0);
    assert_eq!(html(&right), "<b>ld</b>");
    assert_eq!(right_handle, h(vec![0, 0]));
    assert_eq!(String::from_iter(right.lookup_node(&right_handle).to_html()), "ld");
    assert_eq!(html(&left), "<b>bo</b>");
    assert_eq!(left_handle, h(vec![0, 0]));
    assert_eq!(String::from_iter(left.lookup_node(&left_handle).to_html()), "bo");
    assert_eq!(html(&dom), "Text<b>bold</b><i>italic</i>");
}

#[test]
fn split_new_sub_trees_at_depth() {
    let dom = underlined();
    let (left, left_handle, right, right_handle) = dom.split_new_sub_trees(&h(vec![0, 1, 0]), 2, 1);
    assert_eq!(html(&right), "<b>ld</b>");
    assert_eq!(right_handle, h(vec![0, 0]));
    assert_eq!(String::from_iter(right.lookup_node(&right_handle).to_html()), "ld");
    assert_eq!(html(&left), "<b>bo</b>");
    assert_eq!(left_handle, h(vec![0, 0]));
    assert_eq!(String::from_iter(left.lookup_node(&left_handle).to_html()), "bo");
}

#[test]
fn split_between_in_one_text_cuts_where_it_starts() {
    let mut dom = Dom::new(vec![tn("abcdef")]);
    let ret = dom.split_sub_tree_between(&h(vec![0]), 2, &h(vec![0]), 4, 0);
    assert_eq!(html(&dom), "ab");
    assert_eq!(html(&ret), "cdef");
}

#[test]
fn split_removes_containers_left_empty() {
    let mut dom = Dom::new(vec![tag("b", vec![tn("ab")]), tag("i", vec![tn("cd")])]);
    let ret = dom.split_sub_tree_from(&h(vec![0, 0]), 0, 0);
    assert_eq!(html(&dom), "");
    assert_eq!(html(&ret), "<b>ab</b><i>cd</i>");
}

#[test]
fn split_takes_line_breaks_after_the_cut() {
    let mut dom = Dom::new(vec![tn("ab"), DomNode::new_line_break(), tn("cd")]);
    let ret = dom.split_sub_tree_from(&h(vec![0]), 1, 0);
    assert_eq!(html(&dom), "a");
    assert_eq!(html(&ret), "b<br />cd");
}
