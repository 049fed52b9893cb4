use wysiwyg::dom::Dom;
use wysiwyg::html::ToHtml;
use wysiwyg::parser::{HtmlParser, ParsedElement, ParsedNode};
use wysiwyg::text::chars_of;
use wysiwyg::tree::DomNode;

fn html(d: &Dom) -> String {
    String::from_iter(d.to_html())
}

fn el(name: &str, children: Vec<ParsedNode>) -> ParsedNode {
    ParsedNode::Element(ParsedElement { name: chars_of(name), attrs: vec![], children })
}

fn pt(s: &str) -> ParsedNode {
    ParsedNode::Text(chars_of(s))
}

fn wrap(items: Vec<ParsedNode>, start: usize, end: usize) -> String {
    let mut d = HtmlParser::parse_nodes(&items);
    let range = d.find_range(start, end);
    let h = d.insert_parent(&range, DomNode::new_link(chars_of("link"), vec![]));
    assert!(d.lookup_node(&h).is_container_node());
    html(&d)
}

#[test]
fn insert_parent_flat_part() {
    assert_eq!(wrap(vec![pt("ABC")], 1, 2), r#"A<a href="link">B</a>C"#);
}

#[test]
fn insert_parent_flat_start() {
    assert_eq!(wrap(vec![pt("ABC")], 0, 2), r#"<a href="link">AB</a>C"#);
}

#[test]
fn insert_parent_flat_end() {
    assert_eq!(wrap(vec![pt("ABC")], 1, 3), r#"A<a href="link">BC</a>"#);
}

#[test]
fn insert_parent_flat_whole() {
    assert_eq!(wrap(vec![pt("ABC")], 0, 3), r#"<a href="link">ABC</a>"#);
}

#[test]
fn insert_parent_simple() {
    let items = vec![el("b", vec![pt("AB")]), el("i", vec![el("u", vec![pt("C")])])];
    assert_eq!(wrap(items, 0, 3), r#"<a href="link"><b>AB</b><i><u>C</u></i></a>"#);
}

#[test]
fn insert_parent_ignores_adjacent_nodes() {
    let items = vec![
        pt("X"),
        el("b", vec![pt("AB")]),
        el("i", vec![el("u", vec![pt("C")])]),
        el("u", vec![pt("D")]),
    ];
    assert_eq!(wrap(items, 1, 4), r#"X<a href="link"><b>AB</b><i><u>C</u></i></a><u>D</u>"#);
}

#[test]
fn insert_parent_splits_single_partially_covered_node() {
    let items = vec![el("b", vec![el("u", vec![pt("XXABCYY")])])];
    assert_eq!(wrap(items, 2, 5), r#"<b><u>XX<a href="link">ABC</a>YY</u></b>"#);
}

#[test]
fn insert_parent_splits_multiple_partially_covered_nodes() {
    let items = vec![pt("XXA"), el("b", vec![pt("B")]), el("u", vec![pt("CYY")])];
    assert_eq!(wrap(items, 2, 5), r#"XX<a href="link">A<b>B</b><u>C</u></a><u>YY</u>"#);
}

#[test]
fn insert_parent_splits_multiple_nested_partially_covered_nodes() {
    let items = vec![el("i", vec![el("u", vec![pt("XX")]), pt("ABC"), el("b", vec![pt("YY")])])];
    assert_eq!(
        wrap(items, 1, 6),
        r#"<i><u>X</u><a href="link"><u>X</u>ABC<b>Y</b></a><b>Y</b></i>"#
    );
}

#[test]
fn insert_parent_ignores_shared_parent_nodes() {
    let items = vec![el(
        "i",
        vec![el("em", vec![pt("XXA"), el("b", vec![pt("B")]), el("u", vec![pt("CYY")])])],
    )];
    assert_eq!(
        wrap(items, 2, 5),
        r#"<i><em>XX<a href="link">A<b>B</b><u>C</u></a><u>YY</u></em></i>"#
    );
}

#[test]
fn insert_parent_ignores_shared_parent_nodes_with_siblings() {
    let items = vec![
        el("u", vec![pt("U")]),
        el("i", vec![el("em", vec![pt("XXA"), el("b", vec![pt("B")]), el("u", vec![pt("CYY")])])]),
        el("u", vec![pt("W")]),
    ];
    assert_eq!(
        wrap(items, 3, 6),
        r#"<u>U</u><i><em>XX<a href="link">A<b>B</b><u>C</u></a><u>YY</u></em></i><u>W</u>"#
    );
}

#[test]
fn insert_parent_includes_covered_shared_parent_nodes() {
    let items = vec![el(
        "i",
        vec![el("em", vec![pt("A"), el("b", vec![pt("B")]), el("u", vec![pt("C")])]), pt("D")],
    )];
    assert_eq!(
        wrap(items, 0, 3),
        r#"<i><a href="link"><em>A<b>B</b><u>C</u></em></a>D</i>"#
    );
}
