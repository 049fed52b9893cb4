use wysiwyg::dom::Dom;
use wysiwyg::html::ToHtml;
use wysiwyg::parser::{HtmlParser, ParsedElement, ParsedNode};
use wysiwyg::text::chars_of;

fn html(d: &Dom) -> String {
    String::from_iter(d.to_html())
}

fn el(name: &str, children: Vec<ParsedNode>) -> ParsedNode {
    ParsedNode::Element(ParsedElement { name: chars_of(name), attrs: vec![], children })
}

fn pt(s: &str) -> ParsedNode {
    ParsedNode::Text(chars_of(s))
}

#[test]
fn replace_text_inside_one_text_node() {
    let mut d = HtmlParser::parse_nodes(&vec![pt("hello world")]);
    d.replace_text_in(chars_of("there"), 6, 11);
    assert_eq!(html(&d), "hello there");
}

#[test]
fn replace_text_across_formatting_goes_into_the_earlier_text() {
    let mut d = HtmlParser::parse_nodes(&vec![pt("foo "), el("strong", vec![pt("bar")]), pt(" baz")]);
    d.replace_text_in(chars_of("X"), 2, 6);
    assert_eq!(html(&d), "foX<strong>r</strong> baz");
}

#[test]
fn deleting_a_whole_formatting_node_merges_the_texts_around_it() {
    let mut d = HtmlParser::parse_nodes(&vec![pt("a"), el("em", vec![pt("b")]), pt("c")]);
    d.replace_text_in(Vec::new(), 1, 2);
    assert_eq!(html(&d), "ac");
    assert_eq!(d.document().children().len(), 1);
}

#[test]
fn typing_into_an_empty_document_adds_a_text_node() {
    let mut d = Dom::new(vec![]);
    d.replace_text_in(chars_of("hi"), 0, 0);
    assert_eq!(html(&d), "hi");
}

#[test]
fn typing_after_a_line_break_goes_into_the_next_text() {
    let mut d = HtmlParser::parse_nodes(&vec![pt("a"), el("br", vec![]), pt("b")]);
    d.replace_text_in(chars_of("X"), 2, 2);
    assert_eq!(html(&d), "a<br />Xb");
}

#[test]
fn typing_at_the_start_of_formatting_goes_inside_it() {
    let mut d = HtmlParser::parse_nodes(&vec![el("strong", vec![pt("abc")])]);
    d.replace_text_in(chars_of("X"), 0, 0);
    assert_eq!(html(&d), "<strong>Xabc</strong>");
}

#[test]
fn deleting_a_line_break_joins_the_lines() {
    let mut d = HtmlParser::parse_nodes(&vec![pt("a"), el("br", vec![]), pt("b")]);
    d.replace_text_in(Vec::new(), 1, 2);
    assert_eq!(html(&d), "ab");
    assert_eq!(d.document().children().len(), 1);
}

#[test]
fn deleting_everything_leaves_an_empty_document() {
    let mut d = HtmlParser::parse_nodes(&vec![pt("a"), el("em", vec![pt("bc")])]);
    d.replace_text_in(Vec::new(), 0, 3);
    assert_eq!(html(&d), "");
    assert_eq!(d.document().children().len(), 0);
}

#[test]
fn typing_over_a_selection_is_undone_by_putting_it_back() {
    let mut d = HtmlParser::parse_nodes(&vec![pt("hello "), el("em", vec![pt("world")])]);
    d.replace_text_in(chars_of("bye"), 0, 5);
    assert_eq!(html(&d), "bye <em>world</em>");
    d.replace_text_in(chars_of("hello"), 0, 3);
    assert_eq!(html(&d), "hello <em>world</em>");
}
