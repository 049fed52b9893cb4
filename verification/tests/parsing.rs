use wysiwyg::dom::Dom;
use wysiwyg::html::ToHtml;
use wysiwyg::parser::{HtmlParser, ParsedElement, ParsedNode};
use wysiwyg::text::chars_of;

fn el(name: &str, attrs: Vec<(&str, &str)>, children: Vec<ParsedNode>) -> ParsedNode {
    ParsedNode::Element(ParsedElement {
        name: chars_of(name),
        attrs: attrs.into_iter().map(|(k, v)| (chars_of(k), chars_of(v))).collect(),
        children,
    })
}

fn pt(s: &str) -> ParsedNode {
    ParsedNode::Text(chars_of(s))
}

fn html(d: &Dom) -> String {
    String::from_iter(d.to_html())
}

/// HTML output with its non-breaking spaces written as plain spaces.
fn restore_whitespace(text: &str) -> String {
    text.replace('\u{A0}', " ")
}

/// The parsed form of `html` turns back into `html`.
fn assert_roundtrips(nodes: Vec<ParsedNode>, html_text: &str) {
    let dom = HtmlParser::parse_nodes(&nodes);
    assert_eq!(restore_whitespace(&html(&dom)), html_text);
}

#[test]
fn parse_plain_text() {
    assert_roundtrips(vec![pt("some text")], "some text");
}

#[test]
fn parse_simple_tag() {
    assert_roundtrips(vec![el("strong", vec![], vec![pt("sdfds")])], "<strong>sdfds</strong>");
}

#[test]
fn parse_tag_with_surrounding_text() {
    assert_roundtrips(
        vec![pt("before "), el("strong", vec![], vec![pt(" within ")]), pt(" after")],
        "before <strong> within </strong> after",
    );
    assert_roundtrips(
        vec![pt("before"), el("strong", vec![], vec![pt("within")]), pt("after")],
        "before<strong>within</strong>after",
    );
}

#[test]
fn parse_nested_tags() {
    assert_roundtrips(vec![el("b", vec![], vec![el("em", vec![], vec![pt("ZZ")])])], "<b><em>ZZ</em></b>");
    assert_roundtrips(
        vec![
            pt("X"),
            el("b", vec![], vec![pt("Y"), el("em", vec![], vec![pt("ZZ")]), pt("0")]),
            pt("1"),
        ],
        "X<b>Y<em>ZZ</em>0</b>1",
    );
    assert_roundtrips(
        vec![
            pt(" X "),
            el("b", vec![], vec![pt(" Y "), el("em", vec![], vec![pt(" ZZ ")]), pt(" 0 ")]),
            pt(" 1 "),
        ],
        " X <b> Y <em> ZZ </em> 0 </b> 1 ",
    );
}

#[test]
fn parse_tags_with_attributes() {
    assert_roundtrips(
        vec![el("b", vec![], vec![el("a", vec![("href", "http://example.com")], vec![pt("ZZ")])])],
        r#"<b><a href="http://example.com">ZZ</a></b>"#,
    );
}

#[test]
fn parse_br_tag() {
    assert_roundtrips(vec![el("br", vec![], vec![])], "<br />");
}

#[test]
fn parse_quote() {
    assert_roundtrips(
        vec![
            el("p", vec![], vec![pt("foo")]),
            el("blockquote", vec![], vec![pt("A quote")]),
            el("p", vec![], vec![pt("bar")]),
        ],
        "<p>foo</p><blockquote>A quote</blockquote><p>bar</p>",
    );
}

#[test]
fn parse_paragraph() {
    assert_roundtrips(
        vec![
            el("p", vec![], vec![pt("foo")]),
            el("p", vec![], vec![pt("A paragraph")]),
            el("p", vec![], vec![pt("bar")]),
        ],
        "<p>foo</p><p>A paragraph</p><p>bar</p>",
    );
}
