use wysiwyg::dom::Dom;
use wysiwyg::html_formatter::{HtmlChar, HtmlFormatter};
use wysiwyg::markdown_html::{break_for_html, LineBreakKind, MarkdownHTMLParser};
use wysiwyg::text::chars_of;
use wysiwyg::to_tree::ToTree;
use wysiwyg::tree::DomNode;

fn s(v: Vec<char>) -> String {
    String::from_iter(v)
}

#[test]
fn formatter_writes_chars_and_slices() {
    let mut f = HtmlFormatter::new();
    f.write_char(HtmlChar::Lt);
    f.write(&['b']);
    f.write_char(HtmlChar::Gt);
    f.write_vec(vec!['x']);
    f.write_iter(&vec!['<', '/', 'b', '>']);
    f.write_at(1, &['a', ' ']);
    assert_eq!(s(f.finish()), "<a b>x</b>");
}

#[test]
fn formatter_keeps_runs_of_spaces_visible() {
    let mut f = HtmlFormatter::new();
    f.write_node(&DomNode::new_text(chars_of("a  b c")), false);
    assert_eq!(s(f.finish()), "a\u{A0}\u{A0}b c");
    let mut f = HtmlFormatter::new();
    f.write_node(&DomNode::new_text(chars_of("a ")), true);
    assert_eq!(s(f.finish()), "a\u{A0}");
    let mut f = HtmlFormatter::new();
    f.write_node(&DomNode::new_text(chars_of("a ")), false);
    assert_eq!(s(f.finish()), "a ");
    let mut f = HtmlFormatter::new();
    f.write_node(&DomNode::new_text(chars_of("<&>")), false);
    assert_eq!(s(f.finish()), "&lt;&amp;&gt;");
    let mut f = HtmlFormatter::new();
    f.write_node(&DomNode::new_line_break(), false);
    assert_eq!(s(f.finish()), "<br />");
}

#[test]
fn markdown_paragraph_is_unwrapped() {
    let html = MarkdownHTMLParser::to_html(&chars_of("**b** and *i*")).ok().unwrap();
    assert_eq!(s(html), "<strong>b</strong> and <em>i</em>");
}

#[test]
fn markdown_soft_breaks_become_line_breaks() {
    let html = MarkdownHTMLParser::to_html(&chars_of("a\nb")).ok().unwrap();
    assert_eq!(s(html), "a<br />b");
}

#[test]
fn markdown_lists_lose_their_line_breaks() {
    let html = MarkdownHTMLParser::to_html(&chars_of("- a\n- b")).ok().unwrap();
    assert_eq!(s(html), "<ul><li>a</li><li>b</li></ul>");
}

#[test]
fn markdown_strikethrough_is_enabled() {
    let html = MarkdownHTMLParser::to_html(&chars_of("~~x~~")).ok().unwrap();
    assert_eq!(s(html), "<del>x</del>");
}

#[test]
fn tidy_html_refuses_too_short_paragraph() {
    assert!(MarkdownHTMLParser::tidy_html(chars_of("<p>")).is_err());
    assert_eq!(s(MarkdownHTMLParser::tidy_html(chars_of("<p>ab</p>\n")).ok().unwrap()), "ab");
    assert_eq!(
        s(MarkdownHTMLParser::tidy_html(chars_of("<p>a</p>\n<p>b</p>\n")).ok().unwrap()),
        "<p>a</p><p>b</p>"
    );
}

#[test]
fn tree_view_of_document() {
    let dom = Dom::new(vec![
        DomNode::new_text(chars_of("a")),
        DomNode::new_formatting_from_tag(chars_of("b"), vec![DomNode::new_text(chars_of("b"))]),
    ]);
    assert_eq!(s(dom.to_tree()), "\n\u{251C}>\"a\"\n\u{2514}>b\n  \u{2514}>\"b\"\n");
}

#[test]
fn tree_view_shows_link_and_line_break() {
    let dom = Dom::new(vec![
        DomNode::new_link(chars_of("https://x.org"), vec![DomNode::new_text(chars_of("x"))]),
        DomNode::new_line_break(),
    ]);
    assert_eq!(
        s(dom.to_tree()),
        "\n\u{251C}>a \"https://x.org\"\n\u{2502} \u{2514}>\"x\"\n\u{2514}>br\n"
    );
}

#[test]
fn soft_breaks_are_handed_over_as_hard_ones_on_request() {
    assert_eq!(break_for_html(LineBreakKind::Soft, true), LineBreakKind::Hard);
    assert_eq!(break_for_html(LineBreakKind::Hard, true), LineBreakKind::Hard);
    assert_eq!(break_for_html(LineBreakKind::Soft, false), LineBreakKind::Soft);
    assert_eq!(break_for_html(LineBreakKind::Hard, false), LineBreakKind::Hard);
}
