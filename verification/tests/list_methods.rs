use wysiwyg::dom::Dom;
use wysiwyg::handle::DomHandle;
use wysiwyg::html::ToHtml;
use wysiwyg::kinds::ListType;
use wysiwyg::text::chars_of;
use wysiwyg::tree::DomNode;

fn tn(s: &str) -> DomNode {
    DomNode::new_text(chars_of(s))
}

fn tag(t: &str, children: Vec<DomNode>) -> DomNode {
    DomNode::new_formatting_from_tag(chars_of(t), children)
}

fn br() -> DomNode {
    DomNode::new_line_break()
}

fn p(children: Vec<DomNode>) -> DomNode {
    DomNode::new_paragraph(children)
}

fn ds(dom: &Dom) -> String {
    String::from_iter(dom.to_html()).replace('\u{A0}', "&nbsp;")
}

fn h(i: usize) -> DomHandle {
    DomHandle::from_raw(vec![i])
}

fn wrap_top(dom: &mut Dom, count: usize) {
    let handles: Vec<DomHandle> = (0..count).map(h).collect();
    dom.wrap_nodes_in_list(ListType::Ordered, handles.iter().collect());
}

/// abc<br />def<br />ghi ... as text nodes separated by line breaks.
fn lines(parts: &[&str]) -> Dom {
    let mut nodes = Vec::new();
    for (i, part) in parts.iter().enumerate() {
        if i > 0 {
            nodes.push(br());
        }
        nodes.push(tn(part));
    }
    Dom::new(nodes)
}

#[test]
fn wrap_consecutive_nodes_in_list() {
    // abc<strong>de<em>f<br />gh</em>i</strong>jkl|
    let mut dom = Dom::new(vec![
        tn("abc"),
        tag("strong", vec![tn("de"), tag("em", vec![tn("f"), br(), tn("gh")]), tn("i")]),
        tn("jkl"),
    ]);
    wrap_top(&mut dom, 3);
    assert_eq!(
        ds(&dom),
        "<ol><li>abc<strong>de<em>f</em></strong></li><li><strong><em>gh</em>i</strong>jkl</li></ol>",
    );

    dom.extract_from_list(&h(0));

    assert_eq!(ds(&dom), "<p>abc<strong>de<em>f</em></strong></p><p><strong><em>gh</em>i</strong>jkl</p>",);
}

#[test]
fn extract_first_list_item() {
    let mut dom = lines(&["abc", "def"]);
    wrap_top(&mut dom, 3);
    assert_eq!(ds(&dom), "<ol><li>abc</li><li>def</li></ol>");

    dom.extract_list_items(&h(0), 0, 1);
    assert_eq!(ds(&dom), "<p>abc</p><ol><li>def</li></ol>");
}

#[test]
fn extract_first_list_items() {
    let mut dom = lines(&["abc", "def", "ghi"]);
    wrap_top(&mut dom, 5);
    assert_eq!(ds(&dom), "<ol><li>abc</li><li>def</li><li>ghi</li></ol>");

    dom.extract_list_items(&h(0), 0, 2);
    assert_eq!(ds(&dom), "<p>abc</p><p>def</p><ol><li>ghi</li></ol>");
}

#[test]
fn extract_last_list_item() {
    let mut dom = lines(&["abc", "def"]);
    wrap_top(&mut dom, 3);
    assert_eq!(ds(&dom), "<ol><li>abc</li><li>def</li></ol>");

    dom.extract_list_items(&h(0), 1, 1);
    assert_eq!(ds(&dom), "<ol><li>abc</li></ol><p>def</p>");
}

#[test]
fn extract_last_list_items() {
    let mut dom = lines(&["abc", "def", "ghi"]);
    wrap_top(&mut dom, 5);
    assert_eq!(ds(&dom), "<ol><li>abc</li><li>def</li><li>ghi</li></ol>");

    dom.extract_list_items(&h(0), 1, 2);
    assert_eq!(ds(&dom), "<ol><li>abc</li></ol><p>def</p><p>ghi</p>");
}

#[test]
fn extract_middle_list_item() {
    let mut dom = lines(&["abc", "def", "ghi", "jkl"]);
    wrap_top(&mut dom, 7);
    assert_eq!(ds(&dom), "<ol><li>abc</li><li>def</li><li>ghi</li><li>jkl</li></ol>");

    dom.extract_list_items(&h(0), 1, 1);
    assert_eq!(ds(&dom), "<ol><li>abc</li></ol><p>def</p><ol><li>ghi</li><li>jkl</li></ol>");
}

#[test]
fn extract_middle_list_items() {
    let mut dom = lines(&["abc", "def", "ghi", "jkl"]);
    wrap_top(&mut dom, 7);
    assert_eq!(ds(&dom), "<ol><li>abc</li><li>def</li><li>ghi</li><li>jkl</li></ol>");

    dom.extract_list_items(&h(0), 1, 2);
    assert_eq!(ds(&dom), "<ol><li>abc</li></ol><p>def</p><p>ghi</p><ol><li>jkl</li></ol>");
}

#[test]
fn extract_single_list_item() {
    let mut dom = lines(&["abc"]);
    wrap_top(&mut dom, 1);
    assert_eq!(ds(&dom), "<ol><li>abc</li></ol>");

    dom.extract_list_items(&h(0), 0, 1);
    assert_eq!(ds(&dom), "<p>abc</p>");
}

#[test]
fn extract_entire_list() {
    let mut dom = lines(&["abc", "def", "ghi"]);
    wrap_top(&mut dom, 5);
    assert_eq!(ds(&dom), "<ol><li>abc</li><li>def</li><li>ghi</li></ol>");

    dom.extract_list_items(&h(0), 0, 3);
    assert_eq!(ds(&dom), "<p>abc</p><p>def</p><p>ghi</p>");
}

#[test]
fn slice_list_item() {
    // <em>abcd</em>ef|
    let mut dom = Dom::new(vec![tag("em", vec![tn("abcd")]), tn("ef")]);
    wrap_top(&mut dom, 2);
    assert_eq!(ds(&dom), "<ol><li><em>abcd</em>ef</li></ol>");

    dom.slice_list_item(&DomHandle::from_raw(vec![0, 0]), 3);
    assert_eq!(ds(&dom), "<ol><li><em>abc</em></li><li><em>d</em>ef</li></ol>");
}

fn list_roundtrips(nodes: Vec<DomNode>, start: usize, end: usize) {
    let mut dom = Dom::new(nodes);
    let before = ds(&dom);
    let range = dom.find_extended_range(start, end);
    let locations = range.top_level_locations();
    let handles: Vec<&DomHandle> = locations.iter().map(|l| &l.node_handle).collect();
    let first_handle = handles[0].clone();
    dom.wrap_nodes_in_list(ListType::Ordered, handles);
    dom.extract_from_list(&first_handle);
    assert_eq!(ds(&dom), before);
}

#[test]
fn wrap_and_remove_lists() {
    // <p>abc<strong>de<em>f</em></strong></p><p><strong><em>gh</em>i</strong>jkl|</p>
    list_roundtrips(
        vec![
            p(vec![tn("abc"), tag("strong", vec![tn("de"), tag("em", vec![tn("f")])])]),
            p(vec![tag("strong", vec![tag("em", vec![tn("gh")]), tn("i")]), tn("jkl")]),
        ],
        12,
        12,
    );
    // <p>abc|</p>
    list_roundtrips(vec![p(vec![tn("abc")])], 3, 3);
    // <p>&nbsp;</p><p>abc</p><p>&nbsp;|</p>
    list_roundtrips(vec![p(vec![tn("\u{A0}")]), p(vec![tn("abc")]), p(vec![tn("\u{A0}")])], 5, 5);
    // <p><em>ab|c</em></p>
    list_roundtrips(vec![p(vec![tag("em", vec![tn("abc")])])], 2, 2);
    // <p>{&nbsp;</p><p>&nbsp;}|</p>
    list_roundtrips(vec![p(vec![tn("\u{A0}")]), p(vec![tn("\u{A0}")])], 0, 2);
}

#[test]
fn wrap_with_no_handles_appends_an_empty_list() {
    let mut dom = Dom::new(vec![tn("abc")]);
    dom.wrap_nodes_in_list(ListType::Unordered, Vec::new());
    assert_eq!(ds(&dom), "abc<ul><li></li></ul>");
}

#[test]
fn wrap_block_nodes_makes_one_item_each() {
    let mut dom = Dom::new(vec![p(vec![tn("a")]), p(vec![tn("b")])]);
    wrap_top(&mut dom, 2);
    assert_eq!(ds(&dom), "<ol><li>a</li><li>b</li></ol>");
}

#[test]
fn wrap_quote_takes_its_children() {
    let mut dom = Dom::new(vec![DomNode::new_quote(vec![p(vec![tn("a")]), p(vec![tn("b")])])]);
    wrap_top(&mut dom, 1);
    assert_eq!(ds(&dom), "<ol><li>a</li><li>b</li></ol>");
}

#[test]
fn wrap_keeps_empty_pieces_between_line_breaks() {
    let mut dom = Dom::new(vec![tn("a"), br(), br(), tn("b")]);
    wrap_top(&mut dom, 4);
    assert_eq!(ds(&dom), "<ol><li>a</li><li></li><li>b</li></ol>");
}

#[test]
fn wrap_drops_an_empty_first_piece() {
    let mut dom = Dom::new(vec![br(), tn("b")]);
    wrap_top(&mut dom, 2);
    assert_eq!(ds(&dom), "<ol><li>b</li></ol>");
}

#[test]
fn new_list_joins_a_list_before_it() {
    let mut dom = lines(&["abc", "def"]);
    wrap_top(&mut dom, 1);
    assert_eq!(ds(&dom), "<ol><li>abc</li></ol><br />def");
    dom.wrap_nodes_in_list(ListType::Ordered, vec![&h(1), &h(2)]);
    assert_eq!(ds(&dom), "<ol><li>abc</li><li>def</li></ol>");
}

#[test]
fn wrap_beside_an_empty_paragraph_and_formatting() {
    let mut dom = Dom::new(vec![
        p(vec![tag("em", vec![])]),
        tn("abc"),
        tag("strong", vec![tn("x"), tag("em", vec![]), tn("z")]),
    ]);
    dom.wrap_nodes_in_list(ListType::Unordered, vec![&h(1)]);
    assert_eq!(ds(&dom), "<p><em></em></p><ul><li>abc</li></ul><strong>x<em></em>z</strong>");
}
