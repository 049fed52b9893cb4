use wysiwyg::dom::Dom;
use wysiwyg::handle::DomHandle;
use wysiwyg::html::ToHtml;
use wysiwyg::kinds::{InlineFormatType, ListType};
use wysiwyg::parser::{HtmlParser, ParsedElement, ParsedNode};
use wysiwyg::range::{DomLocation, Range};
use wysiwyg::text::chars_of;
use wysiwyg::tree::{ContainerNode, DomNode, DomNodeKind};

fn tn(s: &str) -> DomNode {
    DomNode::new_text(chars_of(s))
}

fn html(d: &Dom) -> String {
    String::from_iter(d.to_html())
}

fn el(name: &str, attrs: Vec<(&str, &str)>, children: Vec<ParsedNode>) -> ParsedNode {
    ParsedNode::Element(ParsedElement {
        name: chars_of(name),
        attrs: attrs.into_iter().map(|(k, v)| (chars_of(k), chars_of(v))).collect(),
        children,
    })
}

fn pt(s: &str) -> ParsedNode {
    ParsedNode::Text(chars_of(s))
}

#[test]
fn parsing_formatting_and_links() {
    let d = HtmlParser::parse_nodes(&vec![
        pt("foo "),
        el("strong", vec![], vec![pt("bar")]),
        el("a", vec![("class", "x"), ("href", "https://x.org")], vec![pt("link")]),
    ]);
    assert_eq!(html(&d), "foo <strong>bar</strong><a href=\"https://x.org\">link</a>");
}

#[test]
fn parsing_lists_quotes_and_paragraphs() {
    let d = HtmlParser::parse_nodes(&vec![
        el("ol", vec![], vec![el("li", vec![], vec![pt("a")])]),
        el("blockquote", vec![], vec![el("p", vec![], vec![pt("q")])]),
        el("br", vec![], vec![]),
    ]);
    assert_eq!(html(&d), "<ol><li>a</li></ol><blockquote><p>q</p></blockquote><br />");
}

#[test]
fn parsing_code_block_splits_lines() {
    let d = HtmlParser::parse_nodes(&vec![el("pre", vec![], vec![el("code", vec![], vec![pt("a\nb\n\u{A0}\nc")])])]);
    assert_eq!(html(&d), "<pre>a<br />b<br /><br />c</pre>");
}

#[test]
fn parsing_drops_unknown_tags_and_lone_nbsp() {
    let d = HtmlParser::parse_nodes(&vec![
        el("html", vec![], vec![pt("x"), el("span", vec![], vec![pt("gone")]), pt("\u{A0}"), pt("&nbsp;")]),
        el("code", vec![], vec![pt("c")]),
    ]);
    assert_eq!(html(&d), "x<code>c</code>");
}

#[test]
fn inserting_into_the_middle_of_text_splits_it() {
    let mut d = Dom::new(vec![tn("abc")]);
    d.insert_into_text(&DomHandle::from_raw(vec![0]), 1, DomNode::new_line_break());
    assert_eq!(html(&d), "a<br />bc");
    assert_eq!(d.children().len(), 3);
    assert_eq!(d.children()[2].handle().raw(), &vec![2]);
}

#[test]
fn inserting_at_the_edges_of_text_does_not_split_it() {
    let mut d = Dom::new(vec![tn("abc")]);
    d.insert_into_text(&DomHandle::from_raw(vec![0]), 0, tn("x"));
    assert_eq!(html(&d), "xabc");
    let mut d = Dom::new(vec![tn("abc")]);
    d.insert_into_text(&DomHandle::from_raw(vec![0]), 3, tn("x"));
    assert_eq!(html(&d), "abcx");
    let mut d = Dom::new(vec![DomNode::new_line_break()]);
    d.insert_into_text(&DomHandle::from_raw(vec![0]), 1, tn("x"));
    assert_eq!(html(&d), "<br />x");
}

#[test]
fn last_node_handle_goes_down_the_last_children() {
    let d = Dom::new(vec![tn("a"), DomNode::new_formatting(InlineFormatType::Bold, vec![tn("b"), tn("c")])]);
    assert_eq!(d.last_node_handle().raw(), &vec![1, 1]);
    assert_eq!(Dom::new(vec![]).last_node_handle().raw(), &Vec::<usize>::new());
}

#[test]
fn leading_zwsp_is_added_and_removed() {
    let mut c = ContainerNode::new_paragraph(vec![tn("a")]);
    assert!(c.add_leading_zwsp());
    assert_eq!(String::from_iter(c.to_raw_text()), "\u{200B}a");
    assert!(!c.add_leading_zwsp());
    assert!(c.remove_leading_zwsp());
    assert_eq!(String::from_iter(c.to_raw_text()), "a");
    assert!(!c.remove_leading_zwsp());
    let mut empty = ContainerNode::new_paragraph(vec![]);
    assert!(!empty.add_leading_zwsp());
}

#[test]
fn leading_line_break_is_removed_and_zwsp_replaced() {
    let mut c = ContainerNode::new_paragraph(vec![DomNode::new_line_break(), tn("a")]);
    assert!(c.remove_leading_line_break());
    assert_eq!(String::from_iter(c.to_raw_text()), "a");
    let mut c = ContainerNode::new_paragraph(vec![DomNode::new_zwsp(), tn("a")]);
    assert!(c.replace_leading_zwsp_with_linebreak());
    assert_eq!(String::from_iter(c.to_raw_text()), "\\na");
}

#[test]
fn line_break_positions_are_offsets_in_the_text() {
    let c = ContainerNode::new_paragraph(vec![
        tn("ab"),
        DomNode::new_line_break(),
        DomNode::new_formatting(InlineFormatType::Bold, vec![tn("c"), DomNode::new_line_break()]),
    ]);
    assert_eq!(c.line_break_positions(), vec![2, 4]);
}

#[test]
fn list_item_emptiness_and_list_type() {
    let li = ContainerNode::new_list_item(vec![DomNode::new_zwsp()]);
    assert!(li.is_empty_list_item());
    let li = ContainerNode::new_list_item(vec![tn("x")]);
    assert!(!li.is_empty_list_item());
    let mut list = ContainerNode::new_list(ListType::Ordered, vec![]);
    list.set_list_type(ListType::Unordered);
    assert_eq!(String::from_iter(list.name().iter()), "ul");
    let mut link = ContainerNode::new_link(chars_of("a"), vec![]);
    link.set_link(chars_of("b"));
    assert_eq!(String::from_iter(link.get_link().unwrap()), "b");
    assert!(list.get_link().is_none());
}

#[test]
fn pushing_compatibility() {
    assert!(tn("a").can_push(&tn("b")));
    assert!(!tn("a").can_push(&DomNode::new_line_break()));
    let b1 = DomNode::new_formatting(InlineFormatType::Bold, vec![]);
    let b2 = DomNode::new_formatting(InlineFormatType::Bold, vec![]);
    let i1 = DomNode::new_formatting(InlineFormatType::Italic, vec![]);
    assert!(b1.can_push(&b2));
    assert!(!b1.can_push(&i1));
    assert!(!DomNode::new_list_item(vec![]).can_push(&DomNode::new_list_item(vec![])));
    assert!(tn("").is_empty());
    assert!(!tn("a").is_empty());
}

fn loc(path: Vec<usize>, start: usize, end: usize, length: usize, kind: DomNodeKind) -> DomLocation {
    DomLocation::new(DomHandle::from_raw(path), 0, start, end, length, kind)
}

#[test]
fn range_shared_parent_of_two_leaves() {
    let locations = vec![
        loc(vec![0], 0, 4, 4, DomNodeKind::Paragraph),
        loc(vec![0, 0], 1, 2, 2, DomNodeKind::Text),
        loc(vec![0, 1], 0, 1, 2, DomNodeKind::Text),
    ];
    let range = Range::new(&locations);
    assert_eq!(range.shared_parent().raw(), &vec![0]);
    assert_eq!(range.shared_parent_outside().raw(), &Vec::<usize>::new());
    assert_eq!(range.top_level_depth(), 1);
    assert_eq!(range.top_level_locations().len(), 1);
}

#[test]
fn range_shared_parent_of_partly_selected_node() {
    let locations = vec![
        loc(vec![0], 1, 3, 4, DomNodeKind::Paragraph),
        loc(vec![0, 0], 1, 2, 2, DomNodeKind::Text),
        loc(vec![0, 1], 0, 1, 2, DomNodeKind::Text),
    ];
    let range = Range::new(&locations);
    assert_eq!(range.shared_parent_outside().raw(), &vec![0]);
}

fn node_html(n: &DomNode) -> String {
    String::from_iter(n.to_html())
}

#[test]
fn slice_after_splits_a_formatting_container() {
    let mut n = DomNode::new_formatting(InlineFormatType::Bold, vec![tn("abc"), tn("def")]);
    let after = n.slice_after(4);
    assert_eq!(node_html(&n), "<strong>abcd</strong>");
    assert_eq!(node_html(&after), "<strong>ef</strong>");
}

#[test]
fn slice_after_on_a_boundary_keeps_whole_children() {
    let mut n = DomNode::new_formatting(InlineFormatType::Italic, vec![tn("abc"), tn("def")]);
    let after = n.slice_after(3);
    assert_eq!(String::from_iter(n.to_raw_text()), "abc");
    assert_eq!(String::from_iter(after.to_raw_text()), "def");
}

#[test]
fn slice_before_splits_a_text_node() {
    let mut n = tn("hello");
    let before = n.slice_before(2);
    assert_eq!(node_html(&before), "he");
    assert_eq!(node_html(&n), "llo");
}

#[test]
fn slice_before_a_container_in_the_middle() {
    let mut n = DomNode::new_formatting(InlineFormatType::Bold, vec![tn("abc"), tn("def")]);
    let before = n.slice_before(4);
    assert_eq!(node_html(&before), "<strong>abcd</strong>");
    assert_eq!(node_html(&n), "<strong>ef</strong>");
}

#[test]
fn slice_before_a_container_at_its_end_gives_nothing() {
    let mut n = DomNode::new_formatting(InlineFormatType::Bold, vec![tn("abc")]);
    let before = n.slice_before(3);
    assert_eq!(String::from_iter(before.to_raw_text()), "");
    assert_eq!(node_html(&n), "<strong>abc</strong>");
}

#[test]
fn push_merges_text_nodes() {
    let mut a = tn("foo");
    let mut b = tn("bar");
    a.push(&mut b);
    assert_eq!(node_html(&a), "foobar");
}

#[test]
fn push_merges_formatting_containers() {
    let mut a = DomNode::new_formatting(InlineFormatType::Bold, vec![tn("foo")]);
    let mut b = DomNode::new_formatting(InlineFormatType::Bold, vec![tn("bar"), DomNode::new_line_break()]);
    a.set_handle(DomHandle::from_raw(vec![0]));
    b.set_handle(DomHandle::from_raw(vec![1]));
    a.push(&mut b);
    assert_eq!(node_html(&a), "<strong>foobar<br /></strong>");
}

#[test]
fn replacing_a_node_with_its_children_joins_the_texts() {
    let mut d = Dom::new(vec![
        tn("a"),
        DomNode::new_formatting_from_tag(chars_of("b"), vec![tn("b"), DomNode::new_formatting_from_tag(chars_of("i"), vec![tn("c")])]),
        tn("d"),
    ]);
    let moved = d.replace_node_with_its_children(&DomHandle::from_raw(vec![1]));
    assert_eq!(html(&d), "ab<i>c</i>d");
    assert_eq!(moved, vec![DomHandle::from_raw(vec![3])]);
    let mut t = Dom::new(vec![tn("x")]);
    assert!(t.replace_node_with_its_children(&DomHandle::from_raw(vec![0])).is_empty());
    assert_eq!(html(&t), "x");
}

#[test]
fn only_a_block_followed_by_a_sibling_adds_a_line_break() {
    let d = Dom::new(vec![
        DomNode::new_paragraph(vec![tn("a")]),
        DomNode::new_paragraph(vec![tn("b")]),
    ]);
    assert!(d.adds_line_break(&DomHandle::from_raw(vec![0])));
    assert!(!d.adds_line_break(&DomHandle::from_raw(vec![1])));
    assert!(!d.adds_line_break(&DomHandle::from_raw(vec![0, 0])));
    assert!(!d.adds_line_break(&DomHandle::root()));
}

#[test]
fn leading_zwsp_line_break_and_no_text_are_seen() {
    let c = ContainerNode::new_paragraph(vec![DomNode::new_formatting(InlineFormatType::Bold, vec![DomNode::new_zwsp(), tn("a")])]);
    assert!(c.has_leading_zwsp());
    assert!(!c.has_leading_line_break());
    let n = DomNode::new_paragraph(vec![DomNode::new_line_break(), tn("a")]);
    assert!(n.has_leading_line_break());
    assert!(!n.has_leading_zwsp());
    assert!(DomNode::new_paragraph(vec![tn(""), DomNode::new_formatting(InlineFormatType::Bold, vec![])]).has_no_text());
    assert!(!DomNode::new_paragraph(vec![tn(""), tn("a")]).has_no_text());
    assert!(!DomNode::new_line_break().has_no_text());
}

#[test]
fn joining_merges_runs_of_same_kind_nodes() {
    let mut d = Dom::new(vec![
        tn("a"),
        tn("b"),
        DomNode::new_formatting(InlineFormatType::Bold, vec![tn("c")]),
        DomNode::new_formatting(InlineFormatType::Bold, vec![tn("d")]),
        DomNode::new_line_break(),
        tn("e"),
    ]);
    d.join_nodes_in_container(&DomHandle::root());
    assert_eq!(html(&d), "ab<strong>cd</strong><br />e");
    assert_eq!(d.children().len(), 4);
}

#[test]
fn last_child_can_be_changed_in_place() {
    let mut c = ContainerNode::new_paragraph(vec![tn("a"), tn("b")]);
    if let Some(DomNode::Text(t)) = c.last_child_mut() {
        t.set_data(chars_of("z"));
    }
    assert_eq!(String::from_iter(c.to_raw_text()), "az");
    let mut e = ContainerNode::new_paragraph(vec![]);
    assert!(e.last_child_mut().is_none());
}

#[test]
fn joining_leaves_an_empty_container_that_is_not_pushed() {
    let mut d = Dom::new(vec![
        DomNode::new_formatting(InlineFormatType::Italic, vec![]),
        DomNode::new_formatting(
            InlineFormatType::Bold,
            vec![tn("c"), DomNode::new_formatting(InlineFormatType::Italic, vec![]), tn("d")],
        ),
        DomNode::new_formatting(InlineFormatType::Bold, vec![tn("e")]),
        tn("f"),
        tn("g"),
    ]);
    d.join_nodes_in_container(&DomHandle::root());
    assert_eq!(html(&d), "<em></em><strong>c<em></em>de</strong>fg");
    assert_eq!(d.children().len(), 3);
}

fn loc_at(path: Vec<usize>, position: usize, start: usize, end: usize, length: usize, kind: DomNodeKind) -> DomLocation {
    DomLocation::new(DomHandle::from_raw(path), position, start, end, length, kind)
}

#[test]
fn deepest_block_node_is_the_greatest_block_handle() {
    let range = Range::new(&vec![
        loc(vec![0], 0, 2, 2, DomNodeKind::Paragraph),
        loc(vec![0, 0], 0, 2, 2, DomNodeKind::Text),
        loc(vec![], 0, 2, 5, DomNodeKind::Generic),
        loc(vec![1], 0, 0, 3, DomNodeKind::List),
    ]);
    assert_eq!(range.deepest_block_node(None).unwrap().node_handle.raw(), &vec![1]);
    let inside = DomHandle::from_raw(vec![0, 0]);
    assert_eq!(range.deepest_block_node(Some(inside)).unwrap().node_handle.raw(), &vec![0]);
    let elsewhere = DomHandle::from_raw(vec![5]);
    assert_eq!(range.deepest_block_node(Some(elsewhere)).unwrap().node_handle.raw(), &Vec::<usize>::new());
    let texts = Range::new(&vec![loc(vec![0, 0], 0, 2, 2, DomNodeKind::Text)]);
    assert!(texts.deepest_block_node(None).is_none());
}

#[test]
fn top_block_nodes_where_a_range_starts_and_ends() {
    let d = Dom::new(vec![tn("ab")]);
    let range = Range::new(&vec![
        loc_at(vec![0], 0, 2, 2, 2, DomNodeKind::Paragraph),
        loc_at(vec![1], 3, 0, 0, 2, DomNodeKind::Paragraph),
        loc_at(vec![], 0, 2, 2, 5, DomNodeKind::Generic),
        loc_at(vec![0, 0], 0, 2, 2, 2, DomNodeKind::Text),
    ]);
    let (start, end) = d.top_most_block_nodes_in_range(2, &range);
    assert_eq!(start.unwrap().node_handle.raw(), &vec![0]);
    assert_eq!(end.unwrap().node_handle.raw(), &vec![1]);
    let (start, end) = d.top_most_block_nodes_in_range(7, &range);
    assert!(start.is_none());
    assert_eq!(end.unwrap().node_handle.raw(), &vec![1]);
}
