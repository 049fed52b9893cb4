use wysiwyg::dom::Dom;
use wysiwyg::handle::DomHandle;
use wysiwyg::kinds::{InlineFormatType, ListType};
use wysiwyg::range::{DomLocation, DomLocationPosition, Range};
use wysiwyg::text::chars_of;
use wysiwyg::tree::{DomNode, DomNodeKind};

fn tn(s: &str) -> DomNode {
    DomNode::new_text(chars_of(s))
}

fn br() -> DomNode {
    DomNode::new_line_break()
}

fn fmt(f: InlineFormatType, children: Vec<DomNode>) -> DomNode {
    DomNode::new_formatting(f, children)
}

fn tag(t: &str, children: Vec<DomNode>) -> DomNode {
    DomNode::new_formatting_from_tag(chars_of(t), children)
}

fn ul(items: Vec<DomNode>) -> DomNode {
    DomNode::new_list(ListType::Unordered, items)
}

fn ol(items: Vec<DomNode>) -> DomNode {
    DomNode::new_list(ListType::Ordered, items)
}

fn li(children: Vec<DomNode>) -> DomNode {
    DomNode::new_list_item(children)
}

fn range_of(nodes: Vec<DomNode>, s: usize, e: usize) -> Range {
    Dom::new(nodes).find_range(s, e)
}

// <ul><li>a</li><li>b</li></ul><ul><li>c</li><li>d</li><li>e</li></ul>
fn two_lists() -> Vec<DomNode> {
    vec![
        ul(vec![li(vec![tn("a")]), li(vec![tn("b")])]),
        ul(vec![li(vec![tn("c")]), li(vec![tn("d")]), li(vec![tn("e")])]),
    ]
}

#[test]
fn range_start_and_end_for_cursor_at_beginning() {
    // |abc<b>def</b>
    let r = range_of(vec![tn("abc"), tag("b", vec![tn("def")])], 0, 0);
    assert_eq!(r.start(), 0);
    assert_eq!(r.end(), 0);
}

#[test]
fn range_start_and_end_for_selection_at_beginning() {
    // {abc<b>d}|ef</b>
    let r = range_of(vec![tn("abc"), tag("b", vec![tn("def")])], 0, 4);
    assert_eq!(r.start(), 0);
    assert_eq!(r.end(), 4);
}

#[test]
fn range_start_and_end_for_cursor_after_brs() {
    // a<br />b<br /><br />c|<br />d
    let r = range_of(vec![tn("a"), br(), tn("b"), br(), br(), tn("c"), br(), tn("d")], 6, 6);
    assert_eq!(r.start(), 6);
    assert_eq!(r.end(), 6);
}

#[test]
fn range_start_and_end_for_selection_containing_brs_in_tags() {
    // <i>a</i><b><br />{b<br /><br />c}|<br /></b>d
    let r = range_of(
        vec![
            tag("i", vec![tn("a")]),
            tag("b", vec![br(), tn("b"), br(), br(), tn("c"), br()]),
            tn("d"),
        ],
        2,
        6,
    );
    assert_eq!(r.start(), 2);
    assert_eq!(r.end(), 6);
}

#[test]
fn range_start_and_end_for_cursor_in_middle_of_plain_text() {
    // abc|def
    let r = range_of(vec![tn("abcdef")], 3, 3);
    assert_eq!(r.start(), 3);
    assert_eq!(r.end(), 3);
}

#[test]
fn range_leaves_contains_text_node() {
    // abc|def
    let r = range_of(vec![tn("abcdef")], 3, 3);
    assert_eq!(r.leaves(), vec![r.locations[0].clone()]);
}

#[test]
fn range_start_and_end_for_selection_in_middle_of_plain_text() {
    // abc{def}|ghi
    let r = range_of(vec![tn("abcdefghi")], 3, 6);
    assert_eq!(r.start(), 3);
    assert_eq!(r.end(), 6);
}

#[test]
fn range_start_and_end_for_cursor_in_nested_tags() {
    // ...<li>d|</li>...
    let r = range_of(two_lists(), 4, 4);
    assert_eq!(r.start(), 4);
    assert_eq!(r.end(), 4);
}

#[test]
fn range_start_and_end_for_selection_in_nested_tags() {
    // ...<li>{d</li><li>e}|</li>...
    let r = range_of(two_lists(), 3, 5);
    assert_eq!(r.start(), 3);
    assert_eq!(r.end(), 5);
}

#[test]
fn range_start_and_end_for_end_of_complex_tags() {
    // ...<li>e|</li></ul>
    let r = range_of(two_lists(), 5, 5);
    assert_eq!(r.start(), 5);
    assert_eq!(r.end(), 5);
}

#[test]
fn range_start_and_end_for_end_of_text() {
    // ...</ul>fgh|
    let mut nodes = two_lists();
    nodes.push(tn("fgh"));
    let r = range_of(nodes, 8, 8);
    assert_eq!(r.start(), 8);
    assert_eq!(r.end(), 8);
}

#[test]
fn range_leaves_contains_all_text_nodes() {
    // <ul><li>{a</li><li>b</li></ul><ol><li>c</li><li>d</li><li>e</li></ol>fgh}|
    let r = range_of(
        vec![
            ul(vec![li(vec![tn("a")]), li(vec![tn("b")])]),
            ol(vec![li(vec![tn("c")]), li(vec![tn("d")]), li(vec![tn("e")])]),
            tn("fgh"),
        ],
        0,
        8,
    );
    assert_eq!(
        r.leaves().iter().map(|loc| loc.node_handle.clone()).collect::<Vec<DomHandle>>(),
        vec![
            DomHandle::from_raw(vec![0, 0, 0]),
            DomHandle::from_raw(vec![0, 1, 0]),
            DomHandle::from_raw(vec![1, 0, 0]),
            DomHandle::from_raw(vec![1, 1, 0]),
            DomHandle::from_raw(vec![1, 2, 0]),
            DomHandle::from_raw(vec![2]),
        ]
    );
}

#[test]
fn location_method_returns_false_for_end_of_non_list_item() {
    // <em>abcd|</em>
    let range = range_of(vec![fmt(InlineFormatType::Italic, vec![tn("abcd")])], 4, 4);
    assert!(!range.locations[1].position_is_end_of_list_item(4));
}

#[test]
fn location_method_returns_false_for_inside_list_item() {
    // <ol><li>abcd|</li></ol>
    let range = range_of(vec![ol(vec![li(vec![tn("abcd")])])], 4, 4);
    assert!(!range.locations[1].position_is_end_of_list_item(2));
}

#[test]
fn location_method_returns_true_for_end_of_list_item() {
    // <ol><li>abcd|</li></ol>
    let range = range_of(vec![ol(vec![li(vec![tn("abcd")])])], 4, 4);
    assert!(range.locations[1].position_is_end_of_list_item(4));
}

#[test]
fn node_on_border_is_before_or_after_cursor() {
    // <strong>abc</strong>|def
    let range = range_of(vec![fmt(InlineFormatType::Bold, vec![tn("abc")]), tn("def")], 3, 3);
    let strong_loc = range.locations.first().unwrap();
    assert!(strong_loc.relative_position() == DomLocationPosition::Before);
    let def_loc = range.locations.last().unwrap();
    assert!(def_loc.relative_position() == DomLocationPosition::After);
}

#[test]
fn partially_contained_node_is_inside_of_range() {
    // <strong>abc</strong>{de}|f
    let range = range_of(vec![fmt(InlineFormatType::Bold, vec![tn("abc")]), tn("def")], 3, 5);
    let def_loc = range.locations.last().unwrap();
    assert!(def_loc.relative_position() == DomLocationPosition::Inside);
}

fn em_strong(children: Vec<DomNode>) -> Vec<DomNode> {
    vec![fmt(InlineFormatType::Italic, vec![fmt(InlineFormatType::Bold, children)])]
}

#[test]
fn cursor_is_inside_all_nodes() {
    // <em><strong>ab|cd</strong></em>
    let range = range_of(em_strong(vec![tn("abcd")]), 2, 2);
    range
        .locations
        .iter()
        .for_each(|l| assert!(l.relative_position() == DomLocationPosition::Inside))
}

#[test]
fn selection_is_inside_all_nodes() {
    // <em><strong>{ab}|cd</strong></em>
    let range = range_of(em_strong(vec![tn("abcd")]), 0, 2);
    range
        .locations
        .iter()
        .for_each(|l| assert!(l.relative_position() == DomLocationPosition::Inside))
}

fn nested_b() -> Vec<DomNode> {
    // <em><strong><b>a</b>b</strong>c</em>
    vec![fmt(
        InlineFormatType::Italic,
        vec![fmt(InlineFormatType::Bold, vec![tag("b", vec![tn("a")]), tn("b")]), tn("c")],
    )]
}

#[test]
fn range_shared_parent() {
    // <em><strong><b>{a</b>b}|</strong>c</em>
    let range = range_of(nested_b(), 0, 2);
    assert_eq!(range.shared_parent(), DomHandle::from_raw(vec![0, 0]));
}

#[test]
fn range_shared_parent_outside() {
    let range = range_of(nested_b(), 0, 2);
    assert_eq!(range.shared_parent_outside(), DomHandle::from_raw(vec![0]));
}

#[test]
fn range_shared_parent_flat() {
    // {ab}|
    let range = range_of(vec![tn("ab")], 0, 2);
    assert_eq!(range.shared_parent(), DomHandle::from_raw(vec![]));
}

#[test]
fn range_shared_parent_flat_outside() {
    let range = range_of(vec![tn("ab")], 0, 2);
    assert_eq!(range.shared_parent_outside(), DomHandle::from_raw(vec![]));
}

#[test]
fn range_shared_parent_deep_flat() {
    // <em><strong>{ab}|</strong></em>
    let range = range_of(em_strong(vec![tn("ab")]), 0, 2);
    assert_eq!(range.shared_parent(), DomHandle::from_raw(vec![0, 0]));
}

#[test]
fn range_shared_parent_deep_flat_outside() {
    let range = range_of(em_strong(vec![tn("ab")]), 0, 2);
    assert_eq!(range.shared_parent_outside(), DomHandle::from_raw(vec![]));
}

#[test]
fn range_find_location() {
    let range = range_of(em_strong(vec![tn("ab")]), 0, 2);
    let handle = DomHandle::from_raw(vec![0, 0]);
    let location = range.find_location(&handle).unwrap();
    let expected_kind = DomNodeKind::Formatting(InlineFormatType::Bold);
    assert_eq!(*location, DomLocation::new(handle, 0, 0, 2, 2, expected_kind));
}

#[test]
fn range_find_location_none() {
    let range = range_of(em_strong(vec![tn("ab")]), 0, 2);
    let handle = DomHandle::from_raw(vec![1, 0]);
    assert!(range.find_location(&handle).is_none());
}

fn hello_world() -> Dom {
    // <b><u>Hello, <i>world|</i></u></b>
    Dom::new(vec![tag(
        "b",
        vec![fmt(InlineFormatType::Underline, vec![tn("Hello, "), tag("i", vec![tn("world")])])],
    )])
}

#[test]
fn find_range_by_node() {
    let d = hello_world();
    let range_by_node = d.find_range_by_node(&DomHandle::from_raw(vec![0, 0, 0]));
    let actual_range = d.find_range(0, 7);
    assert_eq!(range_by_node, actual_range);
}

#[test]
fn find_range_by_node_root() {
    let d = hello_world();
    let range_by_node = d.find_range_by_node(&DomHandle::root());
    let actual_range = d.find_range(0, 12);
    assert_eq!(range_by_node, actual_range);
}

#[test]
fn finding_a_node_within_an_empty_dom_returns_not_found() {
    let d = Dom::new(vec![]);
    assert!(d.find_range(0, 0).is_empty());
}

#[test]
fn finding_a_range_within_an_empty_dom_returns_no_node() {
    let d = Dom::new(vec![]);
    let range = d.find_range(0, 0);
    assert!(range.is_empty());
}

#[test]
fn finding_a_node_within_a_single_text_node_is_found() {
    let d = Dom::new(vec![tn("foo")]);
    let leaves = d.find_range(1, 1).leaves();
    assert_eq!(leaves.len(), 1);
    assert_eq!(leaves[0].node_handle, DomHandle::from_raw(vec![0]));
    assert_eq!((leaves[0].start_offset, leaves[0].end_offset), (1, 1));
}

fn single_leaf_text(d: &Dom, r: &Range) -> (Vec<usize>, usize, usize, String) {
    let leaves = r.leaves();
    assert_eq!(leaves.len(), 1);
    let l = &leaves[0];
    let text = match d.lookup_node(&l.node_handle) {
        DomNode::Text(t) => String::from_iter(t.data().iter()),
        _ => panic!("Should have been a text node!"),
    };
    (l.node_handle.raw().clone(), l.start_offset, l.end_offset, text)
}

#[test]
fn finding_a_range_within_the_single_text_node_works() {
    let d = Dom::new(vec![tn("foo bar baz")]);
    let range = d.find_range(4, 7);
    assert_eq!(single_leaf_text(&d, &range), (vec![0], 4, 7, "foo bar baz".to_string()));
}

#[test]
fn finding_a_range_that_includes_the_end_works_simple_case() {
    let d = Dom::new(vec![tn("foo bar baz")]);
    let range = d.find_range(4, 11);
    assert_eq!(single_leaf_text(&d, &range), (vec![0], 4, 11, "foo bar baz".to_string()));
}

#[test]
fn finding_a_range_within_some_nested_node_works() {
    let d = Dom::new(vec![tn("foo "), tag("b", vec![tn("bar")]), tn(" baz")]);
    let range = d.find_range(5, 6);
    assert_eq!(single_leaf_text(&d, &range), (vec![1, 0], 1, 2, "bar".to_string()));
}

#[test]
fn find_range_gives_each_touching_node_after_its_children() {
    // foo|bar : the cursor is at the end of one text and the start of the other
    let d = Dom::new(vec![tn("foo"), tn("bar")]);
    let r = d.find_range(3, 3);
    let handles: Vec<Vec<usize>> = r.locations.iter().map(|l| l.node_handle.raw().clone()).collect();
    assert_eq!(handles, vec![vec![0], vec![1]]);
    assert_eq!((r.locations[0].start_offset, r.locations[0].end_offset), (3, 3));
    assert_eq!((r.locations[1].start_offset, r.locations[1].end_offset), (0, 0));
}

#[test]
fn find_range_backwards_swaps_the_offsets() {
    let d = Dom::new(vec![tn("hello")]);
    let r = d.find_range(4, 1);
    assert_eq!((r.locations[0].start_offset, r.locations[0].end_offset), (4, 1));
}
