use wysiwyg::handle::DomHandle;
use wysiwyg::html::ToHtml;
use wysiwyg::kinds::InlineFormatType;
use wysiwyg::leaf_nodes::TextNode;
use wysiwyg::text::chars_of;
use wysiwyg::tree::{ContainerNode, ContainerNodeKind, DomNode};

fn html<T: ToHtml>(n: &T) -> String {
    String::from_iter(n.to_html())
}

fn text_node(content: &str) -> DomNode {
    DomNode::new_text(chars_of(content))
}

fn container_with_handle(raw_handle: &[usize]) -> ContainerNode {
    let mut node = ContainerNode::new(chars_of("div"), ContainerNodeKind::Generic, None, Vec::new());
    node.set_handle(DomHandle::from_raw(raw_handle.to_vec()));
    node
}

fn format_container_with_handle(format: InlineFormatType, raw_handle: &[usize]) -> ContainerNode {
    let mut node = ContainerNode::new_formatting(format, vec![]);
    node.set_handle(DomHandle::from_raw(raw_handle.to_vec()));
    node
}

/// Result HTML is "<strong><em>abc</em>def</strong>".
fn create_container_with_nested_children() -> ContainerNode {
    let mut bold = format_container_with_handle(InlineFormatType::Bold, &[0]);
    let mut italic = format_container_with_handle(InlineFormatType::Italic, &[0]);
    italic.append_child(text_node("abc"));
    bold.append_child(DomNode::Container(italic));
    bold.append_child(text_node("def"));
    assert_eq!(html(&bold), "<strong><em>abc</em>def</strong>");
    bold
}

#[test]
fn adding_a_child_sets_the_correct_handle() {
    let mut node = container_with_handle(&[4, 5, 4]);
    node.append_child(text_node("0"));
    node.append_child(text_node("1"));
    node.append_child(text_node("2"));
    let text_node0 = &node.children()[0];
    let text_node1 = &node.children()[1];
    let text_node2 = &node.children()[2];
    assert_eq!(html(text_node0), "0");
    assert_eq!(html(text_node1), "1");
    assert_eq!(html(text_node2), "2");
    assert_eq!(text_node0.handle().raw(), &[4, 5, 4, 0]);
    assert_eq!(text_node1.handle().raw(), &[4, 5, 4, 1]);
    assert_eq!(text_node2.handle().raw(), &[4, 5, 4, 2]);
}

#[test]
fn removing_a_child_sets_the_correct_handles_after() {
    let mut node = container_with_handle(&[4, 5, 4]);
    node.append_child(text_node("0"));
    node.append_child(text_node("1"));
    node.append_child(text_node("2"));
    node.append_child(text_node("3"));
    node.remove_child(2);
    node.remove_child(0);
    let text_node1 = &node.children()[0];
    let text_node3 = &node.children()[1];
    assert_eq!(html(text_node1), "1");
    assert_eq!(html(text_node3), "3");
    assert_eq!(text_node1.handle().raw(), &[4, 5, 4, 0]);
    assert_eq!(text_node3.handle().raw(), &[4, 5, 4, 1]);
}

#[test]
fn inserting_children_updates_the_relevant_handles() {
    let mut node = container_with_handle(&[4, 5, 4]);
    node.append_child(text_node("0"));
    node.append_child(text_node("2"));
    node.append_child(text_node("3"));
    let moved_handles = node.insert_children(1, vec![text_node("1a"), text_node("1b"), text_node("1c")]);
    let c = node.children();
    assert_eq!(html(&c[0]), "0");
    assert_eq!(html(&c[1]), "1a");
    assert_eq!(html(&c[2]), "1b");
    assert_eq!(html(&c[3]), "1c");
    assert_eq!(html(&c[4]), "2");
    assert_eq!(html(&c[5]), "3");
    assert_eq!(c[0].handle().raw(), &[4, 5, 4, 0]);
    assert_eq!(c[1].handle().raw(), &[4, 5, 4, 1]);
    assert_eq!(c[2].handle().raw(), &[4, 5, 4, 2]);
    assert_eq!(c[3].handle().raw(), &[4, 5, 4, 3]);
    assert_eq!(c[4].handle().raw(), &[4, 5, 4, 4]);
    assert_eq!(c[5].handle().raw(), &[4, 5, 4, 5]);
    assert_eq!(moved_handles, vec![c[4].handle(), c[5].handle()]);
}

#[test]
fn replacing_child_updates_the_relevant_handles() {
    let mut node = container_with_handle(&[4, 5, 4]);
    node.append_child(text_node("0"));
    node.append_child(text_node("1"));
    node.append_child(text_node("2"));
    let moved_handles = node.replace_child(1, vec![text_node("1a"), text_node("1b"), text_node("1c")]);
    let c = node.children();
    assert_eq!(html(&c[0]), "0");
    assert_eq!(html(&c[1]), "1a");
    assert_eq!(html(&c[2]), "1b");
    assert_eq!(html(&c[3]), "1c");
    assert_eq!(html(&c[4]), "2");
    assert_eq!(c[0].handle().raw(), &[4, 5, 4, 0]);
    assert_eq!(c[1].handle().raw(), &[4, 5, 4, 1]);
    assert_eq!(c[2].handle().raw(), &[4, 5, 4, 2]);
    assert_eq!(c[3].handle().raw(), &[4, 5, 4, 3]);
    assert_eq!(c[4].handle().raw(), &[4, 5, 4, 4]);
    assert_eq!(moved_handles, vec![c[4].handle()]);
}

#[test]
fn adding_zwsp_to_container() {
    let mut bold = create_container_with_nested_children();
    assert!(bold.add_leading_zwsp());
    assert_eq!(html(&bold), "<strong><em>\u{200b}abc</em>def</strong>");
    assert!(!bold.add_leading_zwsp());
}

#[test]
fn pushing_container_of_same_kind() {
    let mut c1 = format_container_with_handle(InlineFormatType::Bold, &[0, 0]);
    c1.append_child(text_node("abc"));
    let mut c2 = format_container_with_handle(InlineFormatType::Bold, &[0, 1]);
    c2.append_child(text_node("def"));
    c2.append_child(DomNode::new_line_break());
    c1.push(&mut c2);
    assert!(c2.children().is_empty());
    let mut expected = format_container_with_handle(InlineFormatType::Bold, &[0, 0]);
    expected.append_child(text_node("abcdef"));
    expected.append_child(DomNode::new_line_break());
    assert_eq!(c1, expected)
}

#[test]
fn slicing_container_before() {
    let mut bold = create_container_with_nested_children();
    let mut before = bold.slice_before(2);
    assert_eq!(html(&before), "<strong><em>ab</em></strong>");
    assert_eq!(html(&bold), "<strong><em>c</em>def</strong>");
    before.set_handle(DomHandle::root());
    before.push(&mut bold);
    assert_eq!(html(&before), "<strong><em>abc</em>def</strong>")
}

#[test]
fn slicing_container_after() {
    let mut container = create_container_with_nested_children();
    let mut after = container.slice_after(2);
    assert_eq!(html(&after), "<strong><em>c</em>def</strong>");
    assert_eq!(html(&container), "<strong><em>ab</em></strong>");
    after.set_handle(DomHandle::root());
    container.push(&mut after);
    assert_eq!(html(&container), "<strong><em>abc</em>def</strong>")
}

#[test]
fn slicing_container_on_edge_does_nothing() {
    let mut container = create_container_with_nested_children();
    container.slice_before(0);
    container.slice_after(6);
    assert_eq!(html(&container), "<strong><em>abc</em>def</strong>")
}

fn format_container_with_handle_and_children(
    format: InlineFormatType,
    children: Vec<DomNode>,
    raw_handle: &[usize],
) -> DomNode {
    let mut node = DomNode::new_formatting(format, children);
    node.set_handle(DomHandle::from_raw(raw_handle.to_vec()));
    node
}

fn list_item_with_handle(raw_handle: &[usize]) -> DomNode {
    let mut node = DomNode::new_list_item(vec![]);
    node.set_handle(DomHandle::from_raw(raw_handle.to_vec()));
    node
}

/// Result HTML is "<del><em>abc</em>def</del>".
fn format_container_with_nested_children() -> DomNode {
    let italic = format_container_with_handle_and_children(InlineFormatType::Italic, vec![text_node("abc")], &[0, 0]);
    format_container_with_handle_and_children(InlineFormatType::StrikeThrough, vec![italic, text_node("def")], &[0, 0])
}

#[test]
fn pushing_nodes_of_same_kind() {
    let mut n1 = format_container_with_handle_and_children(InlineFormatType::Bold, vec![text_node("abc")], &[0, 0]);
    let mut n2 = format_container_with_handle_and_children(InlineFormatType::Bold, vec![text_node("def")], &[0, 1]);
    assert!(n1.can_push(&n2));
    n1.push(&mut n2);
    let expected = format_container_with_handle_and_children(InlineFormatType::Bold, vec![text_node("abcdef")], &[0, 0]);
    assert_eq!(n1, expected);
}

#[test]
fn pushing_nodes_of_different_kind_is_not_allowed() {
    let n1 = format_container_with_handle_and_children(InlineFormatType::Bold, vec![text_node("abc")], &[0, 0]);
    let n2 = format_container_with_handle_and_children(InlineFormatType::Italic, vec![text_node("def")], &[0, 1]);
    assert!(!n1.can_push(&n2));
}

#[test]
fn pushing_list_item_directly_is_not_allowed() {
    let li1 = list_item_with_handle(&[0, 0]);
    let li2 = list_item_with_handle(&[0, 1]);
    assert!(!li1.can_push(&li2));
}

#[test]
fn slicing_node() {
    let mut node = format_container_with_nested_children();
    let mut before = node.slice_before(4);
    assert_eq!(html(&before), "<del><em>abc</em>d</del>");
    assert_eq!(html(&node), "<del>ef</del>");
    before.push(&mut node);
    assert_eq!(html(&before), "<del><em>abc</em>def</del>");
}

#[test]
fn slicing_node_on_edge_removes_nothing() {
    let mut node = format_container_with_nested_children();
    node.slice_after(6);
    node.slice_before(0);
    assert_eq!(html(&node), "<del><em>abc</em>def</del>")
}

#[test]
fn pushing_zwsp_text_node_does_nothing() {
    let mut t1 = TextNode::from(chars_of("abc"));
    let t2 = TextNode::from(chars_of("\u{200b}"));
    t1.push(&t2);
    assert_eq!(t1, TextNode::from(chars_of("abc")));
}
