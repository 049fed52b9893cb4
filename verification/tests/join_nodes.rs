use wysiwyg::dom::Dom;
use wysiwyg::handle::DomHandle;
use wysiwyg::html::ToHtml;
use wysiwyg::kinds::ListType;
use wysiwyg::text::chars_of;
use wysiwyg::tree::DomNode;

fn tn(s: &str) -> DomNode {
    DomNode::new_text(chars_of(s))
}

fn tag(t: &str, children: Vec<DomNode>) -> DomNode {
    DomNode::new_formatting_from_tag(chars_of(t), children)
}

fn h(path: Vec<usize>) -> DomHandle {
    DomHandle::from_raw(path)
}

fn html(d: &Dom) -> String {
    String::from_iter(d.to_html())
}

#[test]
fn ancestors_come_from_the_document_down() {
    let list = Dom::list_of_ancestors_from_root(&h(vec![1, 2, 3]));
    assert_eq!(list, vec![h(vec![]), h(vec![1]), h(vec![1, 2]), h(vec![1, 2, 3])]);
    assert_eq!(Dom::list_of_ancestors_from_root(&h(vec![])), vec![h(vec![])]);
}

#[test]
fn structure_ancestor_is_the_closest_list_item() {
    let dom = Dom::new(vec![
        DomNode::new_list(
            ListType::Unordered,
            vec![DomNode::new_list_item(vec![tag("b", vec![tn("x")])])],
        ),
        tn("y"),
    ]);
    assert_eq!(dom.find_structure_ancestor(&h(vec![0, 0, 0, 0])), Some(h(vec![0, 0])));
    assert_eq!(dom.find_structure_ancestor(&h(vec![0, 0])), Some(h(vec![0])));
    assert_eq!(dom.find_structure_ancestor(&h(vec![1])), None);
    assert_eq!(dom.find_structure_ancestor(&h(vec![0])), None);
}

#[test]
fn formatting_nodes_of_one_format_can_merge() {
    let dom = Dom::new(vec![tag("b", vec![tn("a")]), tag("b", vec![tn("b")]), tag("i", vec![tn("c")]), tn("d")]);
    assert!(dom.can_merge_format_nodes(&h(vec![0]), &h(vec![1])));
    assert!(!dom.can_merge_format_nodes(&h(vec![1]), &h(vec![2])));
    assert!(!dom.can_merge_format_nodes(&h(vec![2]), &h(vec![3])));
}

#[test]
fn leaf_containing_a_position() {
    let dom = Dom::new(vec![tn("ab"), tag("b", vec![tn("cd")])]);
    assert_eq!(dom.find_leaf_containing(3), Some(h(vec![1, 0])));
    assert_eq!(dom.find_leaf_containing(2), Some(h(vec![0])));
    assert_eq!(dom.find_leaf_containing(0), Some(h(vec![0])));
    let empty = Dom::new(vec![]);
    assert_eq!(empty.find_leaf_containing(0), None);
}

#[test]
fn moving_children_merges_two_nodes() {
    let mut dom = Dom::new(vec![tag("b", vec![tn("a")]), tag("b", vec![tn("c"), tag("i", vec![tn("d")])]), tn("e")]);
    let (index, moved) = dom.move_children_and_delete_parent(&h(vec![1]), &h(vec![0]));
    assert_eq!(index, 1);
    assert_eq!(moved, vec![(h(vec![1, 0]), h(vec![0, 1])), (h(vec![1, 1]), h(vec![0, 2]))]);
    assert_eq!(html(&dom), "<b>ac<i>d</i></b>e");
}

#[test]
fn format_nodes_on_the_way_to_a_position_join_the_ones_before() {
    let mut d = Dom::new(vec![tag("strong", vec![tn("a")]), tag("strong", vec![tn("b")])]);
    d.join_format_nodes_at_index(2);
    assert_eq!(html(&d), "<strong>ab</strong>");
    assert_eq!(d.children().len(), 1);
}

#[test]
fn nested_format_nodes_join_level_by_level() {
    let mut d = Dom::new(vec![
        tag("strong", vec![tag("em", vec![tn("a")])]),
        tag("strong", vec![tag("em", vec![tn("b")])]),
    ]);
    d.join_format_nodes_at_index(2);
    assert_eq!(html(&d), "<strong><em>ab</em></strong>");
}

#[test]
fn format_nodes_of_other_formats_stay_apart() {
    let mut d = Dom::new(vec![tag("strong", vec![tn("a")]), tag("em", vec![tn("b")])]);
    d.join_format_nodes_at_index(2);
    assert_eq!(html(&d), "<strong>a</strong><em>b</em>");
}
