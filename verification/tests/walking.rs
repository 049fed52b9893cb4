use wysiwyg::dom::Dom;
use wysiwyg::kinds::{InlineFormatType, ListType};
use wysiwyg::text::chars_of;
use wysiwyg::tree::DomNode;

fn tn(s: &str) -> DomNode {
    DomNode::new_text(chars_of(s))
}

fn tag(t: &str, children: Vec<DomNode>) -> DomNode {
    DomNode::new_formatting_from_tag(chars_of(t), children)
}

/// <ul><li>b<strong>c</strong></li><li>foo</li></ul><i>d</i>e|<br /><b>x</b>
fn example_dom() -> Dom {
    Dom::new(vec![
        DomNode::new_list(
            ListType::Unordered,
            vec![
                DomNode::new_list_item(vec![
                    tn("b"),
                    DomNode::new_formatting(InlineFormatType::Bold, vec![tn("c")]),
                ]),
                DomNode::new_list_item(vec![tn("foo")]),
            ],
        ),
        tag("i", vec![tn("d")]),
        tn("e"),
        DomNode::new_line_break(),
        tag("b", vec![tn("x")]),
    ])
}

fn s(v: &[char]) -> String {
    v.iter().collect()
}

fn node_txt(node: &DomNode) -> String {
    match node {
        DomNode::Container(c) => s(c.name()),
        DomNode::Text(t) => format!("'{}'", s(t.data())),
        DomNode::LineBreak(_) => String::from("br"),
        DomNode::Zwsp(_) => String::from("zwsp"),
        DomNode::Mention(_) => String::from("mention"),
    }
}

#[test]
fn can_walk_all_nodes() {
    let dom = example_dom();
    let text_nodes: Vec<String> = dom.iter().into_iter().map(node_txt).collect();
    assert_eq!(
        text_nodes,
        vec!["", "ul", "li", "'b'", "strong", "'c'", "li", "'foo'", "i", "'d'", "'e'", "br", "b", "'x'"]
    );
}

#[test]
fn can_walk_all_nodes_of_a_leading_subtree() {
    let dom = example_dom();
    let first_child = dom.children().first().unwrap();
    let text_nodes: Vec<String> = first_child.iter().into_iter().map(node_txt).collect();
    assert_eq!(text_nodes, vec!["ul", "li", "'b'", "strong", "'c'", "li", "'foo'"])
}

#[test]
fn can_walk_all_nodes_of_a_middle_subtree() {
    let dom = example_dom();
    let second_child = &dom.children()[1];
    let text_nodes: Vec<String> = second_child.iter().into_iter().map(node_txt).collect();
    assert_eq!(text_nodes, vec!["i", "'d'"])
}

#[test]
fn can_walk_all_nodes_of_a_trailing_subtree() {
    let dom = example_dom();
    let last_child = dom.children().last().unwrap();
    let text_nodes: Vec<String> = last_child.iter().into_iter().map(node_txt).collect();
    assert_eq!(text_nodes, vec!["b", "'x'"])
}

#[test]
fn can_walk_all_nodes_of_a_deep_subtree() {
    let dom = example_dom();
    if let DomNode::Container(list) = dom.children().first().unwrap() {
        let deep_child = list.children().first().unwrap();
        let text_nodes: Vec<String> = deep_child.iter().into_iter().map(node_txt).collect();
        assert_eq!(text_nodes, vec!["li", "'b'", "strong", "'c'"])
    } else {
        panic!("First child should have been the list")
    }
}

#[test]
fn can_walk_all_text_nodes() {
    let dom = example_dom();
    let text_nodes: Vec<String> = dom.iter_text().into_iter().map(|text| s(text.data())).collect();
    assert_eq!(text_nodes, vec!["b", "c", "foo", "d", "e", "x"]);
}

#[test]
fn can_walk_all_text_nodes_of_a_leading_subtree() {
    let dom = example_dom();
    let first_child = dom.children().first().unwrap();
    let text_nodes: Vec<String> = first_child.iter_text().into_iter().map(|text| s(text.data())).collect();
    assert_eq!(text_nodes, vec!["b", "c", "foo"])
}

#[test]
fn can_walk_all_text_nodes_of_a_middle_subtree() {
    let dom = example_dom();
    let second_child = &dom.children()[1];
    let text_nodes: Vec<String> = second_child.iter_text().into_iter().map(|text| s(text.data())).collect();
    assert_eq!(text_nodes, vec!["d"])
}

#[test]
fn can_walk_all_text_nodes_of_a_trailing_subtree() {
    let dom = example_dom();
    let last_child = dom.children().last().unwrap();
    let text_nodes: Vec<String> = last_child.iter_text().into_iter().map(|text| s(text.data())).collect();
    assert_eq!(text_nodes, vec!["x"])
}

#[test]
fn can_walk_all_text_nodes_of_a_deep_subtree() {
    let dom = example_dom();
    if let DomNode::Container(list) = dom.children().first().unwrap() {
        let deep_child = list.children().first().unwrap();
        let text_nodes: Vec<String> = deep_child.iter_text().into_iter().map(|text| s(text.data())).collect();
        assert_eq!(text_nodes, vec!["b", "c"])
    } else {
        panic!("First child should have been the list")
    }
}

#[test]
fn can_walk_all_container_nodes() {
    let dom = example_dom();
    let container_nodes: Vec<String> = dom.iter_containers().into_iter().map(|c| s(c.name())).collect();
    assert_eq!(container_nodes, vec!["", "ul", "li", "strong", "li", "i", "b"]);
}

#[test]
fn walking_from_a_handle_goes_on_to_the_end() {
    let dom = example_dom();
    let from: Vec<String> = dom
        .iter_from_handle(&wysiwyg::handle::DomHandle::from_raw(vec![1]))
        .into_iter()
        .map(node_txt)
        .collect();
    assert_eq!(from, vec!["i", "'d'", "'e'", "br", "b", "'x'"]);
    let back: Vec<String> = dom
        .iter_back_from_handle(&wysiwyg::handle::DomHandle::from_raw(vec![1]))
        .into_iter()
        .map(node_txt)
        .collect();
    assert_eq!(back, vec!["i", "'foo'", "li", "'c'", "strong", "'b'", "li", "ul", ""]);
}
