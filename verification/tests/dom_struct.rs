use wysiwyg::dom::Dom;
use wysiwyg::handle::DomHandle;
use wysiwyg::html::ToHtml;
use wysiwyg::kinds::{InlineFormatType, ListType};
use wysiwyg::leaf_nodes::TextNode;
use wysiwyg::text::chars_of;
use wysiwyg::tree::DomNode;

fn utf(s: &str) -> Vec<char> {
    chars_of(s)
}

fn html(d: &Dom) -> String {
    String::from_iter(d.to_html())
}

fn tn(s: &str) -> DomNode {
    DomNode::new_text(utf(s))
}

fn b(children: Vec<DomNode>) -> DomNode {
    DomNode::new_formatting_from_tag(utf("b"), children)
}

fn i(children: Vec<DomNode>) -> DomNode {
    DomNode::new_formatting_from_tag(utf("i"), children)
}

fn a(children: Vec<DomNode>) -> DomNode {
    DomNode::new_link(utf("https://element.io"), children)
}

fn i_c(children: Vec<DomNode>) -> DomNode {
    DomNode::new_formatting(InlineFormatType::InlineCode, children)
}

#[test]
fn can_create_a_dom_and_add_nodes() {
    let dom = Dom::new(vec![
        DomNode::Text(TextNode::from(utf("a"))),
        DomNode::new_formatting_from_tag(utf("b"), vec![DomNode::new_text(utf("b"))]),
    ]);
    assert_eq!(html(&dom), "a<b>b</b>");
}

#[test]
fn empty_dom_serialises_to_empty_string() {
    assert_eq!(html(&Dom::new(vec![])), "");
}

#[test]
fn plain_text_serialises_to_just_the_text() {
    assert_eq!(html(&Dom::new(vec![tn("foo")])), "foo");
}

#[test]
fn mixed_text_and_tags_serialises() {
    assert_eq!(
        html(&Dom::new(vec![tn("foo"), b(vec![tn("BOLD")]), tn("bar")])),
        "foo<b>BOLD</b>bar"
    );
}

#[test]
fn nested_tags_serialise() {
    assert_eq!(
        html(&Dom::new(vec![
            tn("foo"),
            b(vec![tn("BO"), i(vec![tn("LD")])]),
            i(vec![tn("it")]),
            tn("bar")
        ])),
        "foo<b>BO<i>LD</i></b><i>it</i>bar"
    );
}

#[test]
fn empty_tag_serialises() {
    assert_eq!(html(&Dom::new(vec![b(vec![])])), "<b></b>");
}

#[test]
fn hyperlink_formatting_simple() {
    let d = Dom::new(vec![a(vec![tn("foo")])]);
    assert_eq!("<a href=\"https://element.io\">foo</a>", html(&d));
}

#[test]
fn hyperlink_formatting_complex() {
    let d = Dom::new(vec![a(vec![b(vec![tn("foo")]), tn(" "), i(vec![tn("bar")])])]);
    assert_eq!(
        "<a href=\"https://element.io\"><b>foo</b> <i>bar</i></a>",
        html(&d)
    );
}

#[test]
fn inline_code_gets_formatted() {
    let d = Dom::new(vec![i_c(vec![tn("some_code")])]);
    assert_eq!("<code>some_code</code>", html(&d));
}

#[test]
fn html_symbols_inside_text_tags_get_escaped() {
    let d = Dom::new(vec![tn("<p>Foo & bar</p>")]);
    assert_eq!("&lt;p&gt;Foo &amp; bar&lt;/p&gt;", html(&d));
}

#[test]
fn inline_code_text_contents_get_escaped() {
    let d = Dom::new(vec![i_c(vec![tn("<b>some</b> code")])]);
    assert_eq!("<code>&lt;b&gt;some&lt;/b&gt; code</code>", html(&d));
}

#[test]
fn inline_code_node_contents_do_not_get_escaped() {
    let d = Dom::new(vec![i_c(vec![b(vec![tn("some")]), tn(" code")])]);
    assert_eq!("<code><b>some</b> code</code>", html(&d));
}

#[test]
fn can_find_toplevel_nodes_via_handles() {
    let dom = Dom::new(vec![tn("a"), b(vec![tn("b")])]);
    let child0 = &dom.children()[0];
    let child1 = &dom.children()[1];
    assert_eq!(dom.lookup_node(&child0.handle()), child0);
    assert_eq!(dom.lookup_node(&child1.handle()), child1);
}

fn kids(node: &DomNode) -> &Vec<DomNode> {
    match node {
        DomNode::Container(c) => c.children(),
        _ => panic!("Not a container"),
    }
}

#[test]
fn can_find_deep_nodes_via_handles() {
    let dom = Dom::new(vec![tn("foo"), b(vec![tn("BOLD"), b(vec![tn("uberbold")])]), tn("bar")]);
    let nested_node = &kids(&kids(&dom.children()[1])[1])[0];
    let handle = nested_node.handle();
    assert_eq!(dom.lookup_node(&handle), nested_node);
}

#[test]
fn can_replace_deep_node_with_multiple_nodes() {
    let mut dom = Dom::new(vec![b(vec![tn("foo")])]);
    let node_handle = kids(&dom.children()[0])[0].handle();
    let inserted_nodes = vec![tn("f"), i(vec![tn("o")]), tn("o")];
    dom.replace(&node_handle, inserted_nodes);
    assert_eq!(html(&dom), "<b>f<i>o</i>o</b>");
}

#[test]
fn can_remove_node_and_keep_children() {
    let mut dom = Dom::new(vec![b(vec![tn("foo"), i(vec![tn("bar")])])]);
    let node_handle = &dom.children()[0].handle();
    dom.remove_and_keep_children(node_handle);
    assert_eq!(html(&dom), "foo<i>bar</i>");
}

#[test]
fn into_node() {
    assert!(Dom::new(vec![tn("foo")]).into_node(&DomHandle::from_raw(vec![0])).is_text_node())
}

#[test]
fn into_node_from_root() {
    assert!(Dom::new(vec![tn("foo")]).into_node(&DomHandle::from_raw(vec![])).is_container_node())
}

#[test]
fn can_replace_toplevel_node_with_multiple_nodes() {
    let mut dom = Dom::new(vec![tn("foo"), tn("bar")]);
    let node_handle = dom.children()[0].handle();
    let inserted_nodes = vec![tn("ab"), b(vec![tn("cd")]), tn("ef")];
    dom.replace(&node_handle, inserted_nodes);
    assert_eq!(html(&dom), "ab<b>cd</b>efbar");
    let bar_node = &dom.children()[3];
    assert_eq!(bar_node.handle().index_in_parent(), 3);
}

fn list_dom() -> Dom {
    // <ul><li>b<strong>c</strong></li></ul>d
    Dom::new(vec![
        DomNode::new_list(ListType::Unordered, vec![DomNode::new_list_item(vec![
            tn("b"),
            DomNode::new_formatting(InlineFormatType::Bold, vec![tn("c")]),
        ])]),
        tn("d"),
    ])
}

#[test]
fn node_exists_returns_true_if_exists() {
    let d = list_dom();
    let handle = DomHandle::from_raw(vec![0, 0, 1, 0]);
    assert!(d.contains(&handle));
}

#[test]
fn node_exists_returns_false_if_child_does_not_exist() {
    let d = list_dom();
    // Last level doesn't exist, [0, 0, 1, 0] is a leaf node
    let handle = DomHandle::from_raw(vec![0, 0, 1, 0, 2]);
    assert!(!d.contains(&handle));
}

#[test]
fn node_exists_returns_false_if_sibling_does_not_exist() {
    let d = list_dom();
    // Last level doesn't exist, [0, 0, 1] does not have 6 children
    let handle = DomHandle::from_raw(vec![0, 0, 1, 5]);
    assert!(!d.contains(&handle));
}

#[test]
fn text_len_ignores_html_tags() {
    assert_eq!(0, Dom::new(vec![]).text_len());
    assert_eq!(2, Dom::new(vec![tn("aa")]).text_len());
    assert_eq!(2, Dom::new(vec![tn("a"), b(vec![tn("a")])]).text_len());
    assert_eq!(
        2,
        Dom::new(vec![DomNode::new_formatting(
            InlineFormatType::StrikeThrough,
            vec![i(vec![tn("a")]), b(vec![tn("a")])]
        )])
        .text_len()
    );
}

#[test]
fn text_len_counts_brs_as_1() {
    assert_eq!(1, Dom::new(vec![DomNode::new_line_break()]).text_len());
    assert_eq!(3, Dom::new(vec![tn("a"), DomNode::new_line_break(), tn("b")]).text_len());
}

#[test]
fn find_parent_list_item_or_self_finds_our_parent() {
    // a<ul><li>b</li></ul>
    let d = Dom::new(vec![
        tn("a"),
        DomNode::new_list(ListType::Unordered, vec![DomNode::new_list_item(vec![tn("b")])]),
    ]);
    let res = d.find_parent_list_item_or_self(&DomHandle::from_raw(vec![1, 0, 0]));
    let res = res.expect("Should have found a list parent!");
    assert_eq!(res.into_raw(), vec![1, 0]);
}

#[test]
fn find_parent_list_item_or_self_finds_ourself() {
    let d = Dom::new(vec![
        tn("a"),
        DomNode::new_list(ListType::Unordered, vec![DomNode::new_list_item(vec![tn("b")])]),
    ]);
    let res = d.find_parent_list_item_or_self(&DomHandle::from_raw(vec![1, 0]));
    let res = res.expect("Should have found a list parent!");
    assert_eq!(res.into_raw(), vec![1, 0]);
}

#[test]
fn find_parent_list_item_or_self_finds_our_grandparent() {
    let d = list_dom();
    let res = d.find_parent_list_item_or_self(&DomHandle::from_raw(vec![0, 0, 1, 0]));
    let res = res.expect("Should have found a list parent!");
    assert_eq!(res.into_raw(), vec![0, 0]);
}

#[test]
fn find_parent_list_item_or_self_returns_none_when_not_in_a_list() {
    let d = list_dom();
    let res = d.find_parent_list_item_or_self(&DomHandle::from_raw(vec![1]));
    assert!(res.is_none(), "Should not have found a list parent!")
}

#[test]
fn closest_list_ancestor_is_the_nearest_list_above() {
    let d = Dom::new(vec![
        tn("a"),
        DomNode::new_list(
            ListType::Ordered,
            vec![DomNode::new_list_item(vec![
                DomNode::new_formatting(InlineFormatType::Bold, vec![tn("b")]),
                DomNode::new_list(ListType::Unordered, vec![DomNode::new_list_item(vec![tn("c")])]),
            ])],
        ),
    ]);
    let h = |p: Vec<usize>| DomHandle::from_raw(p);
    assert_eq!(d.find_closest_list_ancestor(&h(vec![0])), None);
    assert_eq!(d.find_closest_list_ancestor(&h(vec![1])), None);
    assert_eq!(d.find_closest_list_ancestor(&h(vec![1, 0, 0, 0])), Some(h(vec![1])));
    assert_eq!(d.find_closest_list_ancestor(&h(vec![1, 0, 1, 0, 0])), Some(h(vec![1, 0, 1])));
    assert_eq!(d.find_closest_list_ancestor(&h(vec![1, 0, 1, 0])), Some(h(vec![1, 0, 1])));
}

#[test]
fn text_nodes_around_a_node_are_merged() {
    let mut d = Dom::new(vec![tn("a"), tn("b"), tn("c")]);
    d.merge_text_nodes_around(&DomHandle::from_raw(vec![1]));
    assert_eq!(d.children().len(), 2);
    assert_eq!(html(&d), "abc");
    let mut e = Dom::new(vec![DomNode::new_line_break(), tn("a"), tn("b")]);
    e.merge_text_nodes_around(&DomHandle::from_raw(vec![1]));
    assert_eq!(e.children().len(), 2);
    assert_eq!(html(&e), "<br />ab");
}

#[test]
fn first_ancestor_outside_a_list_of_handles() {
    let d = Dom::new(vec![tn("a")]);
    let h = |p: Vec<usize>| DomHandle::from_raw(p);
    let node = h(vec![1, 0, 2]);
    assert_eq!(d.find_first_non_matching_ancestor_in(&vec![], &node), Some(h(vec![1, 0])));
    assert_eq!(d.find_first_non_matching_ancestor_in(&vec![h(vec![1, 0]), h(vec![1])], &node), Some(h(vec![])));
    assert_eq!(d.find_first_non_matching_ancestor_in(&vec![h(vec![1, 0]), h(vec![1]), h(vec![])], &node), None);
    assert_eq!(d.find_first_non_matching_ancestor_in(&vec![], &h(vec![])), None);
}

#[test]
fn empty_containers_are_removed_up_the_tree() {
    let mut d = Dom::new(vec![
        DomNode::new_paragraph(vec![DomNode::new_formatting(InlineFormatType::Bold, vec![])]),
        tn("x"),
    ]);
    d.remove_empty_nodes_recursively(&DomHandle::from_raw(vec![0, 0]));
    assert_eq!(html(&d), "x");
    assert_eq!(d.children().len(), 1);
    let mut e = Dom::new(vec![
        DomNode::new_paragraph(vec![tn("a"), DomNode::new_formatting(InlineFormatType::Bold, vec![])]),
    ]);
    e.remove_empty_nodes_recursively(&DomHandle::from_raw(vec![0, 1]));
    assert_eq!(html(&e), "<p>a</p>");
    let mut f = Dom::new(vec![DomNode::new_paragraph(vec![tn("a")])]);
    f.remove_empty_nodes_recursively(&DomHandle::from_raw(vec![0, 0]));
    assert_eq!(html(&f), "<p>a</p>");
}

#[test]
fn new_text_goes_into_the_text_that_ends_the_previous_sibling() {
    let mut d = Dom::new(vec![DomNode::new_formatting(InlineFormatType::Bold, vec![tn("ab")]), tn("x")]);
    d.set_new_text_in_prev_sibling_node(DomHandle::from_raw(vec![1]), utf("cd"));
    assert_eq!(html(&d), "<strong>abcd</strong>x");
    assert_eq!(d.children().len(), 2);
    let mut e = Dom::new(vec![DomNode::new_link(utf("l"), vec![tn("ab")]), tn("x")]);
    e.set_new_text_in_prev_sibling_node(DomHandle::from_raw(vec![1]), utf("cd"));
    assert_eq!(html(&e), "<a href=\"l\">ab</a>cdx");
    assert_eq!(e.children().len(), 3);
    let mut f = Dom::new(vec![tn("x")]);
    f.set_new_text_in_prev_sibling_node(DomHandle::from_raw(vec![0]), utf(""));
    assert_eq!(f.children().len(), 1);
}

#[test]
fn new_text_goes_into_the_text_that_starts_the_next_sibling() {
    let mut d = Dom::new(vec![tn("x"), DomNode::new_formatting(InlineFormatType::Italic, vec![tn("yz")])]);
    d.set_new_text_in_next_sibling_node(DomHandle::from_raw(vec![0]), utf("ab"));
    assert_eq!(html(&d), "x<em>abyz</em>");
    let mut e = Dom::new(vec![tn("x")]);
    e.set_new_text_in_next_sibling_node(DomHandle::from_raw(vec![0]), utf("ab"));
    assert_eq!(html(&e), "xab");
    assert_eq!(e.children().len(), 2);
}
