use wysiwyg::dom::Dom;
use wysiwyg::html::ToHtml;
use wysiwyg::text::chars_of;
use wysiwyg::tree::DomNode;

fn tn(s: &str) -> DomNode {
    DomNode::new_text(chars_of(s))
}

fn p(children: Vec<DomNode>) -> DomNode {
    DomNode::new_paragraph(children)
}

fn link() -> DomNode {
    DomNode::new_link(chars_of("href"), vec![])
}

fn html(d: &Dom) -> String {
    String::from_iter(d.to_html())
}

fn insert_at(mut dom: Dom, pos: usize) -> String {
    let range = dom.find_range(pos, pos);
    dom.insert_node_at_cursor(&range, link());
    html(&dom)
}

#[test]
fn inserts_node_in_empty_model() {
    assert_eq!(insert_at(Dom::new(vec![]), 0), "<a href=\"href\"></a>");
}

#[test]
fn inserts_node_into_empty_container() {
    assert_eq!(insert_at(Dom::new(vec![p(vec![])]), 0), "<p><a href=\"href\"></a></p>");
}

#[test]
fn inserts_node_into_leaf_start() {
    assert_eq!(
        insert_at(Dom::new(vec![p(vec![tn("this is a leaf")])]), 0),
        "<p><a href=\"href\"></a>this is a leaf</p>"
    );
}

#[test]
fn inserts_node_into_leaf_middle() {
    assert_eq!(
        insert_at(Dom::new(vec![p(vec![tn("this is a leaf")])]), 7),
        "<p>this is<a href=\"href\"></a> a leaf</p>"
    );
}

#[test]
fn inserts_node_into_leaf_end() {
    assert_eq!(
        insert_at(Dom::new(vec![p(vec![tn("this is a leaf")])]), 14),
        "<p>this is a leaf<a href=\"href\"></a></p>"
    );
}

#[test]
fn insert_node_at_range_inserts_at_a_cursor() {
    let mut dom = Dom::new(vec![tn("abcd")]);
    let range = dom.find_range(2, 2);
    let h = dom.insert_node_at_range(&range, link());
    assert_eq!(html(&dom), "ab<a href=\"href\"></a>cd");
    assert_eq!(h.raw(), &vec![1]);
}

#[test]
fn insert_node_at_range_leaves_a_selection_alone() {
    let mut dom = Dom::new(vec![tn("abcd")]);
    let range = dom.find_range(1, 3);
    let h = dom.insert_node_at_range(&range, link());
    assert_eq!(html(&dom), "abcd");
    assert!(!h.is_set());
}

#[test]
fn cursor_at_end_of_a_leaf_appends_to_its_parent() {
    let mut dom = Dom::new(vec![p(vec![tn("ab"), DomNode::new_formatting_from_tag(chars_of("b"), vec![tn("c")])])]);
    let range = dom.find_range(2, 2);
    dom.insert_node_at_cursor(&range, link());
    assert_eq!(html(&dom), "<p>ab<b>c</b><a href=\"href\"></a></p>");
}
