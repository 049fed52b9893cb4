use vstd::prelude::*;

use crate::handle::DomHandle;
use crate::kinds::{InlineFormatType, ListType, format_tag, format_of_tag, list_tag};
use crate::leaf_nodes::{LineBreakNode, TextNode, ZwspNode, zwsp_char};
use crate::errors::UriParseError;

verus! {

/// What kind of container a container node is.
#[derive(Clone, Debug, PartialEq, Eq)]
pub enum ContainerNodeKind {
    Generic,
    Formatting(InlineFormatType),
    Link(Vec<char>),
    List(ListType),
    ListItem,
    CodeBlock,
    Quote,
    Paragraph,
}

/// The kind of a container with its link address taken by value.
pub enum KindView {
    Generic,
    Formatting(InlineFormatType),
    Link(Seq<char>),
    List(ListType),
    ListItem,
    CodeBlock,
    Quote,
    Paragraph,
}

impl View for ContainerNodeKind {
    type V = KindView;

    open spec fn view(&self) -> KindView {
        match self {
            ContainerNodeKind::Generic => KindView::Generic,
            ContainerNodeKind::Formatting(f) => KindView::Formatting(*f),
            ContainerNodeKind::Link(u) => KindView::Link(u@),
            ContainerNodeKind::List(l) => KindView::List(*l),
            ContainerNodeKind::ListItem => KindView::ListItem,
            ContainerNodeKind::CodeBlock => KindView::CodeBlock,
            ContainerNodeKind::Quote => KindView::Quote,
            ContainerNodeKind::Paragraph => KindView::Paragraph,
        }
    }
}

/// Attribute lists taken by value.
pub open spec fn attrs_view(a: Option<Vec<(Vec<char>, Vec<char>)>>) -> Option<
    Seq<(Seq<char>, Seq<char>)>,
> {
    match a {
        Some(v) => Some(v@.map_values(|p: (Vec<char>, Vec<char>)| (p.0@, p.1@))),
        None => None,
    }
}

/// What kind of mention a mention node is.
#[derive(Clone, Debug, PartialEq, Eq)]
pub enum MentionNodeKind {
    MatrixUri { uri: Vec<char>, room_id: Option<Vec<char>> },
    AtRoom,
}

/// What the mention parser made of a Matrix URI: the URI, and for a room
/// the room's identifier.
#[derive(Debug)]
pub struct MentionTarget {
    pub uri: Vec<char>,
    pub room_id: Option<Vec<char>>,
}

/// A mention of a user, a room or the whole room; it counts as one code
/// unit of text.
#[derive(Debug, PartialEq, Eq)]
pub struct MentionNode {
    display_text: Vec<char>,
    kind: MentionNodeKind,
    attributes: Vec<(Vec<char>, Vec<char>)>,
    handle: DomHandle,
}

/// A node that holds other nodes: formatting, links, lists, paragraphs...
#[derive(Debug, PartialEq, Eq)]
pub struct ContainerNode {
    name: Vec<char>,
    kind: ContainerNodeKind,
    attrs: Option<Vec<(Vec<char>, Vec<char>)>>,
    children: Vec<DomNode>,
    handle: DomHandle,
}

/// A node of the document tree.
#[derive(Debug, PartialEq, Eq)]
pub enum DomNode {
    Container(ContainerNode),
    Text(TextNode),
    LineBreak(LineBreakNode),
    Zwsp(ZwspNode),
    Mention(MentionNode),
}

impl MentionNode {
    /// The text shown for this mention.
    pub closed spec fn spec_display_text(&self) -> Seq<char> {
        self.display_text@
    }

    /// True for an at-room mention.
    pub closed spec fn spec_is_at_room(&self) -> bool {
        self.kind is AtRoom
    }

    /// The extra attributes of this mention.
    pub closed spec fn spec_attributes(&self) -> Seq<(Seq<char>, Seq<char>)> {
        self.attributes@.map_values(|p: (Vec<char>, Vec<char>)| (p.0@, p.1@))
    }

    /// The link target: the Matrix URI, or `#` for an at-room mention.
    pub closed spec fn spec_href(&self) -> Seq<char> {
        match self.kind {
            MentionNodeKind::MatrixUri { uri, .. } => uri@,
            MentionNodeKind::AtRoom => seq!['#'],
        }
    }

    /// The text written for this mention in markdown: the room's identifier
    /// for a room mention, else the text shown.
    pub closed spec fn spec_markdown_text(&self) -> Seq<char> {
        match self.kind {
            MentionNodeKind::MatrixUri { room_id: Some(id), .. } => id@,
            _ => self.display_text@,
        }
    }

    /// The handle of this node.
    pub closed spec fn spec_handle(&self) -> Option<Seq<usize>> {
        self.handle@
    }
}

impl ContainerNode {
    /// The tag name of this container (empty for the document node).
    pub closed spec fn spec_name(&self) -> Seq<char> {
        self.name@
    }

    /// The kind of this container.
    pub closed spec fn spec_kind(&self) -> KindView {
        self.kind@
    }

    /// The attributes of this container.
    pub closed spec fn spec_attrs(&self) -> Option<Seq<(Seq<char>, Seq<char>)>> {
        attrs_view(self.attrs)
    }

    /// The children of this container.
    pub closed spec fn spec_children(&self) -> Seq<DomNode> {
        self.children@
    }

    /// The handle of this container.
    pub closed spec fn spec_handle(&self) -> Option<Seq<usize>> {
        self.handle@
    }
}

impl DomNode {
    /// The handle of this node.
    pub open spec fn spec_handle(&self) -> Option<Seq<usize>> {
        match self {
            DomNode::Container(n) => n.spec_handle(),
            DomNode::Text(n) => n.spec_handle(),
            DomNode::LineBreak(n) => n.spec_handle(),
            DomNode::Zwsp(n) => n.spec_handle(),
            DomNode::Mention(n) => n.spec_handle(),
        }
    }
}

/// A container node is larger than the sequence of its children, for
/// recursion over the tree.
pub proof fn lemma_decreases_children(n: DomNode)
    requires
        n is Container,
    ensures
        decreases_to!(n => n->Container_0.spec_children()),
{
    let c = n->Container_0;
    assert(decreases_to!(n => c.children));
}

/// A container is larger than each of its children, for recursion over the
/// tree.
pub proof fn lemma_container_child_decreases(c: ContainerNode, i: int)
    requires
        0 <= i < c.spec_children().len(),
    ensures
        decreases_to!(c => c.spec_children()[i]),
{
    assert(decreases_to!(c => c.children));
    assert(decreases_to!(c.children => c.children@));
    assert(decreases_to!(c.children@ => c.children@[i]));
}

/// A container is larger than the sequence of its children, for recursion
/// over the tree.
pub proof fn lemma_container_decreases_children(c: ContainerNode)
    ensures
        decreases_to!(c => c.spec_children()),
{
    assert(decreases_to!(c => c.children@));
}

/// The view of a list of attribute pairs.
pub open spec fn pairs_view(s: Seq<(Vec<char>, Vec<char>)>) -> Seq<(Seq<char>, Seq<char>)> {
    s.map_values(|p: (Vec<char>, Vec<char>)| (p.0@, p.1@))
}

/// A copy of a list of attribute pairs.
pub fn clone_pairs(v: &Vec<(Vec<char>, Vec<char>)>) -> (r: Vec<(Vec<char>, Vec<char>)>)
    ensures
        pairs_view(r@) == pairs_view(v@),
{
    let mut r: Vec<(Vec<char>, Vec<char>)> = Vec::new();
    let mut i: usize = 0;
    while i < v.len()
        invariant
            i <= v@.len(),
            r@.len() == i,
            forall|j: int| 0 <= j < i ==> (#[trigger] r@[j]).0@ == v@[j].0@ && r@[j].1@ == v@[j].1@,
        decreases v@.len() - i,
    {
        let (a, b) = &v[i];
        let a2 = crate::leaf_nodes::copy_range(a, 0, a.len());
        let b2 = crate::leaf_nodes::copy_range(b, 0, b.len());
        assert(a@.subrange(0, a@.len() as int) =~= a@);
        assert(b@.subrange(0, b@.len() as int) =~= b@);
        r.push((a2, b2));
        i += 1;
    }
    assert(pairs_view(r@) =~= pairs_view(v@));
    r
}

/// The view of a list of attribute pairs extended by one pair.
pub proof fn lemma_pairs_view_push(s: Seq<(Vec<char>, Vec<char>)>, p: (Vec<char>, Vec<char>))
    ensures
        pairs_view(s.push(p)) == pairs_view(s).push((p.0@, p.1@)),
{
    assert(pairs_view(s.push(p)) =~= pairs_view(s).push((p.0@, p.1@)));
}

/// The number of code units of text in a node: the length of a text node,
/// one for a line break, a zero-width space or a mention, and the sum over
/// the children for a container.
pub open spec fn node_len(n: DomNode) -> nat
    decreases n,
{
    match n {
        DomNode::Container(c) => nodes_len(c.spec_children()),
        DomNode::Text(t) => t.spec_data().len(),
        _ => 1,
    }
}

/// The number of code units of text in a sequence of nodes.
pub open spec fn nodes_len(s: Seq<DomNode>) -> nat
    decreases s,
{
    if s.len() == 0 {
        0
    } else {
        nodes_len(s.drop_last()) + node_len(s.last())
    }
}

/// Every node of the tree under `n` holds the handle of its own position,
/// `n` itself being at `p`.
pub open spec fn handles_ok(n: DomNode, p: Seq<usize>) -> bool
    decreases n,
{
    &&& n.spec_handle() == Some(p)
    &&& match n {
        DomNode::Container(c) => children_ok(c.spec_children(), p),
        _ => true,
    }
}

/// Every child `i` of a node at `p` satisfies `handles_ok` at `p + [i]`.
pub open spec fn children_ok(s: Seq<DomNode>, p: Seq<usize>) -> bool
    decreases s,
{
    if s.len() == 0 {
        true
    } else {
        children_ok(s.drop_last(), p) && handles_ok(s.last(), p.push((s.len() - 1) as usize))
    }
}

/// A container whose handle is set and whose whole subtree holds the
/// handles of its positions.
pub open spec fn container_ok(c: ContainerNode) -> bool {
    &&& c.spec_handle() is Some
    &&& children_ok(c.spec_children(), c.spec_handle().unwrap())
}

/// Two nodes hold the same content: equal up to the handles they carry.
pub open spec fn same_content(a: DomNode, b: DomNode) -> bool
    decreases a,
{
    match (a, b) {
        (DomNode::Container(x), DomNode::Container(y)) => {
            &&& x.spec_name() == y.spec_name()
            &&& x.spec_kind() == y.spec_kind()
            &&& x.spec_attrs() == y.spec_attrs()
            &&& same_children(x.spec_children(), y.spec_children())
        },
        (DomNode::Text(x), DomNode::Text(y)) => x.spec_data() == y.spec_data(),
        (DomNode::LineBreak(_), DomNode::LineBreak(_)) => true,
        (DomNode::Zwsp(x), DomNode::Zwsp(y)) => x.spec_data() == y.spec_data(),
        (DomNode::Mention(x), DomNode::Mention(y)) => {
            &&& x.spec_display_text() == y.spec_display_text()
            &&& x.spec_is_at_room() == y.spec_is_at_room()
            &&& x.spec_href() == y.spec_href()
            &&& x.spec_attributes() == y.spec_attributes()
            &&& x.spec_markdown_text() == y.spec_markdown_text()
        },
        _ => false,
    }
}

/// Two sequences of nodes hold the same content, child by child.
pub open spec fn same_children(s: Seq<DomNode>, t: Seq<DomNode>) -> bool
    decreases s,
{
    if s.len() == 0 {
        t.len() == 0
    } else {
        t.len() == s.len() && same_children(s.drop_last(), t.drop_last()) && same_content(
            s.last(),
            t.last(),
        )
    }
}

/// `children_ok` holds exactly when every child is in order.
pub proof fn lemma_children_ok_iff(s: Seq<DomNode>, p: Seq<usize>)
    ensures
        children_ok(s, p) <==> (forall|i: int|
            0 <= i < s.len() ==> #[trigger] handles_ok(s[i], p.push(i as usize))),
    decreases s.len(),
{
    if s.len() > 0 {
        lemma_children_ok_iff(s.drop_last(), p);
        if children_ok(s, p) {
            assert forall|i: int| 0 <= i < s.len() implies #[trigger] handles_ok(
                s[i],
                p.push(i as usize),
            ) by {
                if i < s.len() - 1 {
                    assert(s.drop_last()[i] == s[i]);
                }
            }
        }
        if forall|i: int| 0 <= i < s.len() ==> #[trigger] handles_ok(s[i], p.push(i as usize)) {
            assert forall|i: int| 0 <= i < s.drop_last().len() implies #[trigger] handles_ok(
                s.drop_last()[i],
                p.push(i as usize),
            ) by {
                assert(handles_ok(s[i], p.push(i as usize)));
            }
            assert(handles_ok(s[s.len() - 1], p.push((s.len() - 1) as usize)));
        }
    }
}

/// `same_children` holds exactly when the lengths agree and every pair of
/// children holds the same content.
pub proof fn lemma_same_children_iff(s: Seq<DomNode>, t: Seq<DomNode>)
    ensures
        same_children(s, t) <==> (s.len() == t.len() && forall|i: int|
            0 <= i < s.len() ==> #[trigger] same_content(s[i], t[i])),
    decreases s.len(),
{
    if s.len() > 0 && t.len() == s.len() {
        lemma_same_children_iff(s.drop_last(), t.drop_last());
        if same_children(s, t) {
            assert forall|i: int| 0 <= i < s.len() implies #[trigger] same_content(s[i], t[i]) by {
                if i < s.len() - 1 {
                    assert(s.drop_last()[i] == s[i]);
                    assert(t.drop_last()[i] == t[i]);
                }
            }
        }
        if forall|i: int| 0 <= i < s.len() ==> #[trigger] same_content(s[i], t[i]) {
            assert forall|i: int| 0 <= i < s.drop_last().len() implies #[trigger] same_content(
                s.drop_last()[i],
                t.drop_last()[i],
            ) by {
                assert(same_content(s[i], t[i]));
            }
            assert(same_content(s[s.len() - 1], t[s.len() - 1]));
        }
    }
}

/// The node reached from `n` by following `path`, if each step exists.
pub open spec fn node_at(n: DomNode, path: Seq<usize>) -> Option<DomNode>
    decreases path.len(),
{
    if path.len() == 0 {
        Some(n)
    } else {
        match n {
            DomNode::Container(c) => if path[0] < c.spec_children().len() {
                node_at(c.spec_children()[path[0] as int], path.skip(1))
            } else {
                None
            },
            _ => None,
        }
    }
}

/// `new` is `old` with the node at `path` replaced by `sub`: every
/// container on the way keeps its name, kind, attributes, handle and other
/// children.
pub open spec fn updated_at(old: DomNode, new: DomNode, path: Seq<usize>, sub: DomNode) -> bool
    decreases path.len(),
{
    if path.len() == 0 {
        new == sub
    } else {
        match (old, new) {
            (DomNode::Container(o), DomNode::Container(n)) => {
                &&& n.spec_name() == o.spec_name()
                &&& n.spec_kind() == o.spec_kind()
                &&& n.spec_attrs() == o.spec_attrs()
                &&& n.spec_handle() == o.spec_handle()
                &&& path[0] < o.spec_children().len()
                &&& n.spec_children().len() == o.spec_children().len()
                &&& forall|j: int|
                    0 <= j < o.spec_children().len() && j != path[0] ==> n.spec_children()[j]
                        == o.spec_children()[j]
                &&& updated_at(
                    o.spec_children()[path[0] as int],
                    n.spec_children()[path[0] as int],
                    path.skip(1),
                    sub,
                )
            },
            _ => false,
        }
    }
}

/// After an update at `path`, following `path` leads to the new node.
pub proof fn lemma_updated_at_node(old: DomNode, new: DomNode, path: Seq<usize>, sub: DomNode)
    requires
        updated_at(old, new, path, sub),
    ensures
        node_at(new, path) == Some(sub),
        node_at(old, path) is Some,
    decreases path.len(),
{
    if path.len() > 0 {
        let o = old->Container_0;
        let n = new->Container_0;
        lemma_updated_at_node(
            o.spec_children()[path[0] as int],
            n.spec_children()[path[0] as int],
            path.skip(1),
            sub,
        );
    }
}

/// After an update at `path`, the nodes below the new node are reached by
/// extending `path`.
pub proof fn lemma_updated_at_below(
    old: DomNode,
    new: DomNode,
    path: Seq<usize>,
    sub: DomNode,
    rest: Seq<usize>,
)
    requires
        updated_at(old, new, path, sub),
    ensures
        node_at(new, path + rest) == node_at(sub, rest),
    decreases path.len(),
{
    if path.len() > 0 {
        let o = old->Container_0;
        let n = new->Container_0;
        assert((path + rest).skip(1) =~= path.skip(1) + rest);
        assert((path + rest)[0] == path[0]);
        lemma_updated_at_below(
            o.spec_children()[path[0] as int],
            n.spec_children()[path[0] as int],
            path.skip(1),
            sub,
            rest,
        );
    } else {
        assert(path + rest =~= rest);
    }
}

/// An update at `path` keeps the handles in order when the new node is in
/// order at `base + path`.
pub proof fn lemma_updated_at_handles(
    old: DomNode,
    new: DomNode,
    path: Seq<usize>,
    sub: DomNode,
    base: Seq<usize>,
)
    requires
        updated_at(old, new, path, sub),
        handles_ok(old, base),
        handles_ok(sub, base + path),
    ensures
        handles_ok(new, base),
    decreases path.len(),
{
    if path.len() == 0 {
        assert(base + path =~= base);
    } else {
        let o = old->Container_0;
        let n = new->Container_0;
        let k = path[0];
        lemma_children_ok_iff(o.spec_children(), base);
        lemma_children_ok_iff(n.spec_children(), base);
        assert(handles_ok(o.spec_children()[k as int], base.push((k as int) as usize)));
        assert(base.push(k) + path.skip(1) =~= base + path);
        lemma_updated_at_handles(
            o.spec_children()[k as int],
            n.spec_children()[k as int],
            path.skip(1),
            sub,
            base.push(k),
        );
        assert forall|j: int| 0 <= j < n.spec_children().len() implies #[trigger] handles_ok(
            n.spec_children()[j],
            base.push(j as usize),
        ) by {
            if j != k {
                assert(n.spec_children()[j] == o.spec_children()[j]);
                assert(handles_ok(o.spec_children()[j], base.push(j as usize)));
            }
        }
    }
}

/// In a tree whose handles are in order, the node at `path` holds the
/// handle `base + path`.
pub proof fn lemma_node_at_handle(n: DomNode, base: Seq<usize>, path: Seq<usize>)
    requires
        handles_ok(n, base),
        node_at(n, path) is Some,
    ensures
        handles_ok(node_at(n, path).unwrap(), base + path),
    decreases path.len(),
{
    if path.len() == 0 {
        assert(base + path =~= base);
    } else {
        let c = n->Container_0;
        let k = path[0];
        lemma_children_ok_iff(c.spec_children(), base);
        assert(handles_ok(c.spec_children()[k as int], base.push((k as int) as usize)));
        assert(base.push(k) + path.skip(1) =~= base + path);
        lemma_node_at_handle(c.spec_children()[k as int], base.push(k), path.skip(1));
    }
}

/// `nodes_len` of a sequence extended by one node.
pub proof fn lemma_nodes_len_push(s: Seq<DomNode>, n: DomNode)
    ensures
        nodes_len(s.push(n)) == nodes_len(s) + node_len(n),
{
    assert(s.push(n).drop_last() =~= s);
}

/// `nodes_len` of a prefix extended by the next node.
pub proof fn lemma_nodes_len_prefix_step(s: Seq<DomNode>, i: int)
    requires
        0 <= i < s.len(),
    ensures
        nodes_len(s.subrange(0, i + 1)) == nodes_len(s.subrange(0, i)) + node_len(s[i]),
{
    assert(s.subrange(0, i + 1).drop_last() =~= s.subrange(0, i));
}

/// A prefix holds no more text than the whole sequence.
pub proof fn lemma_nodes_len_prefix_le(s: Seq<DomNode>, i: int)
    requires
        0 <= i <= s.len(),
    ensures
        nodes_len(s.subrange(0, i)) <= nodes_len(s),
    decreases s.len() - i,
{
    if i < s.len() {
        lemma_nodes_len_prefix_step(s, i);
        lemma_nodes_len_prefix_le(s, i + 1);
    } else {
        assert(s.subrange(0, i) =~= s);
    }
}

/// Nodes with the same content hold the same amount of text.
pub proof fn lemma_same_content_len(a: DomNode, b: DomNode)
    requires
        same_content(a, b),
    ensures
        node_len(a) == node_len(b),
    decreases a,
{
    match (a, b) {
        (DomNode::Container(x), DomNode::Container(y)) => {
            lemma_same_children_len(x.spec_children(), y.spec_children());
        },
        _ => {},
    }
}

/// Sequences with the same content hold the same amount of text.
pub proof fn lemma_same_children_len(s: Seq<DomNode>, t: Seq<DomNode>)
    requires
        same_children(s, t),
    ensures
        nodes_len(s) == nodes_len(t),
    decreases s,
{
    if s.len() > 0 {
        lemma_same_content_len(s.last(), t.last());
        lemma_same_children_len(s.drop_last(), t.drop_last());
    }
}

/// Every node holds the same content as itself.
pub proof fn lemma_same_content_refl(a: DomNode)
    ensures
        same_content(a, a),
    decreases a,
{
    match a {
        DomNode::Container(x) => {
            lemma_same_children_refl(x.spec_children());
        },
        _ => {},
    }
}

/// A container holds no more children than a `usize` counts.
pub proof fn lemma_children_len(c: ContainerNode)
    ensures
        c.spec_children().len() <= usize::MAX,
{
    assert(c.children.len() == c.children@.len());
}

/// Every sequence of nodes holds the same content as itself.
pub proof fn lemma_same_children_refl(s: Seq<DomNode>)
    ensures
        same_children(s, s),
    decreases s,
{
    if s.len() > 0 {
        lemma_same_content_refl(s.last());
        lemma_same_children_refl(s.drop_last());
    }
}

/// `new` is `old` with the children from position `from` on given the
/// handles of their positions under `p`; the children before `from` are kept.
pub open spec fn rehandled_from(old: Seq<DomNode>, new: Seq<DomNode>, p: Seq<usize>, from: int) -> bool {
    &&& old.len() == new.len()
    &&& forall|j: int| 0 <= j < from && j < old.len() ==> new[j] == old[j]
    &&& forall|j: int| from <= j < old.len() ==> #[trigger] same_content(old[j], new[j])
    &&& forall|j: int| from <= j < old.len() ==> #[trigger] handles_ok(new[j], p.push(j as usize))
}

/// Block kinds: everything but formatting and links.
pub open spec fn is_block_kind_view(k: KindView) -> bool {
    !(k is Formatting) && !(k is Link)
}

/// Text length of a single node, without overflow for nodes whose whole text
/// length fits in `usize`.
pub open spec fn fits(n: DomNode) -> bool {
    node_len(n) <= usize::MAX
}

/// The kind of a node, without its content.
#[derive(Clone, Copy, Debug, PartialEq, Eq, Structural)]
pub enum DomNodeKind {
    Generic,
    Text,
    LineBreak,
    Zwsp,
    Mention,
    Formatting(InlineFormatType),
    Link,
    ListItem,
    List,
    CodeBlock,
    Quote,
    Paragraph,
}

/// The node kind of a container kind.
pub open spec fn kind_of_container(k: KindView) -> DomNodeKind {
    match k {
        KindView::Generic => DomNodeKind::Generic,
        KindView::Formatting(f) => DomNodeKind::Formatting(f),
        KindView::Link(_) => DomNodeKind::Link,
        KindView::List(_) => DomNodeKind::List,
        KindView::ListItem => DomNodeKind::ListItem,
        KindView::CodeBlock => DomNodeKind::CodeBlock,
        KindView::Quote => DomNodeKind::Quote,
        KindView::Paragraph => DomNodeKind::Paragraph,
    }
}

/// The kind of a node.
pub open spec fn kind_of(n: DomNode) -> DomNodeKind {
    match n {
        DomNode::Container(c) => kind_of_container(c.spec_kind()),
        DomNode::Text(_) => DomNodeKind::Text,
        DomNode::LineBreak(_) => DomNodeKind::LineBreak,
        DomNode::Zwsp(_) => DomNodeKind::Zwsp,
        DomNode::Mention(_) => DomNodeKind::Mention,
    }
}

/// Block kinds: the document, lists, list items, code blocks, quotes and
/// paragraphs.
pub open spec fn is_block_kind(k: DomNodeKind) -> bool {
    k is Generic || k is List || k is ListItem || k is CodeBlock || k is Quote || k is Paragraph
}

/// Leaf kinds: text, line breaks, zero-width spaces and mentions.
pub open spec fn is_leaf_kind(k: DomNodeKind) -> bool {
    k is Text || k is LineBreak || k is Zwsp || k is Mention
}

impl DomNodeKind {
    /// The node kind of a container kind.
    pub fn from_container_kind(kind: &ContainerNodeKind) -> (k: DomNodeKind)
        ensures
            k == kind_of_container(kind@),
    {
        match kind {
            ContainerNodeKind::Formatting(f) => DomNodeKind::Formatting(*f),
            ContainerNodeKind::Link(_) => DomNodeKind::Link,
            ContainerNodeKind::List(_) => DomNodeKind::List,
            ContainerNodeKind::ListItem => DomNodeKind::ListItem,
            ContainerNodeKind::Generic => DomNodeKind::Generic,
            ContainerNodeKind::CodeBlock => DomNodeKind::CodeBlock,
            ContainerNodeKind::Quote => DomNodeKind::Quote,
            ContainerNodeKind::Paragraph => DomNodeKind::Paragraph,
        }
    }

    /// True for lists and list items.
    pub fn is_structure_kind(&self) -> (b: bool)
        ensures
            b == (*self is List || *self is ListItem),
    {
        match self {
            DomNodeKind::List | DomNodeKind::ListItem => true,
            _ => false,
        }
    }

    /// True for block kinds.
    pub fn is_block_kind(&self) -> (b: bool)
        ensures
            b == is_block_kind(*self),
    {
        match self {
            DomNodeKind::Generic | DomNodeKind::List | DomNodeKind::ListItem
            | DomNodeKind::CodeBlock | DomNodeKind::Quote | DomNodeKind::Paragraph => true,
            _ => false,
        }
    }

    /// True for leaf kinds.
    pub fn is_leaf_kind(&self) -> (b: bool)
        ensures
            b == is_leaf_kind(*self),
    {
        match self {
            DomNodeKind::Text | DomNodeKind::LineBreak | DomNodeKind::Zwsp
            | DomNodeKind::Mention => true,
            _ => false,
        }
    }

    /// True for code blocks and inline code.
    pub fn is_code_kind(&self) -> (b: bool)
        ensures
            b == (*self is CodeBlock || *self == DomNodeKind::Formatting(
                InlineFormatType::InlineCode,
            )),
    {
        match self {
            DomNodeKind::CodeBlock => true,
            DomNodeKind::Formatting(InlineFormatType::InlineCode) => true,
            _ => false,
        }
    }
}

impl DomNode {
    /// A new text node with an unset handle.
    pub fn new_text(text: Vec<char>) -> (n: DomNode)
        ensures
            n is Text,
            n->Text_0.spec_data() == text@,
            n.spec_handle() == None::<Seq<usize>>,
    {
        DomNode::Text(TextNode::from(text))
    }

    /// A new empty text node with an unset handle.
    pub fn new_empty_text() -> (n: DomNode)
        ensures
            n is Text,
            n->Text_0.spec_data() == Seq::<char>::empty(),
            n.spec_handle() == None::<Seq<usize>>,
    {
        DomNode::Text(TextNode::from(Vec::new()))
    }

    /// A new line break with an unset handle.
    pub fn new_line_break() -> (n: DomNode)
        ensures
            n is LineBreak,
            n.spec_handle() == None::<Seq<usize>>,
    {
        DomNode::LineBreak(LineBreakNode::default())
    }

    /// A new zero-width space node with an unset handle.
    pub fn new_zwsp() -> (n: DomNode)
        ensures
            n is Zwsp,
            n->Zwsp_0.spec_data() == seq![zwsp_char()],
            n.spec_handle() == None::<Seq<usize>>,
    {
        DomNode::Zwsp(ZwspNode::default())
    }

    /// A new formatting node.
    pub fn new_formatting(format: InlineFormatType, children: Vec<DomNode>) -> (n: DomNode)
        ensures
            n is Container,
            n->Container_0.spec_name() == format_tag(format),
            n->Container_0.spec_kind() == KindView::Formatting(format),
            n->Container_0.spec_attrs() == None::<Seq<(Seq<char>, Seq<char>)>>,
            n->Container_0.spec_children() == children@,
            n.spec_handle() == None::<Seq<usize>>,
    {
        DomNode::Container(ContainerNode::new_formatting(format, children))
    }

    /// A new formatting node for a tag such as `b`, `em` or `code`, named by
    /// that tag.
    pub fn new_formatting_from_tag(format: Vec<char>, children: Vec<DomNode>) -> (n: DomNode)
        requires
            format_of_tag(format@) is Some,
        ensures
            n is Container,
            n->Container_0.spec_name() == format@,
            n->Container_0.spec_kind() == KindView::Formatting(format_of_tag(format@).unwrap()),
            n->Container_0.spec_attrs() == None::<Seq<(Seq<char>, Seq<char>)>>,
            n->Container_0.spec_children() == children@,
            n.spec_handle() == None::<Seq<usize>>,
    {
        DomNode::Container(ContainerNode::new_formatting_from_tag(format, children).unwrap())
    }

    /// A new list node.
    pub fn new_list(list_type: ListType, children: Vec<DomNode>) -> (n: DomNode)
        ensures
            n is Container,
            n->Container_0.spec_name() == list_tag(list_type),
            n->Container_0.spec_kind() == KindView::List(list_type),
            n->Container_0.spec_attrs() == None::<Seq<(Seq<char>, Seq<char>)>>,
            n->Container_0.spec_children() == children@,
            n.spec_handle() == None::<Seq<usize>>,
    {
        DomNode::Container(ContainerNode::new_list(list_type, children))
    }

    /// A new list item node.
    pub fn new_list_item(children: Vec<DomNode>) -> (n: DomNode)
        ensures
            n is Container,
            n->Container_0.spec_name() == seq!['l', 'i'],
            n->Container_0.spec_kind() == KindView::ListItem,
            n->Container_0.spec_children() == children@,
            n.spec_handle() == None::<Seq<usize>>,
    {
        DomNode::Container(ContainerNode::new_list_item(children))
    }

    /// True when the children are not empty and all of them are block nodes.
    fn all_block_nodes(children: &Vec<DomNode>) -> (b: bool)
        ensures
            b == (children@.len() > 0 && forall|i: int|
                0 <= i < children@.len() ==> #[trigger] is_block_kind(kind_of(children@[i]))),
    {
        if children.len() == 0 {
            return false;
        }
        let mut i: usize = 0;
        while i < children.len()
            invariant
                i <= children@.len(),
                forall|j: int| 0 <= j < i ==> #[trigger] is_block_kind(kind_of(children@[j])),
            decreases children@.len() - i,
        {
            if !children[i].is_block_node() {
                return false;
            }
            i += 1;
        }
        true
    }

    /// Wrap the children in a single paragraph unless they are all block
    /// nodes (an empty list is wrapped too).
    pub fn wrap_children_in_paragraphs_if_needed(children: Vec<DomNode>) -> (r: Vec<DomNode>)
        ensures
            (children@.len() > 0 && forall|i: int|
                0 <= i < children@.len() ==> #[trigger] is_block_kind(kind_of(children@[i])))
                ==> r@ == children@,
            !(children@.len() > 0 && forall|i: int|
                0 <= i < children@.len() ==> #[trigger] is_block_kind(kind_of(children@[i])))
                ==> r@.len() == 1 && r@[0] is Container && r@[0]->Container_0.spec_kind()
                == KindView::Paragraph && r@[0]->Container_0.spec_name() == seq!['p']
                && r@[0]->Container_0.spec_attrs() == None::<Seq<(Seq<char>, Seq<char>)>>
                && r@[0]->Container_0.spec_children() == children@ && r@[0].spec_handle()
                == None::<Seq<usize>>,
    {
        if DomNode::all_block_nodes(&children) {
            children
        } else {
            vec![DomNode::new_paragraph(children)]
        }
    }

    /// A new code block node; its children are wrapped in a paragraph unless
    /// they are all block nodes.
    pub fn new_code_block(children: Vec<DomNode>) -> (n: DomNode)
        ensures
            n is Container,
            n->Container_0.spec_name() == seq!['p', 'r', 'e'],
            n->Container_0.spec_kind() == KindView::CodeBlock,
            n.spec_handle() == None::<Seq<usize>>,
            (children@.len() > 0 && forall|i: int|
                0 <= i < children@.len() ==> #[trigger] is_block_kind(kind_of(children@[i])))
                ==> n->Container_0.spec_children() == children@,
            !(children@.len() > 0 && forall|i: int|
                0 <= i < children@.len() ==> #[trigger] is_block_kind(kind_of(children@[i])))
                ==> n->Container_0.spec_children().len() == 1
                && n->Container_0.spec_children()[0] is Container
                && n->Container_0.spec_children()[0]->Container_0.spec_kind()
                == KindView::Paragraph
                && n->Container_0.spec_children()[0]->Container_0.spec_children() == children@,
    {
        let children = DomNode::wrap_children_in_paragraphs_if_needed(children);
        DomNode::Container(ContainerNode::new_code_block(children))
    }

    /// A new quote node; its children are wrapped in a paragraph unless they
    /// are all block nodes.
    pub fn new_quote(children: Vec<DomNode>) -> (n: DomNode)
        ensures
            n is Container,
            n->Container_0.spec_name() == seq!['b', 'l', 'o', 'c', 'k', 'q', 'u', 'o', 't', 'e'],
            n->Container_0.spec_kind() == KindView::Quote,
            n.spec_handle() == None::<Seq<usize>>,
            (children@.len() > 0 && forall|i: int|
                0 <= i < children@.len() ==> #[trigger] is_block_kind(kind_of(children@[i])))
                ==> n->Container_0.spec_children() == children@,
            !(children@.len() > 0 && forall|i: int|
                0 <= i < children@.len() ==> #[trigger] is_block_kind(kind_of(children@[i])))
                ==> n->Container_0.spec_children().len() == 1
                && n->Container_0.spec_children()[0] is Container
                && n->Container_0.spec_children()[0]->Container_0.spec_kind()
                == KindView::Paragraph
                && n->Container_0.spec_children()[0]->Container_0.spec_children() == children@,
    {
        let children = DomNode::wrap_children_in_paragraphs_if_needed(children);
        DomNode::Container(ContainerNode::new_quote(children))
    }

    /// A new paragraph node.
    pub fn new_paragraph(children: Vec<DomNode>) -> (n: DomNode)
        ensures
            n is Container,
            n->Container_0.spec_name() == seq!['p'],
            n->Container_0.spec_kind() == KindView::Paragraph,
            n->Container_0.spec_attrs() == None::<Seq<(Seq<char>, Seq<char>)>>,
            n->Container_0.spec_children() == children@,
            n.spec_handle() == None::<Seq<usize>>,
    {
        DomNode::Container(ContainerNode::new_paragraph(children))
    }

    /// A new link node.
    pub fn new_link(url: Vec<char>, children: Vec<DomNode>) -> (n: DomNode)
        ensures
            n is Container,
            n->Container_0.spec_name() == seq!['a'],
            n->Container_0.spec_kind() == KindView::Link(url@),
            n->Container_0.spec_attrs() == Some(seq![(seq!['h', 'r', 'e', 'f'], url@)]),
            n->Container_0.spec_children() == children@,
            n.spec_handle() == None::<Seq<usize>>,
    {
        DomNode::Container(ContainerNode::new_link(url, children))
    }

    /// True for container nodes.
    pub fn is_container_node(&self) -> (b: bool)
        ensures
            b == (*self is Container),
    {
        match self {
            DomNode::Container(_) => true,
            _ => false,
        }
    }

    /// True for text nodes.
    pub fn is_text_node(&self) -> (b: bool)
        ensures
            b == (*self is Text),
    {
        match self {
            DomNode::Text(_) => true,
            _ => false,
        }
    }

    /// True for mention nodes.
    pub fn is_mention_node(&self) -> (b: bool)
        ensures
            b == (*self is Mention),
    {
        match self {
            DomNode::Mention(_) => true,
            _ => false,
        }
    }

    /// True for line breaks.
    pub fn is_line_break(&self) -> (b: bool)
        ensures
            b == (*self is LineBreak),
    {
        match self {
            DomNode::LineBreak(_) => true,
            _ => false,
        }
    }

    /// True for nodes that are not containers.
    pub fn is_leaf(&self) -> (b: bool)
        ensures
            b == !(*self is Container),
    {
        match self {
            DomNode::Container(_) => false,
            _ => true,
        }
    }

    /// True for lists and list items.
    pub fn is_structure_node(&self) -> (b: bool)
        ensures
            b == (*self is Container && (self->Container_0.spec_kind() is List
                || self->Container_0.spec_kind() is ListItem)),
    {
        match self {
            DomNode::Container(c) => c.is_structure_node(),
            _ => false,
        }
    }

    /// True for formatting nodes.
    pub fn is_formatting_node(&self) -> (b: bool)
        ensures
            b == (*self is Container && self->Container_0.spec_kind() is Formatting),
    {
        match self {
            DomNode::Container(c) => c.is_formatting_node(),
            _ => false,
        }
    }

    /// True for formatting nodes of the given format.
    pub fn is_formatting_node_of_type(&self, format_type: &InlineFormatType) -> (b: bool)
        ensures
            b == (*self is Container && self->Container_0.spec_kind() == KindView::Formatting(
                *format_type,
            )),
    {
        match self {
            DomNode::Container(c) => c.is_formatting_node_of_type(format_type),
            _ => false,
        }
    }

    /// True for block nodes.
    pub fn is_block_node(&self) -> (b: bool)
        ensures
            b == is_block_kind(kind_of(*self)),
    {
        match self {
            DomNode::Container(c) => c.is_block_node(),
            _ => false,
        }
    }

    /// True for list items.
    pub fn is_list_item(&self) -> (b: bool)
        ensures
            b == (kind_of(*self) is ListItem),
    {
        match self {
            DomNode::Container(c) => c.is_list_item(),
            _ => false,
        }
    }

    /// True for lists.
    pub fn is_list(&self) -> (b: bool)
        ensures
            b == (kind_of(*self) is List),
    {
        match self {
            DomNode::Container(c) => c.is_list(),
            _ => false,
        }
    }

    /// The text node, if this is one.
    pub fn as_text(&self) -> (t: Option<&TextNode>)
        ensures
            t is Some <==> *self is Text,
            t is Some ==> *t.unwrap() == self->Text_0,
    {
        match self {
            DomNode::Text(t) => Some(t),
            _ => None,
        }
    }

    /// The container, if this is one.
    pub fn as_container(&self) -> (c: Option<&ContainerNode>)
        ensures
            c is Some <==> *self is Container,
            c is Some ==> *c.unwrap() == self->Container_0,
    {
        match self {
            DomNode::Container(c) => Some(c),
            _ => None,
        }
    }

    /// The container, if this is one.
    pub fn into_container(self) -> (c: Option<ContainerNode>)
        ensures
            c is Some <==> self is Container,
            c is Some ==> c.unwrap() == self->Container_0,
    {
        match self {
            DomNode::Container(c) => Some(c),
            _ => None,
        }
    }

    /// The container, mutably, if this is one.
    pub fn as_container_mut(&mut self) -> (c: Option<&mut ContainerNode>)
        ensures
            c is Some <==> *old(self) is Container,
            c is Some ==> *c.unwrap() == old(self)->Container_0,
            c is Some ==> *final(self) == DomNode::Container(*final(c.unwrap())),
            c is None ==> *final(self) == *old(self),
    {
        match self {
            DomNode::Container(c) => Some(c),
            _ => None,
        }
    }

    /// The kind of this node.
    pub fn kind(&self) -> (k: DomNodeKind)
        ensures
            k == kind_of(*self),
    {
        match self {
            DomNode::Text(_) => DomNodeKind::Text,
            DomNode::LineBreak(_) => DomNodeKind::LineBreak,
            DomNode::Zwsp(_) => DomNodeKind::Zwsp,
            DomNode::Container(n) => DomNodeKind::from_container_kind(n.kind()),
            DomNode::Mention(_) => DomNodeKind::Mention,
        }
    }

    /// The handle of this node.
    pub fn handle(&self) -> (h: DomHandle)
        ensures
            h@ == self.spec_handle(),
    {
        match self {
            DomNode::Container(n) => n.handle(),
            DomNode::Text(n) => n.handle(),
            DomNode::LineBreak(n) => n.handle(),
            DomNode::Zwsp(n) => n.handle(),
            DomNode::Mention(n) => n.handle(),
        }
    }

    /// The number of code units of text in this node.
    pub fn text_len(&self) -> (n: usize)
        requires
            node_len(*self) <= usize::MAX,
        ensures
            n == node_len(*self),
        decreases *self,
    {
        match self {
            DomNode::Container(c) => c.text_len(),
            DomNode::Text(t) => t.data().len(),
            _ => 1,
        }
    }

    /// The node reached from this one by following the handle's path.
    pub fn lookup_node(&self, node_handle: &DomHandle) -> (n: &DomNode)
        requires
            node_handle@ is Some,
            node_at(*self, node_handle.path()) is Some,
        ensures
            *n == node_at(*self, node_handle.path()).unwrap(),
    {
        let path = node_handle.raw();
        assert(path@.skip(0) =~= path@);
        self.lookup_from(path, 0)
    }

    /// The node reached by following `path` from position `i` on.
    fn lookup_from(&self, path: &Vec<usize>, i: usize) -> (n: &DomNode)
        requires
            i <= path@.len(),
            node_at(*self, path@.skip(i as int)) is Some,
        ensures
            *n == node_at(*self, path@.skip(i as int)).unwrap(),
        decreases path@.len() - i,
    {
        if i >= path.len() {
            return self;
        }
        match self {
            DomNode::Container(c) => {
                let idx = path[i];
                assert(path@.skip(i as int).skip(1) =~= path@.skip(i + 1));
                assert(path@.skip(i as int)[0] == idx);
                let child = &c.children()[idx];
                child.lookup_from(path, i + 1)
            },
            _ => {
                proof {
                    assert(false);
                }
                self
            },
        }
    }

    /// The node reached by following `path` from position `i` on, mutably.
    fn lookup_mut_from(&mut self, path: &Vec<usize>, i: usize) -> (n: &mut DomNode)
        requires
            i <= path@.len(),
            node_at(*old(self), path@.skip(i as int)) is Some,
        ensures
            *n == node_at(*old(self), path@.skip(i as int)).unwrap(),
            updated_at(*old(self), *final(self), path@.skip(i as int), *final(n)),
        decreases path@.len() - i,
    {
        if i >= path.len() {
            return self;
        }
        match self {
            DomNode::Container(c) => {
                let idx = path[i];
                assert(path@.skip(i as int).skip(1) =~= path@.skip(i + 1));
                assert(path@.skip(i as int)[0] == idx);
                let child = c.get_child_mut(idx).unwrap();
                child.lookup_mut_from(path, i + 1)
            },
            _ => {
                proof {
                    assert(false);
                }
                self
            },
        }
    }

    /// The node reached from this one by following the handle's path,
    /// mutably.
    pub fn lookup_node_mut(&mut self, node_handle: &DomHandle) -> (n: &mut DomNode)
        requires
            node_handle@ is Some,
            node_at(*old(self), node_handle.path()) is Some,
        ensures
            *n == node_at(*old(self), node_handle.path()).unwrap(),
            updated_at(*old(self), *final(self), node_handle.path(), *final(n)),
    {
        let path = node_handle.raw();
        assert(path@.skip(0) =~= path@);
        self.lookup_mut_from(path, 0)
    }

    /// True for a zero-width space node.
    pub fn is_zwsp(&self) -> (b: bool)
        ensures
            b == (*self is Zwsp),
    {
        match self {
            DomNode::Zwsp(_) => true,
            _ => false,
        }
    }

    /// Set the handle of this node, and of every node below it to the
    /// handle of its position.
    pub fn set_handle(&mut self, handle: DomHandle)
        requires
            handle@ is Some,
        ensures
            handles_ok(*final(self), handle.path()),
            same_content(*old(self), *final(self)),
        decreases *old(self),
    {
        let ghost p = handle.path();
        match self {
            DomNode::Container(n) => {
                n.set_handle(handle);
            },
            DomNode::Text(n) => {
                n.set_handle(handle);
            },
            DomNode::LineBreak(n) => {
                n.set_handle(handle);
            },
            DomNode::Zwsp(n) => {
                n.set_handle(handle);
            },
            DomNode::Mention(n) => {
                n.set_handle(handle);
            },
        }
    }
}

/// The text shown for an at-room mention.
pub open spec fn at_room_text() -> Seq<char> {
    seq!['@', 'r', 'o', 'o', 'm']
}

impl MentionNode {
    /// A mention of the whole room, with an unset handle.
    pub fn new_at_room(attributes: Vec<(Vec<char>, Vec<char>)>) -> (m: MentionNode)
        ensures
            m.spec_is_at_room(),
            m.spec_display_text() == at_room_text(),
            m.spec_href() == seq!['#'],
            m.spec_attributes() == attributes@.map_values(
                |p: (Vec<char>, Vec<char>)| (p.0@, p.1@),
            ),
            m.spec_handle() == None::<Seq<usize>>,
    {
        let display_text = vec!['@', 'r', 'o', 'o', 'm'];
        assert(display_text@ =~= at_room_text());
        MentionNode {
            display_text,
            kind: MentionNodeKind::AtRoom,
            attributes,
            handle: DomHandle::new_unset(),
        }
    }

    /// A mention of the user or room that `target` names, with an unset
    /// handle.
    pub fn from_target(
        target: MentionTarget,
        display_text: Vec<char>,
        attributes: Vec<(Vec<char>, Vec<char>)>,
    ) -> (m: MentionNode)
        ensures
            !m.spec_is_at_room(),
            m.spec_display_text() == display_text@,
            m.spec_href() == target.uri@,
            m.spec_markdown_text() == (match target.room_id {
                Some(id) => id@,
                None => display_text@,
            }),
            m.spec_attributes() == attributes@.map_values(
                |p: (Vec<char>, Vec<char>)| (p.0@, p.1@),
            ),
            m.spec_handle() == None::<Seq<usize>>,
    {
        MentionNode {
            display_text,
            kind: MentionNodeKind::MatrixUri { uri: target.uri, room_id: target.room_id },
            attributes,
            handle: DomHandle::new_unset(),
        }
    }

    /// A mention for a URI, given what the mention parser made of it:
    /// `None` when it did not accept the URI, which is refused.
    pub fn new(
        parsed: Option<MentionTarget>,
        display_text: Vec<char>,
        attributes: Vec<(Vec<char>, Vec<char>)>,
    ) -> (r: Result<MentionNode, UriParseError>)
        ensures
            parsed is None <==> r is Err,
            match (parsed, r) {
                (Some(t), Ok(m)) => {
                    &&& !m.spec_is_at_room()
                    &&& m.spec_display_text() == display_text@
                    &&& m.spec_href() == t.uri@
                    &&& m.spec_markdown_text() == (match t.room_id {
                        Some(id) => id@,
                        None => display_text@,
                    })
                    &&& m.spec_attributes() == attributes@.map_values(
                        |p: (Vec<char>, Vec<char>)| (p.0@, p.1@),
                    )
                    &&& m.spec_handle() == None::<Seq<usize>>
                },
                _ => true,
            },
    {
        match parsed {
            Some(t) => Ok(Self::from_target(t, display_text, attributes)),
            None => Err(UriParseError),
        }
    }

    /// The text written for this mention in markdown.
    pub fn markdown_text(&self) -> (t: Vec<char>)
        ensures
            t@ == self.spec_markdown_text(),
    {
        match &self.kind {
            MentionNodeKind::MatrixUri { room_id: Some(id), .. } => crate::leaf_nodes::copy_range(id, 0, id.len()),
            _ => crate::leaf_nodes::copy_range(&self.display_text, 0, self.display_text.len()),
        }
    }

    /// The tag name used in the tree view, `mention`.
    pub fn name(&self) -> (n: Vec<char>)
        ensures
            n@ == seq!['m', 'e', 'n', 't', 'i', 'o', 'n'],
    {
        let n = vec!['m', 'e', 'n', 't', 'i', 'o', 'n'];
        assert(n@ =~= seq!['m', 'e', 'n', 't', 'i', 'o', 'n']);
        n
    }

    /// The text shown for this mention.
    pub fn display_text(&self) -> (t: Vec<char>)
        ensures
            t@ == self.spec_display_text(),
    {
        crate::leaf_nodes::copy_range(&self.display_text, 0, self.display_text.len())
    }

    /// A mention counts as one code unit.
    pub fn text_len(&self) -> (n: usize)
        ensures
            n == 1,
    {
        1
    }

    /// The kind of this mention.
    pub fn kind(&self) -> (k: &MentionNodeKind)
        ensures
            (*k is AtRoom) == self.spec_is_at_room(),
    {
        &self.kind
    }

    /// The extra attributes of this mention.
    pub fn attributes(&self) -> (a: &Vec<(Vec<char>, Vec<char>)>)
        ensures
            a@.map_values(|p: (Vec<char>, Vec<char>)| (p.0@, p.1@)) == self.spec_attributes(),
    {
        &self.attributes
    }

    /// The link target: the Matrix URI, or `#` for an at-room mention.
    pub fn href(&self) -> (h: Vec<char>)
        ensures
            h@ == self.spec_href(),
    {
        match &self.kind {
            MentionNodeKind::MatrixUri { uri, .. } => crate::leaf_nodes::copy_range(uri, 0, uri.len()),
            MentionNodeKind::AtRoom => {
                let h = vec!['#'];
                assert(h@ =~= seq!['#']);
                h
            },
        }
    }

    /// The handle of this node.
    pub fn handle(&self) -> (h: DomHandle)
        ensures
            h@ == self.spec_handle(),
    {
        self.handle.clone()
    }

    /// Set the handle of this node.
    pub fn set_handle(&mut self, handle: DomHandle)
        ensures
            final(self).spec_handle() == handle@,
            final(self).spec_display_text() == old(self).spec_display_text(),
            final(self).spec_is_at_room() == old(self).spec_is_at_room(),
            final(self).spec_href() == old(self).spec_href(),
            final(self).spec_attributes() == old(self).spec_attributes(),
            final(self).spec_markdown_text() == old(self).spec_markdown_text(),
    {
        self.handle = handle;
    }
}

impl ContainerNode {
    /// Re-set the handles of the children from position `from` on.
    fn reset_handles_from(&mut self, from: usize)
        requires
            old(self).spec_handle() is Some,
            from <= old(self).spec_children().len(),
        ensures
            rehandled_from(
                old(self).spec_children(),
                final(self).spec_children(),
                old(self).spec_handle().unwrap(),
                from as int,
            ),
            final(self).spec_handle() == old(self).spec_handle(),
            final(self).spec_name() == old(self).spec_name(),
            final(self).spec_kind() == old(self).spec_kind(),
            final(self).spec_attrs() == old(self).spec_attrs(),
    {
        let ghost old_children = self.children@;
        let ghost p = self.handle.path();
        let mut i: usize = from;
        while i < self.children.len()
            invariant
                self.handle@ == old(self).handle@,
                self.handle@ is Some,
                p == self.handle.path(),
                self.children@.len() == old_children.len(),
                from <= i <= old_children.len(),
                old_children == old(self).children@,
                self.name == old(self).name,
                self.kind == old(self).kind,
                self.attrs == old(self).attrs,
                forall|j: int| 0 <= j < from ==> self.children@[j] == old_children[j],
                forall|j: int| i <= j < old_children.len() ==> self.children@[j] == old_children[j],
                forall|j: int|
                    from <= j < i ==> #[trigger] handles_ok(self.children@[j], p.push(j as usize)),
                forall|j: int|
                    from <= j < i ==> #[trigger] same_content(old_children[j], self.children@[j]),
            decreases old_children.len() - i,
        {
            let h = self.handle.child_handle(i);
            self.children[i].set_handle(h);
            i += 1;
        }
    }

    /// The handle of this node.
    pub fn handle(&self) -> (h: DomHandle)
        ensures
            h@ == self.spec_handle(),
    {
        self.handle.clone()
    }

    /// Create a new container with an unset handle.
    pub fn new(
        name: Vec<char>,
        kind: ContainerNodeKind,
        attrs: Option<Vec<(Vec<char>, Vec<char>)>>,
        children: Vec<DomNode>,
    ) -> (c: ContainerNode)
        ensures
            c.spec_name() == name@,
            c.spec_kind() == kind@,
            c.spec_attrs() == attrs_view(attrs),
            c.spec_children() == children@,
            c.spec_handle() == None::<Seq<usize>>,
    {
        ContainerNode { name, kind, attrs, children, handle: DomHandle::new_unset() }
    }

    /// The document node: a generic container with no name, no children and
    /// the root handle.
    pub fn default() -> (c: ContainerNode)
        ensures
            c.spec_name() == Seq::<char>::empty(),
            c.spec_kind() == KindView::Generic,
            c.spec_attrs() == None::<Seq<(Seq<char>, Seq<char>)>>,
            c.spec_children() == Seq::<DomNode>::empty(),
            c.spec_handle() == Some(Seq::<usize>::empty()),
            container_ok(c),
    {
        let mut document = ContainerNode::new(
            Vec::new(),
            ContainerNodeKind::Generic,
            None,
            Vec::new(),
        );
        document.set_handle(DomHandle::root());
        document
    }

    /// A formatting container for a tag such as `b`, `em` or `code`; nothing
    /// if the tag names no format. The container keeps the tag as its name.
    pub fn new_formatting_from_tag(format: Vec<char>, children: Vec<DomNode>) -> (c: Option<
        ContainerNode,
    >)
        ensures
            c is Some <==> format_of_tag(format@) is Some,
            c is Some ==> c.unwrap().spec_name() == format@ && c.unwrap().spec_kind()
                == KindView::Formatting(format_of_tag(format@).unwrap()) && c.unwrap().spec_attrs()
                == None::<Seq<(Seq<char>, Seq<char>)>> && c.unwrap().spec_children() == children@
                && c.unwrap().spec_handle() == None::<Seq<usize>>,
    {
        match InlineFormatType::from_tag(&format) {
            Some(f) => Some(
                ContainerNode {
                    name: format,
                    kind: ContainerNodeKind::Formatting(f),
                    attrs: None,
                    children,
                    handle: DomHandle::new_unset(),
                },
            ),
            None => None,
        }
    }

    /// A formatting container for `format`, named by its tag.
    pub fn new_formatting(format: InlineFormatType, children: Vec<DomNode>) -> (c: ContainerNode)
        ensures
            c.spec_name() == format_tag(format),
            c.spec_kind() == KindView::Formatting(format),
            c.spec_attrs() == None::<Seq<(Seq<char>, Seq<char>)>>,
            c.spec_children() == children@,
            c.spec_handle() == None::<Seq<usize>>,
    {
        ContainerNode {
            name: format.tag(),
            kind: ContainerNodeKind::Formatting(format),
            attrs: None,
            children,
            handle: DomHandle::new_unset(),
        }
    }

    /// A list container (`ol` or `ul`).
    pub fn new_list(list_type: ListType, children: Vec<DomNode>) -> (c: ContainerNode)
        ensures
            c.spec_name() == list_tag(list_type),
            c.spec_kind() == KindView::List(list_type),
            c.spec_attrs() == None::<Seq<(Seq<char>, Seq<char>)>>,
            c.spec_children() == children@,
            c.spec_handle() == None::<Seq<usize>>,
    {
        ContainerNode {
            name: list_type.tag(),
            kind: ContainerNodeKind::List(list_type),
            attrs: None,
            children,
            handle: DomHandle::new_unset(),
        }
    }

    /// A list item container (`li`).
    pub fn new_list_item(children: Vec<DomNode>) -> (c: ContainerNode)
        ensures
            c.spec_name() == seq!['l', 'i'],
            c.spec_kind() == KindView::ListItem,
            c.spec_attrs() == None::<Seq<(Seq<char>, Seq<char>)>>,
            c.spec_children() == children@,
            c.spec_handle() == None::<Seq<usize>>,
    {
        let name = vec!['l', 'i'];
        assert(name@ =~= seq!['l', 'i']);
        ContainerNode {
            name,
            kind: ContainerNodeKind::ListItem,
            attrs: None,
            children,
            handle: DomHandle::new_unset(),
        }
    }

    /// A code block container (`pre`).
    pub fn new_code_block(children: Vec<DomNode>) -> (c: ContainerNode)
        ensures
            c.spec_name() == seq!['p', 'r', 'e'],
            c.spec_kind() == KindView::CodeBlock,
            c.spec_attrs() == None::<Seq<(Seq<char>, Seq<char>)>>,
            c.spec_children() == children@,
            c.spec_handle() == None::<Seq<usize>>,
    {
        let name = vec!['p', 'r', 'e'];
        assert(name@ =~= seq!['p', 'r', 'e']);
        ContainerNode {
            name,
            kind: ContainerNodeKind::CodeBlock,
            attrs: None,
            children,
            handle: DomHandle::new_unset(),
        }
    }

    /// A quote container (`blockquote`).
    pub fn new_quote(children: Vec<DomNode>) -> (c: ContainerNode)
        ensures
            c.spec_name() == seq!['b', 'l', 'o', 'c', 'k', 'q', 'u', 'o', 't', 'e'],
            c.spec_kind() == KindView::Quote,
            c.spec_attrs() == None::<Seq<(Seq<char>, Seq<char>)>>,
            c.spec_children() == children@,
            c.spec_handle() == None::<Seq<usize>>,
    {
        let name = vec!['b', 'l', 'o', 'c', 'k', 'q', 'u', 'o', 't', 'e'];
        assert(name@ =~= seq!['b', 'l', 'o', 'c', 'k', 'q', 'u', 'o', 't', 'e']);
        ContainerNode {
            name,
            kind: ContainerNodeKind::Quote,
            attrs: None,
            children,
            handle: DomHandle::new_unset(),
        }
    }

    /// A paragraph container (`p`).
    pub fn new_paragraph(children: Vec<DomNode>) -> (c: ContainerNode)
        ensures
            c.spec_name() == seq!['p'],
            c.spec_kind() == KindView::Paragraph,
            c.spec_attrs() == None::<Seq<(Seq<char>, Seq<char>)>>,
            c.spec_children() == children@,
            c.spec_handle() == None::<Seq<usize>>,
    {
        let name = vec!['p'];
        assert(name@ =~= seq!['p']);
        ContainerNode {
            name,
            kind: ContainerNodeKind::Paragraph,
            attrs: None,
            children,
            handle: DomHandle::new_unset(),
        }
    }

    /// A link container (`a`) with a single `href` attribute.
    pub fn new_link(url: Vec<char>, children: Vec<DomNode>) -> (c: ContainerNode)
        ensures
            c.spec_name() == seq!['a'],
            c.spec_kind() == KindView::Link(url@),
            c.spec_attrs() == Some(seq![(seq!['h', 'r', 'e', 'f'], url@)]),
            c.spec_children() == children@,
            c.spec_handle() == None::<Seq<usize>>,
    {
        let name = vec!['a'];
        assert(name@ =~= seq!['a']);
        let href = vec!['h', 'r', 'e', 'f'];
        assert(href@ =~= seq!['h', 'r', 'e', 'f']);
        let url2 = crate::leaf_nodes::copy_range(&url, 0, url.len());
        assert(url@.subrange(0, url@.len() as int) =~= url@);
        let attrs = vec![(href, url2)];
        assert(attrs@.map_values(|p: (Vec<char>, Vec<char>)| (p.0@, p.1@)) =~= seq![
            (seq!['h', 'r', 'e', 'f'], url@),
        ]);
        ContainerNode {
            name,
            kind: ContainerNodeKind::Link(url),
            attrs: Some(attrs),
            children,
            handle: DomHandle::new_unset(),
        }
    }

    /// Append `child` as the last child, giving it (and its subtree) the
    /// handles of its new position. Returns the child's handle.
    pub fn append_child(&mut self, child: DomNode) -> (h: DomHandle)
        requires
            old(self).spec_handle() is Some,
        ensures
            h@ == Some(
                old(self).spec_handle().unwrap().push(old(self).spec_children().len() as usize),
            ),
            final(self).spec_children().len() == old(self).spec_children().len() + 1,
            final(self).spec_children().drop_last() == old(self).spec_children(),
            same_content(child, final(self).spec_children().last()),
            handles_ok(final(self).spec_children().last(), h@.unwrap()),
            final(self).spec_handle() == old(self).spec_handle(),
            final(self).spec_name() == old(self).spec_name(),
            final(self).spec_kind() == old(self).spec_kind(),
            final(self).spec_attrs() == old(self).spec_attrs(),
            container_ok(*old(self)) ==> container_ok(*final(self)),
    {
        let mut child = child;
        let child_index = self.children.len();
        let child_handle = self.handle.child_handle(child_index);
        child.set_handle(child_handle.clone());
        self.children.push(child);
        proof {
            let p = self.handle.path();
            assert(self.children@.drop_last() =~= old(self).children@);
            if container_ok(*old(self)) {
                lemma_children_ok_iff(old(self).children@, p);
                lemma_children_ok_iff(self.children@, p);
                assert forall|i: int| 0 <= i < self.children@.len() implies #[trigger] handles_ok(
                    self.children@[i],
                    p.push(i as usize),
                ) by {
                    if i < old(self).children@.len() {
                        assert(self.children@[i] == old(self).children@[i]);
                    }
                }
            }
        }
        child_handle
    }

    /// Remove the child at `index` and return it; the children after it get
    /// the handles of their new positions.
    pub fn remove_child(&mut self, index: usize) -> (removed: DomNode)
        requires
            old(self).spec_handle() is Some,
            index < old(self).spec_children().len(),
        ensures
            removed == old(self).spec_children()[index as int],
            rehandled_from(
                old(self).spec_children().remove(index as int),
                final(self).spec_children(),
                old(self).spec_handle().unwrap(),
                index as int,
            ),
            final(self).spec_handle() == old(self).spec_handle(),
            final(self).spec_name() == old(self).spec_name(),
            final(self).spec_kind() == old(self).spec_kind(),
            final(self).spec_attrs() == old(self).spec_attrs(),
            container_ok(*old(self)) ==> container_ok(*final(self)),
    {
        let ret = self.children.remove(index);
        let ghost mid = self.children@;
        self.reset_handles_from(index);
        proof {
            let p = self.handle.path();
            if container_ok(*old(self)) {
                lemma_children_ok_iff(old(self).children@, p);
                lemma_children_ok_iff(self.children@, p);
                assert forall|i: int| 0 <= i < self.children@.len() implies #[trigger] handles_ok(
                    self.children@[i],
                    p.push(i as usize),
                ) by {
                    if i < index {
                        assert(self.children@[i] == old(self).children@[i]);
                    }
                }
            }
        }
        ret
    }

    /// Insert `node` at `index`; it and the children after it get the handles
    /// of their new positions. Returns the inserted node.
    pub fn insert_child(&mut self, index: usize, node: DomNode) -> (r: &DomNode)
        requires
            old(self).spec_handle() is Some,
            index <= old(self).spec_children().len(),
        ensures
            rehandled_from(
                old(self).spec_children().insert(index as int, node),
                final(self).spec_children(),
                old(self).spec_handle().unwrap(),
                index as int,
            ),
            *r == final(self).spec_children()[index as int],
            final(self).spec_handle() == old(self).spec_handle(),
            final(self).spec_name() == old(self).spec_name(),
            final(self).spec_kind() == old(self).spec_kind(),
            final(self).spec_attrs() == old(self).spec_attrs(),
            container_ok(*old(self)) ==> container_ok(*final(self)),
    {
        self.children.insert(index, node);
        self.reset_handles_from(index);
        proof {
            let p = self.handle.path();
            if container_ok(*old(self)) {
                lemma_children_ok_iff(old(self).children@, p);
                lemma_children_ok_iff(self.children@, p);
                assert forall|i: int| 0 <= i < self.children@.len() implies #[trigger] handles_ok(
                    self.children@[i],
                    p.push(i as usize),
                ) by {
                    if i < index {
                        assert(self.children@[i] == old(self).children@[i]);
                    }
                }
            }
        }
        &self.children[index]
    }

    /// The child at `idx`, if there is one.
    pub fn get_child(&self, idx: usize) -> (c: Option<&DomNode>)
        ensures
            c is Some <==> idx < self.spec_children().len(),
            c is Some ==> *c.unwrap() == self.spec_children()[idx as int],
    {
        if idx < self.children.len() {
            Some(&self.children[idx])
        } else {
            None
        }
    }

    /// The children of this container.
    pub fn children(&self) -> (c: &Vec<DomNode>)
        ensures
            c@ == self.spec_children(),
    {
        &self.children
    }

    /// The tag name of this container.
    pub fn name(&self) -> (n: &Vec<char>)
        ensures
            n@ == self.spec_name(),
    {
        &self.name
    }

    /// The attributes of this container, if it has a list of them.
    pub fn attributes(&self) -> (a: Option<&Vec<(Vec<char>, Vec<char>)>>)
        ensures
            attrs_view(
                match a {
                    Some(v) => Some(*v),
                    None => None,
                },
            ) == self.spec_attrs(),
    {
        match &self.attrs {
            Some(v) => Some(v),
            None => None,
        }
    }

    /// The kind of this container.
    pub fn kind(&self) -> (k: &ContainerNodeKind)
        ensures
            k@ == self.spec_kind(),
    {
        &self.kind
    }

    /// True for a list item.
    pub fn is_list_item(&self) -> (b: bool)
        ensures
            b == (self.spec_kind() is ListItem),
    {
        match self.kind {
            ContainerNodeKind::ListItem => true,
            _ => false,
        }
    }

    /// True for a list.
    pub fn is_list(&self) -> (b: bool)
        ensures
            b == (self.spec_kind() is List),
    {
        match self.kind {
            ContainerNodeKind::List(_) => true,
            _ => false,
        }
    }

    /// True for a list of the given type.
    pub fn is_list_of_type(&self, list_type: &ListType) -> (b: bool)
        ensures
            b == (self.spec_kind() == KindView::List(*list_type)),
    {
        match self.kind {
            ContainerNodeKind::List(l) => l == *list_type,
            _ => false,
        }
    }

    /// True for lists and list items.
    pub fn is_structure_node(&self) -> (b: bool)
        ensures
            b == (self.spec_kind() is List || self.spec_kind() is ListItem),
    {
        match self.kind {
            ContainerNodeKind::List(_) | ContainerNodeKind::ListItem => true,
            _ => false,
        }
    }

    /// True for formatting containers.
    pub fn is_formatting_node(&self) -> (b: bool)
        ensures
            b == (self.spec_kind() is Formatting),
    {
        match self.kind {
            ContainerNodeKind::Formatting(_) => true,
            _ => false,
        }
    }

    /// True for formatting containers of the given format.
    pub fn is_formatting_node_of_type(&self, format_type: &InlineFormatType) -> (b: bool)
        ensures
            b == (self.spec_kind() == KindView::Formatting(*format_type)),
    {
        match self.kind {
            ContainerNodeKind::Formatting(f) => f == *format_type,
            _ => false,
        }
    }

    /// True for block containers: the document, lists, list items, code
    /// blocks, quotes and paragraphs.
    pub fn is_block_node(&self) -> (b: bool)
        ensures
            b == is_block_kind_view(self.spec_kind()),
    {
        match self.kind {
            ContainerNodeKind::Formatting(_) | ContainerNodeKind::Link(_) => false,
            _ => true,
        }
    }

    /// True when this container has no children.
    pub fn is_empty(&self) -> (b: bool)
        ensures
            b == (self.spec_children().len() == 0),
    {
        self.children.len() == 0
    }

    /// True when this container's only child is a zero-width space node.
    pub fn only_contains_zwsp(&self) -> (b: bool)
        ensures
            b == (self.spec_children().len() == 1 && self.spec_children()[0] is Zwsp),
    {
        self.children.len() == 1 && self.children[0].is_zwsp()
    }

    /// Insert `nodes` in order at `index`. They and the children after them
    /// get the handles of their new positions; returns the new handles of
    /// the children that were moved.
    pub fn insert_children(&mut self, index: usize, nodes: Vec<DomNode>) -> (moved: Vec<DomHandle>)
        requires
            old(self).spec_handle() is Some,
            index <= old(self).spec_children().len(),
        ensures
            rehandled_from(
                old(self).spec_children().subrange(0, index as int) + nodes@
                    + old(self).spec_children().subrange(
                    index as int,
                    old(self).spec_children().len() as int,
                ),
                final(self).spec_children(),
                old(self).spec_handle().unwrap(),
                index as int,
            ),
            moved@.len() == old(self).spec_children().len() - index,
            forall|j: int|
                0 <= j < moved@.len() ==> #[trigger] moved@[j]@ == Some(
                    old(self).spec_handle().unwrap().push((index + nodes@.len() + j) as usize),
                ),
            final(self).spec_handle() == old(self).spec_handle(),
            final(self).spec_name() == old(self).spec_name(),
            final(self).spec_kind() == old(self).spec_kind(),
            final(self).spec_attrs() == old(self).spec_attrs(),
            container_ok(*old(self)) ==> container_ok(*final(self)),
    {
        let ghost old_children = self.children@;
        let ghost p = self.handle.path();
        let mut nodes = nodes;
        let ghost all_nodes = nodes@;
        let n = nodes.len();
        let mut k: usize = 0;
        while k < n
            invariant
                n == all_nodes.len(),
                0 <= k <= n,
                index <= old_children.len(),
                nodes@ == all_nodes.subrange(k as int, n as int),
                self.children@ == old_children.subrange(0, index as int) + all_nodes.subrange(
                    0,
                    k as int,
                ) + old_children.subrange(index as int, old_children.len() as int),
                self.handle@ == old(self).handle@,
                self.name == old(self).name,
                self.kind == old(self).kind,
                self.attrs == old(self).attrs,
                old_children == old(self).children@,
            decreases n - k,
        {
            let node = nodes.remove(0);
            assert(self.children@.len() == index + k + (old_children.len() - index));
            let cur_len = self.children.len();
            assert(index + k <= cur_len);
            self.children.insert(index + k, node);
            k += 1;
            assert(nodes@ =~= all_nodes.subrange(k as int, n as int));
            assert(self.children@ =~= old_children.subrange(0, index as int) + all_nodes.subrange(
                0,
                k as int,
            ) + old_children.subrange(index as int, old_children.len() as int));
        }
        assert(all_nodes.subrange(0, n as int) =~= all_nodes);
        let ghost mid = self.children@;
        self.reset_handles_from(index);
        let mut moved: Vec<DomHandle> = Vec::new();
        assert(self.children@.len() == old_children.len() + n);
        let cur_len = self.children.len();
        assert(index + n <= cur_len);
        let mut j = index + n;
        while j < self.children.len()
            invariant
                index + n <= j <= self.children@.len(),
                self.children@.len() == old_children.len() + n,
                self.handle@ == old(self).handle@,
                self.handle@ is Some,
                p == self.handle.path(),
                moved@.len() == j - (index + n),
                forall|t: int|
                    0 <= t < moved@.len() ==> #[trigger] moved@[t]@ == Some(
                        p.push((index + n + t) as usize),
                    ),
            decreases self.children@.len() - j,
        {
            moved.push(self.handle.child_handle(j));
            j += 1;
        }
        proof {
            if container_ok(*old(self)) {
                lemma_children_ok_iff(old(self).children@, p);
                lemma_children_ok_iff(self.children@, p);
                assert forall|i: int| 0 <= i < self.children@.len() implies #[trigger] handles_ok(
                    self.children@[i],
                    p.push(i as usize),
                ) by {
                    if i < index {
                        assert(mid[i] == old(self).children@[i]);
                    }
                }
            }
        }
        moved
    }

    /// Replace the child at `index` with `nodes`, in order. They and the
    /// children after them get the handles of their new positions; returns
    /// the new handles of the children that were moved.
    pub fn replace_child(&mut self, index: usize, nodes: Vec<DomNode>) -> (moved: Vec<DomHandle>)
        requires
            old(self).spec_handle() is Some,
            index < old(self).spec_children().len(),
        ensures
            rehandled_from(
                old(self).spec_children().subrange(0, index as int) + nodes@
                    + old(self).spec_children().subrange(
                    index + 1,
                    old(self).spec_children().len() as int,
                ),
                final(self).spec_children(),
                old(self).spec_handle().unwrap(),
                index as int,
            ),
            moved@.len() == old(self).spec_children().len() - index - 1,
            forall|j: int|
                0 <= j < moved@.len() ==> #[trigger] moved@[j]@ == Some(
                    old(self).spec_handle().unwrap().push((index + nodes@.len() + j) as usize),
                ),
            final(self).spec_handle() == old(self).spec_handle(),
            final(self).spec_name() == old(self).spec_name(),
            final(self).spec_kind() == old(self).spec_kind(),
            final(self).spec_attrs() == old(self).spec_attrs(),
            container_ok(*old(self)) ==> container_ok(*final(self)),
    {
        let ghost old_children = self.children@;
        let ghost p = self.handle.path();
        self.children.remove(index);
        let ghost mid = self.children@;
        assert(mid.subrange(0, index as int) =~= old_children.subrange(0, index as int));
        assert(mid.subrange(index as int, mid.len() as int) =~= old_children.subrange(
            index + 1,
            old_children.len() as int,
        ));
        let ghost before = *self;
        proof {
            if container_ok(*old(self)) {
                lemma_children_ok_iff(old_children, p);
                lemma_children_ok_iff(mid, p);
                assert forall|i: int| 0 <= i < index implies #[trigger] handles_ok(
                    mid[i],
                    p.push(i as usize),
                ) by {
                    assert(mid[i] == old_children[i]);
                }
            }
        }
        let moved = self.insert_children(index, nodes);
        proof {
            if container_ok(*old(self)) {
                lemma_children_ok_iff(self.children@, p);
                lemma_children_ok_iff(mid, p);
                assert forall|i: int| 0 <= i < self.children@.len() implies #[trigger] handles_ok(
                    self.children@[i],
                    p.push(i as usize),
                ) by {
                    if i < index {
                        assert(self.children@[i] == mid[i]);
                        assert(handles_ok(mid[i], p.push(i as usize)));
                    }
                }
            }
        }
        moved
    }

    /// The children of this container, taking it apart.
    pub fn take_children(self) -> (c: Vec<DomNode>)
        ensures
            c@ == self.spec_children(),
    {
        self.children
    }

    /// Join each run of neighbouring children that can be pushed into one
    /// another into its first child, from the last pair to the first.
    #[verifier::rlimit(40)]
    pub fn join_children(&mut self)
        requires
            container_ok(*old(self)),
            joinable(old(self).spec_children()),
        ensures
            container_ok(*final(self)),
            all_no_empty_mergeable(old(self).spec_children()) ==> all_no_empty_mergeable(final(self).spec_children()),
            all_ends_filled(old(self).spec_children()) ==> all_ends_filled(final(self).spec_children()),
            keys_of(final(self).spec_children()) == collapsed_from(old(self).spec_children(), 0),
            texts_of(final(self).spec_children()) == collapsed_texts_from(old(self).spec_children(), 0),
            none_pushable(final(self).spec_children()),
            final(self).spec_name() == old(self).spec_name(),
            final(self).spec_kind() == old(self).spec_kind(),
            final(self).spec_attrs() == old(self).spec_attrs(),
            final(self).spec_handle() == old(self).spec_handle(),
    {
        let ghost old_c = self.children@;
        let ghost ne0 = all_no_empty_mergeable(old_c);
        let ghost ef0 = all_ends_filled(old_c);
        let n = self.children.len();
        if n == 0 {
            assert(keys_of(self.children@) =~= collapsed_from(old_c, 0));
            assert(texts_of(self.children@) =~= collapsed_texts_from(old_c, 0));
            return;
        }
        let mut i: usize = n - 1;
        proof {
            assert(old_c.skip(i as int) =~= seq![old_c[i as int]]);
            assert(collapsed_from(old_c, n as int) =~= Seq::<(int, KindView)>::empty());
            assert(collapsed_from(old_c, i as int) =~= seq![push_key(old_c[i as int])]);
            assert(keys_of(old_c.skip(i as int)) =~= collapsed_from(old_c, i as int));
            assert(collapsed_texts_from(old_c, n as int) =~= Seq::<Seq<char>>::empty());
            assert(texts_of(old_c.skip(i as int)) =~= collapsed_texts_from(old_c, i as int));
        }
        while i > 0
            invariant
                n == old_c.len(),
                i < n,
                joinable(old_c),
                ne0 == all_no_empty_mergeable(old_c),
                ef0 == all_ends_filled(old_c),
                self.spec_name() == old(self).spec_name(),
                self.spec_kind() == old(self).spec_kind(),
                self.spec_attrs() == old(self).spec_attrs(),
                self.spec_handle() == old(self).spec_handle(),
                container_ok(*self),
                ne0 ==> all_no_empty_mergeable(self.children@),
                ef0 ==> all_ends_filled(self.children@),
                self.children@.len() > i,
                forall|j: int| 0 <= j < i ==> self.children@[j] == old_c[j],
                ends_filled(old_c[i as int]) ==> ends_filled(self.children@[i as int]),
                keys_of(self.children@.skip(i as int)) == collapsed_from(old_c, i as int),
                texts_of(self.children@.skip(i as int)) == collapsed_texts_from(old_c, i as int),
                none_pushable(self.children@.skip(i as int)),
            decreases i,
        {
            i -= 1;
            let ghost c0 = self.children@;
            proof {
                lemma_all_no_empty_mergeable_iff(c0);
                lemma_children_ok_iff(c0, self.handle.path());
                assert(keys_of(c0.skip(i + 1))[0] == push_key(c0[i + 1]));
                assert(collapsed_from(old_c, i + 1)[0] == push_key(old_c[i + 1])) by {
                    lemma_collapsed_head(old_c, i + 1);
                }
                lemma_can_push_keys(c0[i as int], c0[i + 1]);
                lemma_can_push_keys(old_c[i as int], old_c[i + 1]);
                assert(c0[i as int] == old_c[i as int]);
            }
            let merge = self.children[i].can_push(&self.children[i + 1]);
            if merge {
                proof {
                    assert(can_push_spec(old_c[i as int], old_c[i + 1]));
                    assert(ends_filled(old_c[i as int]) && ends_filled(old_c[i + 1]));
                    assert(ends_filled(c0[i + 1]));
                }
                let mut next = self.remove_child(i + 1);
                let ghost c1 = self.children@;
                proof {
                    assert(c0[i as int] == c1[i as int]);
                    assert(handles_ok(c0[i as int], self.handle.path().push(i)));
                    assert(handles_ok(c0[i + 1], self.handle.path().push((i + 1) as usize)));
                    lemma_push_ok_from_ends(c1[i as int], next);
                    lemma_children_ok_iff(c1, self.handle.path());
                    assert(handles_ok(c1[i as int], self.handle.path().push(i)));
                    if ne0 {
                        lemma_all_no_empty_mergeable_iff(c1);
                        assert(no_empty_mergeable(c1[i as int]));
                        assert(no_empty_mergeable(next));
                    }
                }
                let ghost next0 = next;
                self.children[i].push(&mut next);
                let ghost c2 = self.children@;
                proof {
                    assert(push_key(c2[i as int]) == push_key(c1[i as int]));
                    assert(c1[i as int].spec_handle() == Some(self.handle.path().push(i)));
                    assert(handles_ok(c2[i as int], self.handle.path().push(i)));
                    assert(ends_filled(c2[i as int]));
                    lemma_children_ok_iff(c2, self.handle.path());
                    assert forall|j: int| 0 <= j < c2.len() implies #[trigger] handles_ok(c2[j], self.handle.path().push(j as usize)) by {
                        if j != i {
                            assert(c2[j] == c1[j]);
                        }
                    }
                    if ne0 {
                        assert(no_empty_mergeable(next0));
                        assert(no_empty_mergeable(c2[i as int]));
                        lemma_all_no_empty_mergeable_iff(c2);
                        assert forall|j: int| 0 <= j < c2.len() implies #[trigger] no_empty_mergeable(c2[j]) by {
                            if j != i {
                                assert(c2[j] == c1[j]);
                                if j > i {
                                    assert(c0.remove(i + 1)[j] == c0[j + 1]);
                                    assert(no_empty_mergeable(c0[j + 1]));
                                    lemma_same_content_no_empty_mergeable(c0.remove(i + 1)[j], c1[j]);
                                } else {
                                    assert(c1[j] == c0[j]);
                                    assert(no_empty_mergeable(c0[j]));
                                }
                            }
                        }
                    }
                    if ef0 {
                        assert forall|j: int| 0 <= j < c2.len() implies #[trigger] ends_filled(c2[j]) by {
                            if j != i {
                                assert(c2[j] == c1[j]);
                                if j > i {
                                    assert(c0.remove(i + 1)[j] == c0[j + 1]);
                                    assert(ends_filled(c0[j + 1]));
                                    lemma_same_content_ends_filled(c0.remove(i + 1)[j], c1[j]);
                                } else {
                                    assert(c1[j] == c0[j]);
                                    assert(ends_filled(c0[j]));
                                }
                            }
                        }
                    }
                    // the nodes after the merged one keep their keys
                    assert forall|j: int| i < j < c2.len() implies #[trigger] push_key(c2[j]) == push_key(c0[j + 1]) by {
                        assert(c2[j] == c1[j]);
                        assert(c0.remove(i + 1)[j] == c0[j + 1]);
                        lemma_same_content_key(c0.remove(i + 1)[j], c1[j]);
                    }
                    assert(keys_of(c2.skip(i as int)) =~= keys_of(c0.skip(i + 1))) by {
                        assert(push_key(c2[i as int]) == push_key(c0[i + 1]));
                    }
                    assert(texts_of(c2.skip(i as int)) =~= collapsed_texts_from(old_c, i as int)) by {
                        let rest = collapsed_texts_from(old_c, i + 1);
                        assert(texts_of(c0.skip(i + 1)) == rest);
                        assert(rest[0] == without_zwsp(text_units(c0[i + 1])));
                        lemma_absorbed_text(c1[i as int], next0);
                        lemma_without_zwsp_concat(text_units(c1[i as int]), absorbed(c1[i as int], next0));
                        assert(next0 == c0[i + 1]);
                        assert forall|j: int| 1 <= j < c2.len() - i implies #[trigger] texts_of(c2.skip(i as int))[j]
                            == rest.skip(1)[j - 1] by {
                            assert(c2[i + j] == c1[i + j]);
                            assert(c0.remove(i + 1)[i + j] == c0[i + j + 1]);
                            lemma_same_content_units(c0.remove(i + 1)[i + j], c1[i + j]);
                            assert(rest[j] == texts_of(c0.skip(i + 1))[j]);
                        }
                    }
                    assert forall|j: int| 0 <= j < c2.skip(i as int).len() - 1 implies !#[trigger] can_push_spec(
                        c2.skip(i as int)[j],
                        c2.skip(i as int)[j + 1],
                    ) by {
                        let a = c2.skip(i as int);
                        let b = c0.skip(i + 1);
                        lemma_can_push_keys(a[j], a[j + 1]);
                        lemma_can_push_keys(b[j], b[j + 1]);
                        assert(keys_of(a)[j] == push_key(a[j]));
                        assert(keys_of(a)[j + 1] == push_key(a[j + 1]));
                        assert(keys_of(b)[j] == push_key(b[j]));
                        assert(keys_of(b)[j + 1] == push_key(b[j + 1]));
                    }
                }
            } else {
                proof {
                    assert(keys_of(c0.skip(i as int)) =~= seq![push_key(c0[i as int])] + keys_of(c0.skip(i + 1)));
                    assert(texts_of(c0.skip(i as int)) =~= seq![without_zwsp(text_units(c0[i as int]))] + texts_of(
                        c0.skip(i + 1),
                    ));
                    assert forall|j: int| 0 <= j < c0.skip(i as int).len() - 1 implies !#[trigger] can_push_spec(
                        c0.skip(i as int)[j],
                        c0.skip(i as int)[j + 1],
                    ) by {
                        if j > 0 {
                            assert(c0.skip(i as int)[j] == c0.skip(i + 1)[j - 1]);
                            assert(c0.skip(i as int)[j + 1] == c0.skip(i + 1)[j]);
                            assert(!can_push_spec(c0.skip(i + 1)[j - 1], c0.skip(i + 1)[(j - 1) + 1]));
                        } else {
                            assert(c0.skip(i as int)[0] == c0[i as int]);
                            assert(c0.skip(i as int)[1] == c0[i + 1]);
                        }
                    }
                }
            }
        }
        assert(self.children@.skip(0) =~= self.children@);
    }

    /// Take out the children from `index` on; the ones before stay.
    pub fn take_children_after(&mut self, index: usize) -> (r: Vec<DomNode>)
        requires
            index <= old(self).spec_children().len(),
        ensures
            final(self).spec_children() == old(self).spec_children().take(index as int),
            r@ == old(self).spec_children().skip(index as int),
            final(self).spec_handle() == old(self).spec_handle(),
            final(self).spec_name() == old(self).spec_name(),
            final(self).spec_kind() == old(self).spec_kind(),
            final(self).spec_attrs() == old(self).spec_attrs(),
            container_ok(*old(self)) ==> container_ok(*final(self)),
    {
        let r = self.children.split_off(index);
        proof {
            if container_ok(*old(self)) {
                let p = self.handle.path();
                lemma_children_ok_iff(old(self).children@, p);
                lemma_children_ok_iff(self.children@, p);
                assert forall|i: int| 0 <= i < self.children@.len() implies #[trigger] handles_ok(
                    self.children@[i],
                    p.push(i as usize),
                ) by {
                    assert(self.children@[i] == old(self).children@[i]);
                }
            }
            assert(self.children@ =~= old(self).children@.take(index as int));
            assert(r@ =~= old(self).children@.skip(index as int));
        }
        r
    }

    /// The type of this list, if it is one.
    pub fn get_list_type(&self) -> (t: Option<ListType>)
        ensures
            match self.spec_kind() {
                KindView::List(l) => t == Some(l),
                _ => t is None,
            },
    {
        match &self.kind {
            ContainerNodeKind::List(l) => Some(*l),
            _ => None,
        }
    }

    /// The last child, mutably, if there is one.
    pub fn last_child_mut(&mut self) -> (c: Option<&mut DomNode>)
        ensures
            c is Some <==> old(self).spec_children().len() > 0,
            c is Some ==> *c.unwrap() == old(self).spec_children().last(),
            c is Some ==> final(self).spec_children() == old(self).spec_children().update(
                old(self).spec_children().len() - 1,
                *final(c.unwrap()),
            ),
            c is None ==> final(self).spec_children() == old(self).spec_children(),
            final(self).spec_handle() == old(self).spec_handle(),
            final(self).spec_name() == old(self).spec_name(),
            final(self).spec_kind() == old(self).spec_kind(),
            final(self).spec_attrs() == old(self).spec_attrs(),
    {
        let n = self.children.len();
        if n == 0 {
            None
        } else {
            self.get_child_mut(n - 1)
        }
    }

    /// True when the first leaf of this container is a zero-width space.
    pub fn has_leading_zwsp(&self) -> (b: bool)
        ensures
            b == (leading_leaf(DomNode::Container(*self)) matches Some(l) && l is Zwsp),
        decreases *self,
    {
        if self.children.len() == 0 {
            return false;
        }
        proof {
            lemma_container_child_decreases(*self, 0);
        }
        self.children[0].has_leading_zwsp()
    }

    /// True when the first leaf of this container is a line break.
    pub fn has_leading_line_break(&self) -> (b: bool)
        ensures
            b == (leading_leaf(DomNode::Container(*self)) matches Some(l) && l is LineBreak),
        decreases *self,
    {
        if self.children.len() == 0 {
            return false;
        }
        proof {
            lemma_container_child_decreases(*self, 0);
        }
        self.children[0].has_leading_line_break()
    }

    /// True when no child of this container holds any text.
    pub fn has_no_text(&self) -> (b: bool)
        ensures
            b == no_text(DomNode::Container(*self)),
        decreases *self,
    {
        let mut i: usize = 0;
        while i < self.children.len()
            invariant
                i <= self.children@.len(),
                forall|j: int| 0 <= j < i ==> #[trigger] no_text(self.children@[j]),
            decreases self.children@.len() - i,
        {
            proof {
                lemma_container_child_decreases(*self, i as int);
            }
            if !self.children[i].has_no_text() {
                proof {
                    lemma_no_text_children(self.children@, i as int);
                }
                return false;
            }
            i += 1;
        }
        proof {
            lemma_all_no_text_children(self.children@);
        }
        true
    }

    /// The child at `idx`, mutably, if there is one.
    pub fn get_child_mut(&mut self, idx: usize) -> (c: Option<&mut DomNode>)
        ensures
            c is Some <==> idx < old(self).spec_children().len(),
            c is Some ==> *c.unwrap() == old(self).spec_children()[idx as int],
            c is Some ==> final(self).spec_children() == old(self).spec_children().update(
                idx as int,
                *final(c.unwrap()),
            ),
            c is None ==> final(self).spec_children() == old(self).spec_children(),
            final(self).spec_handle() == old(self).spec_handle(),
            final(self).spec_name() == old(self).spec_name(),
            final(self).spec_kind() == old(self).spec_kind(),
            final(self).spec_attrs() == old(self).spec_attrs(),
    {
        if idx < self.children.len() {
            Some(&mut self.children[idx])
        } else {
            None
        }
    }

    /// The number of code units of text in this container.
    pub fn text_len(&self) -> (n: usize)
        requires
            nodes_len(self.spec_children()) <= usize::MAX,
        ensures
            n == nodes_len(self.spec_children()),
        decreases *self,
    {
        let mut total: usize = 0;
        let mut i: usize = 0;
        while i < self.children.len()
            invariant
                i <= self.children@.len(),
                nodes_len(self.children@) <= usize::MAX,
                total == nodes_len(self.children@.subrange(0, i as int)),
            decreases self.children@.len() - i,
        {
            proof {
                lemma_nodes_len_prefix_step(self.children@, i as int);
                lemma_nodes_len_prefix_le(self.children@, i + 1);
                assert(decreases_to!(*self => self.children@[i as int]));
            }
            let l = self.children[i].text_len();
            total = total + l;
            i += 1;
        }
        assert(self.children@.subrange(0, i as int) =~= self.children@);
        total
    }

    /// Set the handle of this container and the handles of every node below
    /// it to the handles of their positions.
    pub fn set_handle(&mut self, handle: DomHandle)
        requires
            handle@ is Some,
        ensures
            final(self).spec_handle() == handle@,
            container_ok(*final(self)),
            final(self).spec_name() == old(self).spec_name(),
            final(self).spec_kind() == old(self).spec_kind(),
            final(self).spec_attrs() == old(self).spec_attrs(),
            same_children(old(self).spec_children(), final(self).spec_children()),
        decreases *old(self),
    {
        let ghost old_children = self.children@;
        self.handle = handle;
        let mut i: usize = 0;
        while i < self.children.len()
            invariant
                self.handle@ == handle@,
                handle@ is Some,
                self.children@.len() == old_children.len(),
                i <= old_children.len(),
                old_children == old(self).children@,
                self.name == old(self).name,
                self.kind == old(self).kind,
                self.attrs == old(self).attrs,
                forall|j: int| i <= j < old_children.len() ==> self.children@[j] == old_children[j],
                forall|j: int|
                    0 <= j < i ==> #[trigger] handles_ok(
                        self.children@[j],
                        handle.path().push(j as usize),
                    ),
                forall|j: int|
                    0 <= j < i ==> #[trigger] same_content(old_children[j], self.children@[j]),
            decreases old_children.len() - i,
        {
            let h = self.handle.child_handle(i);
            assert(decreases_to!(*old(self) => old_children[i as int]));
            self.children[i].set_handle(h);
            i += 1;
        }
        proof {
            lemma_children_ok_iff(self.children@, handle.path());
            lemma_same_children_iff(old_children, self.children@);
        }
    }
}


/// The raw text of a node: the text of its text nodes, `\n` written as a
/// backslash and `n` for a line break, the zero-width space of a zero-width
/// space node and the text shown for a mention, in order.
pub open spec fn raw_text(n: DomNode) -> Seq<char>
    decreases n, 0int,
{
    match n {
        DomNode::Container(c) => {
            proof {
                lemma_decreases_children(n);
            }
            raw_children(c.spec_children(), c.spec_children().len() as int)
        },
        DomNode::Text(t) => t.spec_data(),
        DomNode::LineBreak(_) => seq!['\\', 'n'],
        DomNode::Zwsp(z) => z.spec_data(),
        DomNode::Mention(m) => m.spec_display_text(),
    }
}

/// The raw text of the first `k` nodes of `s`.
pub open spec fn raw_children(s: Seq<DomNode>, k: int) -> Seq<char>
    decreases s, k,
{
    if k <= 0 || k > s.len() {
        Seq::empty()
    } else {
        raw_children(s, k - 1) + raw_text(s[k - 1])
    }
}

/// The first leaf of the tree under `n`, going down through first children,
/// if the way down does not end in an empty container.
pub open spec fn leading_leaf(n: DomNode) -> Option<DomNode>
    decreases n,
{
    match n {
        DomNode::Container(c) => if c.spec_children().len() == 0 {
            None
        } else {
            proof {
                lemma_container_child_decreases(c, 0);
            }
            leading_leaf(c.spec_children()[0])
        },
        _ => Some(n),
    }
}

proof fn lemma_raw_children_prefix(s: Seq<DomNode>, t: Seq<DomNode>, k: int)
    requires
        0 <= k <= s.len(),
        k <= t.len(),
        forall|j: int| 0 <= j < k ==> raw_text(#[trigger] s[j]) == raw_text(t[j]),
    ensures
        raw_children(s, k) == raw_children(t, k),
    decreases k,
{
    if k > 0 {
        lemma_raw_children_prefix(s, t, k - 1);
    }
}

proof fn lemma_raw_children_first(s: Seq<DomNode>)
    requires
        s.len() > 0,
    ensures
        raw_children(s, s.len() as int) == raw_text(s[0]) + raw_children(s.skip(1), s.len() - 1),
    decreases s.len(),
{
    let n = s.len() as int;
    if n == 1 {
        assert(raw_children(s, 1) == raw_children(s, 0) + raw_text(s[0]));
        assert(raw_children(s.skip(1), 0) == Seq::<char>::empty());
        assert(Seq::<char>::empty() + raw_text(s[0]) =~= raw_text(s[0]));
        assert(raw_text(s[0]) + Seq::<char>::empty() =~= raw_text(s[0]));
    } else {
        let d = s.drop_last();
        lemma_raw_children_first(d);
        assert forall|j: int| 0 <= j < n - 1 implies raw_text(#[trigger] s[j]) == raw_text(d[j]) by {
            assert(s[j] == d[j]);
        }
        lemma_raw_children_prefix(s, d, n - 1);
        assert forall|j: int| 0 <= j < n - 2 implies raw_text(#[trigger] s.skip(1)[j]) == raw_text(d.skip(1)[j]) by {
            assert(s.skip(1)[j] == d.skip(1)[j]);
        }
        lemma_raw_children_prefix(s.skip(1), d.skip(1), n - 2);
        assert(d[0] == s[0]);
        assert(raw_children(s, n) == raw_children(s, n - 1) + raw_text(s[n - 1]));
        assert(raw_children(d, n - 1) == raw_text(d[0]) + raw_children(d.skip(1), n - 2));
        assert(raw_children(s.skip(1), n - 1) == raw_children(s.skip(1), n - 2) + raw_text(s.skip(1)[n - 2]));
        assert(s.skip(1)[n - 2] == s[n - 1]);
        assert(raw_text(s[0]) + raw_children(d.skip(1), n - 2) + raw_text(s[n - 1]) =~= raw_text(s[0]) + (raw_children(d.skip(1), n - 2) + raw_text(s[n - 1])));
    }
}

/// Nodes with the same content have the same raw text.
pub proof fn lemma_same_content_raw(a: DomNode, b: DomNode)
    requires
        same_content(a, b),
    ensures
        raw_text(a) == raw_text(b),
    decreases a,
{
    match (a, b) {
        (DomNode::Container(x), DomNode::Container(y)) => {
            lemma_same_children_iff(x.spec_children(), y.spec_children());
            assert forall|j: int| 0 <= j < x.spec_children().len() implies raw_text(#[trigger] x.spec_children()[j]) == raw_text(y.spec_children()[j]) by {
                lemma_container_child_decreases(x, j);
                lemma_same_content_raw(x.spec_children()[j], y.spec_children()[j]);
            }
            lemma_raw_children_prefix(x.spec_children(), y.spec_children(), x.spec_children().len() as int);
        },
        _ => {},
    }
}

proof fn lemma_rehandled_raw(old: Seq<DomNode>, new: Seq<DomNode>, p: Seq<usize>, from: int)
    requires
        rehandled_from(old, new, p, from),
        0 <= from,
    ensures
        raw_children(new, new.len() as int) == raw_children(old, old.len() as int),
{
    assert forall|j: int| 0 <= j < old.len() implies raw_text(#[trigger] old[j]) == raw_text(new[j]) by {
        if j >= from {
            lemma_same_content_raw(old[j], new[j]);
        }
    }
    lemma_raw_children_prefix(old, new, old.len() as int);
}

impl ContainerNode {
    /// The raw text of this container.
    pub fn to_raw_text(&self) -> (t: Vec<char>)
        ensures
            t@ == raw_text(DomNode::Container(*self)),
        decreases *self,
    {
        let mut out: Vec<char> = Vec::new();
        let mut i: usize = 0;
        while i < self.children.len()
            invariant
                i <= self.children@.len(),
                out@ == raw_children(self.children@, i as int),
            decreases self.children@.len() - i,
        {
            proof {
                lemma_container_child_decreases(*self, i as int);
            }
            let part = self.children[i].to_raw_text();
            crate::html::push_chars(&mut out, &part);
            i += 1;
        }
        out
    }

    /// True for a list item with no raw text, or only a zero-width space.
    pub fn is_empty_list_item(&self) -> (b: bool)
        ensures
            b == (self.spec_kind() is ListItem && (raw_text(DomNode::Container(*self)).len() == 0
                || raw_text(DomNode::Container(*self)) == seq![zwsp_char()])),
    {
        match self.kind {
            ContainerNodeKind::ListItem => {
                let t = self.to_raw_text();
                let z = vec!['\u{200B}'];
                assert(z@ =~= seq![zwsp_char()]);
                t.len() == 0 || crate::kinds::chars_eq(&t, &z)
            },
            _ => false,
        }
    }

    /// Make this list a list of the given type, with the matching tag.
    pub fn set_list_type(&mut self, list_type: ListType)
        requires
            old(self).spec_kind() is List,
        ensures
            final(self).spec_kind() == KindView::List(list_type),
            final(self).spec_name() == list_tag(list_type),
            final(self).spec_attrs() == old(self).spec_attrs(),
            final(self).spec_children() == old(self).spec_children(),
            final(self).spec_handle() == old(self).spec_handle(),
    {
        self.name = list_type.tag();
        self.kind = ContainerNodeKind::List(list_type);
    }

    /// Point this link at `link`, which also becomes its only attribute.
    pub fn set_link(&mut self, link: Vec<char>)
        requires
            old(self).spec_kind() is Link,
        ensures
            final(self).spec_kind() == KindView::Link(link@),
            final(self).spec_attrs() == Some(seq![(seq!['h', 'r', 'e', 'f'], link@)]),
            final(self).spec_name() == old(self).spec_name(),
            final(self).spec_children() == old(self).spec_children(),
            final(self).spec_handle() == old(self).spec_handle(),
    {
        let copy = crate::leaf_nodes::copy_range(&link, 0, link.len());
        assert(link@.subrange(0, link@.len() as int) =~= link@);
        self.kind = ContainerNodeKind::Link(copy);
        let href = vec!['h', 'r', 'e', 'f'];
        assert(href@ =~= seq!['h', 'r', 'e', 'f']);
        let attrs = vec![(href, link)];
        self.attrs = Some(attrs);
        assert(attrs_view(self.attrs) =~= Some(seq![(seq!['h', 'r', 'e', 'f'], link@)]));
    }

    /// The address of this link, if it is one.
    pub fn get_link(&self) -> (l: Option<Vec<char>>)
        ensures
            match self.spec_kind() {
                KindView::Link(u) => l matches Some(v) && v@ == u,
                _ => l is None,
            },
    {
        match &self.kind {
            ContainerNodeKind::Link(u) => {
                let v = crate::leaf_nodes::copy_range(u, 0, u.len());
                assert(u@.subrange(0, u@.len() as int) =~= u@);
                Some(v)
            },
            _ => None,
        }
    }

    /// A container of the same name, kind and attributes holding
    /// `children`, with an unset handle.
    pub fn clone_with_new_children(&self, children: Vec<DomNode>) -> (c: ContainerNode)
        ensures
            c.spec_name() == self.spec_name(),
            c.spec_kind() == self.spec_kind(),
            c.spec_attrs() == self.spec_attrs(),
            c.spec_children() == children@,
            c.spec_handle() == None::<Seq<usize>>,
    {
        let name = crate::leaf_nodes::copy_range(&self.name, 0, self.name.len());
        assert(self.name@.subrange(0, self.name@.len() as int) =~= self.name@);
        let kind = match &self.kind {
            ContainerNodeKind::Generic => ContainerNodeKind::Generic,
            ContainerNodeKind::Formatting(f) => ContainerNodeKind::Formatting(*f),
            ContainerNodeKind::Link(u) => {
                assert(u@.subrange(0, u@.len() as int) =~= u@);
                ContainerNodeKind::Link(crate::leaf_nodes::copy_range(u, 0, u.len()))
            },
            ContainerNodeKind::List(l) => ContainerNodeKind::List(*l),
            ContainerNodeKind::ListItem => ContainerNodeKind::ListItem,
            ContainerNodeKind::CodeBlock => ContainerNodeKind::CodeBlock,
            ContainerNodeKind::Quote => ContainerNodeKind::Quote,
            ContainerNodeKind::Paragraph => ContainerNodeKind::Paragraph,
        };
        let attrs = match &self.attrs {
            Some(a) => Some(clone_pairs(a)),
            None => None,
        };
        ContainerNode { name, kind, attrs, children, handle: DomHandle::new_unset() }
    }
}

/// `b` is a copy of `a`: the same content, with the same handles
/// throughout.
pub open spec fn same_node(a: DomNode, b: DomNode) -> bool
    decreases a,
{
    &&& same_content(a, b)
    &&& a.spec_handle() == b.spec_handle()
    &&& match (a, b) {
        (DomNode::Container(x), DomNode::Container(y)) => same_nodes(x.spec_children(), y.spec_children()),
        _ => true,
    }
}

/// `t` is a copy of `s`, node by node.
pub open spec fn same_nodes(s: Seq<DomNode>, t: Seq<DomNode>) -> bool
    decreases s,
{
    if s.len() == 0 {
        t.len() == 0
    } else {
        t.len() == s.len() && same_nodes(s.drop_last(), t.drop_last()) && same_node(s.last(), t.last())
    }
}

/// Copies are copies in content too.
pub proof fn lemma_same_nodes_children(s: Seq<DomNode>, t: Seq<DomNode>)
    requires
        same_nodes(s, t),
    ensures
        same_children(s, t),
    decreases s.len(),
{
    if s.len() > 0 {
        lemma_same_nodes_children(s.drop_last(), t.drop_last());
        assert(same_node(s.last(), t.last()));
        assert(same_content(s.last(), t.last()));
    }
}

/// Copies of the nodes of `v`, with the same handles.
pub fn clone_nodes(v: &Vec<DomNode>) -> (r: Vec<DomNode>)
    ensures
        same_nodes(v@, r@),
{
    let mut r: Vec<DomNode> = Vec::new();
    let mut i: usize = 0;
    while i < v.len()
        invariant
            i <= v@.len(),
            same_nodes(v@.take(i as int), r@),
        decreases v@.len() - i,
    {
        let c = v[i].clone_node();
        let ghost before = r@;
        r.push(c);
        proof {
            assert(v@.take(i + 1).drop_last() =~= v@.take(i as int));
            assert(r@.drop_last() =~= before);
        }
        i += 1;
    }
    assert(v@.take(v@.len() as int) =~= v@);
    r
}

impl MentionNode {
    /// A copy of this mention, with the same handle.
    pub fn clone_mention(&self) -> (m: MentionNode)
        ensures
            same_node(DomNode::Mention(*self), DomNode::Mention(m)),
    {
        let kind = match &self.kind {
            MentionNodeKind::MatrixUri { uri, room_id } => {
                assert(uri@.subrange(0, uri@.len() as int) =~= uri@);
                let room_id = match room_id {
                    Some(r) => {
                        assert(r@.subrange(0, r@.len() as int) =~= r@);
                        Some(crate::leaf_nodes::copy_range(r, 0, r.len()))
                    },
                    None => None,
                };
                MentionNodeKind::MatrixUri { uri: crate::leaf_nodes::copy_range(uri, 0, uri.len()), room_id }
            },
            MentionNodeKind::AtRoom => MentionNodeKind::AtRoom,
        };
        assert(self.display_text@.subrange(0, self.display_text@.len() as int) =~= self.display_text@);
        let m = MentionNode {
            display_text: crate::leaf_nodes::copy_range(&self.display_text, 0, self.display_text.len()),
            kind,
            attributes: clone_pairs(&self.attributes),
            handle: self.handle.clone(),
        };
        assert(m.spec_attributes() == pairs_view(m.attributes@));
        assert(self.spec_attributes() == pairs_view(self.attributes@));
        m
    }
}

impl ContainerNode {
    /// A copy of this container and everything below it, with the same
    /// handles.
    pub fn clone_container(&self) -> (c: ContainerNode)
        ensures
            same_node(DomNode::Container(*self), DomNode::Container(c)),
        decreases *self, 1int,
    {
        let mut children: Vec<DomNode> = Vec::new();
        let mut i: usize = 0;
        while i < self.children.len()
            invariant
                i <= self.children@.len(),
                same_nodes(self.children@.take(i as int), children@),
            decreases self.children@.len() - i,
        {
            proof {
                lemma_container_child_decreases(*self, i as int);
            }
            let child = self.children[i].clone_node();
            let ghost before = children@;
            children.push(child);
            proof {
                assert(self.children@.take(i + 1).drop_last() =~= self.children@.take(i as int));
                assert(children@.drop_last() =~= before);
            }
            i += 1;
        }
        assert(self.children@.take(self.children@.len() as int) =~= self.children@);
        let mut c = self.clone_with_new_children(children);
        c.handle = self.handle.clone();
        proof {
            lemma_same_nodes_children(self.children@, c.children@);
        }
        c
    }
}

impl DomNode {
    /// A copy of this node and everything below it, with the same handles.
    pub fn clone_node(&self) -> (n: DomNode)
        ensures
            same_node(*self, n),
        decreases *self, 2int,
    {
        match self {
            DomNode::Container(c) => DomNode::Container(c.clone_container()),
            DomNode::Text(t) => DomNode::Text(t.clone()),
            DomNode::LineBreak(l) => DomNode::LineBreak(l.clone()),
            DomNode::Zwsp(z) => DomNode::Zwsp(z.clone()),
            DomNode::Mention(m) => DomNode::Mention(m.clone_mention()),
        }
    }
}

impl Clone for DomNode {
    fn clone(&self) -> (n: Self)
        ensures
            same_node(*self, n),
    {
        self.clone_node()
    }
}

impl Clone for ContainerNode {
    fn clone(&self) -> (c: Self)
        ensures
            same_node(DomNode::Container(*self), DomNode::Container(c)),
    {
        self.clone_container()
    }
}

impl Clone for MentionNode {
    fn clone(&self) -> (m: Self)
        ensures
            same_node(DomNode::Mention(*self), DomNode::Mention(m)),
    {
        self.clone_mention()
    }
}

impl DomNode {
    /// The raw text of this node.
    pub fn to_raw_text(&self) -> (t: Vec<char>)
        ensures
            t@ == raw_text(*self),
        decreases *self,
    {
        match self {
            DomNode::Container(c) => c.to_raw_text(),
            DomNode::Text(t) => crate::leaf_nodes::copy_range(t.data(), 0, t.data().len()),
            DomNode::LineBreak(_) => {
                let v = vec!['\\', 'n'];
                assert(v@ =~= seq!['\\', 'n']);
                v
            },
            DomNode::Zwsp(z) => crate::leaf_nodes::copy_range(z.data(), 0, z.data().len()),
            DomNode::Mention(m) => m.display_text(),
        }
    }

    /// True for a container without children and for an empty text node.
    pub fn is_empty(&self) -> (b: bool)
        ensures
            b == (match *self {
                DomNode::Container(c) => c.spec_children().len() == 0,
                DomNode::Text(t) => t.spec_data().len() == 0,
                _ => false,
            }),
    {
        match self {
            DomNode::Container(c) => c.children.len() == 0,
            DomNode::Text(t) => t.data().len() == 0,
            _ => false,
        }
    }

    /// True when the first leaf of this node is a zero-width space.
    pub fn has_leading_zwsp(&self) -> (b: bool)
        ensures
            b == (leading_leaf(*self) matches Some(l) && l is Zwsp),
        decreases *self,
    {
        match self {
            DomNode::Container(c) => c.has_leading_zwsp(),
            DomNode::Zwsp(_) => true,
            _ => false,
        }
    }

    /// True when the first leaf of this node is a line break.
    pub fn has_leading_line_break(&self) -> (b: bool)
        ensures
            b == (leading_leaf(*self) matches Some(l) && l is LineBreak),
        decreases *self,
    {
        match self {
            DomNode::Container(c) => c.has_leading_line_break(),
            DomNode::LineBreak(_) => true,
            _ => false,
        }
    }

    /// True for an empty text node, and for a container whose children hold
    /// no text.
    pub fn has_no_text(&self) -> (b: bool)
        ensures
            b == no_text(*self),
        decreases *self,
    {
        match self {
            DomNode::Container(c) => c.has_no_text(),
            DomNode::Text(t) => t.data().len() == 0,
            _ => false,
        }
    }

    /// True when `other_node` can be pushed into this node as it is: two
    /// containers of the same kind that is neither list item nor paragraph,
    /// or two text nodes.
    pub fn can_push(&self, other_node: &DomNode) -> (b: bool)
        ensures
            b == can_push_spec(*self, *other_node),
    {
        match (self, other_node) {
            (DomNode::Container(c1), DomNode::Container(c2)) => {
                let same = match (&c1.kind, &c2.kind) {
                    (ContainerNodeKind::Generic, ContainerNodeKind::Generic) => true,
                    (ContainerNodeKind::Formatting(a), ContainerNodeKind::Formatting(b)) => *a == *b,
                    (ContainerNodeKind::Link(a), ContainerNodeKind::Link(b)) => crate::kinds::chars_eq(a, b),
                    (ContainerNodeKind::List(a), ContainerNodeKind::List(b)) => *a == *b,
                    (ContainerNodeKind::ListItem, ContainerNodeKind::ListItem) => true,
                    (ContainerNodeKind::CodeBlock, ContainerNodeKind::CodeBlock) => true,
                    (ContainerNodeKind::Quote, ContainerNodeKind::Quote) => true,
                    (ContainerNodeKind::Paragraph, ContainerNodeKind::Paragraph) => true,
                    _ => false,
                };
                let plain = match &c1.kind {
                    ContainerNodeKind::ListItem | ContainerNodeKind::Paragraph => false,
                    _ => true,
                };
                same && plain
            },
            (DomNode::Text(_), DomNode::Text(_)) => true,
            _ => false,
        }
    }
}


/// The data of a zero-width space node that leads a tree, if one does.
pub open spec fn leading_zwsp_data(n: DomNode) -> Seq<char> {
    match leading_leaf(n) {
        Some(DomNode::Zwsp(z)) => z.spec_data(),
        _ => Seq::empty(),
    }
}

proof fn lemma_raw_update_first(old: Seq<DomNode>, new: Seq<DomNode>, x: DomNode)
    requires
        old.len() > 0,
        new == old.update(0, x),
    ensures
        raw_children(new, new.len() as int) == raw_text(x) + raw_children(old.skip(1), old.len() - 1),
        raw_children(old, old.len() as int) == raw_text(old[0]) + raw_children(old.skip(1), old.len() - 1),
{
    lemma_raw_children_first(old);
    lemma_raw_children_first(new);
    assert(new.skip(1) =~= old.skip(1));
}

proof fn lemma_raw_insert_first(old: Seq<DomNode>, x: DomNode)
    ensures
        raw_children(old.insert(0, x), old.len() + 1 as int) == raw_text(x) + raw_children(old, old.len() as int),
{
    let new = old.insert(0, x);
    lemma_raw_children_first(new);
    assert(new.skip(1) =~= old);
}

proof fn lemma_raw_remove_first(old: Seq<DomNode>)
    requires
        old.len() > 0,
    ensures
        raw_children(old, old.len() as int) == raw_text(old[0]) + raw_children(old.remove(0), old.len() - 1),
{
    lemma_raw_children_first(old);
    assert(old.remove(0) =~= old.skip(1));
}

proof fn lemma_first_child_same(a: ContainerNode, b: ContainerNode)
    requires
        a.spec_children().len() > 0,
        b.spec_children() == a.spec_children().update(0, b.spec_children()[0]),
        same_content(a.spec_children()[0], b.spec_children()[0]),
        a.spec_name() == b.spec_name(),
        a.spec_kind() == b.spec_kind(),
        a.spec_attrs() == b.spec_attrs(),
    ensures
        same_content(DomNode::Container(a), DomNode::Container(b)),
{
    assert forall|j: int| 0 <= j < a.spec_children().len() implies #[trigger] same_content(a.spec_children()[j], b.spec_children()[j]) by {
        if j > 0 {
            lemma_same_content_refl(a.spec_children()[j]);
        }
    }
    lemma_same_children_iff(a.spec_children(), b.spec_children());
}

impl ContainerNode {
    /// Put a zero-width space before the first leaf of this container, unless
    /// there is no leaf there or it is already one. Returns whether it did.
    pub fn add_leading_zwsp(&mut self) -> (r: bool)
        ensures
            r == (leading_leaf(DomNode::Container(*old(self))) matches Some(l) && !(l is Zwsp)),
            r ==> raw_text(DomNode::Container(*final(self))) == seq![zwsp_char()] + raw_text(DomNode::Container(*old(self))),
            !r ==> same_content(DomNode::Container(*old(self)), DomNode::Container(*final(self))),
            final(self).spec_name() == old(self).spec_name(),
            final(self).spec_kind() == old(self).spec_kind(),
            final(self).spec_attrs() == old(self).spec_attrs(),
            final(self).spec_handle() == old(self).spec_handle(),
        decreases *old(self),
    {
        if self.children.len() == 0 {
            proof {
                lemma_same_content_refl(DomNode::Container(*self));
            }
            return false;
        }
        let handle_is_set = self.handle.is_set();
        let code: u8 = match &self.children[0] {
            DomNode::Container(_) => 0,
            DomNode::Zwsp(_) => 1,
            DomNode::Text(t) => if t.data().len() == 0 {
                2
            } else {
                3
            },
            _ => 4,
        };
        let ghost old_children = self.children@;
        if code == 0 {
            proof {
                lemma_container_child_decreases(*self, 0);
            }
            let r = match &mut self.children[0] {
                DomNode::Container(c) => c.add_leading_zwsp(),
                _ => false,
            };
            proof {
                lemma_raw_update_first(old_children, self.children@, self.children@[0]);
                if !r {
                    lemma_first_child_same(*old(self), *self);
                }
            }
            return r;
        }
        if code == 1 {
            proof {
                lemma_same_content_refl(DomNode::Container(*self));
            }
            return false;
        }
        let z = DomNode::new_zwsp();
        let ghost zg = z;
        if code == 2 {
            if handle_is_set {
                let nodes = vec![z];
                assert(nodes@ =~= seq![zg]);
                self.replace_child(0, nodes);
                proof {
                    let z = zg;
                    let expected = old_children.subrange(0, 0) + seq![z] + old_children.subrange(1, old_children.len() as int);
                    lemma_rehandled_raw(expected, self.children@, self.handle.path(), 0);
                    assert(expected =~= old_children.update(0, z));
                    lemma_raw_update_first(old_children, expected, z);
                }
            } else {
                self.children.set(0, z);
                proof {
                    lemma_raw_update_first(old_children, self.children@, z);
                }
            }
            return true;
        }
        if handle_is_set {
            self.insert_child(0, z);
            proof {
                lemma_rehandled_raw(old_children.insert(0, z), self.children@, self.handle.path(), 0);
                lemma_raw_insert_first(old_children, z);
            }
        } else {
            self.children.insert(0, z);
            proof {
                lemma_raw_insert_first(old_children, z);
            }
        }
        true
    }

    /// Take out the zero-width space that leads this container, if one
    /// does. Returns whether it did.
    pub fn remove_leading_zwsp(&mut self) -> (r: bool)
        ensures
            r == (leading_leaf(DomNode::Container(*old(self))) matches Some(l) && l is Zwsp),
            r ==> raw_text(DomNode::Container(*old(self))) == leading_zwsp_data(DomNode::Container(*old(self)))
                + raw_text(DomNode::Container(*final(self))),
            !r ==> same_content(DomNode::Container(*old(self)), DomNode::Container(*final(self))),
            final(self).spec_name() == old(self).spec_name(),
            final(self).spec_kind() == old(self).spec_kind(),
            final(self).spec_attrs() == old(self).spec_attrs(),
            final(self).spec_handle() == old(self).spec_handle(),
        decreases *old(self),
    {
        if self.children.len() == 0 {
            proof {
                lemma_same_content_refl(DomNode::Container(*self));
            }
            return false;
        }
        let code: u8 = match &self.children[0] {
            DomNode::Container(_) => 0,
            DomNode::Zwsp(_) => 1,
            _ => 2,
        };
        let ghost old_children = self.children@;
        if code == 0 {
            proof {
                lemma_container_child_decreases(*self, 0);
            }
            let r = match &mut self.children[0] {
                DomNode::Container(c) => c.remove_leading_zwsp(),
                _ => false,
            };
            proof {
                lemma_raw_update_first(old_children, self.children@, self.children@[0]);
                if !r {
                    lemma_first_child_same(*old(self), *self);
                }
            }
            return r;
        }
        if code == 2 {
            proof {
                lemma_same_content_refl(DomNode::Container(*self));
            }
            return false;
        }
        if self.handle.is_set() {
            self.remove_child(0);
            proof {
                lemma_rehandled_raw(old_children.remove(0), self.children@, self.handle.path(), 0);
                lemma_raw_remove_first(old_children);
            }
        } else {
            self.children.remove(0);
            proof {
                lemma_raw_remove_first(old_children);
            }
        }
        true
    }

    /// Take out the line break that leads this container, if one does.
    /// Returns whether it did.
    pub fn remove_leading_line_break(&mut self) -> (r: bool)
        ensures
            r == (leading_leaf(DomNode::Container(*old(self))) matches Some(l) && l is LineBreak),
            r ==> raw_text(DomNode::Container(*old(self))) == seq!['\\', 'n'] + raw_text(DomNode::Container(*final(self))),
            !r ==> same_content(DomNode::Container(*old(self)), DomNode::Container(*final(self))),
            final(self).spec_name() == old(self).spec_name(),
            final(self).spec_kind() == old(self).spec_kind(),
            final(self).spec_attrs() == old(self).spec_attrs(),
            final(self).spec_handle() == old(self).spec_handle(),
        decreases *old(self),
    {
        if self.children.len() == 0 {
            proof {
                lemma_same_content_refl(DomNode::Container(*self));
            }
            return false;
        }
        let code: u8 = match &self.children[0] {
            DomNode::Container(_) => 0,
            DomNode::LineBreak(_) => 1,
            _ => 2,
        };
        let ghost old_children = self.children@;
        proof {
            reveal_with_fuel(leading_leaf, 2);
        }
        if code == 0 {
            proof {
                lemma_container_child_decreases(*self, 0);
            }
            let r = match &mut self.children[0] {
                DomNode::Container(c) => c.remove_leading_line_break(),
                _ => false,
            };
            proof {
                lemma_raw_update_first(old_children, self.children@, self.children@[0]);
                if !r {
                    lemma_first_child_same(*old(self), *self);
                }
            }
            return r;
        }
        if code == 2 {
            proof {
                lemma_same_content_refl(DomNode::Container(*self));
            }
            return false;
        }
        if self.handle.is_set() {
            self.remove_child(0);
            proof {
                lemma_rehandled_raw(old_children.remove(0), self.children@, self.handle.path(), 0);
                lemma_raw_remove_first(old_children);
            }
        } else {
            self.children.remove(0);
            proof {
                lemma_raw_remove_first(old_children);
            }
        }
        true
    }

    /// Put a line break in place of the zero-width space that leads this
    /// container, if one does. Returns whether it did.
    pub fn replace_leading_zwsp_with_linebreak(&mut self) -> (r: bool)
        ensures
            r == (leading_leaf(DomNode::Container(*old(self))) matches Some(l) && l is Zwsp),
            r ==> raw_text(DomNode::Container(*old(self))) == leading_zwsp_data(DomNode::Container(*old(self)))
                + raw_text(DomNode::Container(*final(self))).skip(2),
            r ==> raw_text(DomNode::Container(*final(self))).len() >= 2,
            r ==> raw_text(DomNode::Container(*final(self))).take(2) == seq!['\\', 'n'],
            !r ==> same_content(DomNode::Container(*old(self)), DomNode::Container(*final(self))),
            final(self).spec_name() == old(self).spec_name(),
            final(self).spec_kind() == old(self).spec_kind(),
            final(self).spec_attrs() == old(self).spec_attrs(),
            final(self).spec_handle() == old(self).spec_handle(),
        decreases *old(self),
    {
        if self.children.len() == 0 {
            proof {
                lemma_same_content_refl(DomNode::Container(*self));
            }
            return false;
        }
        let code: u8 = match &self.children[0] {
            DomNode::Container(_) => 0,
            DomNode::Zwsp(_) => 1,
            _ => 2,
        };
        let ghost old_children = self.children@;
        if code == 0 {
            proof {
                lemma_container_child_decreases(*self, 0);
            }
            let r = match &mut self.children[0] {
                DomNode::Container(c) => c.replace_leading_zwsp_with_linebreak(),
                _ => false,
            };
            proof {
                lemma_raw_update_first(old_children, self.children@, self.children@[0]);
                if !r {
                    lemma_first_child_same(*old(self), *self);
                } else {
                    let rest = raw_children(old_children.skip(1), old_children.len() - 1);
                    let cf = raw_text(self.children@[0]);
                    assert((cf + rest).skip(2) =~= cf.skip(2) + rest);
                    assert((cf + rest).take(2) =~= cf.take(2));
                    assert(leading_zwsp_data(DomNode::Container(*old(self))) + cf.skip(2) + rest =~= leading_zwsp_data(DomNode::Container(*old(self))) + (cf.skip(2) + rest));
                }
            }
            return r;
        }
        if code == 2 {
            proof {
                lemma_same_content_refl(DomNode::Container(*self));
            }
            return false;
        }
        let b = DomNode::new_line_break();
        self.children.set(0, b);
        proof {
            lemma_raw_update_first(old_children, self.children@, b);
            let rest = raw_children(old_children.skip(1), old_children.len() - 1);
            assert((seq!['\\', 'n'] + rest).skip(2) =~= rest);
            assert((seq!['\\', 'n'] + rest).take(2) =~= seq!['\\', 'n']);
        }
        true
    }
}


/// The positions of the line breaks of a node, counted in code units from
/// its start.
pub open spec fn lb_node(n: DomNode) -> Seq<nat>
    decreases n, 0int,
{
    match n {
        DomNode::Container(c) => {
            proof {
                lemma_decreases_children(n);
            }
            lb_children(c.spec_children(), c.spec_children().len() as int)
        },
        DomNode::LineBreak(_) => seq![0nat],
        _ => Seq::empty(),
    }
}

/// The positions of the line breaks of the first `k` nodes of `s`, counted
/// from the start of the first.
pub open spec fn lb_children(s: Seq<DomNode>, k: int) -> Seq<nat>
    decreases s, k,
{
    if k <= 0 || k > s.len() {
        Seq::empty()
    } else {
        let off = nodes_len(s.subrange(0, k - 1));
        lb_children(s, k - 1) + lb_node(s[k - 1]).map_values(|x: nat| x + off)
    }
}

proof fn lemma_lb_bound(n: DomNode)
    ensures
        forall|i: int| 0 <= i < lb_node(n).len() ==> #[trigger] lb_node(n)[i] < node_len(n),
    decreases n, 0int,
{
    match n {
        DomNode::Container(c) => {
            lemma_lb_children_bound(c, c.spec_children().len() as int);
            assert(c.spec_children().subrange(0, c.spec_children().len() as int) =~= c.spec_children());
            assert(lb_node(n) == lb_children(c.spec_children(), c.spec_children().len() as int));
            assert forall|i: int| 0 <= i < lb_node(n).len() implies #[trigger] lb_node(n)[i] < node_len(n) by {
                assert(lb_children(c.spec_children(), c.spec_children().len() as int)[i] < nodes_len(c.spec_children().subrange(0, c.spec_children().len() as int)));
            }
        },
        _ => {},
    }
}

proof fn lemma_lb_children_bound(c: ContainerNode, k: int)
    requires
        0 <= k <= c.spec_children().len(),
    ensures
        forall|i: int| 0 <= i < lb_children(c.spec_children(), k).len() ==> #[trigger] lb_children(c.spec_children(), k)[i] < nodes_len(c.spec_children().subrange(0, k)),
    decreases c, 1int, k,
{
    let s = c.spec_children();
    if k > 0 {
        lemma_lb_children_bound(c, k - 1);
        lemma_container_child_decreases(c, k - 1);
        lemma_lb_bound(s[k - 1]);
        lemma_nodes_len_prefix_step(s, k - 1);
        let prev = lb_children(s, k - 1);
        let off = nodes_len(s.subrange(0, k - 1));
        let part = lb_node(s[k - 1]).map_values(|x: nat| x + off);
        assert forall|i: int| 0 <= i < lb_children(s, k).len() implies #[trigger] lb_children(s, k)[i] < nodes_len(s.subrange(0, k)) by {
            if i < prev.len() {
                assert(lb_children(s, k)[i] == prev[i]);
            } else {
                assert(lb_children(s, k)[i] == part[i - prev.len()]);
            }
        }
    }
}

/// Positions in strictly increasing order.
pub open spec fn strictly_sorted(s: Seq<nat>) -> bool {
    forall|i: int, j: int| 0 <= i < j < s.len() ==> #[trigger] s[i] < #[trigger] s[j]
}

/// The line breaks of a node come in increasing order, each inside the
/// node's text.
pub proof fn lemma_lb_sorted(n: DomNode)
    ensures
        strictly_sorted(lb_node(n)),
        forall|i: int| 0 <= i < lb_node(n).len() ==> #[trigger] lb_node(n)[i] < node_len(n),
    decreases n, 0int,
{
    lemma_lb_bound(n);
    match n {
        DomNode::Container(c) => {
            lemma_lb_children_sorted(c, c.spec_children().len() as int);
        },
        _ => {},
    }
}

proof fn lemma_lb_children_sorted(c: ContainerNode, k: int)
    requires
        0 <= k <= c.spec_children().len(),
    ensures
        strictly_sorted(lb_children(c.spec_children(), k)),
    decreases c, 1int, k,
{
    let s = c.spec_children();
    if k > 0 {
        lemma_lb_children_sorted(c, k - 1);
        lemma_lb_children_bound(c, k - 1);
        lemma_container_child_decreases(c, k - 1);
        lemma_lb_sorted(s[k - 1]);
        let prev = lb_children(s, k - 1);
        let off = nodes_len(s.subrange(0, k - 1));
        let part = lb_node(s[k - 1]).map_values(|x: nat| x + off);
        let all = lb_children(s, k);
        assert(all == prev + part);
        assert forall|i: int, j: int| 0 <= i < j < all.len() implies #[trigger] all[i] < #[trigger] all[j] by {
            if j < prev.len() {
                assert(all[i] == prev[i] && all[j] == prev[j]);
            } else if i < prev.len() {
                assert(all[i] == prev[i]);
                assert(all[j] == part[j - prev.len()]);
                assert(prev[i] < off);
            } else {
                assert(all[i] == part[i - prev.len()]);
                assert(all[j] == part[j - prev.len()]);
                assert(lb_node(s[k - 1])[i - prev.len()] < lb_node(s[k - 1])[j - prev.len()]);
            }
        }
    }
}

impl ContainerNode {
    /// The positions of the line breaks inside this container, counted in
    /// code units from its start.
    #[verifier::spinoff_prover]
    pub fn line_break_positions(&self) -> (r: Vec<usize>)
        requires
            nodes_len(self.spec_children()) <= usize::MAX,
        ensures
            r@.map_values(|x: usize| x as nat) == lb_node(DomNode::Container(*self)),
        decreases *self,
    {
        let mut current_offset: usize = 0;
        let mut positions: Vec<usize> = Vec::new();
        let mut i: usize = 0;
        let n = self.children.len();
        while i < n
            invariant
                n == self.children@.len(),
                i <= n,
                nodes_len(self.spec_children()) <= usize::MAX,
                current_offset == nodes_len(self.children@.subrange(0, i as int)),
                positions@.map_values(|x: usize| x as nat) == lb_children(self.children@, i as int),
            decreases n - i,
        {
            proof {
                lemma_container_child_decreases(*self, i as int);
                lemma_nodes_len_prefix_step(self.children@, i as int);
                lemma_nodes_len_prefix_le(self.children@, i + 1);
                lemma_lb_bound(self.children@[i as int]);
            }
            let ghost before = positions@;
            match &self.children[i] {
                DomNode::Container(c) => {
                    let child_positions = c.line_break_positions();
                    let ghost lb = lb_node(self.children@[i as int]);
                    assert(self.children@[i as int] == DomNode::Container(*c));
                    assert forall|m: int| 0 <= m < child_positions@.len() implies #[trigger] child_positions@[m] + current_offset < nodes_len(self.children@.subrange(0, i + 1)) by {
                        assert(child_positions@.map_values(|x: usize| x as nat)[m] == child_positions@[m] as nat);
                        assert(lb[m] < node_len(self.children@[i as int]));
                    }
                    let mut j: usize = 0;
                    while j < child_positions.len()
                        invariant
                            j <= child_positions@.len(),
                            child_positions@.map_values(|x: usize| x as nat) == lb,
                            forall|m: int| 0 <= m < child_positions@.len() ==> #[trigger] child_positions@[m] + current_offset < nodes_len(self.children@.subrange(0, i + 1)),
                            nodes_len(self.children@.subrange(0, i + 1)) <= usize::MAX,
                            positions@.len() == before.len() + j,
                            forall|m: int| 0 <= m < before.len() ==> positions@[m] == before[m],
                            forall|m: int| 0 <= m < j ==> positions@[before.len() + m] == child_positions@[m] + current_offset,
                        decreases child_positions@.len() - j,
                    {
                        positions.push(child_positions[j] + current_offset);
                        j += 1;
                    }
                    proof {
                        let off = nodes_len(self.children@.subrange(0, i as int));
                        let shifted = lb.map_values(|x: nat| x + off);
                        assert forall|m: int| 0 <= m < lb.len() implies #[trigger] shifted[m] == positions@[before.len() + m] as nat by {
                            assert(child_positions@.map_values(|x: usize| x as nat)[m] == child_positions@[m] as nat);
                        }
                        assert(positions@.map_values(|x: usize| x as nat) =~= before.map_values(|x: usize| x as nat) + lb.map_values(|x: nat| x + off));
                    }
                },
                DomNode::LineBreak(_) => {
                    positions.push(current_offset);
                    proof {
                        let off = nodes_len(self.children@.subrange(0, i as int));
                        assert(positions@.map_values(|x: usize| x as nat) =~= before.map_values(|x: usize| x as nat) + seq![0nat].map_values(|x: nat| x + off));
                    }
                },
                _ => {
                    proof {
                        let off = nodes_len(self.children@.subrange(0, i as int));
                        assert(positions@.map_values(|x: usize| x as nat) =~= before.map_values(|x: usize| x as nat) + Seq::<nat>::empty().map_values(|x: nat| x + off));
                    }
                },
            }
            let len = self.children[i].text_len();
            current_offset = current_offset + len;
            i += 1;
        }
        assert(self.children@.subrange(0, n as int) =~= self.children@);
        positions
    }
}


/// The text of a node, one character per code unit: the text of its text
/// nodes, `\n` for a line break, a zero-width space for a zero-width space
/// node and `U+FFFC` for a mention, in order.
pub open spec fn text_units(n: DomNode) -> Seq<char>
    decreases n, 0int,
{
    match n {
        DomNode::Container(c) => {
            proof {
                lemma_decreases_children(n);
            }
            units_children(c.spec_children(), c.spec_children().len() as int)
        },
        DomNode::Text(t) => t.spec_data(),
        DomNode::LineBreak(_) => seq!['\n'],
        DomNode::Zwsp(_) => seq![zwsp_char()],
        DomNode::Mention(_) => seq!['\u{FFFC}'],
    }
}

/// The text of the first `k` nodes of `s`, one character per code unit.
pub open spec fn units_children(s: Seq<DomNode>, k: int) -> Seq<char>
    decreases s, k,
{
    if k <= 0 || k > s.len() {
        Seq::empty()
    } else {
        units_children(s, k - 1) + text_units(s[k - 1])
    }
}

/// The text of a node is as long as its text length.
pub proof fn lemma_units_len(n: DomNode)
    ensures
        text_units(n).len() == node_len(n),
    decreases n, 0int,
{
    match n {
        DomNode::Container(c) => {
            lemma_units_children_len(c, c.spec_children().len() as int);
            assert(c.spec_children().subrange(0, c.spec_children().len() as int) =~= c.spec_children());
        },
        _ => {},
    }
}

proof fn lemma_units_children_len(c: ContainerNode, k: int)
    requires
        0 <= k <= c.spec_children().len(),
    ensures
        units_children(c.spec_children(), k).len() == nodes_len(c.spec_children().subrange(0, k)),
    decreases c, 1int, k,
{
    if k > 0 {
        lemma_units_children_len(c, k - 1);
        lemma_container_child_decreases(c, k - 1);
        lemma_units_len(c.spec_children()[k - 1]);
        lemma_nodes_len_prefix_step(c.spec_children(), k - 1);
    }
}

/// Sequences that agree on their first `k` nodes hold the same text there.
pub proof fn lemma_units_children_prefix(s: Seq<DomNode>, t: Seq<DomNode>, k: int)
    requires
        0 <= k <= s.len(),
        k <= t.len(),
        forall|j: int| 0 <= j < k ==> s[j] == t[j],
    ensures
        units_children(s, k) == units_children(t, k),
    decreases k,
{
    if k > 0 {
        lemma_units_children_prefix(s, t, k - 1);
    }
}

/// The text of a sequence is the text before `i` followed by the text from `i` on.
pub proof fn lemma_units_children_split(s: Seq<DomNode>, i: int)
    requires
        0 <= i <= s.len(),
    ensures
        units_children(s, s.len() as int) == units_children(s.subrange(0, i), i) + units_children(s.subrange(i, s.len() as int), s.len() - i),
    decreases s.len() - i,
{
    if i == s.len() {
        lemma_units_children_prefix(s, s.subrange(0, i), i);
        assert(units_children(s.subrange(i, s.len() as int), 0) == Seq::<char>::empty());
        assert(units_children(s.subrange(0, i), i) + Seq::<char>::empty() =~= units_children(s.subrange(0, i), i));
    } else {
        lemma_units_children_split(s, i + 1);
        lemma_units_children_prefix(s.subrange(0, i + 1), s.subrange(0, i), i);
        let tail = s.subrange(i, s.len() as int);
        let tail1 = s.subrange(i + 1, s.len() as int);
        lemma_units_children_first(tail);
        assert(tail.skip(1) =~= tail1);
        assert(s.subrange(0, i + 1)[i] == s[i]);
        assert(tail[0] == s[i]);
        assert(units_children(s.subrange(0, i), i) + text_units(s[i]) + units_children(tail1, s.len() - i - 1) =~= units_children(s.subrange(0, i), i) + (text_units(s[i]) + units_children(tail1, s.len() - i - 1)));
    }
}

/// The text of a sequence is the text of its first node followed by the text of the rest.
pub proof fn lemma_units_children_first(s: Seq<DomNode>)
    requires
        s.len() > 0,
    ensures
        units_children(s, s.len() as int) == text_units(s[0]) + units_children(s.skip(1), s.len() - 1),
    decreases s.len(),
{
    let n = s.len() as int;
    if n == 1 {
        assert(units_children(s, 1) == units_children(s, 0) + text_units(s[0]));
        assert(units_children(s.skip(1), 0) == Seq::<char>::empty());
        assert(Seq::<char>::empty() + text_units(s[0]) =~= text_units(s[0]));
        assert(text_units(s[0]) + Seq::<char>::empty() =~= text_units(s[0]));
    } else {
        let d = s.drop_last();
        lemma_units_children_first(d);
        lemma_units_children_prefix(s, d, n - 1);
        lemma_units_children_prefix(s.skip(1), d.skip(1), n - 2);
        assert(d[0] == s[0]);
        assert(units_children(s, n) == units_children(s, n - 1) + text_units(s[n - 1]));
        assert(units_children(s.skip(1), n - 1) == units_children(s.skip(1), n - 2) + text_units(s.skip(1)[n - 2]));
        assert(s.skip(1)[n - 2] == s[n - 1]);
        assert(text_units(s[0]) + units_children(d.skip(1), n - 2) + text_units(s[n - 1]) =~= text_units(s[0]) + (units_children(d.skip(1), n - 2) + text_units(s[n - 1])));
    }
}

/// The text of two sequences put together is their texts put together.
pub proof fn lemma_units_children_append(a: Seq<DomNode>, b: Seq<DomNode>)
    ensures
        units_children(a + b, (a + b).len() as int) == units_children(a, a.len() as int) + units_children(b, b.len() as int),
    decreases b.len(),
{
    if b.len() == 0 {
        assert(a + b =~= a);
        assert(units_children(a, a.len() as int) + Seq::<char>::empty() =~= units_children(a, a.len() as int));
    } else {
        lemma_units_children_append(a, b.drop_last());
        assert((a + b).drop_last() =~= a + b.drop_last());
        lemma_units_children_prefix(a + b, a + b.drop_last(), (a + b).len() - 1);
        lemma_units_children_prefix(b, b.drop_last(), b.len() - 1);
        assert((a + b)[(a + b).len() - 1] == b[b.len() - 1]);
        assert(units_children(a, a.len() as int) + units_children(b.drop_last(), b.len() - 1) + text_units(b[b.len() - 1]) =~= units_children(a, a.len() as int) + (units_children(b.drop_last(), b.len() - 1) + text_units(b[b.len() - 1])));
    }
}

/// The text of a single node.
pub proof fn lemma_units_children_single(x: DomNode)
    ensures
        units_children(seq![x], 1) == text_units(x),
{
    assert(units_children(seq![x], 0) == Seq::<char>::empty());
    assert(Seq::<char>::empty() + text_units(x) =~= text_units(x));
}

/// Where a container would be sliced at `position`: the first child whose
/// text goes past `position`, the text before it, and whether `position`
/// falls inside it.
fn find_slice_location(children: &Vec<DomNode>, position: usize) -> (r: Option<(usize, usize, bool)>)
    requires
        nodes_len(children@) <= usize::MAX,
    ensures
        match r {
            None => nodes_len(children@) <= position,
            Some((loc, idx, cut)) => {
                &&& idx < children@.len()
                &&& loc == nodes_len(children@.subrange(0, idx as int))
                &&& loc <= position < loc + node_len(children@[idx as int])
                &&& cut == (loc < position)
            },
        },
{
    let mut current: usize = 0;
    let mut i: usize = 0;
    while i < children.len()
        invariant
            i <= children@.len(),
            nodes_len(children@) <= usize::MAX,
            current == nodes_len(children@.subrange(0, i as int)),
            current <= position,
        decreases children@.len() - i,
    {
        proof {
            lemma_nodes_len_prefix_step(children@, i as int);
            lemma_nodes_len_prefix_le(children@, i + 1);
        }
        let len = children[i].text_len();
        if current + len <= position {
            current = current + len;
        } else {
            return Some((current, i, current < position));
        }
        i += 1;
    }
    assert(children@.subrange(0, i as int) =~= children@);
    None
}

/// Parts of sequences without empty mergeable containers have none
/// either, nor do their concatenations.
proof fn lemma_no_empty_mergeable_parts(kept: Seq<DomNode>, init: Seq<DomNode>, idx: int)
    requires
        all_no_empty_mergeable(kept),
        all_no_empty_mergeable(init),
        0 <= idx <= kept.len(),
    ensures
        all_no_empty_mergeable(kept.subrange(0, idx)),
        all_no_empty_mergeable(kept.subrange(idx, kept.len() as int)),
        all_no_empty_mergeable(init + kept.subrange(idx, kept.len() as int)),
        all_no_empty_mergeable(kept.subrange(0, idx) + init),
{
    let a = kept.subrange(0, idx);
    let b = kept.subrange(idx, kept.len() as int);
    lemma_all_no_empty_mergeable_iff(kept);
    lemma_all_no_empty_mergeable_iff(init);
    lemma_all_no_empty_mergeable_iff(a);
    lemma_all_no_empty_mergeable_iff(b);
    lemma_all_no_empty_mergeable_iff(init + b);
    lemma_all_no_empty_mergeable_iff(a + init);
    assert forall|j: int| 0 <= j < a.len() implies #[trigger] no_empty_mergeable(a[j]) by {
        assert(a[j] == kept[j]);
    }
    assert forall|j: int| 0 <= j < b.len() implies #[trigger] no_empty_mergeable(b[j]) by {
        assert(b[j] == kept[idx + j]);
    }
    assert forall|j: int| 0 <= j < (init + b).len() implies #[trigger] no_empty_mergeable((init + b)[j]) by {
        if j < init.len() {
            assert((init + b)[j] == init[j]);
        } else {
            assert((init + b)[j] == b[j - init.len()]);
        }
    }
    assert forall|j: int| 0 <= j < (a + init).len() implies #[trigger] no_empty_mergeable((a + init)[j]) by {
        if j < a.len() {
            assert((a + init)[j] == a[j]);
        } else {
            assert((a + init)[j] == init[j - a.len()]);
        }
    }
}

/// Replacing one node by one without empty mergeable containers keeps a
/// sequence without any.
proof fn lemma_no_empty_mergeable_update(old_c: Seq<DomNode>, kept: Seq<DomNode>, k: int)
    requires
        all_no_empty_mergeable(old_c),
        kept.len() == old_c.len(),
        0 <= k < kept.len(),
        forall|j: int| 0 <= j < kept.len() && j != k ==> kept[j] == old_c[j],
        no_empty_mergeable(kept[k]),
    ensures
        all_no_empty_mergeable(kept),
{
    lemma_all_no_empty_mergeable_iff(old_c);
    lemma_all_no_empty_mergeable_iff(kept);
    assert forall|j: int| 0 <= j < kept.len() implies #[trigger] no_empty_mergeable(kept[j]) by {
        if j != k {
            assert(kept[j] == old_c[j]);
        }
    }
}

impl DomNode {
    /// Cut this node at `position`: it keeps its text before `position` and
    /// the returned node, of the same kind, holds the rest.
    pub fn slice_after(&mut self, position: usize) -> (after: DomNode)
        requires
            node_len(*old(self)) <= usize::MAX,
            *old(self) is Container || *old(self) is Text,
            position <= node_len(*old(self)),
        ensures
            text_units(*old(self)) == text_units(*final(self)) + text_units(after),
            text_units(*final(self)).len() == position,
            final(self).spec_handle() == old(self).spec_handle(),
            after.spec_handle() == None::<Seq<usize>>,
            no_empty_mergeable(*old(self)) && 0 < position < node_len(*old(self)) ==> no_empty_mergeable(
                *final(self),
            ) && no_empty_mergeable(after),
            forall|p: Seq<usize>| handles_ok(*old(self), p) ==> #[trigger] handles_ok(*final(self), p),
        decreases *old(self),
    {
        match self {
            DomNode::Container(c) => DomNode::Container(c.slice_after(position)),
            DomNode::Text(t) => {
                let a = t.slice_after(position);
                assert(old(self)->Text_0.spec_data() =~= t.spec_data() + a.spec_data());
                DomNode::Text(a)
            },
            _ => {
                assert(false);
                DomNode::new_empty_text()
            },
        }
    }

    /// Cut this node at `position`: the returned node, of the same kind,
    /// holds its text before `position` and it keeps the rest; a container
    /// cut at its end gives nothing and keeps all.
    pub fn slice_before(&mut self, position: usize) -> (before: DomNode)
        requires
            node_len(*old(self)) <= usize::MAX,
            *old(self) is Container || *old(self) is Text,
            position <= node_len(*old(self)),
        ensures
            *old(self) is Container && position == node_len(*old(self)) ==> text_units(before).len() == 0
                && text_units(*final(self)) == text_units(*old(self)),
            !(*old(self) is Container && position == node_len(*old(self))) ==> text_units(*old(self))
                == text_units(before) + text_units(*final(self)) && text_units(before).len() == position,
            final(self).spec_handle() == old(self).spec_handle(),
            before.spec_handle() == None::<Seq<usize>>,
            no_empty_mergeable(*old(self)) && 0 < position < node_len(*old(self)) ==> no_empty_mergeable(
                *final(self),
            ) && no_empty_mergeable(before),
        decreases *old(self),
    {
        match self {
            DomNode::Container(c) => DomNode::Container(c.slice_before(position)),
            DomNode::Text(t) => {
                let b = t.slice_before(position);
                assert(old(self)->Text_0.spec_data() =~= b.spec_data() + t.spec_data());
                DomNode::Text(b)
            },
            _ => {
                assert(false);
                DomNode::new_empty_text()
            },
        }
    }
}

impl ContainerNode {
    /// Cut this container at `position`: it keeps its text before
    /// `position` and the returned container, of the same name, kind and
    /// attributes and with an unset handle, holds the rest.
    #[verifier::spinoff_prover]
    #[verifier::rlimit(40)]
    pub fn slice_after(&mut self, position: usize) -> (after: ContainerNode)
        requires
            nodes_len(old(self).spec_children()) <= usize::MAX,
            position <= nodes_len(old(self).spec_children()),
        ensures
            text_units(DomNode::Container(*old(self))) == text_units(DomNode::Container(*final(self)))
                + text_units(DomNode::Container(after)),
            text_units(DomNode::Container(*final(self))).len() == position,
            final(self).spec_name() == old(self).spec_name(),
            final(self).spec_kind() == old(self).spec_kind(),
            final(self).spec_attrs() == old(self).spec_attrs(),
            final(self).spec_handle() == old(self).spec_handle(),
            after.spec_name() == old(self).spec_name(),
            after.spec_kind() == old(self).spec_kind(),
            after.spec_attrs() == old(self).spec_attrs(),
            after.spec_handle() == None::<Seq<usize>>,
            all_no_empty_mergeable(old(self).spec_children()) ==> all_no_empty_mergeable(
                final(self).spec_children(),
            ) && all_no_empty_mergeable(after.spec_children()),
            container_ok(*old(self)) ==> container_ok(*final(self)),
            0 < position ==> final(self).spec_children().len() > 0,
            position < nodes_len(old(self).spec_children()) ==> after.spec_children().len() > 0,
        decreases *old(self),
    {
        let ghost old_children = self.children@;
        let ghost n = old_children.len() as int;
        proof {
            lemma_units_len(DomNode::Container(*self));
        }
        match find_slice_location(&self.children, position) {
            None => {
                proof {
                    assert(units_children(Seq::<DomNode>::empty(), 0) == Seq::<char>::empty());
                    assert(units_children(old_children, n) + Seq::<char>::empty() =~= units_children(old_children, n));
                }
                self.clone_with_new_children(Vec::new())
            },
            Some((loc, child_index, should_slice)) => {
                let ghost k = child_index as int;
                proof {
                    lemma_units_children_len(*self, k);
                    lemma_units_children_prefix(old_children, old_children.subrange(0, k), k);
                }
                let mut removed: Vec<DomNode> = Vec::new();
                let index_to_remove: usize;
                let nlen = self.children.len();
                if should_slice {
                    index_to_remove = child_index + 1;
                    proof {
                        lemma_container_child_decreases(*self, k);
                        lemma_nodes_len_prefix_step(old_children, k);
                        lemma_nodes_len_prefix_le(old_children, k + 1);
                    }
                    let sliced = self.children[child_index].slice_after(position - loc);
                    removed.push(sliced);
                } else {
                    index_to_remove = child_index;
                }
                let ghost kept = self.children@;
                let ghost init = removed@;
                proof {
                    if all_no_empty_mergeable(old_children) {
                        lemma_all_no_empty_mergeable_iff(old_children);
                        if should_slice {
                            assert(no_empty_mergeable(old_children[k]));
                            lemma_no_empty_mergeable_update(old_children, kept, k);
                            lemma_all_no_empty_mergeable_iff(init);
                        } else {
                            assert(init =~= Seq::<DomNode>::empty());
                        }
                    }
                    assert(old_children.subrange(0, 0) =~= Seq::<DomNode>::empty());
                }
                let ghost idx = index_to_remove as int;
                proof {
                    lemma_units_children_split(kept, idx);
                    lemma_units_children_split(old_children, k);
                    if should_slice {
                        lemma_units_children_split(kept, k);
                        assert(kept.subrange(0, k) =~= old_children.subrange(0, k));
                        assert(kept.subrange(k, n) =~= seq![kept[k]] + old_children.subrange(k + 1, n));
                        assert(old_children.subrange(k, n) =~= seq![old_children[k]] + old_children.subrange(k + 1, n));
                        lemma_units_children_first(kept.subrange(k, n));
                        lemma_units_children_first(old_children.subrange(k, n));
                        assert(kept.subrange(k, n).skip(1) =~= old_children.subrange(k + 1, n));
                        assert(old_children.subrange(k, n).skip(1) =~= old_children.subrange(k + 1, n));
                        assert(kept.subrange(0, idx) =~= old_children.subrange(0, k).push(kept[k]));
                        lemma_units_children_prefix(kept.subrange(0, idx), old_children.subrange(0, k), k);
                        assert(kept.subrange(idx, n) =~= old_children.subrange(k + 1, n));
                        lemma_units_children_single(init[0]);
                    } else {
                        assert(kept == old_children);
                    }
                }
                while self.children.len() > index_to_remove
                    invariant
                        self.spec_name() == old(self).spec_name(),
                        self.spec_kind() == old(self).spec_kind(),
                        self.spec_attrs() == old(self).spec_attrs(),
                        self.spec_handle() == old(self).spec_handle(),
                        index_to_remove == idx,
                        idx <= self.children@.len() <= kept.len(),
                        kept.len() == n,
                        self.children@ == kept.subrange(0, idx) + kept.subrange(idx + (removed@.len() - init.len()), n),
                        removed@ == init + kept.subrange(idx, idx + (removed@.len() - init.len())),
                        self.children@.len() + removed@.len() - init.len() == n,
                    decreases self.children@.len() - index_to_remove,
                {
                    let ghost m = removed@.len() - init.len();
                    let child = self.children.remove(index_to_remove);
                    removed.push(child);
                    assert(self.children@ =~= kept.subrange(0, idx) + kept.subrange(idx + m + 1, n));
                    assert(removed@ =~= init + kept.subrange(idx, idx + m + 1));
                }
                proof {
                    assert(self.children@ =~= kept.subrange(0, idx));
                    assert(removed@ =~= init + kept.subrange(idx, n));
                    lemma_units_children_append(init, kept.subrange(idx, n));
                    lemma_units_children_prefix(self.children@, kept.subrange(0, idx), idx);
                    if !should_slice {
                        assert(init =~= Seq::<DomNode>::empty());
                        assert(units_children(init, 0) == Seq::<char>::empty());
                        assert(Seq::<char>::empty() + units_children(kept.subrange(idx, n), n - idx) =~= units_children(kept.subrange(idx, n), n - idx));
                    } else {
                        let a = units_children(old_children.subrange(0, k), k);
                        let c1 = text_units(kept[k]);
                        let c2 = text_units(init[0]);
                        let r = units_children(old_children.subrange(k + 1, n), n - k - 1);
                        assert(a + (c1 + c2) + r =~= (a + c1) + (c2 + r));
                    }
                    if all_no_empty_mergeable(old_children) {
                        lemma_no_empty_mergeable_parts(kept, init, idx);
                    }
                    if container_ok(*old(self)) {
                        let h = self.spec_handle().unwrap();
                        let now = self.children@;
                        lemma_children_ok_iff(old_children, h);
                        lemma_children_ok_iff(now, h);
                        assert forall|j: int| 0 <= j < now.len() implies #[trigger] handles_ok(now[j], h.push(j as usize)) by {
                            assert(now[j] == kept[j]);
                            assert(handles_ok(old_children[j], h.push(j as usize)));
                            if !(should_slice && j == k) {
                                assert(kept[j] == old_children[j]);
                            }
                        }
                    }
                }
                self.clone_with_new_children(removed)
            },
        }
    }
}

impl ContainerNode {
    /// Cut this container at `position`: the returned container, of the
    /// same name, kind and attributes and with an unset handle, holds its
    /// text before `position` and it keeps the rest; cut at its end, it
    /// gives nothing and keeps all.
    #[verifier::rlimit(80)]
    pub fn slice_before(&mut self, position: usize) -> (before: ContainerNode)
        requires
            nodes_len(old(self).spec_children()) <= usize::MAX,
            position <= nodes_len(old(self).spec_children()),
        ensures
            position == nodes_len(old(self).spec_children()) ==> before.spec_children().len() == 0
                && final(self).spec_children() == old(self).spec_children(),
            position < nodes_len(old(self).spec_children()) ==> text_units(DomNode::Container(*old(self)))
                == text_units(DomNode::Container(before)) + text_units(DomNode::Container(*final(self))),
            position < nodes_len(old(self).spec_children()) ==> text_units(DomNode::Container(before)).len() == position,
            final(self).spec_name() == old(self).spec_name(),
            final(self).spec_kind() == old(self).spec_kind(),
            final(self).spec_attrs() == old(self).spec_attrs(),
            final(self).spec_handle() == old(self).spec_handle(),
            before.spec_name() == old(self).spec_name(),
            before.spec_kind() == old(self).spec_kind(),
            before.spec_attrs() == old(self).spec_attrs(),
            before.spec_handle() == None::<Seq<usize>>,
            all_no_empty_mergeable(old(self).spec_children()) ==> all_no_empty_mergeable(
                final(self).spec_children(),
            ) && all_no_empty_mergeable(before.spec_children()),
            position < nodes_len(old(self).spec_children()) ==> final(self).spec_children().len() > 0,
            0 < position < nodes_len(old(self).spec_children()) ==> before.spec_children().len() > 0,
        decreases *old(self),
    {
        let ghost old_children = self.children@;
        let ghost n = old_children.len() as int;
        proof {
            lemma_units_len(DomNode::Container(*self));
        }
        match find_slice_location(&self.children, position) {
            None => self.clone_with_new_children(Vec::new()),
            Some((loc, child_index, should_slice)) => {
                let ghost k = child_index as int;
                proof {
                    lemma_units_children_len(*self, k);
                    lemma_units_children_prefix(old_children, old_children.subrange(0, k), k);
                    lemma_nodes_len_prefix_step(old_children, k);
                    lemma_nodes_len_prefix_le(old_children, k + 1);
                }
                let mut removed: Vec<DomNode> = Vec::new();
                if should_slice {
                    proof {
                        lemma_container_child_decreases(*self, k);
                    }
                    let sliced = self.children[child_index].slice_before(position - loc);
                    removed.push(sliced);
                }
                let ghost kept = self.children@;
                let ghost init = removed@;
                proof {
                    if all_no_empty_mergeable(old_children) {
                        lemma_all_no_empty_mergeable_iff(old_children);
                        if should_slice {
                            assert(no_empty_mergeable(old_children[k]));
                            lemma_no_empty_mergeable_update(old_children, kept, k);
                            lemma_all_no_empty_mergeable_iff(init);
                        } else {
                            assert(init =~= Seq::<DomNode>::empty());
                        }
                    }
                    assert(old_children.subrange(0, 0) =~= Seq::<DomNode>::empty());
                }
                let mut i: usize = child_index;
                while i > 0
                    invariant
                        self.spec_name() == old(self).spec_name(),
                        self.spec_kind() == old(self).spec_kind(),
                        self.spec_attrs() == old(self).spec_attrs(),
                        self.spec_handle() == old(self).spec_handle(),
                        i <= k,
                        k < n,
                        kept.len() == n,
                        self.children@ == kept.subrange(0, i as int) + kept.subrange(k, n),
                        removed@ == kept.subrange(i as int, k) + init,
                    decreases i,
                {
                    let child = self.children.remove(i - 1);
                    removed.insert(0, child);
                    i -= 1;
                    assert(self.children@ =~= kept.subrange(0, i as int) + kept.subrange(k, n));
                    assert(removed@ =~= kept.subrange(i as int, k) + init);
                }
                proof {
                    assert(self.children@ =~= kept.subrange(k, n));
                    assert(kept.subrange(0, k) =~= old_children.subrange(0, k));
                    lemma_units_children_append(kept.subrange(0, k), init);
                    lemma_units_children_split(old_children, k);
                    lemma_units_children_prefix(self.children@, kept.subrange(k, n), n - k);
                    assert(old_children.subrange(k, n) =~= seq![old_children[k]] + old_children.subrange(k + 1, n));
                    lemma_units_children_first(old_children.subrange(k, n));
                    assert(old_children.subrange(k, n).skip(1) =~= old_children.subrange(k + 1, n));
                    if should_slice {
                        lemma_units_children_single(init[0]);
                        assert(kept.subrange(k, n) =~= seq![kept[k]] + old_children.subrange(k + 1, n));
                        lemma_units_children_first(kept.subrange(k, n));
                        assert(kept.subrange(k, n).skip(1) =~= old_children.subrange(k + 1, n));
                        let a = units_children(old_children.subrange(0, k), k);
                        let c1 = text_units(init[0]);
                        let c2 = text_units(kept[k]);
                        let r = units_children(old_children.subrange(k + 1, n), n - k - 1);
                        assert(a + (c1 + c2) + r =~= (a + c1) + (c2 + r));
                    } else {
                        assert(init =~= Seq::<DomNode>::empty());
                        assert(units_children(init, 0) == Seq::<char>::empty());
                        assert(kept == old_children);
                        assert(units_children(old_children.subrange(0, k), k) + Seq::<char>::empty() =~= units_children(old_children.subrange(0, k), k));
                    }
                    if all_no_empty_mergeable(old_children) {
                        lemma_no_empty_mergeable_parts(kept, init, k);
                    }
                }
                self.clone_with_new_children(removed)
            },
        }
    }
}


/// Two nodes can be merged as they are: two containers of the same kind
/// that is neither list item nor paragraph, or two text nodes.
pub open spec fn can_push_spec(x: DomNode, y: DomNode) -> bool {
    match (x, y) {
        (DomNode::Container(c1), DomNode::Container(c2)) => c1.spec_kind() == c2.spec_kind()
            && !(c1.spec_kind() is ListItem) && !(c1.spec_kind() is Paragraph),
        (DomNode::Text(_), DomNode::Text(_)) => true,
        _ => false,
    }
}

/// The text that `x` takes in when `y` is pushed into it: the text of a text
/// node unless it is empty or a lone zero-width space; for containers, what
/// the last child of one takes in of the first child of the other when they
/// can be merged, then the text of the other children.
pub open spec fn absorbed(x: DomNode, y: DomNode) -> Seq<char>
    decreases x, 0int,
{
    match (x, y) {
        (DomNode::Container(a), DomNode::Container(b)) => absorbed_c(a, b),
        (DomNode::Text(_), DomNode::Text(t)) => if t.spec_data().len() == 0 || t.spec_data() == seq![zwsp_char()] {
            Seq::empty()
        } else {
            t.spec_data()
        },
        _ => Seq::empty(),
    }
}

/// The text that container `a` takes in when container `b` is pushed into
/// it.
pub open spec fn absorbed_c(a: ContainerNode, b: ContainerNode) -> Seq<char>
    decreases a, 1int,
{
    let ac = a.spec_children();
    let bc = b.spec_children();
    if ac.len() == 0 || bc.len() == 0 {
        units_children(bc, bc.len() as int)
    } else if can_push_spec(ac.last(), bc[0]) {
        proof {
            lemma_container_child_decreases(a, ac.len() - 1);
        }
        absorbed(ac.last(), bc[0]) + units_children(bc.skip(1), bc.len() - 1)
    } else {
        units_children(bc, bc.len() as int)
    }
}

/// Container `b` can be pushed into container `a`: same kind, both with
/// children, `b` with a handle, `a` with one too when children of `b` are
/// to be appended to it, and the last child of `a` and the first of `b` can
/// be pushed into one another when they are to be merged.
pub open spec fn push_ok(a: ContainerNode, b: ContainerNode) -> bool
    decreases a, 1int,
{
    let ac = a.spec_children();
    let bc = b.spec_children();
    &&& a.spec_kind() == b.spec_kind()
    &&& ac.len() > 0
    &&& bc.len() > 0
    &&& (bc.len() > 1 || !can_push_spec(ac.last(), bc[0])) ==> a.spec_handle() is Some
    &&& b.spec_handle() is Some
    &&& can_push_spec(ac.last(), bc[0]) ==> {
        proof {
            lemma_container_child_decreases(a, ac.len() - 1);
        }
        node_push_ok(ac.last(), bc[0])
    }
}

/// Node `y` can be pushed into node `x`.
pub open spec fn node_push_ok(x: DomNode, y: DomNode) -> bool
    decreases x, 0int,
{
    match (x, y) {
        (DomNode::Container(a), DomNode::Container(b)) => push_ok(a, b),
        (DomNode::Text(_), DomNode::Text(_)) => true,
        _ => false,
    }
}

/// Nodes with the same content have the same text.
pub proof fn lemma_same_content_units(a: DomNode, b: DomNode)
    requires
        same_content(a, b),
    ensures
        text_units(a) == text_units(b),
    decreases a,
{
    match (a, b) {
        (DomNode::Container(x), DomNode::Container(y)) => {
            lemma_same_children_iff(x.spec_children(), y.spec_children());
            assert forall|j: int| 0 <= j < x.spec_children().len() implies text_units(#[trigger] x.spec_children()[j]) == text_units(y.spec_children()[j]) by {
                lemma_container_child_decreases(x, j);
                lemma_same_content_units(x.spec_children()[j], y.spec_children()[j]);
            }
            lemma_units_children_same(x.spec_children(), y.spec_children(), x.spec_children().len() as int);
        },
        _ => {},
    }
}

/// Sequences whose first `k` nodes hold the same texts hold the same text there.
pub proof fn lemma_units_children_same(s: Seq<DomNode>, t: Seq<DomNode>, k: int)
    requires
        0 <= k <= s.len(),
        k <= t.len(),
        forall|j: int| 0 <= j < k ==> text_units(#[trigger] s[j]) == text_units(t[j]),
    ensures
        units_children(s, k) == units_children(t, k),
    decreases k,
{
    if k > 0 {
        lemma_units_children_same(s, t, k - 1);
    }
}

/// Children given the handles of their positions hold the same text.
pub proof fn lemma_rehandled_units(old: Seq<DomNode>, new: Seq<DomNode>, p: Seq<usize>, from: int)
    requires
        rehandled_from(old, new, p, from),
        0 <= from,
    ensures
        units_children(new, new.len() as int) == units_children(old, old.len() as int),
{
    assert forall|j: int| 0 <= j < old.len() implies text_units(#[trigger] old[j]) == text_units(new[j]) by {
        if j >= from {
            lemma_same_content_units(old[j], new[j]);
        }
    }
    lemma_units_children_same(old, new, old.len() as int);
}

proof fn lemma_units_children_push(s: Seq<DomNode>, x: DomNode)
    ensures
        units_children(s.push(x), s.len() + 1 as int) == units_children(s, s.len() as int) + text_units(x),
{
    lemma_units_children_prefix(s.push(x), s, s.len() as int);
}

/// Every container of the tree under `n` that could be merged with another
/// one (any but list items and paragraphs) has at least one child.
pub open spec fn no_empty_mergeable(n: DomNode) -> bool
    decreases n, 1int,
{
    match n {
        DomNode::Container(c) => {
            proof {
                lemma_decreases_children(n);
            }
            (!(c.spec_kind() is ListItem) && !(c.spec_kind() is Paragraph) ==> c.spec_children().len() > 0)
                && all_no_empty_mergeable(c.spec_children())
        },
        _ => true,
    }
}

/// No tree under the nodes of `s` holds an empty container that could be
/// merged with another one.
pub open spec fn all_no_empty_mergeable(s: Seq<DomNode>) -> bool
    decreases s, 0int,
{
    if s.len() == 0 {
        true
    } else {
        all_no_empty_mergeable(s.drop_last()) && no_empty_mergeable(s.last())
    }
}

/// `all_no_empty_mergeable` holds exactly when it holds of every node.
pub proof fn lemma_all_no_empty_mergeable_iff(s: Seq<DomNode>)
    ensures
        all_no_empty_mergeable(s) <==> (forall|i: int| 0 <= i < s.len() ==> #[trigger] no_empty_mergeable(s[i])),
    decreases s.len(),
{
    if s.len() > 0 {
        lemma_all_no_empty_mergeable_iff(s.drop_last());
        if all_no_empty_mergeable(s) {
            assert forall|i: int| 0 <= i < s.len() implies #[trigger] no_empty_mergeable(s[i]) by {
                if i < s.len() - 1 {
                    assert(s.drop_last()[i] == s[i]);
                }
            }
        }
        if forall|i: int| 0 <= i < s.len() ==> #[trigger] no_empty_mergeable(s[i]) {
            assert forall|i: int| 0 <= i < s.drop_last().len() implies #[trigger] no_empty_mergeable(s.drop_last()[i]) by {
                assert(s.drop_last()[i] == s[i]);
                assert(no_empty_mergeable(s[i]));
            }
            assert(no_empty_mergeable(s[s.len() - 1]));
        }
    }
}

/// Nodes with the same content hold empty mergeable containers alike.
pub proof fn lemma_same_content_no_empty_mergeable(a: DomNode, b: DomNode)
    requires
        same_content(a, b),
    ensures
        no_empty_mergeable(a) <==> no_empty_mergeable(b),
    decreases a,
{
    match (a, b) {
        (DomNode::Container(x), DomNode::Container(y)) => {
            let xs = x.spec_children();
            let ys = y.spec_children();
            lemma_same_children_iff(xs, ys);
            lemma_all_no_empty_mergeable_iff(xs);
            lemma_all_no_empty_mergeable_iff(ys);
            assert(x.spec_kind() == y.spec_kind());
            assert forall|i: int| 0 <= i < xs.len() implies no_empty_mergeable(#[trigger] xs[i]) == no_empty_mergeable(ys[i]) by {
                lemma_container_child_decreases(x, i);
                lemma_same_content_no_empty_mergeable(xs[i], ys[i]);
            }
            if all_no_empty_mergeable(xs) {
                assert forall|i: int| 0 <= i < ys.len() implies #[trigger] no_empty_mergeable(ys[i]) by {
                    assert(no_empty_mergeable(xs[i]));
                }
            }
            if all_no_empty_mergeable(ys) {
                assert forall|i: int| 0 <= i < xs.len() implies #[trigger] no_empty_mergeable(xs[i]) by {
                    assert(no_empty_mergeable(xs[i]) == no_empty_mergeable(ys[i]));
                }
            }
        },
        _ => {},
    }
}

/// Every container that could be merged with another one (any but list
/// items and paragraphs), from `n` down along first and last children, has
/// a child: the nodes that pushing one node into another reaches.
pub open spec fn ends_filled(n: DomNode) -> bool
    decreases n,
{
    match n {
        DomNode::Container(c) => {
            let cs = c.spec_children();
            if !(c.spec_kind() is ListItem) && !(c.spec_kind() is Paragraph) {
                if cs.len() > 0 {
                    proof {
                        lemma_container_child_decreases(c, 0);
                        lemma_container_child_decreases(c, cs.len() - 1);
                    }
                    ends_filled(cs[0]) && ends_filled(cs[cs.len() - 1])
                } else {
                    false
                }
            } else {
                true
            }
        },
        _ => true,
    }
}

/// Every node of `s` has its ends filled.
pub open spec fn all_ends_filled(s: Seq<DomNode>) -> bool {
    forall|j: int| 0 <= j < s.len() ==> #[trigger] ends_filled(s[j])
}

/// Each two neighbours among `s` that can be pushed into one another have
/// their ends filled.
pub open spec fn joinable(s: Seq<DomNode>) -> bool {
    forall|j: int|
        0 <= j < s.len() - 1 && #[trigger] can_push_spec(s[j], s[j + 1]) ==> ends_filled(s[j]) && ends_filled(
            s[j + 1],
        )
}

/// Nodes with the same content have their ends filled alike.
pub proof fn lemma_same_content_ends_filled(a: DomNode, b: DomNode)
    requires
        same_content(a, b),
    ensures
        ends_filled(a) == ends_filled(b),
    decreases a,
{
    match (a, b) {
        (DomNode::Container(x), DomNode::Container(y)) => {
            let xs = x.spec_children();
            let ys = y.spec_children();
            lemma_same_children_iff(xs, ys);
            assert(x.spec_kind() == y.spec_kind());
            if xs.len() > 0 {
                lemma_container_child_decreases(x, 0);
                lemma_container_child_decreases(x, xs.len() - 1);
                lemma_same_content_ends_filled(xs[0], ys[0]);
                lemma_same_content_ends_filled(xs[xs.len() - 1], ys[ys.len() - 1]);
            }
        },
        _ => {},
    }
}

/// Children given new handles keep what joining them asks for.
pub proof fn lemma_rehandled_joinable(t: Seq<DomNode>, mid: Seq<DomNode>, p: Seq<usize>, from: int)
    requires
        rehandled_from(t, mid, p, from),
    ensures
        joinable(t) ==> joinable(mid),
        all_ends_filled(t) ==> all_ends_filled(mid),
{
    assert forall|j: int| 0 <= j < mid.len() implies push_key(#[trigger] mid[j]) == push_key(t[j]) && ends_filled(
        mid[j],
    ) == ends_filled(t[j]) by {
        if j >= from {
            lemma_same_content_key(t[j], mid[j]);
            lemma_same_content_ends_filled(t[j], mid[j]);
        }
    }
    if joinable(t) {
        assert forall|j: int|
            0 <= j < mid.len() - 1 && #[trigger] can_push_spec(mid[j], mid[j + 1]) implies ends_filled(mid[j])
                && ends_filled(mid[j + 1]) by {
            lemma_can_push_keys(mid[j], mid[j + 1]);
            lemma_can_push_keys(t[j], t[j + 1]);
            assert(push_key(mid[j]) == push_key(t[j]));
            assert(push_key(mid[j + 1]) == push_key(t[j + 1]));
        }
    }
}

/// Two nodes in order, with their ends filled, that can be pushed into one
/// another at the top can be pushed all the way down.
pub proof fn lemma_push_ok_from_ends(x: DomNode, y: DomNode)
    requires
        x.spec_handle() is Some,
        handles_ok(x, x.spec_handle().unwrap()),
        y.spec_handle() is Some,
        handles_ok(y, y.spec_handle().unwrap()),
        ends_filled(x),
        ends_filled(y),
        can_push_spec(x, y),
    ensures
        node_push_ok(x, y),
    decreases x,
{
    match (x, y) {
        (DomNode::Container(a), DomNode::Container(b)) => {
            let ac = a.spec_children();
            let bc = b.spec_children();
            let pa = a.spec_handle().unwrap();
            let pb = b.spec_handle().unwrap();
            lemma_children_ok_iff(ac, pa);
            lemma_children_ok_iff(bc, pb);
            let l = ac.len() - 1;
            assert(handles_ok(ac[l], pa.push(l as usize)));
            let z: int = 0;
            assert(handles_ok(bc[z], pb.push(z as usize)));
            if can_push_spec(ac.last(), bc[0]) {
                lemma_container_child_decreases(a, l);
                lemma_push_ok_from_ends(ac.last(), bc[0]);
            }
        },
        _ => {},
    }
}

/// The tree under `n` holds no text: an empty text node, or a container
/// whose children hold none.
pub open spec fn no_text(n: DomNode) -> bool
    decreases n, 1int,
{
    match n {
        DomNode::Container(c) => {
            proof {
                lemma_decreases_children(n);
            }
            all_no_text(c.spec_children())
        },
        DomNode::Text(t) => t.spec_data().len() == 0,
        _ => false,
    }
}

/// None of the trees under the nodes of `s` holds text.
pub open spec fn all_no_text(s: Seq<DomNode>) -> bool
    decreases s, 0int,
{
    if s.len() == 0 {
        true
    } else {
        all_no_text(s.drop_last()) && no_text(s.last())
    }
}

proof fn lemma_no_text_children(s: Seq<DomNode>, i: int)
    requires
        0 <= i < s.len(),
        !no_text(s[i]),
    ensures
        !all_no_text(s),
    decreases s.len(),
{
    if i < s.len() - 1 {
        assert(s.drop_last()[i] == s[i]);
        lemma_no_text_children(s.drop_last(), i);
    }
}

proof fn lemma_all_no_text_children(s: Seq<DomNode>)
    requires
        forall|j: int| 0 <= j < s.len() ==> #[trigger] no_text(s[j]),
    ensures
        all_no_text(s),
    decreases s.len(),
{
    if s.len() > 0 {
        assert forall|j: int| 0 <= j < s.drop_last().len() implies #[trigger] no_text(s.drop_last()[j]) by {
            assert(s.drop_last()[j] == s[j]);
        }
        lemma_all_no_text_children(s.drop_last());
        assert(no_text(s[s.len() - 1]));
    }
}

/// What decides whether two nodes can be pushed into one another: which
/// variant they are, and for containers their kind.
pub open spec fn push_key(n: DomNode) -> (int, KindView) {
    match n {
        DomNode::Text(_) => (0, KindView::Generic),
        DomNode::Container(c) => (1, c.spec_kind()),
        DomNode::LineBreak(_) => (2, KindView::Generic),
        DomNode::Zwsp(_) => (3, KindView::Generic),
        DomNode::Mention(_) => (4, KindView::Generic),
    }
}

/// Nodes with these keys can be pushed into one another: the same key, of
/// text or of a container that is neither a list item nor a paragraph.
pub open spec fn keys_pushable(a: (int, KindView), b: (int, KindView)) -> bool {
    a == b && (a.0 == 0 || (a.0 == 1 && !(a.1 is ListItem) && !(a.1 is Paragraph)))
}

/// Whether two nodes can be pushed into one another depends on their keys
/// alone.
pub proof fn lemma_can_push_keys(x: DomNode, y: DomNode)
    ensures
        can_push_spec(x, y) == keys_pushable(push_key(x), push_key(y)),
{
}

/// Nodes with the same content have the same key.
pub proof fn lemma_same_content_key(a: DomNode, b: DomNode)
    requires
        same_content(a, b),
    ensures
        push_key(a) == push_key(b),
{
}

/// The keys of the nodes of `s` from `i` on, after each run of nodes that
/// can be pushed into one another was joined into its first node.
pub open spec fn collapsed_from(s: Seq<DomNode>, i: int) -> Seq<(int, KindView)>
    decreases s.len() - i,
{
    if i < 0 || i >= s.len() {
        Seq::empty()
    } else if i + 1 < s.len() && can_push_spec(s[i], s[i + 1]) {
        collapsed_from(s, i + 1)
    } else {
        seq![push_key(s[i])] + collapsed_from(s, i + 1)
    }
}

/// The first key after collapsing from `i` is the key of the node at `i`.
pub proof fn lemma_collapsed_head(s: Seq<DomNode>, i: int)
    requires
        0 <= i < s.len(),
    ensures
        collapsed_from(s, i).len() > 0,
        collapsed_from(s, i)[0] == push_key(s[i]),
    decreases s.len() - i,
{
    if i + 1 < s.len() && can_push_spec(s[i], s[i + 1]) {
        lemma_collapsed_head(s, i + 1);
    }
}

/// No two neighbours among `s` can be pushed into one another.
pub open spec fn none_pushable(s: Seq<DomNode>) -> bool {
    forall|j: int| 0 <= j < s.len() - 1 ==> !#[trigger] can_push_spec(s[j], s[j + 1])
}

/// The keys of the nodes of `s`, in order.
pub open spec fn keys_of(s: Seq<DomNode>) -> Seq<(int, KindView)> {
    s.map_values(|n: DomNode| push_key(n))
}

/// `s` without its zero-width spaces.
pub open spec fn without_zwsp(s: Seq<char>) -> Seq<char>
    decreases s.len(),
{
    if s.len() == 0 {
        s
    } else if s.last() == zwsp_char() {
        without_zwsp(s.drop_last())
    } else {
        without_zwsp(s.drop_last()).push(s.last())
    }
}

/// Taking out zero-width spaces goes piece by piece.
pub proof fn lemma_without_zwsp_concat(a: Seq<char>, b: Seq<char>)
    ensures
        without_zwsp(a + b) == without_zwsp(a) + without_zwsp(b),
    decreases b.len(),
{
    if b.len() == 0 {
        assert(a + b =~= a);
        assert(without_zwsp(a) + without_zwsp(b) =~= without_zwsp(a));
    } else {
        lemma_without_zwsp_concat(a, b.drop_last());
        assert((a + b).drop_last() =~= a + b.drop_last());
        assert((a + b).last() == b.last());
        if b.last() != zwsp_char() {
            assert(without_zwsp(a) + without_zwsp(b.drop_last()).push(b.last()) =~= (without_zwsp(a)
                + without_zwsp(b.drop_last())).push(b.last()));
        }
    }
}

/// The text of each node of `s`, without zero-width spaces, in order.
pub open spec fn texts_of(s: Seq<DomNode>) -> Seq<Seq<char>> {
    s.map_values(|n: DomNode| without_zwsp(text_units(n)))
}

/// The text, without zero-width spaces, of each node of `s` from `i` on
/// once each run of nodes that can be pushed into one another was joined
/// into its first node: the texts of the run, one after the other.
pub open spec fn collapsed_texts_from(s: Seq<DomNode>, i: int) -> Seq<Seq<char>>
    decreases s.len() - i,
{
    if i < 0 || i >= s.len() {
        Seq::empty()
    } else if i + 1 < s.len() && can_push_spec(s[i], s[i + 1]) {
        let rest = collapsed_texts_from(s, i + 1);
        seq![without_zwsp(text_units(s[i])) + rest[0]] + rest.skip(1)
    } else {
        seq![without_zwsp(text_units(s[i]))] + collapsed_texts_from(s, i + 1)
    }
}

/// What a node takes in when another is pushed into it is the other's
/// text, but for zero-width spaces.
pub proof fn lemma_absorbed_text(x: DomNode, y: DomNode)
    requires
        can_push_spec(x, y),
    ensures
        without_zwsp(absorbed(x, y)) == without_zwsp(text_units(y)),
    decreases x,
{
    match (x, y) {
        (DomNode::Container(a), DomNode::Container(b)) => {
            let ac = a.spec_children();
            let bc = b.spec_children();
            if ac.len() > 0 && bc.len() > 0 && can_push_spec(ac.last(), bc[0]) {
                lemma_container_child_decreases(a, ac.len() - 1);
                lemma_absorbed_text(ac.last(), bc[0]);
                lemma_units_children_first(bc);
                lemma_without_zwsp_concat(absorbed(ac.last(), bc[0]), units_children(bc.skip(1), bc.len() - 1));
                lemma_without_zwsp_concat(text_units(bc[0]), units_children(bc.skip(1), bc.len() - 1));
            }
        },
        (DomNode::Text(_), DomNode::Text(t)) => {
            let d = t.spec_data();
            if d == seq![zwsp_char()] {
                assert(d.drop_last() =~= Seq::<char>::empty());
            }
        },
        _ => {},
    }
}


impl DomNode {
    /// Merge `other_node` into this node: its text, or its children, go at
    /// the end of this node.
    pub fn push(&mut self, other_node: &mut DomNode)
        requires
            node_push_ok(*old(self), *old(other_node)),
        ensures
            text_units(*final(self)) == text_units(*old(self)) + absorbed(*old(self), *old(other_node)),
            final(self).spec_handle() == old(self).spec_handle(),
            *final(self) is Container <==> *old(self) is Container,
            *final(self) is Text <==> *old(self) is Text,
            *old(self) is Container ==> final(self)->Container_0.spec_kind() == old(self)->Container_0.spec_kind(),
            old(self).spec_handle() is Some && handles_ok(*old(self), old(self).spec_handle().unwrap())
                ==> handles_ok(*final(self), old(self).spec_handle().unwrap()),
            no_empty_mergeable(*old(self)) && no_empty_mergeable(*old(other_node)) ==> no_empty_mergeable(
                *final(self),
            ),
            ends_filled(*old(self)) && ends_filled(*old(other_node)) ==> ends_filled(*final(self)),
        decreases *old(self), 0int,
    {
        match self {
            DomNode::Container(c) => {
                match other_node {
                    DomNode::Container(o) => {
                        c.push(o);
                    },
                    _ => {},
                }
            },
            DomNode::Text(t) => {
                match other_node {
                    DomNode::Text(o) => {
                        t.push(o);
                        proof {
                            let od = old(self)->Text_0.spec_data();
                            assert(od + Seq::<char>::empty() =~= od);
                        }
                    },
                    _ => {},
                }
            },
            _ => {},
        }
    }
}

impl ContainerNode {
    /// Merge `other_node`, a container of the same kind, into this one: the
    /// last child of this one takes in the first child of the other when
    /// they can be merged, and the other children follow, leaving the other
    /// container empty.
    pub fn push(&mut self, other_node: &mut ContainerNode)
        requires
            push_ok(*old(self), *old(other_node)),
        ensures
            text_units(DomNode::Container(*final(self))) == text_units(DomNode::Container(*old(self)))
                + absorbed_c(*old(self), *old(other_node)),
            final(other_node).spec_children().len() == 0,
            final(self).spec_name() == old(self).spec_name(),
            final(self).spec_kind() == old(self).spec_kind(),
            final(self).spec_attrs() == old(self).spec_attrs(),
            final(self).spec_handle() == old(self).spec_handle(),
            container_ok(*old(self)) ==> container_ok(*final(self)),
            no_empty_mergeable(DomNode::Container(*old(self))) && no_empty_mergeable(
                DomNode::Container(*old(other_node)),
            ) ==> no_empty_mergeable(DomNode::Container(*final(self))),
            ends_filled(DomNode::Container(*old(self))) && ends_filled(DomNode::Container(*old(other_node)))
                ==> ends_filled(DomNode::Container(*final(self))),
        decreases *old(self), 1int,
    {
        let ghost old_self = self.children@;
        let ghost old_other = other_node.children@;
        let ghost ok0 = container_ok(*self);
        let ghost ne0 = no_empty_mergeable(DomNode::Container(*self)) && no_empty_mergeable(
            DomNode::Container(*other_node),
        );
        let ghost ef0 = ends_filled(DomNode::Container(*self)) && ends_filled(DomNode::Container(*other_node))
            && !(self.spec_kind() is ListItem) && !(self.spec_kind() is Paragraph);
        proof {
            lemma_all_no_empty_mergeable_iff(old_self);
            lemma_all_no_empty_mergeable_iff(old_other);
            if ok0 {
                lemma_children_ok_iff(old_self, self.handle.path());
            }
        }
        let last = self.children.len() - 1;
        let merge = self.children[last].can_push(&other_node.children[0]);
        if merge {
            let mut next = other_node.remove_child(0);
            proof {
                lemma_container_child_decreases(*self, last as int);
                if ne0 {
                    assert(no_empty_mergeable(old_other[0]));
                    assert(no_empty_mergeable(old_self[last as int]));
                }
                if ok0 {
                    assert(handles_ok(old_self[last as int], self.handle.path().push(last)));
                }
            }
            proof {
                if ef0 {
                    assert(ends_filled(old_self[last as int]));
                    assert(ends_filled(old_other[0]));
                }
            }
            self.children[last].push(&mut next);
            proof {
                let s1 = self.children@;
                if ef0 {
                    assert(ends_filled(s1[last as int]));
                    if last > 0 {
                        assert(s1[0] == old_self[0]);
                    }
                    assert(ends_filled(s1[0]));
                    let o1 = other_node.children@;
                    if o1.len() > 0 {
                        assert(old_other.remove(0)[o1.len() - 1] == old_other[old_other.len() - 1]);
                        lemma_same_content_ends_filled(old_other.remove(0)[o1.len() - 1], o1[o1.len() - 1]);
                    }
                }
                if ok0 {
                    lemma_children_ok_iff(s1, self.handle.path());
                    assert forall|j: int| 0 <= j < s1.len() implies #[trigger] handles_ok(s1[j], self.handle.path().push(j as usize)) by {
                        if j != last {
                            assert(s1[j] == old_self[j]);
                        }
                    }
                }
                if ne0 {
                    lemma_all_no_empty_mergeable_iff(s1);
                    assert forall|j: int| 0 <= j < s1.len() implies #[trigger] no_empty_mergeable(s1[j]) by {
                        if j != last {
                            assert(s1[j] == old_self[j]);
                        }
                    }
                    let o1 = other_node.children@;
                    lemma_all_no_empty_mergeable_iff(o1);
                    assert forall|j: int| 0 <= j < o1.len() implies #[trigger] no_empty_mergeable(o1[j]) by {
                        assert(old_other.remove(0)[j] == old_other[j + 1]);
                        lemma_same_content_no_empty_mergeable(old_other.remove(0)[j], o1[j]);
                    }
                }
                lemma_rehandled_units(old_other.remove(0), other_node.children@, other_node.handle.path(), 0);
                assert(old_other.remove(0) =~= old_other.skip(1));
                assert(self.children@ =~= old_self.drop_last().push(self.children@[last as int]));
                lemma_units_children_push(old_self.drop_last(), self.children@[last as int]);
                lemma_units_children_push(old_self.drop_last(), old_self[last as int]);
                assert(old_self.drop_last().push(old_self[last as int]) =~= old_self);
            }
        }
        let ghost mid_self = self.children@;
        let ghost mid_other = other_node.children@;
        proof {
            if merge {
                assert(units_children(mid_self, mid_self.len() as int) =~= units_children(old_self, old_self.len() as int) + absorbed(old_self.last(), old_other[0]));
            }
        }
        while other_node.children.len() > 0
            invariant
                self.spec_name() == old(self).spec_name(),
                self.spec_kind() == old(self).spec_kind(),
                self.spec_attrs() == old(self).spec_attrs(),
                self.spec_handle() == old(self).spec_handle(),
                other_node.children@.len() > 0 ==> self.spec_handle() is Some,
                other_node.spec_handle() is Some,
                ok0 ==> container_ok(*self),
                ne0 ==> self.children@.len() > 0 && all_no_empty_mergeable(self.children@) && all_no_empty_mergeable(
                    other_node.children@,
                ),
                ef0 ==> self.children@.len() > 0 && ends_filled(self.children@[0]),
                ef0 && other_node.children@.len() > 0 ==> ends_filled(other_node.children@.last()),
                ef0 && other_node.children@.len() == 0 ==> ends_filled(self.children@.last()),
                units_children(self.children@, self.children@.len() as int) + units_children(other_node.children@, other_node.children@.len() as int)
                    == units_children(mid_self, mid_self.len() as int) + units_children(mid_other, mid_other.len() as int),
            decreases other_node.children@.len(),
        {
            let ghost s0 = self.children@;
            let ghost o0 = other_node.children@;
            let child = other_node.remove_child(0);
            proof {
                lemma_rehandled_units(o0.remove(0), other_node.children@, other_node.handle.path(), 0);
                assert(o0.remove(0) =~= o0.skip(1));
                lemma_units_children_first(o0);
            }
            let ghost moved = child;
            proof {
                if ne0 {
                    lemma_all_no_empty_mergeable_iff(o0);
                    let o1 = other_node.children@;
                    lemma_all_no_empty_mergeable_iff(o1);
                    assert forall|j: int| 0 <= j < o1.len() implies #[trigger] no_empty_mergeable(o1[j]) by {
                        assert(o0.remove(0)[j] == o0[j + 1]);
                        lemma_same_content_no_empty_mergeable(o0.remove(0)[j], o1[j]);
                    }
                    assert(no_empty_mergeable(o0[0]));
                }
            }
            self.append_child(child);
            proof {
                if ef0 {
                    assert(self.children@[0] == s0[0]);
                    let o1 = other_node.children@;
                    if o1.len() > 0 {
                        assert(o0.remove(0)[o1.len() - 1] == o0[o0.len() - 1]);
                        lemma_same_content_ends_filled(o0.remove(0)[o1.len() - 1], o1[o1.len() - 1]);
                    } else {
                        assert(moved == o0[o0.len() - 1]);
                        lemma_same_content_ends_filled(moved, self.children@.last());
                    }
                }
                if ne0 {
                    lemma_same_content_no_empty_mergeable(moved, self.children@.last());
                    assert(self.children@.drop_last() == s0);
                }
                assert(self.children@ =~= s0.push(self.children@.last()));
                lemma_units_children_push(s0, self.children@.last());
                lemma_same_content_units(moved, self.children@.last());
                let a = units_children(s0, s0.len() as int);
                let b = text_units(o0[0]);
                let c = units_children(o0.skip(1), o0.len() - 1);
                assert(a + b + c =~= a + (b + c));
            }
        }
        proof {
            assert(units_children(other_node.children@, 0) == Seq::<char>::empty());
            assert(units_children(self.children@, self.children@.len() as int) + Seq::<char>::empty() =~= units_children(self.children@, self.children@.len() as int));
            if !merge {
                assert(mid_other == old_other);
                assert(mid_self == old_self);
            } else {
                let a = units_children(old_self, old_self.len() as int);
                let b = absorbed(old_self.last(), old_other[0]);
                let c = units_children(old_other.skip(1), old_other.len() - 1);
                assert(a + b + c =~= a + (b + c));
            }
        }
    }
}

} // verus!
