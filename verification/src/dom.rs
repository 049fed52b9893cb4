use vstd::prelude::*;

use crate::handle::{DomHandle, is_prefix};
use crate::tree::{texts_of, collapsed_texts_from, no_empty_mergeable, all_no_empty_mergeable, all_ends_filled, joinable, collapsed_from, keys_of, none_pushable, ContainerNode, DomNode, KindView, lemma_children_ok_iff, lemma_container_child_decreases, container_ok, handles_ok, lemma_node_at_handle, lemma_same_children_iff, lemma_updated_at_handles, lemma_updated_at_node, node_at, node_len, rehandled_from, same_children, same_content, updated_at};

verus! {

/// The node at `h` is a container without children.
pub open spec fn empty_container_at(doc: DomNode, h: Seq<usize>) -> bool {
    node_at(doc, h) matches Some(DomNode::Container(c)) && c.spec_children().len() == 0
}

/// Removing the empty containers from `h` up would reach the document: the
/// node at `h` is an empty container and each of its ancestors holds one
/// child only.
pub open spec fn empties_reach_root(doc: DomNode, h: Seq<usize>) -> bool {
    &&& empty_container_at(doc, h)
    &&& forall|i: int| 0 <= i < h.len() ==> #[trigger] children_at(doc, h.take(i)).len() == 1
}

/// Dom `d1` is `d0` without the node at `h`, the other children of its
/// parent given their new handles.
pub open spec fn removed_at(d0: Dom, d1: Dom, h: Seq<usize>) -> bool {
    &&& d1.wf()
    &&& Dom::changed_at(d0, d1, h.drop_last())
    &&& rehandled_from(
        children_at(d0.spec_document(), h.drop_last()).remove(h.last() as int),
        children_at(d1.spec_document(), h.drop_last()),
        h.drop_last(),
        h.last() as int,
    )
}

/// Dom `d1` is `d0` after the node at `h` was removed when it is an empty
/// container, and then the same was done for its parent, up to the
/// document.
pub open spec fn empties_removed(d0: Dom, d1: Dom, h: Seq<usize>) -> bool
    decreases h.len(),
{
    if h.len() == 0 {
        d1 == d0
    } else if empty_container_at(d0.spec_document(), h) {
        exists|mid: Dom| #![trigger removed_at(d0, mid, h)] removed_at(d0, mid, h) && empties_removed(mid, d1, h.drop_last())
    } else {
        empties_removed(d0, d1, h.drop_last())
    }
}

/// Updating a tree at a path keeps the number of children of the
/// containers on the way to it.
proof fn lemma_updated_at_counts(a: DomNode, b: DomNode, p: Seq<usize>, sub: DomNode, i: int)
    requires
        updated_at(a, b, p, sub),
        0 <= i < p.len(),
    ensures
        node_at(b, p.take(i)) is Some && node_at(a, p.take(i)) is Some,
        children_at(b, p.take(i)).len() == children_at(a, p.take(i)).len(),
        node_at(b, p.take(i)).unwrap() is Container,
        node_at(a, p.take(i)).unwrap() is Container,
    decreases p.len(),
{
    if i > 0 {
        let k = p[0] as int;
        let ac = a->Container_0.spec_children();
        let bc = b->Container_0.spec_children();
        lemma_updated_at_counts(ac[k], bc[k], p.skip(1), sub, i - 1);
        assert(p.take(i).skip(1) =~= p.skip(1).take(i - 1));
        assert(p.take(i)[0] == p[0]);
    } else {
        assert(p.take(0) =~= Seq::<usize>::empty());
    }
}

/// The path below `n` of the text node that ends `n` and can take more
/// text: `n` itself when it is a text node; for a container other than a
/// link, that of its last child.
pub open spec fn last_writable_text(n: DomNode) -> Option<Seq<usize>>
    decreases n,
{
    match n {
        DomNode::Text(_) => Some(Seq::empty()),
        DomNode::Container(c) => {
            let cs = c.spec_children();
            if c.spec_kind() is Link || cs.len() == 0 {
                None
            } else {
                proof {
                    crate::tree::lemma_container_child_decreases(c, cs.len() - 1);
                }
                match last_writable_text(cs[cs.len() - 1]) {
                    Some(q) => Some(seq![(cs.len() - 1) as usize] + q),
                    None => None,
                }
            }
        },
        _ => None,
    }
}

/// The path below `n` of the text node that starts `n` and can take more
/// text: `n` itself when it is a text node; for a container other than a
/// link, that of its first child.
pub open spec fn first_writable_text(n: DomNode) -> Option<Seq<usize>>
    decreases n,
{
    match n {
        DomNode::Text(_) => Some(Seq::empty()),
        DomNode::Container(c) => {
            let cs = c.spec_children();
            if c.spec_kind() is Link || cs.len() == 0 {
                None
            } else {
                proof {
                    crate::tree::lemma_container_child_decreases(c, 0);
                }
                match first_writable_text(cs[0]) {
                    Some(q) => Some(seq![0usize] + q),
                    None => None,
                }
            }
        },
        _ => None,
    }
}

/// The text of the text node at `q` under `n`.
pub open spec fn text_at(n: DomNode, q: Seq<usize>) -> Seq<char> {
    node_at(n, q).unwrap()->Text_0.spec_data()
}

/// Tree `b` is tree `a` with the text node at `q` holding `data` instead,
/// under its handle.
pub open spec fn text_set_at(a: DomNode, b: DomNode, q: Seq<usize>, data: Seq<char>) -> bool {
    &&& node_at(a, q) matches Some(DomNode::Text(_))
    &&& node_at(b, q) matches Some(DomNode::Text(t))
    &&& t.spec_data() == data
    &&& t.spec_handle() == node_at(a, q).unwrap().spec_handle()
    &&& updated_at(a, b, q, node_at(b, q).unwrap())
}

/// An update at `q` below the node that an update at `p` put in place is an
/// update at `p + q`.
proof fn lemma_updated_at_compose(a: DomNode, b: DomNode, p: Seq<usize>, s: DomNode, q: Seq<usize>, t: DomNode)
    requires
        updated_at(a, b, p, s),
        updated_at(node_at(a, p).unwrap(), s, q, t),
    ensures
        updated_at(a, b, p + q, t),
    decreases p.len(),
{
    if p.len() == 0 {
        assert(p + q =~= q);
    } else {
        let k = p[0] as int;
        let ac = a->Container_0.spec_children();
        let bc = b->Container_0.spec_children();
        lemma_updated_at_compose(ac[k], bc[k], p.skip(1), s, q, t);
        assert((p + q).skip(1) =~= p.skip(1) + q);
        assert((p + q)[0] == p[0]);
    }
}

/// Whether a text node ends `n` that can take more text.
fn has_last_writable_text(n: &DomNode) -> (b: bool)
    ensures
        b == last_writable_text(*n) is Some,
    decreases *n,
{
    match n {
        DomNode::Text(_) => true,
        DomNode::Container(c) => {
            let len = c.children().len();
            if n.kind() == crate::tree::DomNodeKind::Link || len == 0 {
                false
            } else {
                proof {
                    crate::tree::lemma_container_child_decreases(*c, len - 1);
                }
                has_last_writable_text(&c.children()[len - 1])
            }
        },
        _ => false,
    }
}

/// Whether a text node starts `n` that can take more text.
fn has_first_writable_text(n: &DomNode) -> (b: bool)
    ensures
        b == first_writable_text(*n) is Some,
    decreases *n,
{
    match n {
        DomNode::Text(_) => true,
        DomNode::Container(c) => {
            let len = c.children().len();
            if n.kind() == crate::tree::DomNodeKind::Link || len == 0 {
                false
            } else {
                proof {
                    crate::tree::lemma_container_child_decreases(*c, 0);
                }
                has_first_writable_text(&c.children()[0])
            }
        },
        _ => false,
    }
}

/// Add `text` at the end of the text node that ends `n`, when there is one.
fn append_to_last_text(n: &mut DomNode, text: &Vec<char>) -> (r: bool)
    ensures
        r == last_writable_text(*old(n)) is Some,
        !r ==> *final(n) == *old(n),
        r ==> text_set_at(
            *old(n),
            *final(n),
            last_writable_text(*old(n)).unwrap(),
            text_at(*old(n), last_writable_text(*old(n)).unwrap()) + text@,
        ),
        old(n).spec_handle() is Some && handles_ok(*old(n), old(n).spec_handle().unwrap()) ==> handles_ok(
            *final(n),
            old(n).spec_handle().unwrap(),
        ),
    decreases *old(n),
{
    if !has_last_writable_text(n) {
        return false;
    }
    match n {
        DomNode::Text(t) => {
            let mut data = crate::leaf_nodes::copy_range(t.data(), 0, t.data().len());
            let mut i: usize = 0;
            while i < text.len()
                invariant
                    i <= text@.len(),
                    data@ == old(n)->Text_0.spec_data() + text@.take(i as int),
                decreases text@.len() - i,
            {
                data.push(text[i]);
                i += 1;
                assert(data@ =~= old(n)->Text_0.spec_data() + text@.take(i as int));
            }
            assert(text@.take(text@.len() as int) =~= text@);
            t.set_data(data);
            true
        },
        DomNode::Container(c) => {
            let len = c.children().len();
            if len == 0 {
                return false;
            }
            let ghost c0 = *c;
            let ghost k = (len - 1) as int;
            let last = c.last_child_mut().unwrap();
            proof {
                crate::tree::lemma_container_child_decreases(c0, k);
            }
            let r = append_to_last_text(last, text);
            proof {
                let cs0 = c0.spec_children();
                let cs1 = c.spec_children();
                if r {
                    let q = last_writable_text(cs0[k]).unwrap();
                    assert((seq![k as usize] + q).skip(1) =~= q);
                    assert((seq![k as usize] + q)[0] == k as usize);
                }
                if c0.spec_handle() is Some && handles_ok(DomNode::Container(c0), c0.spec_handle().unwrap()) {
                    let hp = c0.spec_handle().unwrap();
                    crate::tree::lemma_children_ok_iff(cs0, hp);
                    crate::tree::lemma_children_ok_iff(cs1, hp);
                    assert(handles_ok(cs0[k], hp.push(k as usize)));
                    assert forall|j: int| 0 <= j < cs1.len() implies #[trigger] handles_ok(cs1[j], hp.push(j as usize)) by {
                        if j != k {
                            assert(cs1[j] == cs0[j]);
                        }
                    }
                }
                if !r {
                    assert(cs1 =~= cs0);
                }
            }
            r
        },
        _ => false,
    }
}

/// Add `text` at the start of the text node that starts `n`, when there is
/// one.
fn prepend_to_first_text(n: &mut DomNode, text: &Vec<char>) -> (r: bool)
    ensures
        r == first_writable_text(*old(n)) is Some,
        !r ==> *final(n) == *old(n),
        r ==> text_set_at(
            *old(n),
            *final(n),
            first_writable_text(*old(n)).unwrap(),
            text@ + text_at(*old(n), first_writable_text(*old(n)).unwrap()),
        ),
        old(n).spec_handle() is Some && handles_ok(*old(n), old(n).spec_handle().unwrap()) ==> handles_ok(
            *final(n),
            old(n).spec_handle().unwrap(),
        ),
    decreases *old(n),
{
    if !has_first_writable_text(n) {
        return false;
    }
    match n {
        DomNode::Text(t) => {
            let mut data = crate::leaf_nodes::copy_range(text, 0, text.len());
            let d = t.data();
            let mut i: usize = 0;
            while i < d.len()
                invariant
                    i <= d@.len(),
                    d@ == old(n)->Text_0.spec_data(),
                    data@ == text@ + d@.take(i as int),
                decreases d@.len() - i,
            {
                data.push(d[i]);
                i += 1;
                assert(data@ =~= text@ + d@.take(i as int));
            }
            assert(d@.take(d@.len() as int) =~= d@);
            assert(text@.subrange(0, text@.len() as int) =~= text@);
            t.set_data(data);
            true
        },
        DomNode::Container(c) => {
            let len = c.children().len();
            if len == 0 {
                return false;
            }
            let ghost c0 = *c;
            let ghost k = 0int;
            let last = c.get_child_mut(0).unwrap();
            proof {
                crate::tree::lemma_container_child_decreases(c0, k);
            }
            let r = prepend_to_first_text(last, text);
            proof {
                let cs0 = c0.spec_children();
                let cs1 = c.spec_children();
                if r {
                    let q = first_writable_text(cs0[k]).unwrap();
                    assert((seq![k as usize] + q).skip(1) =~= q);
                    assert((seq![k as usize] + q)[0] == k as usize);
                }
                if c0.spec_handle() is Some && handles_ok(DomNode::Container(c0), c0.spec_handle().unwrap()) {
                    let hp = c0.spec_handle().unwrap();
                    crate::tree::lemma_children_ok_iff(cs0, hp);
                    crate::tree::lemma_children_ok_iff(cs1, hp);
                    assert(handles_ok(cs0[k], hp.push(k as usize)));
                    assert forall|j: int| 0 <= j < cs1.len() implies #[trigger] handles_ok(cs1[j], hp.push(j as usize)) by {
                        if j != k {
                            assert(cs1[j] == cs0[j]);
                        }
                    }
                }
                if !r {
                    assert(cs1 =~= cs0);
                }
            }
            r
        },
        _ => false,
    }
}

/// The node at `p + q` is the node at `q` under the node at `p`.
proof fn lemma_node_at_concat(n: DomNode, p: Seq<usize>, q: Seq<usize>)
    requires
        node_at(n, p) is Some,
    ensures
        node_at(n, p + q) == node_at(node_at(n, p).unwrap(), q),
    decreases p.len(),
{
    if p.len() == 0 {
        assert(p + q =~= q);
    } else {
        let c = n->Container_0;
        lemma_node_at_concat(c.spec_children()[p[0] as int], p.skip(1), q);
        assert((p + q).skip(1) =~= p.skip(1) + q);
        assert((p + q)[0] == p[0]);
    }
}

/// The handles of `s`, in order.
pub open spec fn handles_of(s: Seq<DomHandle>) -> Seq<Option<Seq<usize>>> {
    s.map_values(|h: DomHandle| h@)
}

/// The path of the first ancestor of the node at `path`, walking up from
/// its parent, that is none of `hs`.
pub open spec fn first_ancestor_not_in(hs: Seq<Option<Seq<usize>>>, path: Seq<usize>) -> Option<Seq<usize>>
    decreases path.len(),
{
    if path.len() == 0 {
        None
    } else if !hs.contains(Some(path.drop_last())) {
        Some(path.drop_last())
    } else {
        first_ancestor_not_in(hs, path.drop_last())
    }
}

/// The path of the closest list among the proper ancestors of the node at
/// `path`, walking up from its parent to the document.
pub open spec fn closest_list_ancestor(doc: DomNode, path: Seq<usize>) -> Option<Seq<usize>>
    decreases path.len(),
{
    if path.len() == 0 {
        None
    } else if crate::tree::kind_of(node_at(doc, path.drop_last()).unwrap()) is List {
        Some(path.drop_last())
    } else {
        closest_list_ancestor(doc, path.drop_last())
    }
}

/// A document: a tree of nodes under a generic document container.
#[derive(Debug)]
pub struct Dom {
    document: DomNode,
}

/// The container at the end of `path` in `n`, if there is one there.
pub open spec fn container_at(n: DomNode, path: Seq<usize>) -> bool {
    node_at(n, path) is Some && node_at(n, path).unwrap() is Container
}

/// The children of the container at `path`.
pub open spec fn children_at(n: DomNode, path: Seq<usize>) -> Seq<DomNode> {
    node_at(n, path).unwrap()->Container_0.spec_children()
}

/// A handle that names an existing node other than the document.
pub open spec fn names_child(d: Dom, h: DomHandle) -> bool {
    &&& h@ is Some
    &&& h.path().len() > 0
    &&& node_at(d.spec_document(), h.path()) is Some
}

/// An optional reference that refers to the optional node.
pub open spec fn refers_to(r: Option<&DomNode>, n: Option<DomNode>) -> bool {
    match r {
        Some(x) => n == Some(*x),
        None => n is None,
    }
}

/// Updating a well-formed document at the path of a container with a
/// container that keeps its handle and whose subtree is in order keeps the
/// document well formed.
pub proof fn lemma_update_container(
    old_doc: DomNode,
    new_doc: DomNode,
    path: Seq<usize>,
    c_old: ContainerNode,
    c_new: ContainerNode,
)
    requires
        handles_ok(old_doc, Seq::<usize>::empty()),
        node_at(old_doc, path) == Some(DomNode::Container(c_old)),
        updated_at(old_doc, new_doc, path, DomNode::Container(c_new)),
        c_new.spec_handle() == c_old.spec_handle(),
        container_ok(c_old) ==> container_ok(c_new),
    ensures
        handles_ok(new_doc, Seq::<usize>::empty()),
        node_at(new_doc, path) == Some(DomNode::Container(c_new)),
        c_old.spec_handle() == Some(path),
        container_ok(c_old),
{
    lemma_node_at_handle(old_doc, Seq::<usize>::empty(), path);
    assert(Seq::<usize>::empty() + path =~= path);
    lemma_updated_at_handles(
        old_doc,
        new_doc,
        path,
        DomNode::Container(c_new),
        Seq::<usize>::empty(),
    );
    lemma_updated_at_node(old_doc, new_doc, path, DomNode::Container(c_new));
}

/// The parent of an existing node is an existing container, and the node is
/// one of its children.
pub proof fn lemma_node_at_parent(n: DomNode, path: Seq<usize>)
    requires
        path.len() > 0,
        node_at(n, path) is Some,
    ensures
        container_at(n, path.drop_last()),
        path.last() < children_at(n, path.drop_last()).len(),
        children_at(n, path.drop_last())[path.last() as int] == node_at(n, path).unwrap(),
    decreases path.len(),
{
    let c = n->Container_0;
    let k = path[0];
    if path.len() == 1 {
        assert(path.drop_last() =~= Seq::<usize>::empty());
        assert(path.skip(1) =~= Seq::<usize>::empty());
    } else {
        lemma_node_at_parent(c.spec_children()[k as int], path.skip(1));
        assert(path.drop_last().skip(1) =~= path.skip(1).drop_last());
        assert(path.drop_last()[0] == k);
        assert(path.skip(1).last() == path.last());
    }
}

/// Two updates at the same path make one.
pub proof fn lemma_updated_at_trans(a: DomNode, b: DomNode, c: DomNode, path: Seq<usize>, s1: DomNode, s2: DomNode)
    requires
        updated_at(a, b, path, s1),
        updated_at(b, c, path, s2),
    ensures
        updated_at(a, c, path, s2),
    decreases path.len(),
{
    if path.len() > 0 {
        let ac = a->Container_0.spec_children();
        let bc = b->Container_0.spec_children();
        let cc = c->Container_0.spec_children();
        let k = path[0] as int;
        lemma_updated_at_trans(ac[k], bc[k], cc[k], path.skip(1), s1, s2);
    }
}

/// Two changes of the same container make one.
pub proof fn lemma_changed_at_trans(a: DomNode, b: DomNode, c: DomNode, path: Seq<usize>)
    requires
        container_at(b, path),
        container_at(c, path),
        updated_at(a, b, path, node_at(b, path).unwrap()),
        updated_at(b, c, path, node_at(c, path).unwrap()),
    ensures
        updated_at(a, c, path, node_at(c, path).unwrap()),
{
    lemma_updated_at_trans(a, b, c, path, node_at(b, path).unwrap(), node_at(c, path).unwrap());
}

/// The children of a container after `node` was inserted into its leaf at
/// `idx`, at `offset` in it: before the leaf at offset 0, after it at the
/// end of the leaf, and, for a text split at `offset`, between the text
/// before `offset` and a new text node holding the rest.
pub open spec fn inserted_into_leaf(
    old: Seq<DomNode>,
    new: Seq<DomNode>,
    p: Seq<usize>,
    idx: int,
    offset: int,
    node: DomNode,
) -> bool {
    if offset == 0 {
        rehandled_from(old.insert(idx, node), new, p, idx)
    } else if !(old[idx] is Text) || offset == old[idx]->Text_0.spec_data().len() {
        rehandled_from(old.insert(idx + 1, node), new, p, idx + 1)
    } else {
        let data = old[idx]->Text_0.spec_data();
        &&& new.len() == old.len() + 2
        &&& forall|j: int| 0 <= j < idx ==> new[j] == old[j]
        &&& new[idx] is Text && new[idx]->Text_0.spec_data() == data.take(offset)
        &&& same_content(node, new[idx + 1])
        &&& new[idx + 2] is Text && new[idx + 2]->Text_0.spec_data() == data.skip(offset)
        &&& forall|j: int| idx < j < old.len() ==> #[trigger] same_content(old[j], new[j + 2])
        &&& forall|j: int| idx <= j < new.len() ==> #[trigger] handles_ok(new[j], p.push(j as usize))
    }
}

/// The path of the last leaf or empty container under `n`, going down
/// through the last child of each container.
pub open spec fn last_path(n: DomNode) -> Seq<usize>
    decreases n,
{
    match n {
        DomNode::Container(c) => {
            if c.spec_children().len() == 0 {
                Seq::empty()
            } else {
                proof {
                    lemma_container_child_decreases(c, c.spec_children().len() - 1);
                }
                seq![(c.spec_children().len() - 1) as usize] + last_path(c.spec_children().last())
            }
        },
        _ => Seq::empty(),
    }
}

/// The node at `path` is a list item.
pub open spec fn is_list_item_at(n: DomNode, path: Seq<usize>) -> bool {
    node_at(n, path) matches Some(DomNode::Container(c)) && c.spec_kind() is ListItem
}

/// `r` is `s` with the text nodes at `i` and `i + 1` merged into one (the
/// first, holding both texts) when both are text nodes, the nodes after
/// them holding the handles of their new positions under `p`; otherwise `r`
/// is `s`.
pub open spec fn texts_merged_at(s: Seq<DomNode>, r: Seq<DomNode>, p: Seq<usize>, i: int) -> bool {
    if 0 <= i && i + 1 < s.len() && s[i] is Text && s[i + 1] is Text {
        &&& r.len() == s.len() - 1
        &&& forall|j: int| 0 <= j < i ==> r[j] == s[j]
        &&& r[i] is Text
        &&& r[i]->Text_0.spec_data() == s[i]->Text_0.spec_data() + s[i + 1]->Text_0.spec_data()
        &&& r[i].spec_handle() == s[i].spec_handle()
        &&& forall|j: int| i < j < r.len() ==> #[trigger] same_content(s[j + 1], r[j])
        &&& forall|j: int| i < j < r.len() ==> #[trigger] handles_ok(r[j], p.push(j as usize))
    } else {
        r == s
    }
}

/// The children that stand in place of `n` when it is removed and its
/// children kept: its children for a container, nothing otherwise.
pub open spec fn kept_children(n: DomNode) -> Seq<DomNode> {
    match n {
        DomNode::Container(c) => c.spec_children(),
        _ => Seq::empty(),
    }
}

/// Merge the children of `parent` at `index` and `index + 1` when both are
/// text nodes.
pub fn merge_if_adjacent_text_nodes(parent: &mut ContainerNode, index: usize)
    requires
        old(parent).spec_handle() is Some,
    ensures
        texts_merged_at(
            old(parent).spec_children(),
            final(parent).spec_children(),
            old(parent).spec_handle().unwrap(),
            index as int,
        ),
        final(parent).spec_handle() == old(parent).spec_handle(),
        final(parent).spec_name() == old(parent).spec_name(),
        final(parent).spec_kind() == old(parent).spec_kind(),
        final(parent).spec_attrs() == old(parent).spec_attrs(),
        container_ok(*old(parent)) ==> container_ok(*final(parent)),
{
    let n = parent.children().len();
    if index < n && index + 1 < n {
        let second = match &parent.children()[index + 1] {
            DomNode::Text(t2) => Some(crate::leaf_nodes::copy_range(t2.data(), 0, t2.data().len())),
            _ => None,
        };
        let is_text = match &parent.children()[index] {
            DomNode::Text(_) => true,
            _ => false,
        };
        if is_text && second.is_some() {
            let more = second.unwrap();
            let ghost s0 = parent.spec_children();
            proof {
                let d2 = s0[index + 1]->Text_0.spec_data();
                assert(d2.subrange(0, d2.len() as int) =~= d2);
            }
            let ghost before = *parent;
            match parent.get_child_mut(index) {
                Some(DomNode::Text(t1)) => {
                    let mut data = crate::leaf_nodes::copy_range(t1.data(), 0, t1.data().len());
                    proof {
                        let d1 = t1.spec_data();
                        assert(d1.subrange(0, d1.len() as int) =~= d1);
                    }
                    crate::html::push_chars(&mut data, &more);
                    t1.set_data(data);
                },
                _ => {},
            }
            let ghost s1 = parent.spec_children();
            proof {
                assert(s1[index as int] is Text);
                assert(s1[index as int].spec_handle() == s0[index as int].spec_handle());
                if container_ok(before) {
                    lemma_children_ok_iff(s0, before.spec_handle().unwrap());
                    lemma_children_ok_iff(s1, before.spec_handle().unwrap());
                    assert forall|j: int| 0 <= j < s1.len() implies #[trigger] handles_ok(
                        s1[j],
                        before.spec_handle().unwrap().push(j as usize),
                    ) by {
                        if j != index {
                            assert(s1[j] == s0[j]);
                        } else {
                            assert(handles_ok(s0[j], before.spec_handle().unwrap().push(j as usize)));
                        }
                    }
                }
            }
            parent.remove_child(index + 1);
            proof {
                let s2 = parent.spec_children();
                assert forall|j: int| index < j < s2.len() implies #[trigger] same_content(s0[j + 1], s2[j]) by {
                    assert(s1.remove(index + 1)[j] == s0[j + 1]);
                }
            }
        }
    }
}

impl Dom {
    /// The document node.
    pub closed spec fn spec_document(&self) -> DomNode {
        self.document
    }

    /// A document is a container and every node holds the handle of its
    /// position.
    pub open spec fn wf(&self) -> bool {
        &&& self.spec_document() is Container
        &&& handles_ok(self.spec_document(), Seq::<usize>::empty())
    }

    /// The container at `path` was changed and nothing else: the new
    /// document is the old one updated at `path` with its new node there.
    pub open spec fn changed_at(old: Dom, new: Dom, path: Seq<usize>) -> bool {
        &&& container_at(new.spec_document(), path)
        &&& updated_at(
            old.spec_document(),
            new.spec_document(),
            path,
            node_at(new.spec_document(), path).unwrap(),
        )
        &&& node_at(new.spec_document(), path).unwrap()->Container_0.spec_name() == node_at(
            old.spec_document(),
            path,
        ).unwrap()->Container_0.spec_name()
        &&& node_at(new.spec_document(), path).unwrap()->Container_0.spec_kind() == node_at(
            old.spec_document(),
            path,
        ).unwrap()->Container_0.spec_kind()
        &&& node_at(new.spec_document(), path).unwrap()->Container_0.spec_attrs() == node_at(
            old.spec_document(),
            path,
        ).unwrap()->Container_0.spec_attrs()
    }

    /// A new document holding the given top-level nodes (with their handles
    /// set to their positions).
    pub fn new(top_level_items: Vec<DomNode>) -> (d: Dom)
        ensures
            d.wf(),
            d.spec_document()->Container_0.spec_name() == Seq::<char>::empty(),
            d.spec_document()->Container_0.spec_kind() == KindView::Generic,
            d.spec_document()->Container_0.spec_attrs() == None::<Seq<(Seq<char>, Seq<char>)>>,
            same_children(top_level_items@, d.spec_document()->Container_0.spec_children()),
    {
        let mut document = ContainerNode::default();
        let mut items = top_level_items;
        let ghost all = items@;
        let n = items.len();
        let mut k: usize = 0;
        while k < n
            invariant
                n == all.len(),
                k <= n,
                items@ == all.subrange(k as int, n as int),
                document.spec_handle() == Some(Seq::<usize>::empty()),
                container_ok(document),
                document.spec_name() == Seq::<char>::empty(),
                document.spec_kind() == KindView::Generic,
                document.spec_attrs() == None::<Seq<(Seq<char>, Seq<char>)>>,
                document.spec_children().len() == k,
                forall|j: int|
                    0 <= j < k ==> #[trigger] same_content(all[j], document.spec_children()[j]),
            decreases n - k,
        {
            let item = items.remove(0);
            assert(item == all[k as int]);
            let ghost before = document.spec_children();
            document.append_child(item);
            proof {
                assert forall|j: int| 0 <= j < k + 1 implies #[trigger] same_content(
                    all[j],
                    document.spec_children()[j],
                ) by {
                    if j < k {
                        assert(document.spec_children()[j] == before[j]);
                    }
                }
            }
            k += 1;
            assert(items@ =~= all.subrange(k as int, n as int));
        }
        proof {
            lemma_same_children_iff(all, document.spec_children());
        }
        let d = Dom { document: DomNode::Container(document) };
        d
    }

    /// A new document whose document node is `root`, with the handles of
    /// its tree set to their positions.
    pub fn new_with_root(root: DomNode) -> (d: Dom)
        requires
            root is Container,
        ensures
            d.wf(),
            same_content(root, d.spec_document()),
    {
        let mut document = root;
        document.set_handle(DomHandle::root());
        Dom { document }
    }

    /// The document container.
    pub fn document(&self) -> (c: &ContainerNode)
        requires
            self.spec_document() is Container,
        ensures
            *c == self.spec_document()->Container_0,
    {
        self.document.as_container().unwrap()
    }

    /// The document container, consuming the document.
    pub fn into_container(self) -> (c: ContainerNode)
        requires
            self.spec_document() is Container,
        ensures
            c == self.spec_document()->Container_0,
    {
        self.document.into_container().unwrap()
    }

    /// The document container, mutably.
    pub fn document_mut(&mut self) -> (c: &mut ContainerNode)
        requires
            old(self).spec_document() is Container,
        ensures
            *c == old(self).spec_document()->Container_0,
            final(self).spec_document() == DomNode::Container(*final(c)),
    {
        self.document.as_container_mut().unwrap()
    }

    /// The document node.
    pub fn document_node(&self) -> (n: &DomNode)
        ensures
            *n == self.spec_document(),
    {
        &self.document
    }

    /// The document node, consuming the document.
    pub fn into_document_node(self) -> (n: DomNode)
        ensures
            n == self.spec_document(),
    {
        self.document
    }

    /// The top-level nodes.
    pub fn children(&self) -> (c: &Vec<DomNode>)
        requires
            self.spec_document() is Container,
        ensures
            c@ == self.spec_document()->Container_0.spec_children(),
    {
        self.document().children()
    }

    /// The node a handle names.
    pub fn lookup_node(&self, node_handle: &DomHandle) -> (n: &DomNode)
        requires
            node_handle@ is Some,
            node_at(self.spec_document(), node_handle.path()) is Some,
        ensures
            *n == node_at(self.spec_document(), node_handle.path()).unwrap(),
    {
        self.document.lookup_node(node_handle)
    }

    /// The node a handle names, mutably.
    pub fn lookup_node_mut(&mut self, node_handle: &DomHandle) -> (n: &mut DomNode)
        requires
            node_handle@ is Some,
            node_at(old(self).spec_document(), node_handle.path()) is Some,
        ensures
            *n == node_at(old(self).spec_document(), node_handle.path()).unwrap(),
            updated_at(
                old(self).spec_document(),
                final(self).spec_document(),
                node_handle.path(),
                *final(n),
            ),
    {
        self.document.lookup_node_mut(node_handle)
    }

    /// The number of code units of text in the document.
    pub fn text_len(&self) -> (n: usize)
        requires
            node_len(self.spec_document()) <= usize::MAX,
        ensures
            n == node_len(self.spec_document()),
    {
        self.document.text_len()
    }

    /// The parent of the node a handle names.
    pub fn parent(&self, handle: &DomHandle) -> (c: &ContainerNode)
        requires
            handle@ is Some,
            handle.path().len() > 0,
            container_at(self.spec_document(), handle.path().drop_last()),
        ensures
            DomNode::Container(*c) == node_at(self.spec_document(), handle.path().drop_last()).unwrap(),
    {
        let ph = handle.parent_handle();
        self.lookup_node(&ph).as_container().unwrap()
    }

    /// The parent of the node a handle names, mutably.
    pub fn parent_mut(&mut self, handle: &DomHandle) -> (c: &mut ContainerNode)
        requires
            handle@ is Some,
            handle.path().len() > 0,
            container_at(old(self).spec_document(), handle.path().drop_last()),
        ensures
            DomNode::Container(*c) == node_at(
                old(self).spec_document(),
                handle.path().drop_last(),
            ).unwrap(),
            updated_at(
                old(self).spec_document(),
                final(self).spec_document(),
                handle.path().drop_last(),
                DomNode::Container(*final(c)),
            ),
    {
        let ph = handle.parent_handle();
        let n = self.lookup_node_mut(&ph);
        n.as_container_mut().unwrap()
    }

    /// Append `child` at the end of the document; returns its handle.
    pub fn append_at_end_of_document(&mut self, child: DomNode) -> (h: DomHandle)
        requires
            old(self).wf(),
        ensures
            final(self).wf(),
            Dom::changed_at(*old(self), *final(self), Seq::<usize>::empty()),
            children_at(final(self).spec_document(), Seq::<usize>::empty()).drop_last()
                == children_at(old(self).spec_document(), Seq::<usize>::empty()),
            children_at(final(self).spec_document(), Seq::<usize>::empty()).len()
                == children_at(old(self).spec_document(), Seq::<usize>::empty()).len() + 1,
            same_content(
                child,
                children_at(final(self).spec_document(), Seq::<usize>::empty()).last(),
            ),
            h@ == Some(
                Seq::<usize>::empty().push(
                    children_at(old(self).spec_document(), Seq::<usize>::empty()).len() as usize,
                ),
            ),
    {
        let root = DomHandle::root();
        self.append(&root, child)
    }

    /// Append `child` as the last child of the container a handle names;
    /// returns the child's handle.
    pub fn append(&mut self, parent_handle: &DomHandle, child: DomNode) -> (h: DomHandle)
        requires
            old(self).wf(),
            parent_handle@ is Some,
            container_at(old(self).spec_document(), parent_handle.path()),
        ensures
            final(self).wf(),
            Dom::changed_at(*old(self), *final(self), parent_handle.path()),
            children_at(final(self).spec_document(), parent_handle.path()).drop_last()
                == children_at(old(self).spec_document(), parent_handle.path()),
            children_at(final(self).spec_document(), parent_handle.path()).len()
                == children_at(old(self).spec_document(), parent_handle.path()).len() + 1,
            same_content(
                child,
                children_at(final(self).spec_document(), parent_handle.path()).last(),
            ),
            h@ == Some(
                parent_handle.path().push(
                    children_at(old(self).spec_document(), parent_handle.path()).len() as usize,
                ),
            ),
    {
        let ghost old_doc = self.document;
        let node = self.lookup_node_mut(parent_handle);
        let parent = node.as_container_mut().unwrap();
        let ghost c_old = *parent;
        proof {
            lemma_node_at_handle(old_doc, Seq::<usize>::empty(), parent_handle.path());
            assert(Seq::<usize>::empty() + parent_handle.path() =~= parent_handle.path());
        }
        let h = parent.append_child(child);
        proof {
            lemma_update_container(old_doc, self.document, parent_handle.path(), c_old, *parent);
        }
        h
    }

    /// Insert `node` at the position a handle names, moving the node there
    /// (and the ones after it) forward; returns the handle of the inserted node.
    pub fn insert_at(&mut self, node_handle: &DomHandle, node: DomNode) -> (h: DomHandle)
        requires
            old(self).wf(),
            node_handle@ is Some,
            node_handle.path().len() > 0,
            container_at(old(self).spec_document(), node_handle.path().drop_last()),
            node_handle.path().last() <= children_at(
                old(self).spec_document(),
                node_handle.path().drop_last(),
            ).len(),
        ensures
            final(self).wf(),
            Dom::changed_at(*old(self), *final(self), node_handle.path().drop_last()),
            rehandled_from(
                children_at(old(self).spec_document(), node_handle.path().drop_last()).insert(
                    node_handle.path().last() as int,
                    node,
                ),
                children_at(final(self).spec_document(), node_handle.path().drop_last()),
                node_handle.path().drop_last(),
                node_handle.path().last() as int,
            ),
            h@ == node_handle@,
    {
        let ghost old_doc = self.document;
        let ghost pp = node_handle.path().drop_last();
        let index = node_handle.index_in_parent();
        let parent = self.parent_mut(node_handle);
        let ghost c_old = *parent;
        proof {
            lemma_node_at_handle(old_doc, Seq::<usize>::empty(), pp);
            assert(Seq::<usize>::empty() + pp =~= pp);
        }
        let h = parent.insert_child(index, node).handle();
        proof {
            assert(handles_ok(parent.spec_children()[index as int], pp.push((index as int) as usize)));
            lemma_update_container(old_doc, self.document, pp, c_old, *parent);
            assert(pp.push(index) =~= node_handle.path());
        }
        h
    }

    /// Insert `nodes` in order at the position a handle names; returns the
    /// new handles of the nodes that were moved forward.
    pub fn insert(&mut self, node_handle: &DomHandle, nodes: Vec<DomNode>) -> (moved: Vec<
        DomHandle,
    >)
        requires
            old(self).wf(),
            node_handle@ is Some,
            node_handle.path().len() > 0,
            container_at(old(self).spec_document(), node_handle.path().drop_last()),
            node_handle.path().last() <= children_at(
                old(self).spec_document(),
                node_handle.path().drop_last(),
            ).len(),
        ensures
            final(self).wf(),
            Dom::changed_at(*old(self), *final(self), node_handle.path().drop_last()),
            rehandled_from(
                children_at(old(self).spec_document(), node_handle.path().drop_last()).subrange(
                    0,
                    node_handle.path().last() as int,
                ) + nodes@ + children_at(
                    old(self).spec_document(),
                    node_handle.path().drop_last(),
                ).subrange(
                    node_handle.path().last() as int,
                    children_at(old(self).spec_document(), node_handle.path().drop_last()).len() as int,
                ),
                children_at(final(self).spec_document(), node_handle.path().drop_last()),
                node_handle.path().drop_last(),
                node_handle.path().last() as int,
            ),
            moved@.len() == children_at(
                old(self).spec_document(),
                node_handle.path().drop_last(),
            ).len() - node_handle.path().last(),
    {
        let ghost old_doc = self.document;
        let ghost pp = node_handle.path().drop_last();
        let index = node_handle.index_in_parent();
        let parent = self.parent_mut(node_handle);
        let ghost c_old = *parent;
        proof {
            lemma_node_at_handle(old_doc, Seq::<usize>::empty(), pp);
            assert(Seq::<usize>::empty() + pp =~= pp);
        }
        let moved = parent.insert_children(index, nodes);
        proof {
            lemma_update_container(old_doc, self.document, pp, c_old, *parent);
        }
        moved
    }

    /// Replace the node a handle names with `nodes`, in order; returns the
    /// new handles of the nodes after it that were moved.
    pub fn replace(&mut self, node_handle: &DomHandle, nodes: Vec<DomNode>) -> (moved: Vec<
        DomHandle,
    >)
        requires
            old(self).wf(),
            names_child(*old(self), *node_handle),
        ensures
            final(self).wf(),
            Dom::changed_at(*old(self), *final(self), node_handle.path().drop_last()),
            rehandled_from(
                children_at(old(self).spec_document(), node_handle.path().drop_last()).subrange(
                    0,
                    node_handle.path().last() as int,
                ) + nodes@ + children_at(
                    old(self).spec_document(),
                    node_handle.path().drop_last(),
                ).subrange(
                    node_handle.path().last() + 1,
                    children_at(old(self).spec_document(), node_handle.path().drop_last()).len() as int,
                ),
                children_at(final(self).spec_document(), node_handle.path().drop_last()),
                node_handle.path().drop_last(),
                node_handle.path().last() as int,
            ),
            moved@.len() == children_at(
                old(self).spec_document(),
                node_handle.path().drop_last(),
            ).len() - node_handle.path().last() - 1,
    {
        let ghost old_doc = self.document;
        let ghost pp = node_handle.path().drop_last();
        proof {
            lemma_node_at_parent(old_doc, node_handle.path());
        }
        let index = node_handle.index_in_parent();
        let parent = self.parent_mut(node_handle);
        let ghost c_old = *parent;
        proof {
            lemma_node_at_handle(old_doc, Seq::<usize>::empty(), pp);
            assert(Seq::<usize>::empty() + pp =~= pp);
        }
        let moved = parent.replace_child(index, nodes);
        proof {
            lemma_update_container(old_doc, self.document, pp, c_old, *parent);
        }
        moved
    }

    /// Remove the node a handle names and return it; the nodes after it are
    /// moved back.
    pub fn remove(&mut self, node_handle: &DomHandle) -> (removed: DomNode)
        requires
            old(self).wf(),
            names_child(*old(self), *node_handle),
        ensures
            final(self).wf(),
            Dom::changed_at(*old(self), *final(self), node_handle.path().drop_last()),
            removed == node_at(old(self).spec_document(), node_handle.path()).unwrap(),
            rehandled_from(
                children_at(old(self).spec_document(), node_handle.path().drop_last()).remove(
                    node_handle.path().last() as int,
                ),
                children_at(final(self).spec_document(), node_handle.path().drop_last()),
                node_handle.path().drop_last(),
                node_handle.path().last() as int,
            ),
    {
        let ghost old_doc = self.document;
        let ghost pp = node_handle.path().drop_last();
        proof {
            lemma_node_at_parent(old_doc, node_handle.path());
        }
        let index = node_handle.index_in_parent();
        let parent = self.parent_mut(node_handle);
        let ghost c_old = *parent;
        proof {
            lemma_node_at_handle(old_doc, Seq::<usize>::empty(), pp);
            assert(Seq::<usize>::empty() + pp =~= pp);
        }
        let removed = parent.remove_child(index);
        proof {
            lemma_update_container(old_doc, self.document, pp, c_old, *parent);
        }
        removed
    }

    /// Remove the node a handle names and put its children, if it is a
    /// container, in its place; then merge the text nodes that meet at the
    /// end and at the start of what was put there.
    pub fn remove_and_keep_children(&mut self, node_handle: &DomHandle)
        requires
            old(self).wf(),
            names_child(*old(self), *node_handle),
        ensures
            final(self).wf(),
            Dom::changed_at(*old(self), *final(self), node_handle.path().drop_last()),
            ({
                let pp = node_handle.path().drop_last();
                let idx = node_handle.path().last() as int;
                let old_kids = children_at(old(self).spec_document(), pp);
                let kept = kept_children(old_kids[idx]);
                exists|mid: Seq<DomNode>, merged: Seq<DomNode>|
                    #![trigger texts_merged_at(mid, merged, pp, idx + kept.len() - 1)]
                    {
                        &&& rehandled_from(
                            old_kids.subrange(0, idx) + kept + old_kids.subrange(idx + 1, old_kids.len() as int),
                            mid,
                            pp,
                            idx,
                        )
                        &&& texts_merged_at(mid, merged, pp, idx + kept.len() - 1)
                        &&& texts_merged_at(merged, children_at(final(self).spec_document(), pp), pp, idx - 1)
                    }
            }),
    {
        let ghost old_doc = self.document;
        let ghost pp = node_handle.path().drop_last();
        let ghost idx = node_handle.path().last() as int;
        proof {
            lemma_node_at_parent(old_doc, node_handle.path());
        }
        let index = node_handle.index_in_parent();
        let parent = self.parent_mut(node_handle);
        let ghost c_old = *parent;
        let ghost old_kids = c_old.spec_children();
        proof {
            lemma_node_at_handle(old_doc, Seq::<usize>::empty(), pp);
            assert(Seq::<usize>::empty() + pp =~= pp);
        }
        let node = parent.remove_child(index);
        let ghost mid0 = parent.spec_children();
        let kids: Vec<DomNode> = match node {
            DomNode::Container(c) => c.take_children(),
            _ => Vec::new(),
        };
        let ghost kept = kids@;
        assert(kept == kept_children(old_kids[idx]));
        let count = kids.len();
        parent.insert_children(index, kids);
        let ghost mid = parent.spec_children();
        proof {
            let t = old_kids.subrange(0, idx) + kept + old_kids.subrange(idx + 1, old_kids.len() as int);
            let a = mid0.subrange(0, idx) + kept + mid0.subrange(idx, mid0.len() as int);
            assert(t.len() == mid.len());
            assert forall|j: int| 0 <= j < idx implies mid[j] == t[j] by {
                assert(mid[j] == a[j]);
                assert(mid0[j] == old_kids.remove(idx)[j]);
            }
            assert forall|j: int| idx <= j < t.len() implies #[trigger] same_content(t[j], mid[j]) by {
                assert(same_content(a[j], mid[j]));
                if j >= idx + kept.len() {
                    let k = j - kept.len();
                    assert(a[j] == mid0[k]);
                    assert(old_kids.remove(idx)[k] == old_kids[k + 1]);
                    assert(t[j] == old_kids[k + 1]);
                    assert(same_content(old_kids.remove(idx)[k], mid0[k]));
                    crate::laws::lemma_same_content_sym_trans(t[j], a[j], mid[j]);
                } else {
                    assert(a[j] == t[j]);
                }
            }
            assert forall|j: int| idx <= j < t.len() implies #[trigger] handles_ok(mid[j], pp.push(j as usize)) by {
                assert(handles_ok(mid[j], pp.push(j as usize)));
            }
            assert(rehandled_from(t, mid, pp, idx));
        }
        let total = parent.children().len();
        assert(index + count <= total);
        let last_index = index + count;
        if last_index > 0 {
            merge_if_adjacent_text_nodes(parent, last_index - 1);
        }
        let ghost merged = parent.spec_children();
        if index > 0 {
            merge_if_adjacent_text_nodes(parent, index - 1);
        }
        proof {
            assert(texts_merged_at(mid, merged, pp, idx + kept.len() - 1));
            assert(texts_merged_at(merged, parent.spec_children(), pp, idx - 1));
            lemma_update_container(old_doc, self.document, pp, c_old, *parent);
        }
    }

    /// Join each run of neighbouring children of the container a handle
    /// names that can be pushed into one another into the first node of the
    /// run.
    pub fn join_nodes_in_container(&mut self, container_handle: &DomHandle)
        requires
            old(self).wf(),
            container_handle@ is Some,
            container_at(old(self).spec_document(), container_handle.path()),
            joinable(children_at(old(self).spec_document(), container_handle.path())),
        ensures
            final(self).wf(),
            Dom::changed_at(*old(self), *final(self), container_handle.path()),
            keys_of(children_at(final(self).spec_document(), container_handle.path())) == collapsed_from(
                children_at(old(self).spec_document(), container_handle.path()),
                0,
            ),
            texts_of(children_at(final(self).spec_document(), container_handle.path())) == collapsed_texts_from(
                children_at(old(self).spec_document(), container_handle.path()),
                0,
            ),
            none_pushable(children_at(final(self).spec_document(), container_handle.path())),
            all_no_empty_mergeable(children_at(old(self).spec_document(), container_handle.path()))
                ==> all_no_empty_mergeable(children_at(final(self).spec_document(), container_handle.path())),
            all_ends_filled(children_at(old(self).spec_document(), container_handle.path()))
                ==> all_ends_filled(children_at(final(self).spec_document(), container_handle.path())),
    {
        let ghost old_doc = self.document;
        let ghost path = container_handle.path();
        proof {
            lemma_node_at_handle(old_doc, Seq::<usize>::empty(), path);
            assert(Seq::<usize>::empty() + path =~= path);
        }
        let node = self.lookup_node_mut(container_handle);
        match node {
            DomNode::Container(c) => {
                let ghost c_old = *c;
                c.join_children();
                proof {
                    lemma_update_container(old_doc, self.document, path, c_old, *c);
                }
            },
            _ => {},
        }
    }

    /// Merge the node a handle names into a text node just before it when
    /// both are text nodes, then merge the node at its position with the one
    /// after it when both are text nodes.
    pub fn merge_text_nodes_around(&mut self, handle: &DomHandle)
        requires
            old(self).wf(),
            names_child(*old(self), *handle),
        ensures
            final(self).wf(),
            Dom::changed_at(*old(self), *final(self), handle.path().drop_last()),
            ({
                let pp = handle.path().drop_last();
                let k = handle.path().last() as int;
                exists|mid: Seq<DomNode>|
                    #![trigger texts_merged_at(mid, children_at(final(self).spec_document(), pp), pp, k)]
                    {
                        &&& texts_merged_at(children_at(old(self).spec_document(), pp), mid, pp, k - 1)
                        &&& texts_merged_at(mid, children_at(final(self).spec_document(), pp), pp, k)
                    }
            }),
    {
        let ghost old_doc = self.document;
        let ghost pp = handle.path().drop_last();
        let ghost k = handle.path().last() as int;
        proof {
            lemma_node_at_parent(old_doc, handle.path());
        }
        let idx = handle.index_in_parent();
        let parent = self.parent_mut(handle);
        let ghost c_old = *parent;
        proof {
            lemma_node_at_handle(old_doc, Seq::<usize>::empty(), pp);
            assert(Seq::<usize>::empty() + pp =~= pp);
            assert(c_old.spec_handle() == Some(pp));
        }
        if idx > 0 {
            merge_if_adjacent_text_nodes(parent, idx - 1);
        }
        let ghost mid = parent.spec_children();
        merge_if_adjacent_text_nodes(parent, idx);
        proof {
            assert(texts_merged_at(c_old.spec_children(), mid, pp, k - 1));
            assert(texts_merged_at(mid, parent.spec_children(), pp, k));
            lemma_update_container(old_doc, self.document, pp, c_old, *parent);
            assert(children_at(self.spec_document(), pp) == parent.spec_children());
            assert(children_at(old_doc, pp) == c_old.spec_children());
            assert(texts_merged_at(mid, children_at(self.spec_document(), pp), pp, k));
        }
    }

    /// Remove the node a handle names when it is a container without
    /// children, then do the same for its parent, and so on up to the
    /// document, which stays.
    pub fn remove_empty_nodes_recursively(&mut self, handle: &DomHandle)
        requires
            old(self).wf(),
            handle@ is Some,
            node_at(old(self).spec_document(), handle.path()) is Some,
            !empties_reach_root(old(self).spec_document(), handle.path()),
        ensures
            final(self).wf(),
            empties_removed(*old(self), *final(self), handle.path()),
        decreases handle.path().len(),
    {
        let ghost d0 = *self;
        let ghost h = handle.path();
        let needs_removal = match self.lookup_node(handle) {
            DomNode::Container(c) => c.children().len() == 0,
            _ => false,
        };
        proof {
            assert(needs_removal == empty_container_at(d0.spec_document(), h));
            if needs_removal && h.len() == 0 {
                assert(empties_reach_root(d0.spec_document(), h));
            }
        }
        if needs_removal {
            self.remove(handle);
        }
        let ghost d1 = *self;
        if handle.has_parent() {
            let parent_handle = handle.parent_handle();
            let ghost p = h.drop_last();
            proof {
                lemma_node_at_parent(d0.spec_document(), h);
                if needs_removal {
                    assert(removed_at(d0, d1, h));
                    let pc = children_at(d0.spec_document(), p);
                    crate::laws::lemma_rehandled_len(pc.remove(h.last() as int), children_at(d1.spec_document(), p), p, h.last() as int);
                    assert(children_at(d1.spec_document(), p).len() == pc.len() - 1);
                    if empties_reach_root(d1.spec_document(), p) {
                        assert forall|i: int| 0 <= i < h.len() implies #[trigger] children_at(d0.spec_document(), h.take(i)).len() == 1 by {
                            if i < p.len() {
                                lemma_updated_at_counts(
                                    d0.spec_document(),
                                    d1.spec_document(),
                                    p,
                                    node_at(d1.spec_document(), p).unwrap(),
                                    i,
                                );
                                assert(p.take(i) =~= h.take(i));
                                assert(children_at(d1.spec_document(), p.take(i)).len() == 1);
                            } else {
                                assert(h.take(i) =~= p);
                            }
                        }
                        assert(empties_reach_root(d0.spec_document(), h));
                    }
                } else {
                    assert(!empty_container_at(d0.spec_document(), p));
                }
            }
            self.remove_empty_nodes_recursively(&parent_handle);
        } else {
            proof {
                assert(!needs_removal);
            }
        }
    }

    /// Add `new_text` at the end of the text node that ends the sibling
    /// before the node a handle names, when there is one that is not in a
    /// link; else, unless `new_text` is empty, put a new text node holding it
    /// just before the node.
    pub fn set_new_text_in_prev_sibling_node(&mut self, node_handle: DomHandle, new_text: Vec<char>)
        requires
            old(self).wf(),
            names_child(*old(self), node_handle),
        ensures
            final(self).wf(),
            ({
                let pp = node_handle.path().drop_last();
                let k = node_handle.path().last() as int;
                let kids = children_at(old(self).spec_document(), pp);
                if k > 0 && last_writable_text(kids[k - 1]) is Some {
                    let q = pp.push((k - 1) as usize) + last_writable_text(kids[k - 1]).unwrap();
                    text_set_at(
                        old(self).spec_document(),
                        final(self).spec_document(),
                        q,
                        text_at(old(self).spec_document(), q) + new_text@,
                    )
                } else if new_text@.len() > 0 {
                    &&& Dom::changed_at(*old(self), *final(self), pp)
                    &&& exists|t: DomNode|
                        #![trigger kids.insert(k, t)]
                        {
                            &&& t matches DomNode::Text(tt) && tt.spec_data() == new_text@
                            &&& rehandled_from(kids.insert(k, t), children_at(final(self).spec_document(), pp), pp, k)
                        }
                } else {
                    *final(self) == *old(self)
                }
            }),
    {
        let ghost d0 = self.spec_document();
        let ghost pp = node_handle.path().drop_last();
        let ghost kids = children_at(d0, pp);
        proof {
            lemma_node_at_parent(d0, node_handle.path());
        }
        let index = node_handle.index_in_parent();
        if index > 0 {
            let prev = node_handle.prev_sibling();
            let ghost pv = prev.path();
            proof {
                crate::list_methods::lemma_node_at_child(d0, pp, index - 1);
                assert(pv == pp.push((index - 1) as usize));
            }
            if has_last_writable_text(self.lookup_node(&prev)) {
                let sib = self.lookup_node_mut(&prev);
                let ghost s0 = *sib;
                proof {
                    crate::tree::lemma_node_at_handle(d0, Seq::<usize>::empty(), pv);
                    assert(Seq::<usize>::empty() + pv =~= pv);
                }
                append_to_last_text(sib, &new_text);
                proof {
                    let d1 = self.spec_document();
                    let q0 = last_writable_text(s0).unwrap();
                    let s1 = *sib;
                    crate::tree::lemma_updated_at_node(d0, d1, pv, s1);
                    lemma_updated_at_compose(d0, d1, pv, s1, q0, node_at(s1, q0).unwrap());
                    lemma_node_at_concat(d0, pv, q0);
                    lemma_node_at_concat(d1, pv, q0);
                    crate::tree::lemma_updated_at_handles(d0, d1, pv, s1, Seq::<usize>::empty());
                }
                return;
            }
        }
        if new_text.len() > 0 {
            let ghost nt = new_text@;
            let new_child = DomNode::new_text(new_text);
            let ghost t = new_child;
            let parent = self.parent_mut(&node_handle);
            let ghost c_old = *parent;
            proof {
                crate::tree::lemma_node_at_handle(d0, Seq::<usize>::empty(), pp);
                assert(Seq::<usize>::empty() + pp =~= pp);
            }
            parent.insert_child(index, new_child);
            proof {
                lemma_update_container(d0, self.spec_document(), pp, c_old, *parent);
                assert(children_at(self.spec_document(), pp) == parent.spec_children());
                assert(rehandled_from(kids.insert(index as int, t), children_at(self.spec_document(), pp), pp, index as int));
            }
        }
    }

    /// Add `new_text` at the start of the text node that starts the sibling
    /// after the node a handle names, when there is one that is not in a
    /// link; else, unless `new_text` is empty, put a new text node holding it
    /// just after the node.
    pub fn set_new_text_in_next_sibling_node(&mut self, node_handle: DomHandle, new_text: Vec<char>)
        requires
            old(self).wf(),
            names_child(*old(self), node_handle),
        ensures
            final(self).wf(),
            ({
                let pp = node_handle.path().drop_last();
                let k = node_handle.path().last() as int;
                let kids = children_at(old(self).spec_document(), pp);
                if k + 1 < kids.len() && first_writable_text(kids[k + 1]) is Some {
                    let q = pp.push((k + 1) as usize) + first_writable_text(kids[k + 1]).unwrap();
                    text_set_at(
                        old(self).spec_document(),
                        final(self).spec_document(),
                        q,
                        new_text@ + text_at(old(self).spec_document(), q),
                    )
                } else if new_text@.len() > 0 {
                    &&& Dom::changed_at(*old(self), *final(self), pp)
                    &&& exists|t: DomNode|
                        #![trigger kids.insert(k + 1, t)]
                        {
                            &&& t matches DomNode::Text(tt) && tt.spec_data() == new_text@
                            &&& rehandled_from(kids.insert(k + 1, t), children_at(final(self).spec_document(), pp), pp, k + 1)
                        }
                } else {
                    *final(self) == *old(self)
                }
            }),
    {
        let ghost d0 = self.spec_document();
        let ghost pp = node_handle.path().drop_last();
        let ghost kids = children_at(d0, pp);
        proof {
            lemma_node_at_parent(d0, node_handle.path());
        }
        let index = node_handle.index_in_parent();
        let children_number = self.parent(&node_handle).children().len();
        if index + 1 < children_number {
            let next = node_handle.next_sibling();
            let ghost nv = next.path();
            proof {
                crate::list_methods::lemma_node_at_child(d0, pp, index + 1);
                assert(nv == pp.push((index + 1) as usize));
            }
            if has_first_writable_text(self.lookup_node(&next)) {
                let sib = self.lookup_node_mut(&next);
                let ghost s0 = *sib;
                proof {
                    crate::tree::lemma_node_at_handle(d0, Seq::<usize>::empty(), nv);
                    assert(Seq::<usize>::empty() + nv =~= nv);
                }
                prepend_to_first_text(sib, &new_text);
                proof {
                    let d1 = self.spec_document();
                    let q0 = first_writable_text(s0).unwrap();
                    let s1 = *sib;
                    crate::tree::lemma_updated_at_node(d0, d1, nv, s1);
                    lemma_updated_at_compose(d0, d1, nv, s1, q0, node_at(s1, q0).unwrap());
                    lemma_node_at_concat(d0, nv, q0);
                    lemma_node_at_concat(d1, nv, q0);
                    crate::tree::lemma_updated_at_handles(d0, d1, nv, s1, Seq::<usize>::empty());
                }
                return;
            }
        }
        if new_text.len() > 0 {
            let new_child = DomNode::new_text(new_text);
            let ghost t = new_child;
            let parent = self.parent_mut(&node_handle);
            let ghost c_old = *parent;
            proof {
                crate::tree::lemma_node_at_handle(d0, Seq::<usize>::empty(), pp);
                assert(Seq::<usize>::empty() + pp =~= pp);
            }
            parent.insert_child(index + 1, new_child);
            proof {
                lemma_update_container(d0, self.spec_document(), pp, c_old, *parent);
                assert(children_at(self.spec_document(), pp) == parent.spec_children());
                assert(rehandled_from(kids.insert(index + 1, t), children_at(self.spec_document(), pp), pp, index + 1));
            }
        }
    }

    /// The handle of the first ancestor of the node a handle names, walking
    /// up from its parent, whose path is none of the paths of `list`; `None`
    /// when they all are.
    pub fn find_first_non_matching_ancestor_in(&self, list: &Vec<DomHandle>, node_handle: &DomHandle) -> (r: Option<
        DomHandle,
    >)
        requires
            node_handle@ is Some,
        ensures
            r.is_some() == first_ancestor_not_in(handles_of(list@), node_handle.path()).is_some(),
            r matches Some(h) ==> h@ == first_ancestor_not_in(handles_of(list@), node_handle.path()),
        decreases node_handle.path().len(),
    {
        if node_handle.has_parent() {
            let parent_handle = node_handle.parent_handle();
            let mut found = false;
            let mut i: usize = 0;
            while i < list.len()
                invariant
                    i <= list@.len(),
                    parent_handle@ is Some,
                    found == exists|j: int| 0 <= j < i && #[trigger] list@[j]@ == parent_handle@,
                decreases list@.len() - i,
            {
                if list[i] == parent_handle {
                    found = true;
                }
                i += 1;
            }
            proof {
                assert(found == handles_of(list@).contains(Some(node_handle.path().drop_last()))) by {
                    if found {
                        let j = choose|j: int| 0 <= j < list@.len() && #[trigger] list@[j]@ == parent_handle@;
                        assert(handles_of(list@)[j] == list@[j]@);
                    }
                    if handles_of(list@).contains(Some(node_handle.path().drop_last())) {
                        let j = choose|j: int|
                            0 <= j < handles_of(list@).len() && handles_of(list@)[j] == Some(node_handle.path().drop_last());
                        assert(list@[j]@ == parent_handle@);
                    }
                }
            }
            if !found {
                Some(parent_handle)
            } else {
                self.find_first_non_matching_ancestor_in(list, &parent_handle)
            }
        } else {
            None
        }
    }

    /// The handle of the closest list among the ancestors of the node a
    /// handle names, from its parent up to the document; `None` when there
    /// is none.
    pub fn find_closest_list_ancestor(&self, handle: &DomHandle) -> (r: Option<DomHandle>)
        requires
            handle@ is Some,
            node_at(self.spec_document(), handle.path()) is Some,
        ensures
            r.is_some() == closest_list_ancestor(self.spec_document(), handle.path()).is_some(),
            r matches Some(h) ==> h@ == closest_list_ancestor(self.spec_document(), handle.path()),
        decreases handle.path().len(),
    {
        if handle.has_parent() {
            proof {
                lemma_node_at_parent(self.spec_document(), handle.path());
            }
            let parent_handle = handle.parent_handle();
            if self.lookup_node(&parent_handle).is_list() {
                return Some(parent_handle);
            } else if parent_handle.has_parent() {
                return self.find_closest_list_ancestor(&parent_handle);
            }
        }
        None
    }

    /// True when the node a handle names is a block node, other than the
    /// document, with a sibling after it.
    pub fn adds_line_break(&self, handle: &DomHandle) -> (b: bool)
        requires
            self.wf(),
            handle@ is Some,
            node_at(self.spec_document(), handle.path()) is Some,
        ensures
            b == (crate::tree::is_block_kind(crate::tree::kind_of(
                node_at(self.spec_document(), handle.path()).unwrap(),
            )) && handle.path().len() > 0 && handle.path().last() + 1 < children_at(
                self.spec_document(),
                handle.path().drop_last(),
            ).len()),
    {
        let node = self.lookup_node(handle);
        if !node.is_block_node() || handle.is_root() {
            return false;
        }
        proof {
            lemma_node_at_parent(self.spec_document(), handle.path());
            lemma_node_at_handle(self.spec_document(), Seq::<usize>::empty(), handle.path());
            assert(Seq::<usize>::empty() + handle.path() =~= handle.path());
        }
        let parent = self.parent(handle);
        let child_count = parent.children().len();
        let index = node.handle().index_in_parent();
        index < child_count - 1
    }

    /// Put the children of the container a handle names in its place, then
    /// join the children of its parent that can be pushed into one another;
    /// returns the handles, before the joining, of the nodes that were moved.
    /// Nothing changes for a node that is not a container.
    pub fn replace_node_with_its_children(&mut self, node_handle: &DomHandle) -> (moved: Vec<DomHandle>)
        requires
            old(self).wf(),
            names_child(*old(self), *node_handle),
            ({
                let old_kids = children_at(old(self).spec_document(), node_handle.path().drop_last());
                let k = node_handle.path().last() as int;
                old_kids[k] is Container ==> joinable(
                    old_kids.subrange(0, k) + kept_children(old_kids[k]) + old_kids.subrange(k + 1, old_kids.len() as int),
                )
            }),
        ensures
            final(self).wf(),
            ({
                let pp = node_handle.path().drop_last();
                let k = node_handle.path().last() as int;
                let old_kids = children_at(old(self).spec_document(), pp);
                if old_kids[k] is Container {
                    &&& Dom::changed_at(*old(self), *final(self), pp)
                    &&& moved@.len() == old_kids.len() - k - 1
                    &&& exists|mid: Seq<DomNode>|
                        #![trigger collapsed_from(mid, 0)]
                        {
                            &&& rehandled_from(
                                old_kids.subrange(0, k) + kept_children(old_kids[k]) + old_kids.subrange(
                                    k + 1,
                                    old_kids.len() as int,
                                ),
                                mid,
                                pp,
                                k,
                            )
                            &&& keys_of(children_at(final(self).spec_document(), pp)) == collapsed_from(mid, 0)
                            &&& texts_of(children_at(final(self).spec_document(), pp)) == collapsed_texts_from(mid, 0)
                            &&& none_pushable(children_at(final(self).spec_document(), pp))
                        }
                } else {
                    &&& moved@.len() == 0
                    &&& *final(self) == *old(self)
                }
            }),
    {
        let ghost old_doc = self.document;
        let ghost pp = node_handle.path().drop_last();
        let ghost k = node_handle.path().last() as int;
        let ghost old_kids = children_at(old_doc, pp);
        proof {
            lemma_node_at_parent(old_doc, node_handle.path());
        }
        let node = self.lookup_node(node_handle);
        let kids = match node {
            DomNode::Container(c) => crate::tree::clone_nodes(c.children()),
            _ => {
                return Vec::new();
            },
        };
        let ghost kept = kept_children(old_kids[k]);
        proof {
            crate::tree::lemma_same_nodes_children(kept, kids@);
            crate::tree::lemma_same_children_iff(kept, kids@);
        }
        let moved = self.replace(node_handle, kids);
        let ghost mid = children_at(self.spec_document(), pp);
        proof {
            let t = old_kids.subrange(0, k) + kept + old_kids.subrange(k + 1, old_kids.len() as int);
            let a = old_kids.subrange(0, k) + kids@ + old_kids.subrange(k + 1, old_kids.len() as int);
            assert(t.len() == a.len());
            assert forall|j: int| k <= j < t.len() implies #[trigger] same_content(t[j], mid[j]) by {
                assert(same_content(a[j], mid[j]));
                if j < k + kept.len() {
                    assert(t[j] == kept[j - k]);
                    assert(a[j] == kids@[j - k]);
                    assert(same_content(kept[j - k], kids@[j - k]));
                    crate::laws::lemma_same_content_sym_trans(t[j], a[j], mid[j]);
                } else {
                    assert(a[j] == t[j]);
                }
            }
            assert forall|j: int| 0 <= j < k implies mid[j] == t[j] by {
                assert(mid[j] == a[j]);
            }
            assert(rehandled_from(t, mid, pp, k));
            crate::tree::lemma_rehandled_joinable(t, mid, pp, k);
        }
        let ghost mid_dom = *self;
        let parent_handle = node_handle.parent_handle();
        self.join_nodes_in_container(&parent_handle);
        proof {
            lemma_changed_at_trans(old_doc, mid_dom.spec_document(), self.spec_document(), pp);
            let t = old_kids.subrange(0, k) + kept + old_kids.subrange(k + 1, old_kids.len() as int);
            assert(rehandled_from(t, mid, pp, k));
            assert(keys_of(children_at(self.spec_document(), pp)) == collapsed_from(mid, 0));
            assert(texts_of(children_at(self.spec_document(), pp)) == collapsed_texts_from(mid, 0));
        }
        moved
    }

    /// The node a handle names, taken out of the document: the document node
    /// itself for the root handle.
    pub fn into_node(self, handle: &DomHandle) -> (n: DomNode)
        requires
            self.wf(),
            handle@ is Some,
            node_at(self.spec_document(), handle.path()) is Some,
        ensures
            n == node_at(self.spec_document(), handle.path()).unwrap(),
    {
        let mut d = self;
        if handle.is_root() {
            d.into_document_node()
        } else {
            d.remove(handle)
        }
    }

    /// Returns true when the handle names a node of this document.
    pub fn contains(&self, handle: &DomHandle) -> (b: bool)
        requires
            handle@ is Some,
        ensures
            b == (node_at(self.spec_document(), handle.path()) is Some),
    {
        let path = handle.raw();
        let mut current: &DomNode = &self.document;
        let mut i: usize = 0;
        assert(path@.skip(0) =~= path@);
        while i < path.len()
            invariant
                i <= path@.len(),
                path@ == handle.path(),
                node_at(self.spec_document(), handle.path()) == node_at(
                    *current,
                    path@.skip(i as int),
                ),
            decreases path@.len() - i,
        {
            assert(path@.skip(i as int).skip(1) =~= path@.skip(i + 1));
            assert(path@.skip(i as int)[0] == path@[i as int]);
            match current {
                DomNode::Container(c) => {
                    match c.get_child(path[i]) {
                        Some(child) => {
                            current = child;
                        },
                        None => {
                            return false;
                        },
                    }
                },
                _ => {
                    return false;
                },
            }
            i += 1;
        }
        true
    }

    /// Returns true when the node a handle names is the last child of its
    /// parent.
    pub fn is_last_in_parent(&self, handle: &DomHandle) -> (b: bool)
        requires
            handle@ is Some,
            handle.path().len() > 0,
            container_at(self.spec_document(), handle.path().drop_last()),
        ensures
            b == (children_at(self.spec_document(), handle.path().drop_last()).len()
                == handle.path().last() + 1),
    {
        let n = self.parent(handle).children().len();
        let i = handle.index_in_parent();
        i < usize::MAX && n == i + 1
    }

    /// The previous sibling of the node a handle names, if it exists.
    pub fn prev_sibling(&self, handle: &DomHandle) -> (n: Option<&DomNode>)
        requires
            handle@ is Some,
            handle.path().len() > 0,
        ensures
            handle.path().last() == 0 ==> n is None,
            handle.path().last() > 0 ==> refers_to(
                n,
                node_at(
                    self.spec_document(),
                    handle.path().drop_last().push((handle.path().last() - 1) as usize),
                ),
            ),
    {
        if handle.index_in_parent() == 0 {
            return None;
        }
        let prev_handle = handle.prev_sibling();
        if self.contains(&prev_handle) {
            Some(self.lookup_node(&prev_handle))
        } else {
            None
        }
    }

    /// The previous sibling of the node a handle names, mutably, if it exists.
    pub fn prev_sibling_mut(&mut self, handle: &DomHandle) -> (n: Option<&mut DomNode>)
        requires
            handle@ is Some,
            handle.path().len() > 0,
        ensures
            handle.path().last() == 0 ==> n is None && *final(self) == *old(self),
            handle.path().last() > 0 ==> match n {
                Some(r) => *r == node_at(
                    old(self).spec_document(),
                    handle.path().drop_last().push((handle.path().last() - 1) as usize),
                ).unwrap() && updated_at(
                    old(self).spec_document(),
                    final(self).spec_document(),
                    handle.path().drop_last().push((handle.path().last() - 1) as usize),
                    *final(r),
                ),
                None => node_at(
                    old(self).spec_document(),
                    handle.path().drop_last().push((handle.path().last() - 1) as usize),
                ) is None && *final(self) == *old(self),
            },
    {
        if handle.index_in_parent() == 0 {
            return None;
        }
        let prev_handle = handle.prev_sibling();
        if self.contains(&prev_handle) {
            Some(self.lookup_node_mut(&prev_handle))
        } else {
            None
        }
    }

    /// The next sibling of the node a handle names, if it exists.
    pub fn next_sibling(&self, handle: &DomHandle) -> (n: Option<&DomNode>)
        requires
            handle@ is Some,
            handle.path().len() > 0,
            handle.path().last() < usize::MAX,
        ensures
            refers_to(
                n,
                node_at(
                    self.spec_document(),
                    handle.path().drop_last().push((handle.path().last() + 1) as usize),
                ),
            ),
    {
        let next_handle = handle.next_sibling();
        if self.contains(&next_handle) {
            Some(self.lookup_node(&next_handle))
        } else {
            None
        }
    }

    /// The next sibling of the node a handle names, mutably, if it exists.
    pub fn next_sibling_mut(&mut self, handle: &DomHandle) -> (n: Option<&mut DomNode>)
        requires
            handle@ is Some,
            handle.path().len() > 0,
            handle.path().last() < usize::MAX,
        ensures
            match n {
                Some(r) => *r == node_at(
                    old(self).spec_document(),
                    handle.path().drop_last().push((handle.path().last() + 1) as usize),
                ).unwrap() && updated_at(
                    old(self).spec_document(),
                    final(self).spec_document(),
                    handle.path().drop_last().push((handle.path().last() + 1) as usize),
                    *final(r),
                ),
                None => node_at(
                    old(self).spec_document(),
                    handle.path().drop_last().push((handle.path().last() + 1) as usize),
                ) is None && *final(self) == *old(self),
            },
    {
        let next_handle = handle.next_sibling();
        if self.contains(&next_handle) {
            Some(self.lookup_node_mut(&next_handle))
        } else {
            None
        }
    }

    /// Insert `new_node` into the leaf at `handle`, at `offset` in it: before
    /// the leaf at offset 0, after it at its end, and for text in between, by
    /// splitting the text in two around the new node.
    pub fn insert_into_text(&mut self, handle: &DomHandle, offset: usize, new_node: DomNode)
        requires
            old(self).wf(),
            names_child(*old(self), *handle),
            !(node_at(old(self).spec_document(), handle.path()).unwrap() is Container),
            node_at(old(self).spec_document(), handle.path()).unwrap() matches DomNode::Text(t)
                ==> offset <= t.spec_data().len(),
            !(node_at(old(self).spec_document(), handle.path()).unwrap() is Text) ==> offset <= 1,
        ensures
            final(self).wf(),
            Dom::changed_at(*old(self), *final(self), handle.path().drop_last()),
            inserted_into_leaf(
                children_at(old(self).spec_document(), handle.path().drop_last()),
                children_at(final(self).spec_document(), handle.path().drop_last()),
                handle.path().drop_last(),
                handle.path().last() as int,
                offset as int,
                new_node,
            ),
    {
        let ghost old_doc = self.document;
        let ghost pp = handle.path().drop_last();
        let ghost idx = handle.path().last() as int;
        proof {
            lemma_node_at_parent(old_doc, handle.path());
            assert(pp.push(handle.path().last()) =~= handle.path());
        }
        let node = self.lookup_node(handle);
        let mut where_: u8 = 0;
        let mut before: Vec<char> = Vec::new();
        let mut after: Vec<char> = Vec::new();
        match node {
            DomNode::Text(t) => {
                let data = t.data();
                if offset == 0 {
                    where_ = 0;
                } else if offset == data.len() {
                    where_ = 2;
                } else {
                    where_ = 1;
                    before = crate::leaf_nodes::copy_range(data, 0, offset);
                    after = crate::leaf_nodes::copy_range(data, offset, data.len());
                }
            },
            _ => {
                if offset == 0 {
                    where_ = 0;
                } else {
                    where_ = 2;
                }
            },
        }
        let ghost old_children = children_at(old_doc, pp);
        assert(old_children[idx] == node_at(old_doc, handle.path()).unwrap());
        if where_ == 0 {
            self.insert_at(handle, new_node);
        } else if where_ == 2 {
            let index = handle.index_in_parent();
            let n_children = self.parent(handle).children().len();
            assert(index < n_children);
            let next = handle.next_sibling();
            assert(next.path().drop_last() =~= pp);
            self.insert_at(&next, new_node);
        } else {
            let index = handle.index_in_parent();
            let parent = self.parent_mut(handle);
            let ghost c_old = *parent;
            proof {
                lemma_node_at_handle(old_doc, Seq::<usize>::empty(), pp);
                assert(Seq::<usize>::empty() + pp =~= pp);
            }
            let ghost nn = new_node;
            let nodes = vec![DomNode::new_text(before), new_node, DomNode::new_text(after)];
            let ghost expected = old_children.subrange(0, idx) + nodes@ + old_children.subrange(idx + 1, old_children.len() as int);
            parent.replace_child(index, nodes);
            proof {
                lemma_update_container(old_doc, self.document, pp, c_old, *parent);
                let new_children = parent.spec_children();
                assert(new_children == children_at(self.document, pp));
                assert(expected[idx] == nodes@[0]);
                assert(same_content(expected[idx], new_children[idx]));
                assert(expected[idx + 1] == nn);
                assert(same_content(expected[idx + 1], new_children[idx + 1]));
                assert(expected[idx + 2] == nodes@[2]);
                assert(same_content(expected[idx + 2], new_children[idx + 2]));
                assert forall|j: int| idx < j < old_children.len() implies #[trigger] same_content(old_children[j], new_children[j + 2]) by {
                    assert(expected[j + 2] == old_children[j]);
                }
                assert forall|j: int| 0 <= j < idx implies new_children[j] == old_children[j] by {
                    assert(expected[j] == old_children[j]);
                }
            }
        }
    }

    /// The handle of the last leaf or empty container of the document,
    /// going down through the last child of each container.
    pub fn last_node_handle(&self) -> (h: DomHandle)
        requires
            self.wf(),
        ensures
            h@ is Some,
            h.path() == last_path(self.spec_document()),
    {
        let mut cur_handle = DomHandle::root();
        let mut cur: &DomNode = &self.document;
        loop
            invariant
                cur_handle@ is Some,
                cur_handle.path() + last_path(*cur) == last_path(self.spec_document()),
            decreases *cur,
        {
            match cur {
                DomNode::Container(c) => {
                    let n = c.children().len();
                    if n == 0 {
                        assert(cur_handle.path() + Seq::<usize>::empty() =~= cur_handle.path());
                        return cur_handle;
                    }
                    let ghost before = cur_handle.path();
                    cur_handle = cur_handle.child_handle(n - 1);
                    proof {
                        lemma_container_child_decreases(*c, n - 1);
                        assert(before + last_path(*cur) =~= before.push((n - 1) as usize) + last_path(c.spec_children()[n - 1]));
                    }
                    cur = &c.children()[n - 1];
                },
                _ => {
                    assert(cur_handle.path() + Seq::<usize>::empty() =~= cur_handle.path());
                    return cur_handle;
                },
            }
        }
    }

    /// The handle of the nearest list item at or above `child_handle`, if
    /// there is one.
    pub fn find_parent_list_item_or_self(&self, child_handle: &DomHandle) -> (r: Option<DomHandle>)
        requires
            self.wf(),
            child_handle@ is Some,
            node_at(self.spec_document(), child_handle.path()) is Some,
        ensures
            match r {
                Some(h) => h@ is Some && is_prefix(h.path(), child_handle.path()) && is_list_item_at(
                    self.spec_document(),
                    h.path(),
                ) && forall|k: int|
                    h.path().len() < k <= child_handle.path().len() ==> !is_list_item_at(
                        self.spec_document(),
                        #[trigger] child_handle.path().take(k),
                    ),
                None => forall|k: int|
                    0 <= k <= child_handle.path().len() ==> !is_list_item_at(
                        self.spec_document(),
                        #[trigger] child_handle.path().take(k),
                    ),
            },
        decreases child_handle.path().len(),
    {
        let node = self.lookup_node(child_handle);
        assert(child_handle.path().take(child_handle.path().len() as int) =~= child_handle.path());
        match node {
            DomNode::Container(n) => {
                if n.is_list_item() {
                    return Some(child_handle.clone());
                }
            },
            _ => {},
        }
        if child_handle.has_parent() {
            let ph = child_handle.parent_handle();
            proof {
                lemma_node_at_parent(self.spec_document(), child_handle.path());
                assert forall|k: int| 0 <= k <= ph.path().len() implies #[trigger] child_handle.path().take(k) == ph.path().take(k) by {
                    assert(child_handle.path().take(k) =~= ph.path().take(k));
                }
            }
            let r = self.find_parent_list_item_or_self(&ph);
            proof {
                match &r {
                    Some(h) => {
                        assert(is_prefix(h.path(), child_handle.path())) by {
                            assert(child_handle.path().subrange(0, h.path().len() as int) =~= ph.path().subrange(0, h.path().len() as int));
                        }
                        assert forall|k: int| h.path().len() < k <= child_handle.path().len() implies !is_list_item_at(
                            self.spec_document(),
                            #[trigger] child_handle.path().take(k),
                        ) by {
                            if k <= ph.path().len() {
                                assert(child_handle.path().take(k) == ph.path().take(k));
                            }
                        }
                    },
                    None => {
                        assert forall|k: int| 0 <= k <= child_handle.path().len() implies !is_list_item_at(
                            self.spec_document(),
                            #[trigger] child_handle.path().take(k),
                        ) by {
                            if k <= ph.path().len() {
                                assert(child_handle.path().take(k) == ph.path().take(k));
                            }
                        }
                    },
                }
            }
            r
        } else {
            assert forall|k: int| 0 <= k <= child_handle.path().len() implies !is_list_item_at(
                self.spec_document(),
                #[trigger] child_handle.path().take(k),
            ) by {
                assert(k == 0);
                assert(child_handle.path().take(k) =~= child_handle.path());
            }
            None
        }
    }

}

} // verus!
