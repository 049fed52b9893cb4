use vstd::prelude::*;

use crate::dom::{
    Dom, children_at, container_at, lemma_changed_at_trans, lemma_node_at_parent, lemma_update_container, names_child,
};
use crate::handle::DomHandle;
use crate::kinds::{ListType, list_tag};
use crate::tree::{
    lb_children, lemma_lb_sorted, lemma_units_len, node_len, nodes_len, strictly_sorted, text_units, units_children,
    ContainerNode, DomNode, DomNodeKind, KindView, all_ends_filled, all_no_empty_mergeable, collapsed_from,
    ends_filled, joinable, lemma_rehandled_joinable, can_push_spec, texts_of, collapsed_texts_from,
    lemma_same_content_ends_filled, container_ok, handles_ok,
    is_block_kind, keys_of, kind_of, lemma_all_no_empty_mergeable_iff, lemma_children_ok_iff,
    lemma_node_at_handle, lemma_same_children_iff, lemma_same_children_refl, lemma_same_content_no_empty_mergeable,
    no_empty_mergeable, node_at, none_pushable, rehandled_from, same_children, same_content,
};

verus! {

/// Every node of `kids` is a block node, and there is at least one.
pub open spec fn all_blocks(kids: Seq<DomNode>) -> bool {
    kids.len() > 0 && forall|i: int| 0 <= i < kids.len() ==> #[trigger] is_block_kind(kind_of(kids[i]))
}

/// How many nodes the children `kids` of a list item become when it is
/// taken out of its list.
pub open spec fn wrap_len(kids: Seq<DomNode>) -> int {
    if all_blocks(kids) {
        kids.len() as int
    } else {
        1
    }
}

/// `r` is what the children `kids` of a list item become when it is taken
/// out of its list: the children themselves when there are some and all are
/// block nodes, else one paragraph holding them.
pub open spec fn wraps(kids: Seq<DomNode>, r: Seq<DomNode>) -> bool {
    if all_blocks(kids) {
        same_children(kids, r)
    } else {
        &&& r.len() == 1
        &&& r[0] is Container
        &&& r[0]->Container_0.spec_kind() == KindView::Paragraph
        &&& r[0]->Container_0.spec_name() == seq!['p']
        &&& r[0]->Container_0.spec_attrs() == None::<Seq<(Seq<char>, Seq<char>)>>
        &&& same_children(kids, r[0]->Container_0.spec_children())
    }
}

/// `out` is the list items `items` taken apart, in order, each as `wraps`
/// says.
pub open spec fn extracted_from(items: Seq<DomNode>, out: Seq<DomNode>) -> bool
    decreases items.len(),
{
    if items.len() == 0 {
        out.len() == 0
    } else {
        let kids = items.last()->Container_0.spec_children();
        let w = wrap_len(kids);
        &&& out.len() >= w
        &&& extracted_from(items.drop_last(), out.take(out.len() - w))
        &&& wraps(kids, out.skip(out.len() - w))
    }
}

/// `n` is a list like `list` (same name, kind and attributes) holding
/// `kids`.
pub open spec fn list_like(n: DomNode, list: ContainerNode, kids: Seq<DomNode>) -> bool {
    &&& n is Container
    &&& n->Container_0.spec_name() == list.spec_name()
    &&& n->Container_0.spec_kind() == list.spec_kind()
    &&& n->Container_0.spec_attrs() == list.spec_attrs()
    &&& same_children(kids, n->Container_0.spec_children())
}

/// `n` is a new list of type `t` holding `kids`.
pub open spec fn new_list_of(n: DomNode, t: ListType, kids: Seq<DomNode>) -> bool {
    &&& n is Container
    &&& n->Container_0.spec_name() == list_tag(t)
    &&& n->Container_0.spec_kind() == KindView::List(t)
    &&& n->Container_0.spec_attrs() == None::<Seq<(Seq<char>, Seq<char>)>>
    &&& same_children(kids, n->Container_0.spec_children())
}

/// The children `mid` of a container at `p` after `count` list items from
/// `ci` on were taken out of the list at `k` among its children `old_p`:
/// their contents come in place of the list when it became empty, before it
/// when they came from its start, and else after it, followed by a new list
/// of the same type holding the items that came after them.
pub open spec fn extract_mid(
    old_p: Seq<DomNode>,
    k: int,
    ci: int,
    count: int,
    mid: Seq<DomNode>,
    p: Seq<usize>,
) -> bool {
    let list = old_p[k]->Container_0;
    let lk = list.spec_children();
    let items = lk.subrange(ci, ci + count);
    exists|out: Seq<DomNode>|
        #![trigger extracted_from(items, out)]
        {
            &&& extracted_from(items, out)
            &&& if ci == 0 && ci + count == lk.len() {
                rehandled_from(old_p.take(k) + out + old_p.skip(k + 1), mid, p, k)
            } else if ci == 0 {
                exists|l2: DomNode|
                    #![trigger list_like(l2, list, lk.skip(count))]
                    {
                        &&& list_like(l2, list, lk.skip(count))
                        &&& rehandled_from(old_p.take(k) + out + seq![l2] + old_p.skip(k + 1), mid, p, k)
                    }
            } else if ci + count < lk.len() {
                exists|l2: DomNode, nl: DomNode|
                    #![trigger list_like(l2, list, lk.take(ci)), new_list_of(nl, list.spec_kind()->List_0, lk.skip(ci + count))]
                    {
                        &&& list_like(l2, list, lk.take(ci))
                        &&& new_list_of(nl, list.spec_kind()->List_0, lk.skip(ci + count))
                        &&& rehandled_from(
                            old_p.take(k) + seq![l2] + out + seq![nl] + old_p.skip(k + 1),
                            mid,
                            p,
                            k,
                        )
                    }
            } else {
                exists|l2: DomNode|
                    #![trigger list_like(l2, list, lk.take(ci))]
                    {
                        &&& list_like(l2, list, lk.take(ci))
                        &&& rehandled_from(old_p.take(k) + seq![l2] + out + old_p.skip(k + 1), mid, p, k)
                    }
            }
        }
}

/// A list item node.
pub open spec fn is_list_item_node(n: DomNode) -> bool {
    n is Container && n->Container_0.spec_kind() == KindView::ListItem
}

/// Where piece `i` of a text cut at the line breaks `ps` starts: after the
/// break before it.
pub open spec fn piece_start(ps: Seq<nat>, i: int) -> int {
    if i <= 0 {
        0
    } else {
        ps[i - 1] + 1int
    }
}

/// Where piece `i` of a text of length `len` cut at the line breaks `ps`
/// ends: at the break after it, or at the end of the text.
pub open spec fn piece_end(len: int, ps: Seq<nat>, i: int) -> int {
    if i >= ps.len() {
        len
    } else {
        ps[i] as int
    }
}

/// Piece `i` of the text `s` cut at the line breaks `ps`, without them.
pub open spec fn piece(s: Seq<char>, ps: Seq<nat>, i: int) -> Seq<char> {
    s.subrange(piece_start(ps, i), piece_end(s.len() as int, ps, i))
}

/// `item` is the list item for piece `i` (after the first) of the text `s`
/// cut at the line breaks `ps`: it holds the piece; an empty piece may
/// come out as the lone line break before it, and a piece that is a lone
/// line break as an empty item.
pub open spec fn holds_piece(s: Seq<char>, ps: Seq<nat>, i: int, item: DomNode) -> bool {
    &&& is_list_item_node(item)
    &&& {
        ||| text_units(item) == piece(s, ps, i)
        ||| piece(s, ps, i).len() == 0 && text_units(item) == s.subrange(ps[i - 1] as int, ps[i - 1] + 1int)
        ||| piece(s, ps, i) == seq!['\n'] && text_units(item).len() == 0
    }
}

/// `items` are the list items of the text `s` cut at its line breaks `ps`,
/// one per piece, in order; the first piece is left out when it is empty,
/// unless there is no other.
pub open spec fn cut_at_breaks(s: Seq<char>, ps: Seq<nat>, items: Seq<DomNode>) -> bool {
    let m = ps.len() as int;
    let off: int = if piece_end(s.len() as int, ps, 0) > 0 || m == 0 {
        1
    } else {
        0
    };
    &&& items.len() == m + off
    &&& off == 1 ==> is_list_item_node(items[0]) && text_units(items[0]) == piece(s, ps, 0)
    &&& forall|i: int| 1 <= i <= m ==> #[trigger] holds_piece(s, ps, i, items[i - 1 + off])
}

/// Every node of `u` is a block node.
pub open spec fn all_block_kinds(u: Seq<DomNode>) -> bool {
    forall|i: int| 0 <= i < u.len() ==> #[trigger] is_block_kind(kind_of(u[i]))
}

/// `items` are the list items that the nodes `u` make in a new list: one
/// item per node with the node's children when all are block nodes; else
/// their text cut at its line breaks.
pub open spec fn list_items_of(u: Seq<DomNode>, items: Seq<DomNode>) -> bool {
    if all_block_kinds(u) {
        &&& items.len() == u.len()
        &&& forall|i: int|
            0 <= i < u.len() ==> #[trigger] is_list_item_node(items[i])
                && items[i]->Container_0.spec_children() == u[i]->Container_0.spec_children()
    } else {
        cut_at_breaks(units_children(u, u.len() as int), lb_children(u, u.len() as int), items)
    }
}

/// The nodes that go into a new list in place of `n`: the children of a
/// quote or a code block, else `n` itself.
pub open spec fn unwrapped(n: DomNode) -> Seq<DomNode> {
    if n is Container && (n->Container_0.spec_kind() == KindView::Quote || n->Container_0.spec_kind()
        == KindView::CodeBlock) {
        n->Container_0.spec_children()
    } else {
        seq![n]
    }
}

/// The nodes that go into a new list in place of the nodes `r`, in order.
pub open spec fn unwrapped_all(r: Seq<DomNode>) -> Seq<DomNode>
    decreases r.len(),
{
    if r.len() == 0 {
        Seq::empty()
    } else {
        unwrapped_all(r.drop_last()) + unwrapped(r.last())
    }
}

/// The children `kids` at the positions `ks`, in order.
pub open spec fn picked(kids: Seq<DomNode>, ks: Seq<int>) -> Seq<DomNode> {
    Seq::new(ks.len(), |i: int| kids[ks[i]])
}

/// The children `kids` without those at the positions `ks` from the `i`th
/// on, taken out from the last.
pub open spec fn without_from(kids: Seq<DomNode>, ks: Seq<int>, i: int) -> Seq<DomNode>
    decreases ks.len() - i,
{
    if i < 0 || i >= ks.len() {
        kids
    } else {
        without_from(kids, ks, i + 1).remove(ks[i])
    }
}

/// Positions in strictly increasing order, all below `len`.
pub open spec fn increasing_below(ks: Seq<int>, len: int) -> bool {
    &&& forall|i: int, j: int| 0 <= i < j < ks.len() ==> #[trigger] ks[i] < #[trigger] ks[j]
    &&& forall|i: int| 0 <= i < ks.len() ==> 0 <= #[trigger] ks[i] < len
}

/// The last positions of the handles `hs`.
pub open spec fn last_indices(hs: Seq<&DomHandle>) -> Seq<int> {
    Seq::new(hs.len(), |i: int| hs[i].path().last() as int)
}

/// The handles `hs` name children of the container at `pp`, in increasing
/// order.
pub open spec fn sibling_handles(d: Dom, hs: Seq<&DomHandle>, pp: Seq<usize>) -> bool {
    &&& container_at(d.spec_document(), pp)
    &&& forall|i: int|
        0 <= i < hs.len() ==> (#[trigger] hs[i])@ is Some && hs[i].path().len() > 0 && hs[i].path().drop_last()
            == pp
    &&& increasing_below(last_indices(hs), children_at(d.spec_document(), pp).len() as int)
}

/// `mid` is the children `kids` of a container at `pp` after the nodes at
/// the positions `ks` were taken out and a new list of type `t` was put at
/// the first of them, holding the list items that they make.
pub open spec fn wrapped_mid(kids: Seq<DomNode>, ks: Seq<int>, t: ListType, mid: Seq<DomNode>, pp: Seq<usize>) -> bool {
    let w = without_from(kids, ks, 0);
    let k0 = ks[0];
    exists|items: Seq<DomNode>, l: DomNode|
        #![trigger list_items_of(unwrapped_all(picked(kids, ks)), items), new_list_of(l, t, items)]
        {
            &&& list_items_of(unwrapped_all(picked(kids, ks)), items)
            &&& new_list_of(l, t, items)
            &&& rehandled_from(w.take(k0) + seq![l] + w.skip(k0), mid, pp, k0)
        }
}

/// `a` and `b` are the two halves of the list item `item` cut at `offset`:
/// list items like it, `a` holding its text before `offset` and `b` the
/// rest.
pub open spec fn item_halves(item: DomNode, a: DomNode, b: DomNode, offset: int) -> bool {
    &&& a is Container
    &&& b is Container
    &&& a->Container_0.spec_name() == item->Container_0.spec_name()
    &&& b->Container_0.spec_name() == item->Container_0.spec_name()
    &&& a->Container_0.spec_kind() == item->Container_0.spec_kind()
    &&& b->Container_0.spec_kind() == item->Container_0.spec_kind()
    &&& a->Container_0.spec_attrs() == item->Container_0.spec_attrs()
    &&& b->Container_0.spec_attrs() == item->Container_0.spec_attrs()
    &&& text_units(item) == text_units(a) + text_units(b)
    &&& text_units(a).len() == offset
}

/// `same_children` is an equivalence.
pub proof fn lemma_same_children_sym_trans(a: Seq<DomNode>, b: Seq<DomNode>, c: Seq<DomNode>)
    ensures
        same_children(a, b) ==> same_children(b, a),
        same_children(a, b) && same_children(b, c) ==> same_children(a, c),
{
    lemma_same_children_iff(a, b);
    lemma_same_children_iff(b, a);
    lemma_same_children_iff(b, c);
    lemma_same_children_iff(a, c);
    if same_children(a, b) {
        assert forall|i: int| 0 <= i < b.len() implies #[trigger] same_content(b[i], a[i]) by {
            crate::laws::lemma_same_content_sym_trans(a[i], b[i], a[i]);
        }
        if same_children(b, c) {
            assert forall|i: int| 0 <= i < a.len() implies #[trigger] same_content(a[i], c[i]) by {
                crate::laws::lemma_same_content_sym_trans(a[i], b[i], c[i]);
            }
        }
    }
}

/// Content-equal nodes have the same kind.
proof fn lemma_same_content_kind(a: DomNode, b: DomNode)
    requires
        same_content(a, b),
    ensures
        kind_of(a) == kind_of(b),
        a is Container <==> b is Container,
        a is Container ==> same_children(a->Container_0.spec_children(), b->Container_0.spec_children()),
{
}

/// Content-equal children are all block nodes alike.
proof fn lemma_all_blocks_same(a: Seq<DomNode>, b: Seq<DomNode>)
    requires
        same_children(a, b),
    ensures
        all_blocks(a) == all_blocks(b),
{
    lemma_same_children_iff(a, b);
    assert forall|i: int| 0 <= i < a.len() implies #[trigger] is_block_kind(kind_of(a[i])) == is_block_kind(
        kind_of(b[i]),
    ) by {
        lemma_same_content_kind(a[i], b[i]);
    }
    if all_blocks(a) {
        assert forall|i: int| 0 <= i < b.len() implies #[trigger] is_block_kind(kind_of(b[i])) by {
            assert(is_block_kind(kind_of(a[i])));
        }
    }
    if all_blocks(b) {
        assert forall|i: int| 0 <= i < a.len() implies #[trigger] is_block_kind(kind_of(a[i])) by {
            assert(is_block_kind(kind_of(b[i])) == is_block_kind(kind_of(a[i])));
        }
    }
}

/// Taking the child at `k` out and putting `nn` in its place, each step
/// giving the moved children the handles of their new positions, is putting
/// `nn` in place of the child at `k`.
proof fn lemma_remove_insert(
    old_p: Seq<DomNode>,
    c1: Seq<DomNode>,
    nn: Seq<DomNode>,
    mid: Seq<DomNode>,
    p: Seq<usize>,
    k: int,
)
    requires
        0 <= k < old_p.len(),
        rehandled_from(old_p.remove(k), c1, p, k),
        rehandled_from(c1.subrange(0, k) + nn + c1.subrange(k, c1.len() as int), mid, p, k),
    ensures
        rehandled_from(old_p.take(k) + nn + old_p.skip(k + 1), mid, p, k),
{
    let a = c1.subrange(0, k) + nn + c1.subrange(k, c1.len() as int);
    let t = old_p.take(k) + nn + old_p.skip(k + 1);
    assert(t.len() == a.len());
    assert forall|j: int| 0 <= j < k implies mid[j] == t[j] by {
        assert(mid[j] == a[j]);
        assert(a[j] == c1[j]);
        assert(c1[j] == old_p.remove(k)[j]);
    }
    assert forall|j: int| k <= j < t.len() implies #[trigger] same_content(t[j], mid[j]) by {
        assert(same_content(a[j], mid[j]));
        if j < k + nn.len() {
            assert(t[j] == a[j]);
        } else {
            let i = j - nn.len();
            assert(a[j] == c1[i]);
            assert(t[j] == old_p[i + 1]);
            assert(old_p.remove(k)[i] == old_p[i + 1]);
            assert(same_content(old_p.remove(k)[i], c1[i]));
            crate::laws::lemma_same_content_sym_trans(t[j], c1[i], mid[j]);
        }
    }
}

/// Nodes given the handles of new positions keep holding no empty mergeable
/// container.
proof fn lemma_rehandled_no_empty(t: Seq<DomNode>, mid: Seq<DomNode>, p: Seq<usize>, k: int)
    requires
        0 <= k,
        rehandled_from(t, mid, p, k),
        all_no_empty_mergeable(t),
    ensures
        all_no_empty_mergeable(mid),
{
    lemma_all_no_empty_mergeable_iff(t);
    lemma_all_no_empty_mergeable_iff(mid);
    assert forall|j: int| 0 <= j < mid.len() implies #[trigger] no_empty_mergeable(mid[j]) by {
        assert(no_empty_mergeable(t[j]));
        if j >= k {
            lemma_same_content_no_empty_mergeable(t[j], mid[j]);
        }
    }
}

/// The children `rem` left in a list after `count` items were taken out
/// from position `ci` on hold, from `ci` on, what the list `lk` held from
/// `ci + count` on.
proof fn lemma_rest_same(lk: Seq<DomNode>, rem: Seq<DomNode>, count: int, ci: int)
    requires
        0 <= ci,
        0 <= count,
        ci + count <= lk.len(),
        rem.len() == lk.len() - count,
        forall|j: int| ci <= j < rem.len() ==> #[trigger] same_content(lk[j + count], rem[j]),
    ensures
        same_children(lk.skip(ci + count), rem.skip(ci)),
{
    lemma_same_children_iff(lk.skip(ci + count), rem.skip(ci));
    assert forall|j: int| 0 <= j < lk.skip(ci + count).len() implies #[trigger] same_content(
        lk.skip(ci + count)[j],
        rem.skip(ci)[j],
    ) by {
        assert(same_content(lk[(ci + j) + count], rem[ci + j]));
        assert(lk.skip(ci + count)[j] == lk[ci + j + count]);
    }
}

/// The list `list` and the contents of its items from `ci` on, `count` of
/// them, have their ends filled.
pub open spec fn items_ends_filled(list: DomNode, ci: int, count: int) -> bool {
    let lk = list->Container_0.spec_children();
    &&& all_ends_filled(lk)
    &&& forall|j: int| ci <= j < ci + count ==> #[trigger] all_ends_filled(lk[j]->Container_0.spec_children())
}

/// A container holding at least one child, its children like nodes with
/// their ends filled, has its ends filled.
proof fn lemma_list_ends(c: ContainerNode, src: Seq<DomNode>)
    requires
        c.spec_children().len() > 0,
        same_children(src, c.spec_children()),
        forall|j: int| 0 <= j < src.len() ==> #[trigger] ends_filled(src[j]),
    ensures
        ends_filled(DomNode::Container(c)),
{
    let kids = c.spec_children();
    lemma_same_children_iff(src, kids);
    let e = kids.len() - 1;
    assert(ends_filled(src[0]));
    lemma_same_content_ends_filled(src[0], kids[0]);
    assert(ends_filled(src[e]));
    lemma_same_content_ends_filled(src[e], kids[e]);
}

/// A new list with at least one item has its ends filled.
proof fn lemma_new_list_ends(l: DomNode, t: ListType, items: Seq<DomNode>)
    requires
        new_list_of(l, t, items),
        items.len() > 0,
        forall|i: int| 0 <= i < items.len() ==> #[trigger] is_list_item_node(items[i]),
    ensures
        ends_filled(l),
{
    let c = l->Container_0.spec_children();
    lemma_same_children_iff(items, c);
    assert(same_content(items[0], c[0]));
    assert(is_list_item_node(items[0]));
    lemma_same_content_kind(items[0], c[0]);
    assert(c[0]->Container_0.spec_kind() == KindView::ListItem);
    assert(ends_filled(c[0]));
    let e = items.len() - 1;
    assert(same_content(items[e], c[e]));
    assert(is_list_item_node(items[e]));
    lemma_same_content_kind(items[e], c[e]);
    assert(c[e]->Container_0.spec_kind() == KindView::ListItem);
    assert(ends_filled(c[e]));
}

/// What goes into a new list in place of nodes with their ends filled is
/// not empty when they are not.
proof fn lemma_unwrapped_nonempty(r: Seq<DomNode>)
    requires
        all_ends_filled(r),
        r.len() > 0,
    ensures
        unwrapped_all(r).len() > 0,
{
    assert(ends_filled(r[r.len() - 1]));
    assert(unwrapped(r.last()).len() > 0);
}

/// Taking children out keeps their ends filled.
proof fn lemma_without_ends(kids: Seq<DomNode>, ks: Seq<int>, i: int)
    requires
        all_ends_filled(kids),
        increasing_below(ks, kids.len() as int),
        0 <= i <= ks.len(),
    ensures
        all_ends_filled(without_from(kids, ks, i)),
    decreases ks.len() - i,
{
    if i < ks.len() {
        lemma_without_ends(kids, ks, i + 1);
        lemma_increasing_gap(ks, kids.len() as int, i);
        lemma_without_prefix(kids, ks, i + 1);
        let w = without_from(kids, ks, i + 1);
        let r = w.remove(ks[i]);
        assert forall|j: int| 0 <= j < r.len() implies #[trigger] ends_filled(r[j]) by {
            if j < ks[i] {
                assert(r[j] == w[j]);
            } else {
                assert(r[j] == w[j + 1]);
            }
        }
    }
}

/// The node at the path of a child of a container is that child.
pub(crate) proof fn lemma_node_at_child(n: DomNode, pp: Seq<usize>, k: int)
    requires
        container_at(n, pp),
        0 <= k < children_at(n, pp).len(),
        k <= usize::MAX,
    ensures
        node_at(n, pp.push(k as usize)) == Some(children_at(n, pp)[k]),
    decreases pp.len(),
{
    let q = pp.push(k as usize);
    if pp.len() > 0 {
        let c = n->Container_0;
        let child = c.spec_children()[pp[0] as int];
        assert(node_at(n, pp) == node_at(child, pp.skip(1)));
        lemma_node_at_child(child, pp.skip(1), k);
        assert(q.skip(1) =~= pp.skip(1).push(k as usize));
        assert(q[0] == pp[0]);
        assert(node_at(n, q) == node_at(child, q.skip(1)));
    } else {
        assert(q.skip(1) =~= Seq::<usize>::empty());
        assert(q[0] == k as usize);
        assert(node_at(n, q) == node_at(n->Container_0.spec_children()[k], q.skip(1)));
    }
}

/// Strictly increasing positions leave room for those after each.
proof fn lemma_increasing_gap(ks: Seq<int>, len: int, j: int)
    requires
        increasing_below(ks, len),
        0 <= j < ks.len(),
    ensures
        ks[j] + (ks.len() - 1 - j) < len,
    decreases ks.len() - j,
{
    if j < ks.len() - 1 {
        lemma_increasing_gap(ks, len, j + 1);
        assert(ks[j] < ks[j + 1]);
    }
}

/// Taking out children, and then one more at `f2` before all the positions
/// that were given new handles, keeps the relation of the remaining ones.
proof fn lemma_rehandled_remove(a: Seq<DomNode>, cur: Seq<DomNode>, cur2: Seq<DomNode>, p: Seq<usize>, f: int, f2: int)
    requires
        rehandled_from(a, cur, p, f),
        0 <= f2 < f,
        f2 < a.len(),
        rehandled_from(cur.remove(f2), cur2, p, f2),
    ensures
        rehandled_from(a.remove(f2), cur2, p, f2),
{
    let r = a.remove(f2);
    let c = cur.remove(f2);
    assert forall|j: int| 0 <= j < f2 implies cur2[j] == r[j] by {
        assert(cur2[j] == c[j]);
        assert(c[j] == cur[j]);
        assert(cur[j] == a[j]);
    }
    assert forall|j: int| f2 <= j < r.len() implies #[trigger] same_content(r[j], cur2[j]) by {
        assert(same_content(c[j], cur2[j]));
        assert(r[j] == a[j + 1]);
        assert(c[j] == cur[j + 1]);
        if j + 1 < f {
            assert(cur[j + 1] == a[j + 1]);
        } else {
            assert(same_content(a[j + 1], cur[j + 1]));
            crate::laws::lemma_same_content_sym_trans(r[j], c[j], cur2[j]);
        }
    }
}

/// Inserting into children that were given new handles from `f` on, at `f`
/// or before.
proof fn lemma_rehandled_insert(a: Seq<DomNode>, cur: Seq<DomNode>, cur2: Seq<DomNode>, p: Seq<usize>, f: int, x: DomNode)
    requires
        rehandled_from(a, cur, p, f),
        0 <= f <= a.len(),
        rehandled_from(cur.insert(f, x), cur2, p, f),
    ensures
        rehandled_from(a.insert(f, x), cur2, p, f),
{
    let r = a.insert(f, x);
    let c = cur.insert(f, x);
    assert forall|j: int| 0 <= j < f implies cur2[j] == r[j] by {
        assert(cur2[j] == c[j]);
    }
    assert forall|j: int| f <= j < r.len() implies #[trigger] same_content(r[j], cur2[j]) by {
        assert(same_content(c[j], cur2[j]));
        if j > f {
            assert(r[j] == a[j - 1]);
            assert(c[j] == cur[j - 1]);
            assert(same_content(a[j - 1], cur[j - 1]));
            crate::laws::lemma_same_content_sym_trans(r[j], c[j], cur2[j]);
        }
    }
}

/// Taking out the children at the positions from the `i`th on leaves those
/// before the `i`th position as they were.
proof fn lemma_without_prefix(kids: Seq<DomNode>, ks: Seq<int>, i: int)
    requires
        increasing_below(ks, kids.len() as int),
        0 <= i <= ks.len(),
    ensures
        without_from(kids, ks, i).len() == kids.len() - (ks.len() - i),
        forall|j: int|
            0 <= j < (if i < ks.len() { ks[i] } else { kids.len() as int }) ==> #[trigger] without_from(kids, ks, i)[j]
                == kids[j],
    decreases ks.len() - i,
{
    if i < ks.len() {
        lemma_without_prefix(kids, ks, i + 1);
        lemma_increasing_gap(ks, kids.len() as int, i);
        let w = without_from(kids, ks, i + 1);
        assert forall|j: int| 0 <= j < ks[i] implies #[trigger] without_from(kids, ks, i)[j] == kids[j] by {
            assert(w.remove(ks[i])[j] == w[j]);
            if i + 1 < ks.len() {
                assert(ks[i] < ks[i + 1]);
            }
            assert(w[j] == kids[j]);
        }
    }
}

/// The list items that the nodes `nodes` make in a new list; see
/// `list_items_of`.
pub fn items_for_list(nodes: Vec<DomNode>) -> (items: Vec<DomNode>)
    requires
        nodes_len(nodes@) <= usize::MAX,
    ensures
        list_items_of(nodes@, items@),
        all_no_empty_mergeable(nodes@) ==> all_no_empty_mergeable(items@),
        nodes@.len() > 0 ==> items@.len() > 0,
        forall|j: int| 0 <= j < items@.len() ==> #[trigger] is_list_item_node(items@[j]),
{
    let ghost u = nodes@;
    let n = nodes.len();
    let mut i: usize = 0;
    while i < n && nodes[i].is_block_node()
        invariant
            n == nodes@.len(),
            nodes@ == u,
            i <= n,
            forall|j: int| 0 <= j < i ==> #[trigger] is_block_kind(kind_of(u[j])),
        decreases n - i,
    {
        i += 1;
    }
    if i == n {
        let mut rest = nodes;
        let mut items: Vec<DomNode> = Vec::new();
        while rest.len() > 0
            invariant
                all_block_kinds(u),
                items@.len() + rest@.len() == u.len(),
                rest@ == u.skip(items@.len() as int),
                forall|j: int|
                    0 <= j < items@.len() ==> #[trigger] is_list_item_node(items@[j])
                        && items@[j]->Container_0.spec_children() == u[j]->Container_0.spec_children(),
            decreases rest@.len(),
        {
            let ghost t = items@.len() as int;
            let node = rest.remove(0);
            proof {
                assert(node == u[t]);
                assert(is_block_kind(kind_of(u[t])));
                assert(rest@ =~= u.skip(t + 1));
            }
            match node {
                DomNode::Container(c) => {
                    items.push(DomNode::new_list_item(c.take_children()));
                },
                _ => {},
            }
        }
        proof {
            if all_no_empty_mergeable(u) {
                lemma_all_no_empty_mergeable_iff(u);
                lemma_all_no_empty_mergeable_iff(items@);
                assert forall|j: int| 0 <= j < items@.len() implies #[trigger] no_empty_mergeable(items@[j]) by {
                    assert(no_empty_mergeable(u[j]));
                    assert(is_block_kind(kind_of(u[j])));
                    assert(is_list_item_node(items@[j]));
                    assert(items@[j]->Container_0.spec_children() == u[j]->Container_0.spec_children());
                }
            }
        }
        items
    } else {
        proof {
            assert(!is_block_kind(kind_of(u[i as int])));
            assert(!all_block_kinds(u));
        }
        items_cut_at_breaks(nodes)
    }
}

/// The list items of the text of `nodes` cut at its line breaks; see
/// `cut_at_breaks`.
#[verifier::rlimit(40)]
fn items_cut_at_breaks(nodes: Vec<DomNode>) -> (items: Vec<DomNode>)
    requires
        nodes_len(nodes@) <= usize::MAX,
    ensures
        cut_at_breaks(units_children(nodes@, nodes@.len() as int), lb_children(nodes@, nodes@.len() as int), items@),
        all_no_empty_mergeable(nodes@) ==> all_no_empty_mergeable(items@),
        items@.len() > 0,
        forall|j: int| 0 <= j < items@.len() ==> #[trigger] is_list_item_node(items@[j]),
{
    let ghost u = nodes@;
    let ghost s = units_children(u, u.len() as int);
    let ghost ps = lb_children(u, u.len() as int);
    let mut list_item = ContainerNode::new_list_item(nodes);
    proof {
        lemma_units_len(DomNode::Container(list_item));
        lemma_lb_sorted(DomNode::Container(list_item));
        assert(text_units(DomNode::Container(list_item)) == s);
        assert(s.take(s.len() as int) =~= s);
    }
    let mut positions = list_item.line_break_positions();
    let ghost m = ps.len() as int;
    let mut items: Vec<DomNode> = Vec::new();
    proof {
        assert(positions@.map_values(|x: usize| x as nat) == ps);
        assert(ps.take(m) =~= ps);
    }
    while positions.len() > 0
        invariant
            s.len() == nodes_len(u),
            s.len() <= usize::MAX,
            strictly_sorted(ps),
            forall|j: int| 0 <= j < ps.len() ==> #[trigger] ps[j] < s.len(),
            m == ps.len(),
            positions@.len() <= m,
            positions@.map_values(|x: usize| x as nat) == ps.take(positions@.len() as int),
            list_item.spec_kind() == KindView::ListItem,
            text_units(DomNode::Container(list_item)) == s.take(piece_end(s.len() as int, ps, positions@.len() as int)),
            nodes_len(list_item.spec_children()) == piece_end(s.len() as int, ps, positions@.len() as int),
            items@.len() == m - positions@.len(),
            forall|i: int|
                positions@.len() < i <= m ==> #[trigger] holds_piece(s, ps, i, items@[i - 1 - positions@.len()]),
            all_no_empty_mergeable(u) ==> all_no_empty_mergeable(list_item.spec_children())
                && all_no_empty_mergeable(items@),
            forall|j: int| 0 <= j < items@.len() ==> #[trigger] is_list_item_node(items@[j]),
        decreases positions@.len(),
    {
        let ghost q = positions@.len() as int;
        let ghost end = piece_end(s.len() as int, ps, q);
        let ghost before_text = text_units(DomNode::Container(list_item));
        let ghost old_items = items@;
        let position = positions.pop().unwrap();
        proof {
            assert(positions@.map_values(|x: usize| x as nat) =~= ps.take(q - 1));
            assert(position as nat == ps.take(q)[q - 1]);
            assert(position == ps[q - 1]);
            if q < m {
                assert(ps[q - 1] < ps[q]);
            }
        }
        let mut sliced = list_item.slice_after(position);
        proof {
            lemma_units_len(DomNode::Container(list_item));
            lemma_units_len(DomNode::Container(sliced));
            let a = text_units(DomNode::Container(list_item));
            let b = text_units(DomNode::Container(sliced));
            assert(before_text == a + b);
            assert(a =~= s.take(position as int));
            assert forall|j: int| 0 <= j < b.len() implies b[j] == s.subrange(position as int, end)[j] by {
                assert((a + b)[position + j] == b[j]);
            }
            assert(b =~= s.subrange(position as int, end));
        }
        let ghost sl_text = text_units(DomNode::Container(sliced));
        let _ = sliced.slice_before(1);
        proof {
            lemma_units_len(DomNode::Container(sliced));
            if end == position + 1 {
                assert(text_units(DomNode::Container(sliced)) == sl_text);
                assert(piece(s, ps, q).len() == 0);
            } else {
                let c = text_units(DomNode::Container(sliced));
                assert(exists|d: Seq<char>| d.len() == 1 && sl_text == d + c);
                let d = choose|d: Seq<char>| d.len() == 1 && sl_text == d + c;
                assert forall|j: int| 0 <= j < c.len() implies c[j] == s.subrange(position + 1, end)[j] by {
                    assert((d + c)[1 + j] == c[j]);
                }
                assert(c =~= s.subrange(position + 1, end));
                assert(piece(s, ps, q) =~= s.subrange(position + 1, end));
            }
        }
        let ghost tx = text_units(DomNode::Container(sliced));
        let lone_break = sliced.children().len() == 1 && sliced.children()[0].is_line_break();
        let item = if lone_break {
            DomNode::new_list_item(Vec::new())
        } else {
            DomNode::Container(sliced)
        };
        proof {
            assert(piece_start(ps, q) == position + 1);
            assert(piece_end(s.len() as int, ps, q) == end);
            if lone_break {
                let c = sliced.spec_children();
                assert(c[0] is LineBreak);
                assert(text_units(c[0]) == seq!['\n']);
                assert(units_children(c, 0) == Seq::<char>::empty());
                assert(units_children(c, 1) == units_children(c, 0) + text_units(c[0]));
                assert(tx == units_children(c, 1));
                assert(tx =~= seq!['\n']);
                let e = item->Container_0.spec_children();
                assert(e.len() == 0);
                assert(text_units(item) == units_children(e, 0));
                assert(text_units(item).len() == 0);
                if end == position + 1 {
                    assert(text_units(item) =~= piece(s, ps, q));
                } else {
                    assert(piece(s, ps, q) =~= seq!['\n']);
                }
            } else {
                if end == position + 1 {
                    assert(tx == s.subrange(ps[q - 1] as int, ps[q - 1] + 1int));
                } else {
                    assert(tx == piece(s, ps, q));
                }
            }
            assert(holds_piece(s, ps, q, item));
        }
        items.insert(0, item);
        proof {
            assert forall|i: int| q - 1 < i <= m implies #[trigger] holds_piece(s, ps, i, items@[i - 1 - (q - 1)]) by {
                if i == q {
                    assert(items@[0] == item);
                } else {
                    assert(items@[i - 1 - (q - 1)] == old_items[i - 1 - q]);
                }
            }
            assert(piece_end(s.len() as int, ps, q - 1) == position);
            assert forall|j: int| 0 <= j < items@.len() implies #[trigger] is_list_item_node(items@[j]) by {
                if j > 0 {
                    assert(items@[j] == old_items[j - 1]);
                }
            }
            if all_no_empty_mergeable(u) {
                lemma_all_no_empty_mergeable_iff(old_items);
                lemma_all_no_empty_mergeable_iff(items@);
                assert forall|j: int| 0 <= j < items@.len() implies #[trigger] no_empty_mergeable(items@[j]) by {
                    if j > 0 {
                        assert(items@[j] == old_items[j - 1]);
                    }
                }
            }
        }
    }
    let ghost pre = items@;
    let ghost e0 = piece_end(s.len() as int, ps, 0);
    let ghost last = list_item;
    let add_first = list_item.text_len() > 0 || items.len() == 0;
    if add_first {
        items.insert(0, DomNode::Container(list_item));
    }
    proof {
        assert(positions@.len() == 0);
        let off: int = if add_first { 1 } else { 0 };
        assert forall|i: int| 1 <= i <= m implies #[trigger] holds_piece(s, ps, i, items@[i - 1 + off]) by {
            assert(holds_piece(s, ps, i, pre[i - 1 - positions@.len()]));
            assert(items@[i - 1 + off] == pre[i - 1]);
        }
        if add_first {
            assert(items@[0] == DomNode::Container(last));
            assert(text_units(items@[0]) =~= piece(s, ps, 0));
        }
        assert forall|j: int| 0 <= j < items@.len() implies #[trigger] is_list_item_node(items@[j]) by {
            if add_first {
                if j > 0 {
                    assert(items@[j] == pre[j - 1]);
                }
            } else {
                assert(items@[j] == pre[j]);
            }
        }
        if all_no_empty_mergeable(u) {
            lemma_all_no_empty_mergeable_iff(pre);
            lemma_all_no_empty_mergeable_iff(items@);
            assert forall|j: int| 0 <= j < items@.len() implies #[trigger] no_empty_mergeable(items@[j]) by {
                if add_first {
                    if j > 0 {
                        assert(items@[j] == pre[j - 1]);
                    }
                } else {
                    assert(items@[j] == pre[j]);
                }
            }
        }
    }
    items
}

impl ContainerNode {
    /// Take `count` list items, from `child_index` on, out of the list that is
    /// child `k` of this container, and put their contents in this container:
    /// see `extract_mid`; then join the children that can be pushed into one
    /// another.
    pub fn extract_list_items_at(&mut self, k: usize, child_index: usize, count: usize)
        requires
            container_ok(*old(self)),
            k < old(self).spec_children().len(),
            old(self).spec_children()[k as int] is Container,
            child_index + count <= old(self).spec_children()[k as int]->Container_0.spec_children().len(),
            forall|j: int|
                child_index <= j < child_index + count ==> #[trigger] old(self).spec_children()[k as int]->Container_0.spec_children()[j] is Container,
            child_index > 0 && child_index + count < old(self).spec_children()[k as int]->Container_0.spec_children().len()
                ==> old(self).spec_children()[k as int]->Container_0.spec_kind() is List,
            all_ends_filled(old(self).spec_children()),
            items_ends_filled(old(self).spec_children()[k as int], child_index as int, count as int),
        ensures
            container_ok(*final(self)),
            final(self).spec_name() == old(self).spec_name(),
            final(self).spec_kind() == old(self).spec_kind(),
            final(self).spec_attrs() == old(self).spec_attrs(),
            final(self).spec_handle() == old(self).spec_handle(),
            exists|mid: Seq<DomNode>|
                #![trigger collapsed_from(mid, 0)]
                {
                    &&& extract_mid(
                        old(self).spec_children(),
                        k as int,
                        child_index as int,
                        count as int,
                        mid,
                        old(self).spec_handle().unwrap(),
                    )
                    &&& keys_of(final(self).spec_children()) == collapsed_from(mid, 0)
                    &&& texts_of(final(self).spec_children()) == collapsed_texts_from(mid, 0)
                },
            none_pushable(final(self).spec_children()),
            all_ends_filled(final(self).spec_children()),
    {
        let ghost old_p = self.spec_children();
        let ghost p = self.spec_handle().unwrap();
        let ghost list0 = old_p[k as int]->Container_0;
        let ghost lk = list0.spec_children();
        let ghost ci = child_index as int;
        proof {
            lemma_children_ok_iff(old_p, p);
            assert(handles_ok(old_p[k as int], p.push((k as int) as usize)));
        }
        let removed = self.remove_child(k);
        let ghost c1 = self.spec_children();
        let mut list = match removed {
            DomNode::Container(c) => c,
            _ => {
                return;
            },
        };
        let mut nodes_to_insert: Vec<DomNode> = Vec::new();
        let mut t: usize = 0;
        proof {
            assert(list.spec_children() == lk);
            assert forall|j: int| child_index <= j < lk.len() implies #[trigger] same_content(
                lk[j + 0],
                lk[j],
            ) by {
                crate::tree::lemma_same_content_refl(lk[j]);
            }
            assert(lk.subrange(ci, ci) =~= Seq::<DomNode>::empty());
            assert(container_ok(list));
        }
        while t < count
            invariant
                t <= count,
                ci == child_index as int,
                child_index + count <= lk.len(),
                forall|j: int| child_index <= j < child_index + count ==> #[trigger] lk[j] is Container,
                all_ends_filled(lk),
                forall|j: int| ci <= j < ci + count ==> #[trigger] all_ends_filled(lk[j]->Container_0.spec_children()),
                container_ok(list),
                list.spec_name() == list0.spec_name(),
                list.spec_kind() == list0.spec_kind(),
                list.spec_attrs() == list0.spec_attrs(),
                list.spec_handle() == list0.spec_handle(),
                list.spec_children().len() == lk.len() - t,
                forall|j: int| 0 <= j < child_index ==> list.spec_children()[j] == lk[j],
                forall|j: int|
                    #![trigger list.spec_children()[j]]
                    child_index <= j < list.spec_children().len() ==> same_content(
                        lk[j + t],
                        list.spec_children()[j],
                    ),
                extracted_from(lk.subrange(ci, ci + t), nodes_to_insert@),
                all_ends_filled(nodes_to_insert@),
            decreases count - t,
        {
            let ghost before = list.spec_children();
            let ghost out0 = nodes_to_insert@;
            proof {
                assert(same_content(lk[ci + t], before[ci]));
            }
            let item = list.remove_child(child_index);
            proof {
                assert(same_content(lk[ci + t], item));
                lemma_same_content_kind(lk[ci + t], item);
                let after = list.spec_children();
                assert forall|j: int| #![trigger after[j]] child_index <= j < after.len() implies same_content(
                    lk[j + (t + 1)],
                    after[j],
                ) by {
                    assert(before.remove(ci)[j] == before[j + 1]);
                    assert(same_content(lk[(j + 1) + t], before[j + 1]));
                    assert(lk[(j + 1) + t] == lk[j + (t + 1)]);
                    crate::laws::lemma_same_content_sym_trans(lk[j + (t + 1)], before[j + 1], after[j]);
                }
                assert forall|j: int| 0 <= j < child_index implies list.spec_children()[j] == lk[j] by {
                    assert(before.remove(ci)[j] == before[j]);
                }
            }
            let kids = match item {
                DomNode::Container(li) => li.take_children(),
                _ => Vec::new(),
            };
            let ghost lk_kids = lk[ci + t]->Container_0.spec_children();
            proof {
                lemma_all_blocks_same(lk_kids, kids@);
                lemma_same_children_iff(lk_kids, kids@);
                assert(all_ends_filled(lk_kids));
                assert forall|j: int| 0 <= j < kids@.len() implies #[trigger] ends_filled(kids@[j]) by {
                    assert(ends_filled(lk_kids[j]));
                    lemma_same_content_ends_filled(lk_kids[j], kids@[j]);
                }
            }
            let mut wrapped = DomNode::wrap_children_in_paragraphs_if_needed(kids);
            let ghost w = wrapped@;
            proof {
                lemma_same_children_refl(kids@);
                if all_blocks(kids@) {
                    lemma_same_children_sym_trans(lk_kids, kids@, w);
                } else {
                    lemma_same_children_sym_trans(lk_kids, kids@, w[0]->Container_0.spec_children());
                }
                assert(wraps(lk_kids, w));
                assert(w.len() == wrap_len(lk_kids));
            }
            nodes_to_insert.append(&mut wrapped);
            proof {
                let items1 = lk.subrange(ci, ci + t + 1);
                let o1 = nodes_to_insert@;
                assert(items1.drop_last() =~= lk.subrange(ci, ci + t));
                assert(items1.last() == lk[ci + t]);
                assert(o1.take(o1.len() - w.len()) =~= out0);
                assert(o1.skip(o1.len() - w.len()) =~= w);
                assert forall|j: int| 0 <= j < o1.len() implies #[trigger] ends_filled(o1[j]) by {
                    if j < out0.len() {
                        assert(o1[j] == out0[j]);
                    } else {
                        assert(o1[j] == w[j - out0.len()]);
                        if !all_blocks(kids@) {
                            assert(w[0]->Container_0.spec_kind() == KindView::Paragraph);
                            assert(ends_filled(w[0]));
                        } else {
                            assert(w == kids@);
                            assert(ends_filled(kids@[j - out0.len()]));
                        }
                    }
                }
            }
            t += 1;
        }
        let ghost out = nodes_to_insert@;
        let ghost rem = list.spec_children();
        let ghost mut lfin: ContainerNode = list0;
        let ghost mut nlv: DomNode = old_p[k as int];
        let mut new_nodes: Vec<DomNode> = Vec::new();
        if child_index == 0 {
            new_nodes.append(&mut nodes_to_insert);
            if list.children().len() > 0 {
                proof {
                    lfin = list;
                }
                new_nodes.push(DomNode::Container(list));
            }
        } else {
            let after = if list.children().len() > child_index {
                list.take_children_after(child_index)
            } else {
                Vec::new()
            };
            proof {
                assert(list.spec_children() =~= rem.take(ci));
                assert(after@ =~= rem.skip(ci));
            }
            let lt = list.get_list_type();
            proof {
                lfin = list;
            }
            new_nodes.push(DomNode::Container(list));
            new_nodes.append(&mut nodes_to_insert);
            if after.len() > 0 {
                let nl = DomNode::new_list(lt.unwrap(), after);
                proof {
                    nlv = nl;
                }
                new_nodes.push(nl);
            }
        }
        let ghost nn = new_nodes@;
        self.insert_children(k, new_nodes);
        let ghost mid = self.spec_children();
        proof {
            let tgt = old_p.take(k as int) + nn + old_p.skip(k + 1);
            lemma_remove_insert(old_p, c1, nn, mid, p, k as int);
            assert(lk.subrange(ci, ci + count) == lk.subrange(ci, ci + t));
            let ln = DomNode::Container(lfin);
            let a = old_p.take(k as int);
            let b = old_p.skip(k + 1);
            let items = lk.subrange(ci, ci + count);
            assert(extracted_from(items, out));
            if ci == 0 && ci + count == lk.len() {
                assert(nn =~= out);
                assert(tgt =~= a + out + b);
                assert(rehandled_from(a + out + b, mid, p, k as int));
            } else if ci == 0 {
                assert(nn =~= out + seq![ln]);
                assert(tgt =~= a + out + seq![ln] + b);
                assert(rehandled_from(a + out + seq![ln] + b, mid, p, k as int));
                lemma_rest_same(lk, rem, count as int, 0);
                assert(rem.skip(0) =~= rem);
                assert forall|j: int| 0 <= j < lk.skip(count as int).len() implies #[trigger] ends_filled(
                    lk.skip(count as int)[j],
                ) by {
                    assert(lk.skip(count as int)[j] == lk[j + count]);
                }
                lemma_list_ends(lfin, lk.skip(count as int));
                assert(list_like(ln, list0, lk.skip(count as int)));
            } else {
                assert(rem.take(ci) =~= lk.take(ci));
                lemma_same_children_refl(lk.take(ci));
                assert forall|j: int| 0 <= j < lk.take(ci).len() implies #[trigger] ends_filled(lk.take(ci)[j]) by {
                    assert(lk.take(ci)[j] == lk[j]);
                }
                lemma_list_ends(lfin, lk.take(ci));
                assert(list_like(ln, list0, lk.take(ci)));
                if ci + count < lk.len() {
                    assert(nn =~= seq![ln] + out + seq![nlv]);
                    assert(tgt =~= a + seq![ln] + out + seq![nlv] + b);
                    lemma_rest_same(lk, rem, count as int, ci);
                    assert forall|j: int| 0 <= j < lk.skip(ci + count).len() implies #[trigger] ends_filled(
                        lk.skip(ci + count)[j],
                    ) by {
                        assert(lk.skip(ci + count)[j] == lk[j + ci + count]);
                    }
                    lemma_list_ends(nlv->Container_0, lk.skip(ci + count));
                    assert(new_list_of(nlv, list0.spec_kind()->List_0, lk.skip(ci + count)));
                    assert(rehandled_from(a + seq![ln] + out + seq![nlv] + b, mid, p, k as int));
                } else {
                    assert(nn =~= seq![ln] + out);
                    assert(tgt =~= a + seq![ln] + out + b);
                    assert(rehandled_from(a + seq![ln] + out + b, mid, p, k as int));
                }
            }
            assert(extract_mid(old_p, k as int, ci, count as int, mid, p));
            assert forall|j: int| 0 <= j < tgt.len() implies #[trigger] ends_filled(tgt[j]) by {
                if j < k {
                    assert(tgt[j] == old_p[j]);
                } else if j < k + nn.len() {
                    assert(tgt[j] == nn[j - k]);
                } else {
                    assert(tgt[j] == old_p[j - nn.len() + 1]);
                }
            }
            lemma_rehandled_joinable(tgt, mid, p, k as int);
        }
        self.join_children();
    }
}

impl Dom {
    /// Put the nodes the handles name, children of one container in
    /// increasing order, in a new list of type `list_type` at the position of
    /// the first of them: quotes and code blocks give their children; see
    /// `list_items_of` for the items. Then join the children of the
    /// container that can be pushed into one another. With no handles,
    /// append a list holding one empty item to the document.
    pub fn wrap_nodes_in_list(&mut self, list_type: ListType, handles: Vec<&DomHandle>)
        requires
            old(self).wf(),
            handles@.len() > 0 ==> {
                let pp = handles@[0].path().drop_last();
                let kids = children_at(old(self).spec_document(), pp);
                &&& sibling_handles(*old(self), handles@, pp)
                &&& forall|mid: Seq<DomNode>|
                    #![trigger wrapped_mid(kids, last_indices(handles@), list_type, mid, pp)]
                    wrapped_mid(kids, last_indices(handles@), list_type, mid, pp) ==> joinable(mid)
                &&& nodes_len(unwrapped_all(picked(kids, last_indices(handles@)))) <= usize::MAX
            },
        ensures
            final(self).wf(),
            handles@.len() == 0 ==> {
                let old_top = children_at(old(self).spec_document(), Seq::<usize>::empty());
                let top = children_at(final(self).spec_document(), Seq::<usize>::empty());
                &&& Dom::changed_at(*old(self), *final(self), Seq::<usize>::empty())
                &&& top.drop_last() == old_top
                &&& top.len() == old_top.len() + 1
                &&& top.last() is Container
                &&& top.last()->Container_0.spec_name() == list_tag(list_type)
                &&& top.last()->Container_0.spec_kind() == KindView::List(list_type)
                &&& top.last()->Container_0.spec_attrs() == None::<Seq<(Seq<char>, Seq<char>)>>
                &&& top.last()->Container_0.spec_children().len() == 1
                &&& is_list_item_node(top.last()->Container_0.spec_children()[0])
                &&& top.last()->Container_0.spec_children()[0]->Container_0.spec_children().len() == 0
            },
            handles@.len() > 0 ==> {
                let pp = handles@[0].path().drop_last();
                let kids = children_at(old(self).spec_document(), pp);
                let fin = children_at(final(self).spec_document(), pp);
                &&& Dom::changed_at(*old(self), *final(self), pp)
                &&& exists|mid: Seq<DomNode>|
                    #![trigger collapsed_from(mid, 0)]
                    wrapped_mid(kids, last_indices(handles@), list_type, mid, pp) && keys_of(fin) == collapsed_from(
                        mid,
                        0,
                    ) && texts_of(fin) == collapsed_texts_from(mid, 0)
                &&& none_pushable(fin)
                &&& all_ends_filled(kids) ==> all_ends_filled(fin)
            },
    {
        let ghost old0 = *self;
        if handles.len() == 0 {
            let empty_list_item = DomNode::new_list_item(Vec::new());
            let ghost e = empty_list_item;
            let list = DomNode::new_list(list_type, vec![empty_list_item]);
            let ghost lv = list;
            self.append_at_end_of_document(list);
            proof {
                let top = children_at(self.spec_document(), Seq::<usize>::empty());
                let lc = lv->Container_0.spec_children();
                assert(lc =~= seq![e]);
                lemma_same_children_iff(lc, top.last()->Container_0.spec_children());
                assert(same_content(lc[0], top.last()->Container_0.spec_children()[0]));
                lemma_same_content_kind(lc[0], top.last()->Container_0.spec_children()[0]);
                lemma_same_children_iff(
                    lc[0]->Container_0.spec_children(),
                    top.last()->Container_0.spec_children()[0]->Container_0.spec_children(),
                );
            }
            return;
        }
        let ghost pp = handles@[0].path().drop_last();
        let ghost kids = children_at(old0.spec_document(), pp);
        let ghost ks = last_indices(handles@);
        let n = handles.len();
        proof {
            lemma_without_prefix(kids, ks, n as int);
        }
        let mut removed_rev: Vec<DomNode> = Vec::new();
        let mut i: usize = n;
        while i > 0
            invariant
                n == handles@.len(),
                n == ks.len(),
                0 < n,
                i <= n,
                self.wf(),
                old0.wf(),
                sibling_handles(old0, handles@, pp),
                kids == children_at(old0.spec_document(), pp),
                ks == last_indices(handles@),
                container_at(self.spec_document(), pp),
                i == n ==> *self == old0,
                i < n ==> Dom::changed_at(old0, *self, pp),
                rehandled_from(
                    without_from(kids, ks, i as int),
                    children_at(self.spec_document(), pp),
                    pp,
                    if i < n {
                        ks[i as int]
                    } else {
                        kids.len() as int
                    },
                ),
                removed_rev@.len() == n - i,
                forall|t: int| 0 <= t < n - i ==> #[trigger] removed_rev@[t] == kids[ks[n - 1 - t]],
            decreases i,
        {
            let ghost prev = *self;
            let ghost f = if i < n {
                ks[i as int]
            } else {
                kids.len() as int
            };
            i -= 1;
            let h = handles[i];
            let ghost cur = children_at(self.spec_document(), pp);
            let ghost k = ks[i as int];
            proof {
                lemma_increasing_gap(ks, kids.len() as int, i as int);
                lemma_without_prefix(kids, ks, i + 1);
                if i + 1 < n {
                    assert(ks[i as int] < ks[i + 1]);
                }
                assert(h == handles@[i as int]);
                assert(h.path().drop_last() == pp);
                assert(h.path() =~= pp.push(k as usize));
                lemma_node_at_child(self.spec_document(), pp, k);
                assert(cur[k] == without_from(kids, ks, i + 1)[k]);
                assert(without_from(kids, ks, i + 1)[k] == kids[k]);
            }
            let r = self.remove(h);
            proof {
                lemma_rehandled_remove(
                    without_from(kids, ks, i + 1),
                    cur,
                    children_at(self.spec_document(), pp),
                    pp,
                    f,
                    k,
                );
                if i + 1 < n {
                    lemma_changed_at_trans(old0.spec_document(), prev.spec_document(), self.spec_document(), pp);
                }
                lemma_node_at_handle(old0.spec_document(), Seq::<usize>::empty(), pp);
            }
            removed_rev.push(r);
            proof {
                assert forall|t: int| 0 <= t < n - i implies #[trigger] removed_rev@[t] == kids[ks[n - 1 - t]] by {
                    if t == n - 1 - i {
                        assert(removed_rev@[t] == r);
                    }
                }
            }
        }
        let ghost picks = picked(kids, ks);
        let ghost cur = children_at(self.spec_document(), pp);
        let mut removed_nodes: Vec<DomNode> = Vec::new();
        proof {
            assert(picks.take(0) =~= Seq::<DomNode>::empty());
        }
        while removed_rev.len() > 0
            invariant
                n == ks.len(),
                removed_rev@.len() <= n,
                picks == picked(kids, ks),
                forall|t: int| 0 <= t < removed_rev@.len() ==> #[trigger] removed_rev@[t] == picks[n - 1 - t],
                removed_nodes@ == unwrapped_all(picks.take(n - removed_rev@.len())),
            decreases removed_rev@.len(),
        {
            let ghost j = n - removed_rev@.len();
            let node = removed_rev.pop().unwrap();
            proof {
                assert(node == picks[j]);
                assert(picks.take(j + 1).drop_last() =~= picks.take(j));
                assert(picks.take(j + 1).last() == picks[j]);
            }
            let ghost before = removed_nodes@;
            let k = node.kind();
            if k == DomNodeKind::Quote || k == DomNodeKind::CodeBlock {
                match node {
                    DomNode::Container(c) => {
                        let mut ch = c.take_children();
                        removed_nodes.append(&mut ch);
                    },
                    _ => {},
                }
            } else {
                removed_nodes.push(node);
            }
            proof {
                assert(removed_nodes@ =~= before + unwrapped(picks[j]));
            }
        }
        proof {
            assert(picks.take(n as int) =~= picks);
            if all_ends_filled(kids) {
                assert forall|j: int| 0 <= j < picks.len() implies #[trigger] ends_filled(picks[j]) by {
                    assert(picks[j] == kids[ks[j]]);
                }
                lemma_unwrapped_nonempty(picks);
            }
        }
        let list_items = items_for_list(removed_nodes);
        let ghost items = list_items@;
        let list = DomNode::new_list(list_type, list_items);
        let ghost lv = list;
        let first_handle = handles[0];
        let ghost k0 = ks[0];
        let ghost w = without_from(kids, ks, 0);
        proof {
            lemma_increasing_gap(ks, kids.len() as int, 0);
            lemma_without_prefix(kids, ks, 0);
            assert(first_handle.path().last() == k0);
        }
        let ghost rem_dom = *self;
        self.insert_at(first_handle, list);
        let ghost mid = children_at(self.spec_document(), pp);
        proof {
            lemma_changed_at_trans(old0.spec_document(), rem_dom.spec_document(), self.spec_document(), pp);
            lemma_rehandled_insert(w, cur, mid, pp, k0, lv);
            let tgt = w.take(k0) + seq![lv] + w.skip(k0);
            assert(w.insert(k0, lv) =~= tgt);
            lemma_same_children_refl(items);
            assert(new_list_of(lv, list_type, items));
            assert(list_items_of(unwrapped_all(picks), items));
            assert(wrapped_mid(kids, ks, list_type, mid, pp));
            assert(joinable(mid));
            if all_ends_filled(kids) {
                lemma_without_ends(kids, ks, 0);
                lemma_new_list_ends(lv, list_type, items);
                assert forall|j: int| 0 <= j < tgt.len() implies #[trigger] ends_filled(tgt[j]) by {
                    if j < k0 {
                        assert(tgt[j] == w[j]);
                    } else if j > k0 {
                        assert(tgt[j] == w[j - 1]);
                    } else {
                        assert(tgt[j] == lv);
                    }
                }
                lemma_rehandled_joinable(tgt, mid, pp, k0);
            }
        }
        let ghost mid_dom = *self;
        let parent = first_handle.parent_handle();
        self.join_nodes_in_container(&parent);
        proof {
            lemma_changed_at_trans(old0.spec_document(), mid_dom.spec_document(), self.spec_document(), pp);
        }
    }

    /// Cut the list item a handle names at `offset`: it keeps its text
    /// before `offset` and a new list item after it holds the rest; then join
    /// the children of the list that can be pushed into one another.
    pub fn slice_list_item(&mut self, handle: &DomHandle, offset: usize)
        requires
            old(self).wf(),
            names_child(*old(self), *handle),
            handle.path().last() < usize::MAX,
            is_list_item_node(node_at(old(self).spec_document(), handle.path()).unwrap()),
            node_len(node_at(old(self).spec_document(), handle.path()).unwrap()) <= usize::MAX,
            offset <= node_len(node_at(old(self).spec_document(), handle.path()).unwrap()),
            joinable(children_at(old(self).spec_document(), handle.path().drop_last())),
        ensures
            final(self).wf(),
            Dom::changed_at(*old(self), *final(self), handle.path().drop_last()),
            ({
                let pp = handle.path().drop_last();
                let k = handle.path().last() as int;
                let kids = children_at(old(self).spec_document(), pp);
                exists|mid: Seq<DomNode>, a: DomNode, b: DomNode|
                    #![trigger collapsed_from(mid, 0), item_halves(kids[k], a, b, offset as int)]
                    {
                        &&& item_halves(kids[k], a, b, offset as int)
                        &&& rehandled_from(kids.take(k) + seq![a, b] + kids.skip(k + 1), mid, pp, k)
                        &&& keys_of(children_at(final(self).spec_document(), pp)) == collapsed_from(mid, 0)
                        &&& texts_of(children_at(final(self).spec_document(), pp)) == collapsed_texts_from(mid, 0)
                    }
            }),
            none_pushable(children_at(final(self).spec_document(), handle.path().drop_last())),
            all_no_empty_mergeable(children_at(old(self).spec_document(), handle.path().drop_last()))
                ==> all_no_empty_mergeable(children_at(final(self).spec_document(), handle.path().drop_last())),
    {
        let ghost old_doc = self.spec_document();
        let ghost pp = handle.path().drop_last();
        let ghost kids = children_at(old_doc, pp);
        proof {
            lemma_node_at_parent(old_doc, handle.path());
            lemma_node_at_handle(old_doc, Seq::<usize>::empty(), pp);
            assert(Seq::<usize>::empty() + pp =~= pp);
        }
        let k = handle.index_in_parent();
        let parent = self.parent_mut(handle);
        let ghost c_old = *parent;
        proof {
            assert(container_ok(c_old));
            assert(c_old.spec_handle() == Some(pp));
            lemma_children_ok_iff(kids, pp);
            assert(handles_ok(kids[k as int], pp.push((k as int) as usize)));
            lemma_all_no_empty_mergeable_iff(kids);
        }
        let removed = parent.remove_child(k);
        let ghost c1 = parent.spec_children();
        match removed {
            DomNode::Container(mut li) => {
                let ghost li0 = li;
                let after = li.slice_after(offset);
                let ghost a = DomNode::Container(li);
                let ghost b = DomNode::Container(after);
                let mut nodes: Vec<DomNode> = Vec::new();
                nodes.push(DomNode::Container(li));
                nodes.push(DomNode::Container(after));
                let ghost nn = nodes@;
                parent.insert_children(k, nodes);
                let ghost mid = parent.spec_children();
                proof {
                    assert(nn =~= seq![a, b]);
                    lemma_remove_insert(kids, c1, nn, mid, pp, k as int);
                    let tgt = kids.take(k as int) + nn + kids.skip(k + 1);
                    assert(item_halves(kids[k as int], a, b, offset as int));
                    assert forall|j: int|
                        0 <= j < tgt.len() - 1 && #[trigger] can_push_spec(tgt[j], tgt[j + 1]) implies ends_filled(
                            tgt[j],
                        ) && ends_filled(tgt[j + 1]) by {
                        if j + 1 < k {
                            assert(tgt[j] == kids[j]);
                            assert(tgt[j + 1] == kids[j + 1]);
                        } else if j > k + 1 {
                            assert(tgt[j] == kids[j - 1]);
                            assert(tgt[j + 1] == kids[j]);
                            assert(can_push_spec(kids[j - 1], kids[(j - 1) + 1]));
                        } else if j == k - 1 {
                            assert(tgt[j + 1] == a);
                        } else if j == k {
                            assert(tgt[j] == a);
                        } else {
                            assert(tgt[j] == b);
                        }
                    }
                    lemma_rehandled_joinable(tgt, mid, pp, k as int);
                    if all_no_empty_mergeable(kids) {
                        assert(no_empty_mergeable(kids[k as int]));
                        lemma_all_no_empty_mergeable_iff(tgt);
                        assert forall|j: int| 0 <= j < tgt.len() implies #[trigger] no_empty_mergeable(tgt[j]) by {
                            if j < k {
                                assert(tgt[j] == kids[j]);
                            } else if j > k + 1 {
                                assert(tgt[j] == kids[j - 1]);
                            }
                        }
                        lemma_rehandled_no_empty(tgt, mid, pp, k as int);
                    }
                }
                parent.join_children();
            },
            _ => {},
        }
        proof {
            lemma_update_container(old_doc, self.spec_document(), pp, c_old, *parent);
        }
    }

    /// Take `count` list items, from `child_index` on, out of the list a
    /// handle names and put their contents in its parent: see
    /// `extract_mid`; then join the children of the parent that can be
    /// pushed into one another.
    pub fn extract_list_items(&mut self, handle: &DomHandle, child_index: usize, count: usize)
        requires
            old(self).wf(),
            names_child(*old(self), *handle),
            container_at(old(self).spec_document(), handle.path()),
            child_index + count <= children_at(old(self).spec_document(), handle.path()).len(),
            forall|j: int|
                child_index <= j < child_index + count ==> #[trigger] children_at(
                    old(self).spec_document(),
                    handle.path(),
                )[j] is Container,
            child_index > 0 && child_index + count < children_at(old(self).spec_document(), handle.path()).len()
                ==> node_at(old(self).spec_document(), handle.path()).unwrap()->Container_0.spec_kind() is List,
            all_ends_filled(children_at(old(self).spec_document(), handle.path().drop_last())),
            items_ends_filled(node_at(old(self).spec_document(), handle.path()).unwrap(), child_index as int, count as int),
        ensures
            final(self).wf(),
            Dom::changed_at(*old(self), *final(self), handle.path().drop_last()),
            exists|mid: Seq<DomNode>|
                #![trigger collapsed_from(mid, 0)]
                {
                    &&& extract_mid(
                        children_at(old(self).spec_document(), handle.path().drop_last()),
                        handle.path().last() as int,
                        child_index as int,
                        count as int,
                        mid,
                        handle.path().drop_last(),
                    )
                    &&& keys_of(children_at(final(self).spec_document(), handle.path().drop_last()))
                        == collapsed_from(mid, 0)
                    &&& texts_of(children_at(final(self).spec_document(), handle.path().drop_last()))
                        == collapsed_texts_from(mid, 0)
                },
            none_pushable(children_at(final(self).spec_document(), handle.path().drop_last())),
            all_ends_filled(children_at(final(self).spec_document(), handle.path().drop_last())),
    {
        let ghost old_doc = self.spec_document();
        let ghost pp = handle.path().drop_last();
        proof {
            lemma_node_at_parent(old_doc, handle.path());
            lemma_node_at_handle(old_doc, Seq::<usize>::empty(), pp);
            assert(Seq::<usize>::empty() + pp =~= pp);
        }
        let k = handle.index_in_parent();
        let parent_handle = handle.parent_handle();
        let node = self.lookup_node_mut(&parent_handle);
        match node {
            DomNode::Container(c) => {
                let ghost c_old = *c;
                proof {
                    assert(c_old.spec_handle() == Some(pp));
                }
                c.extract_list_items_at(k, child_index, count);
                proof {
                    lemma_update_container(old_doc, self.spec_document(), pp, c_old, *c);
                }
            },
            _ => {},
        }
    }

    /// Take all the items out of the list a handle names, as
    /// `extract_list_items` does.
    pub fn extract_from_list(&mut self, handle: &DomHandle)
        requires
            old(self).wf(),
            names_child(*old(self), *handle),
            container_at(old(self).spec_document(), handle.path()),
            forall|j: int|
                0 <= j < children_at(old(self).spec_document(), handle.path()).len() ==> #[trigger] children_at(
                    old(self).spec_document(),
                    handle.path(),
                )[j] is Container,
            all_ends_filled(children_at(old(self).spec_document(), handle.path().drop_last())),
            items_ends_filled(
                node_at(old(self).spec_document(), handle.path()).unwrap(),
                0,
                children_at(old(self).spec_document(), handle.path()).len() as int,
            ),
        ensures
            final(self).wf(),
            Dom::changed_at(*old(self), *final(self), handle.path().drop_last()),
            exists|mid: Seq<DomNode>|
                #![trigger collapsed_from(mid, 0)]
                {
                    &&& extract_mid(
                        children_at(old(self).spec_document(), handle.path().drop_last()),
                        handle.path().last() as int,
                        0,
                        children_at(old(self).spec_document(), handle.path()).len() as int,
                        mid,
                        handle.path().drop_last(),
                    )
                    &&& keys_of(children_at(final(self).spec_document(), handle.path().drop_last()))
                        == collapsed_from(mid, 0)
                    &&& texts_of(children_at(final(self).spec_document(), handle.path().drop_last()))
                        == collapsed_texts_from(mid, 0)
                },
            none_pushable(children_at(final(self).spec_document(), handle.path().drop_last())),
            all_ends_filled(children_at(final(self).spec_document(), handle.path().drop_last())),
    {
        let count = match self.lookup_node(handle) {
            DomNode::Container(list) => list.children().len(),
            _ => 0,
        };
        self.extract_list_items(handle, 0, count);
    }
}

} // verus!
