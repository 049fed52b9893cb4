use vstd::prelude::*;

use crate::dom::{Dom, children_at, container_at, lemma_node_at_parent, lemma_update_container, names_child};
use crate::handle::{DomHandle, is_prefix};
use crate::action_list::{DomAction, DomActionList, moves_parent_or_self};
use crate::range::{Range, first_leaf_from};
use crate::tree::{
    ContainerNode, DomNode, KindView, clone_nodes, handles_ok, lemma_children_ok_iff, lemma_node_at_handle,
    lemma_same_nodes_children, lemma_same_children_iff, node_at, node_len, nodes_len, rehandled_from,
    same_children, same_content, updated_at,
};

verus! {

/// The closest ancestor of the node at `path` that is a list or a list
/// item, if there is one.
pub open spec fn structure_ancestor(doc: DomNode, path: Seq<usize>) -> Option<Seq<usize>>
    decreases path.len(),
{
    if path.len() == 0 {
        None
    } else {
        let pp = path.drop_last();
        let p = node_at(doc, pp).unwrap();
        if p is Container && (p->Container_0.spec_kind() is List || p->Container_0.spec_kind() is ListItem) {
            Some(pp)
        } else if pp.len() > 0 {
            structure_ancestor(doc, pp)
        } else {
            None
        }
    }
}

/// The nodes at `a` and `b` are formatting containers of the same format.
pub open spec fn same_format(doc: DomNode, a: Seq<usize>, b: Seq<usize>) -> bool {
    let x = node_at(doc, a).unwrap();
    let y = node_at(doc, b).unwrap();
    &&& x is Container
    &&& y is Container
    &&& x->Container_0.spec_kind() is Formatting
    &&& x->Container_0.spec_kind() == y->Container_0.spec_kind()
}

/// Dom `d1` is `d0` after the children of the container at `from` were
/// appended to the container at `to` and the container at `from` was
/// removed.
pub open spec fn children_moved(d0: Dom, d1: Dom, from: Seq<usize>, to: Seq<usize>) -> bool {
    let fk = children_at(d0.spec_document(), from);
    let tk = children_at(d0.spec_document(), to);
    let pp = from.drop_last();
    let k = from.last() as int;
    exists|mid: Dom|
        #![trigger Dom::changed_at(d0, mid, to)]
        {
            &&& mid.wf()
            &&& Dom::changed_at(d0, mid, to)
            &&& children_at(mid.spec_document(), to).take(tk.len() as int) == tk
            &&& same_children(fk, children_at(mid.spec_document(), to).skip(tk.len() as int))
            &&& Dom::changed_at(mid, d1, pp)
            &&& rehandled_from(children_at(mid.spec_document(), pp).remove(k), children_at(d1.spec_document(), pp), pp, k)
        }
}

/// The path `h` with its position at depth `level` one back and, when
/// there is one, the position after it set to `n`: where the node at `h`
/// is once the container at depth `level` on its way was merged into the
/// one before it, which held `n` children.
pub open spec fn merged_path(h: Seq<usize>, level: int, n: nat) -> Seq<usize> {
    let h1 = h.update(level, (h[level] - 1) as usize);
    if level + 1 < h.len() {
        h1.update(level + 1, n as usize)
    } else {
        h1
    }
}

/// Dom `d1` is `d0` after each container on the way to the node at `h`,
/// from depth `level` down, was merged into the container before it when
/// both are formatting containers of the same format.
pub open spec fn format_joined(d0: Dom, d1: Dom, h: Seq<usize>, level: int) -> bool
    decreases h.len() - level,
{
    if level < 0 || level >= h.len() || node_at(d0.spec_document(), h.take(level + 1)) is None {
        d1 == d0
    } else {
        let cur = h.take(level + 1);
        let prev = cur.update(level, (h[level] - 1) as usize);
        if h[level] > 0 && same_format(d0.spec_document(), prev, cur) {
            exists|mid: Dom|
                #![trigger children_moved(d0, mid, cur, prev)]
                children_moved(d0, mid, cur, prev) && format_joined(
                    mid,
                    d1,
                    merged_path(h, level, children_at(d0.spec_document(), prev).len()),
                    level + 1,
                )
        } else {
            format_joined(d0, d1, h, level + 1)
        }
    }
}

/// A move that takes a node whose parent's path differs from `h` at a depth
/// before `level`.
pub open spec fn move_clear(a: DomAction, h: Seq<usize>, level: int) -> bool {
    match a {
        DomAction::Move(m) => {
            let f = m.from_handle.path();
            &&& m.from_handle@ is Some
            &&& f.len() >= 2
            &&& f.len() - 2 < level
            &&& f.len() - 2 < h.len()
            &&& f[f.len() - 2] != h[f.len() - 2]
        },
        _ => true,
    }
}

/// Every move among `acts` is clear of `h` before depth `level`.
pub open spec fn moves_clear(acts: Seq<DomAction>, h: Seq<usize>, level: int) -> bool {
    forall|j: int| 0 <= j < acts.len() ==> #[trigger] move_clear(acts[j], h, level)
}

/// Updating a tree at one path leaves the nodes at paths that neither lead
/// to it nor go through it as they were.
proof fn lemma_updated_at_elsewhere(old: DomNode, new: DomNode, path: Seq<usize>, sub: DomNode, q: Seq<usize>)
    requires
        updated_at(old, new, path, sub),
        !is_prefix(path, q),
        !is_prefix(q, path),
    ensures
        node_at(new, q) == node_at(old, q),
    decreases path.len(),
{
    if path.len() == 0 {
        assert(q.subrange(0, 0) =~= path);
    } else if q.len() == 0 {
        assert(path.subrange(0, 0) =~= q);
    } else {
        let o = old->Container_0;
        let n = new->Container_0;
        if q[0] == path[0] {
            assert(!is_prefix(path.skip(1), q.skip(1))) by {
                if is_prefix(path.skip(1), q.skip(1)) {
                    assert forall|j: int| 0 <= j < path.len() implies q.subrange(0, path.len() as int)[j] == path[j] by {
                        if j > 0 {
                            assert(q.skip(1).subrange(0, path.len() - 1)[j - 1] == path.skip(1)[j - 1]);
                        }
                    }
                    assert(q.subrange(0, path.len() as int) =~= path);
                }
            }
            assert(!is_prefix(q.skip(1), path.skip(1))) by {
                if is_prefix(q.skip(1), path.skip(1)) {
                    assert forall|j: int| 0 <= j < q.len() implies path.subrange(0, q.len() as int)[j] == q[j] by {
                        if j > 0 {
                            assert(path.skip(1).subrange(0, q.len() - 1)[j - 1] == q.skip(1)[j - 1]);
                        }
                    }
                    assert(path.subrange(0, q.len() as int) =~= q);
                }
            }
            lemma_updated_at_elsewhere(
                o.spec_children()[path[0] as int],
                n.spec_children()[path[0] as int],
                path.skip(1),
                sub,
                q.skip(1),
            );
        }
    }
}

/// Copies of nodes carry the handles of the nodes they copy.
proof fn lemma_same_nodes_handles(s: Seq<DomNode>, t: Seq<DomNode>)
    requires
        crate::tree::same_nodes(s, t),
    ensures
        s.len() == t.len(),
        forall|i: int| 0 <= i < s.len() ==> (#[trigger] t[i]).spec_handle() == s[i].spec_handle(),
    decreases s.len(),
{
    if s.len() > 0 {
        lemma_same_nodes_handles(s.drop_last(), t.drop_last());
        assert forall|i: int| 0 <= i < s.len() implies (#[trigger] t[i]).spec_handle() == s[i].spec_handle() by {
            if i < s.len() - 1 {
                assert(t.drop_last()[i] == t[i]);
                assert(s.drop_last()[i] == s[i]);
            } else {
                assert(crate::tree::same_node(s.last(), t.last()));
            }
        }
    }
}

impl Dom {
    /// The handles of the node at `handle` and of all its ancestors, from the
    /// document down.
    pub fn list_of_ancestors_from_root(handle: &DomHandle) -> (r: Vec<DomHandle>)
        requires
            handle@ is Some,
        ensures
            r@.len() == handle.path().len() + 1,
            forall|i: int| 0 <= i < r@.len() ==> (#[trigger] r@[i])@ == Some(handle.path().take(i)),
    {
        let ghost p = handle.path();
        let mut ancestors: Vec<DomHandle> = Vec::new();
        let mut cur_handle = handle.clone();
        while cur_handle.has_parent()
            invariant
                cur_handle@ is Some,
                cur_handle.path().len() <= p.len(),
                cur_handle.path() == p.take(cur_handle.path().len() as int),
                ancestors@.len() == p.len() - cur_handle.path().len(),
                forall|j: int|
                    0 <= j < ancestors@.len() ==> (#[trigger] ancestors@[j])@ == Some(
                        p.take(cur_handle.path().len() + 1 + j),
                    ),
            decreases cur_handle.path().len(),
        {
            let ghost before = ancestors@;
            let ghost len = cur_handle.path().len();
            ancestors.insert(0, cur_handle.clone());
            cur_handle = cur_handle.parent_handle();
            proof {
                assert(cur_handle.path() =~= p.take(len - 1));
                assert forall|j: int| 0 <= j < ancestors@.len() implies (#[trigger] ancestors@[j])@ == Some(
                    p.take(cur_handle.path().len() + 1 + j),
                ) by {
                    if j > 0 {
                        assert(ancestors@[j] == before[j - 1]);
                    }
                }
            }
        }
        ancestors.insert(0, DomHandle::root());
        proof {
            assert(p.take(0) =~= Seq::<usize>::empty());
            assert(p.take(p.len() as int) =~= p);
        }
        ancestors
    }

    /// The handle of the closest ancestor of the node a handle names that is
    /// a list or a list item, if there is one.
    pub fn find_structure_ancestor(&self, handle: &DomHandle) -> (r: Option<DomHandle>)
        requires
            self.wf(),
            names_child(*self, *handle),
        ensures
            match r {
                Some(h) => structure_ancestor(self.spec_document(), handle.path()) == Some(h.path()) && h@ is Some,
                None => structure_ancestor(self.spec_document(), handle.path()) is None,
            },
        decreases handle.path().len(),
    {
        let ghost doc = self.spec_document();
        let ghost pp = handle.path().drop_last();
        proof {
            lemma_node_at_parent(doc, handle.path());
            lemma_node_at_handle(doc, Seq::<usize>::empty(), pp);
            assert(Seq::<usize>::empty() + pp =~= pp);
        }
        let parent = self.parent(handle);
        if parent.is_structure_node() {
            Some(parent.handle())
        } else {
            let parent_handle = parent.handle();
            if parent_handle.has_parent() {
                self.find_structure_ancestor(&parent_handle)
            } else {
                None
            }
        }
    }

    /// True when the nodes two handles name are formatting containers of
    /// the same format.
    pub fn can_merge_format_nodes(&self, prev: &DomHandle, next: &DomHandle) -> (b: bool)
        requires
            prev@ is Some,
            next@ is Some,
            node_at(self.spec_document(), prev.path()) is Some,
            node_at(self.spec_document(), next.path()) is Some,
        ensures
            b == same_format(self.spec_document(), prev.path(), next.path()),
    {
        match (self.lookup_node(prev), self.lookup_node(next)) {
            (DomNode::Container(prev_node), DomNode::Container(next_node)) => {
                match (prev_node.kind(), next_node.kind()) {
                    (
                        crate::tree::ContainerNodeKind::Formatting(prev_format),
                        crate::tree::ContainerNodeKind::Formatting(next_format),
                    ) => *prev_format == *next_format,
                    _ => false,
                }
            },
            _ => false,
        }
    }

    /// The handle of the first leaf of a range, if it has one.
    pub fn find_next_node_range(&self, range: Range) -> (r: Option<DomHandle>)
        ensures
            match first_leaf_from(range.locations@, 0) {
                Some(i) => r is Some && r.unwrap()@ == range.locations@[i].node_handle@,
                None => r is None,
            },
    {
        let n = range.locations.len();
        let mut i: usize = 0;
        while i < n && !range.locations[i].is_leaf()
            invariant
                n == range.locations@.len(),
                i <= n,
                first_leaf_from(range.locations@, 0) == first_leaf_from(range.locations@, i as int),
            decreases n - i,
        {
            i += 1;
        }
        if i < n {
            Some(range.locations[i].node_handle.clone())
        } else {
            None
        }
    }

    /// The handle of the first text, line break or zero-width space that a
    /// cursor at `pos` touches, if there is one.
    pub fn find_leaf_containing(&self, pos: usize) -> (r: Option<DomHandle>)
        requires
            self.wf(),
            node_len(self.spec_document()) <= usize::MAX,
        ensures
            exists|range: Range|
                #![trigger first_leaf_from(range.locations@, 0)]
                {
                    &&& crate::find_range::models_of(range.locations@) == crate::find_range::range_locs(
                        self.spec_document(),
                        pos as int,
                        pos as int,
                    )
                    &&& match first_leaf_from(range.locations@, 0) {
                        Some(i) => r is Some && r.unwrap()@ == range.locations@[i].node_handle@,
                        None => r is None,
                    }
                },
    {
        let range = self.find_range(pos, pos);
        let ghost locs = range.locations@;
        let r = self.find_next_node_range(range);
        proof {
            assert(first_leaf_from(locs, 0) == first_leaf_from(locs, 0));
        }
        r
    }

    /// Append copies of the children of the container at `from_handle` to the
    /// container at `to_handle`, then remove the container at `from_handle`;
    /// returns how many children the container at `to_handle` held, and the
    /// old and new handle of each child moved.
    pub fn move_children_and_delete_parent(&mut self, from_handle: &DomHandle, to_handle: &DomHandle) -> (r: (
        usize,
        Vec<(DomHandle, DomHandle)>,
    ))
        requires
            old(self).wf(),
            names_child(*old(self), *from_handle),
            node_at(old(self).spec_document(), from_handle.path()).unwrap() is Container,
            to_handle@ is Some,
            container_at(old(self).spec_document(), to_handle.path()),
            !is_prefix(from_handle.path(), to_handle.path()),
            !is_prefix(to_handle.path(), from_handle.path()),
        ensures
            final(self).wf(),
            node_len(final(self).spec_document()) == node_len(old(self).spec_document()),
            ({
                let fk = children_at(old(self).spec_document(), from_handle.path());
                let tk = children_at(old(self).spec_document(), to_handle.path());
                let pp = from_handle.path().drop_last();
                let k = from_handle.path().last() as int;
                &&& r.0 == tk.len()
                &&& r.1@.len() == fk.len()
                &&& forall|i: int|
                    0 <= i < fk.len() ==> (#[trigger] r.1@[i]).0@ == Some(from_handle.path().push(i as usize))
                        && r.1@[i].1@ == Some(to_handle.path().push((tk.len() + i) as usize))
                &&& exists|mid: Dom|
                    #![trigger Dom::changed_at(*old(self), mid, to_handle.path())]
                    {
                        &&& mid.wf()
                        &&& Dom::changed_at(*old(self), mid, to_handle.path())
                        &&& children_at(mid.spec_document(), to_handle.path()).take(tk.len() as int) == tk
                        &&& same_children(fk, children_at(mid.spec_document(), to_handle.path()).skip(tk.len() as int))
                        &&& Dom::changed_at(mid, *final(self), pp)
                        &&& rehandled_from(
                            children_at(mid.spec_document(), pp).remove(k),
                            children_at(final(self).spec_document(), pp),
                            pp,
                            k,
                        )
                    }
            }),
    {
        let ghost d0 = *self;
        let ghost doc0 = self.spec_document();
        let ghost fp = from_handle.path();
        let ghost tp = to_handle.path();
        let ghost fk = children_at(doc0, fp);
        let ghost tk = children_at(doc0, tp);
        proof {
            lemma_node_at_handle(doc0, Seq::<usize>::empty(), fp);
            assert(Seq::<usize>::empty() + fp =~= fp);
            lemma_node_at_handle(doc0, Seq::<usize>::empty(), tp);
            assert(Seq::<usize>::empty() + tp =~= tp);
            lemma_children_ok_iff(fk, fp);
        }
        let children = match self.lookup_node(from_handle) {
            DomNode::Container(from_node) => clone_nodes(from_node.children()),
            _ => Vec::new(),
        };
        proof {
            lemma_same_nodes_children(fk, children@);
            lemma_same_children_iff(fk, children@);
            lemma_same_nodes_handles(fk, children@);
            assert forall|j: int| 0 <= j < fk.len() implies (#[trigger] children@[j]).spec_handle() == Some(fp.push(j as usize)) by {
                assert(handles_ok(fk[j], fp.push(j as usize)));
            }
        }
        let mut moved_handles: Vec<(DomHandle, DomHandle)> = Vec::new();
        let ret: usize;
        let node = self.lookup_node_mut(to_handle);
        match node {
            DomNode::Container(to_node) => {
                let ghost c_old = *to_node;
                ret = to_node.children().len();
                let mut rest = children;
                let ghost all = rest@;
                let n = rest.len();
                let mut i: usize = 0;
                while i < n
                    invariant
                        n == all.len(),
                        n == fk.len(),
                        i <= n,
                        rest@ == all.skip(i as int),
                        same_children(fk, all),
                        forall|j: int| 0 <= j < n ==> (#[trigger] all[j]).spec_handle() == Some(fp.push(j as usize)),
                        crate::tree::container_ok(*to_node),
                        to_node.spec_handle() == c_old.spec_handle(),
                        c_old.spec_handle() == Some(tp),
                        to_node.spec_name() == c_old.spec_name(),
                        to_node.spec_kind() == c_old.spec_kind(),
                        to_node.spec_attrs() == c_old.spec_attrs(),
                        ret == c_old.spec_children().len(),
                        to_node.spec_children().len() == ret + i,
                        to_node.spec_children().take(ret as int) == c_old.spec_children(),
                        forall|j: int| 0 <= j < i ==> #[trigger] same_content(all[j], to_node.spec_children()[ret + j]),
                        nodes_len(to_node.spec_children()) == nodes_len(c_old.spec_children()) + nodes_len(all.take(i as int)),
                        moved_handles@.len() == i,
                        forall|j: int|
                            0 <= j < i ==> (#[trigger] moved_handles@[j]).0@ == Some(fp.push(j as usize))
                                && moved_handles@[j].1@ == Some(tp.push((ret + j) as usize)),
                    decreases n - i,
                {
                    let c = rest.remove(0);
                    let ghost before = to_node.spec_children();
                    proof {
                        assert(c == all[i as int]);
                        assert(rest@ =~= all.skip(i + 1));
                    }
                    let old_handle = c.handle();
                    let new_handle = to_node.append_child(c);
                    moved_handles.push((old_handle, new_handle));
                    proof {
                        let after = to_node.spec_children();
                        assert(after.take(ret as int) =~= before.take(ret as int));
                        assert forall|j: int| 0 <= j < i + 1 implies #[trigger] same_content(all[j], after[ret + j]) by {
                            if j < i {
                                assert(after[ret + j] == before[ret + j]);
                            }
                        }
                        crate::tree::lemma_same_content_len(all[i as int], after.last());
                        assert(all.take(i + 1).drop_last() =~= all.take(i as int));
                        assert(nodes_len(after) == nodes_len(after.drop_last()) + node_len(after.last()));
                        assert(nodes_len(all.take(i + 1)) == nodes_len(all.take(i as int)) + node_len(all[i as int]));
                    }
                    i += 1;
                }
                proof {
                    assert(all.take(n as int) =~= all);
                    crate::tree::lemma_same_children_len(fk, all);
                    lemma_update_container(doc0, self.spec_document(), tp, c_old, *to_node);
                    crate::laws::lemma_updated_at_len(doc0, self.spec_document(), tp, DomNode::Container(*to_node));
                    let out = to_node.spec_children();
                    lemma_same_children_iff(fk, out.skip(ret as int));
                    assert forall|j: int| 0 <= j < fk.len() implies #[trigger] same_content(fk[j], out.skip(ret as int)[j]) by {
                        assert(same_content(fk[j], all[j]));
                        assert(same_content(all[j], out[ret + j]));
                        crate::laws::lemma_same_content_sym_trans(fk[j], all[j], out[ret + j]);
                    }
                }
            },
            _ => {
                ret = 0;
            },
        }
        let ghost mid = *self;
        proof {
            assert(updated_at(doc0, mid.spec_document(), tp, node_at(mid.spec_document(), tp).unwrap()));
            lemma_updated_at_elsewhere(doc0, mid.spec_document(), tp, node_at(mid.spec_document(), tp).unwrap(), fp);
            lemma_node_at_parent(mid.spec_document(), fp);
            lemma_node_at_parent(doc0, fp);
        }
        self.remove(from_handle);
        proof {
            let pp = fp.drop_last();
            let k = fp.last() as int;
            let mk = children_at(mid.spec_document(), pp);
            let sub = node_at(self.spec_document(), pp).unwrap();
            crate::laws::lemma_updated_at_len(mid.spec_document(), self.spec_document(), pp, sub);
            crate::laws::lemma_rehandled_len(mk.remove(k), children_at(self.spec_document(), pp), pp, k);
            crate::laws::lemma_nodes_len_remove(mk, k);
            assert(mk[k] == node_at(mid.spec_document(), fp).unwrap());
            assert(Dom::changed_at(d0, mid, tp));
        }
        (ret, moved_handles)
    }

    /// Merge the formatting container at each depth from `level` on the way
    /// to the node at `handle` into the container before it when both have
    /// the same format; see `format_joined`. The moves made are added to
    /// `action_list`, and a handle that an earlier move in it took along is
    /// followed to where it went.
    pub fn join_format_nodes_at_level(&mut self, handle: &DomHandle, level: usize, action_list: &mut DomActionList)
        requires
            old(self).wf(),
            handle@ is Some,
            moves_clear(old(action_list).spec_actions(), handle.path(), level as int),
        ensures
            final(self).wf(),
            format_joined(*old(self), *final(self), handle.path(), level as int),
            final(action_list).spec_actions().len() >= old(action_list).spec_actions().len(),
            final(action_list).spec_actions().take(old(action_list).spec_actions().len() as int)
                == old(action_list).spec_actions(),
            forall|j: int|
                old(action_list).spec_actions().len() <= j < final(action_list).spec_actions().len()
                    ==> #[trigger] final(action_list).spec_actions()[j] is Move,
        decreases handle.path().len() - level,
    {
        if level >= handle.raw().len() {
            return;
        }
        let ghost d0 = *self;
        let ghost hp = handle.path();
        let ghost a0 = action_list.spec_actions();
        let mut h = handle.clone();
        let moved_handle = action_list.find_moved_parent_or_self(&h);
        if let Some((from_handle, to_handle)) = moved_handle {
            proof {
                let acts = action_list.spec_actions();
                let i = choose|i: int|
                    #![trigger acts[i]]
                    {
                        &&& 0 <= i < acts.len()
                        &&& moves_parent_or_self(acts[i], hp)
                    };
                assert(move_clear(acts[i], hp, level as int));
                let f = acts[i]->Move_0.from_handle.path();
                assert(hp.subrange(0, f.len() as int)[f.len() - 2] == hp[f.len() - 2]);
            }
            h.replace_ancestor(from_handle, to_handle);
        }
        let cur_handle = h.sub_handle_up_to(level + 1);
        let ghost cur = hp.take(level + 1);
        proof {
            assert(hp.subrange(0, level + 1) =~= cur);
        }
        if !self.contains(&cur_handle) {
            return;
        }
        let index_in_parent = cur_handle.index_in_parent();
        if index_in_parent > 0 {
            let prev_handle = cur_handle.prev_sibling();
            let ghost prev = cur.update(level as int, (index_in_parent - 1) as usize);
            proof {
                assert(prev_handle.path() =~= prev);
                lemma_node_at_parent(d0.spec_document(), cur);
                crate::list_methods::lemma_node_at_child(d0.spec_document(), cur.drop_last(), index_in_parent - 1);
                assert(cur.drop_last().push((index_in_parent - 1) as usize) =~= prev);
            }
            if self.can_merge_format_nodes(&prev_handle, &cur_handle) {
                let ghost n = children_at(d0.spec_document(), prev).len();
                proof {
                    assert(cur[level as int] != prev[level as int]);
                    if is_prefix(prev, cur) {
                        assert(cur.subrange(0, prev.len() as int)[level as int] == cur[level as int]);
                    }
                    if is_prefix(cur, prev) {
                        assert(prev.subrange(0, cur.len() as int)[level as int] == prev[level as int]);
                    }
                }
                let (new_index, moved) = self.move_children_and_delete_parent(&cur_handle, &prev_handle);
                let ghost d_mid = *self;
                proof {
                    assert(children_moved(d0, d_mid, cur, prev));
                }
                let mut cur_path = h.raw().clone();
                cur_path.set(level, index_in_parent - 1);
                if level + 1 < cur_path.len() {
                    cur_path.set(level + 1, new_index);
                }
                let new_handle = DomHandle::from_raw(cur_path);
                let ghost np = new_handle.path();
                proof {
                    assert(np =~= merged_path(hp, level as int, n));
                    assert forall|j: int| 0 <= j < action_list.spec_actions().len() implies #[trigger] move_clear(
                        action_list.spec_actions()[j],
                        np,
                        level + 1,
                    ) by {
                        assert(move_clear(action_list.spec_actions()[j], hp, level as int));
                    }
                }
                let mut i: usize = 0;
                while i < moved.len()
                    invariant
                        i <= moved@.len(),
                        moved@.len() == children_at(d0.spec_document(), cur).len(),
                        forall|t: int|
                            0 <= t < moved@.len() ==> (#[trigger] moved@[t]).0@ == Some(cur.push(t as usize)),
                        np.len() == hp.len(),
                        level < hp.len(),
                        np[level as int] != cur[level as int],
                        cur.len() == level + 1,
                        moves_clear(action_list.spec_actions(), np, level + 1),
                        action_list.spec_actions().len() >= a0.len(),
                        action_list.spec_actions().take(a0.len() as int) == a0,
                        forall|j: int|
                            a0.len() <= j < action_list.spec_actions().len() ==> #[trigger] action_list.spec_actions()[j] is Move,
                    decreases moved@.len() - i,
                {
                    let ghost before = action_list.spec_actions();
                    let a = DomAction::move_node(moved[i].0.clone(), moved[i].1.clone());
                    action_list.push(a);
                    proof {
                        let f = cur.push(i as usize);
                        assert(f[f.len() - 2] == cur[level as int]);
                        assert forall|j: int| 0 <= j < action_list.spec_actions().len() implies #[trigger] move_clear(
                            action_list.spec_actions()[j],
                            np,
                            level + 1,
                        ) by {
                            if j < before.len() {
                                assert(action_list.spec_actions()[j] == before[j]);
                            }
                        }
                        assert(action_list.spec_actions().take(a0.len() as int) =~= before.take(a0.len() as int));
                        assert forall|j: int|
                            a0.len() <= j < action_list.spec_actions().len() implies #[trigger] action_list.spec_actions()[j] is Move by {
                            if j < before.len() {
                                assert(action_list.spec_actions()[j] == before[j]);
                            }
                        }
                    }
                    i += 1;
                }
                let ghost a1 = action_list.spec_actions();
                self.join_format_nodes_at_level(&new_handle, level + 1, action_list);
                proof {
                    assert(format_joined(d_mid, *self, merged_path(hp, level as int, n), level + 1));
                    let a2 = action_list.spec_actions();
                    assert(a2.take(a0.len() as int) =~= a2.take(a1.len() as int).take(a0.len() as int));
                    assert forall|j: int| a0.len() <= j < a2.len() implies #[trigger] a2[j] is Move by {
                        if j < a1.len() {
                            assert(a2.take(a1.len() as int)[j] == a2[j]);
                            assert(a1[j] is Move);
                        }
                    }
                }
            } else {
                proof {
                    assert forall|j: int| 0 <= j < action_list.spec_actions().len() implies #[trigger] move_clear(
                        action_list.spec_actions()[j],
                        hp,
                        level + 1,
                    ) by {
                        assert(move_clear(action_list.spec_actions()[j], hp, level as int));
                    }
                }
                self.join_format_nodes_at_level(&h, level + 1, action_list);
            }
        } else {
            proof {
                assert forall|j: int| 0 <= j < action_list.spec_actions().len() implies #[trigger] move_clear(
                    action_list.spec_actions()[j],
                    hp,
                    level + 1,
                ) by {
                    assert(move_clear(action_list.spec_actions()[j], hp, level as int));
                }
            }
            self.join_format_nodes_at_level(&h, level + 1, action_list);
        }
    }

    /// Merge the formatting containers on the way to the node at `handle`
    /// into the ones before them when they have the same format, from the
    /// top; the action list must hold no move yet.
    pub fn join_format_node_with_prev(&mut self, handle: &DomHandle, action_list: &mut DomActionList)
        requires
            old(self).wf(),
            handle@ is Some,
            forall|j: int| 0 <= j < old(action_list).spec_actions().len() ==> !(#[trigger] old(action_list).spec_actions()[j] is Move),
        ensures
            final(self).wf(),
            format_joined(*old(self), *final(self), handle.path(), 0),
    {
        self.join_format_nodes_at_level(handle, 0, action_list);
    }

    /// Merge the formatting containers on the way to the first leaf at
    /// position `index` into the ones before them when they have the same
    /// format; nothing changes when no leaf is there.
    pub fn join_format_nodes_at_index(&mut self, index: usize)
        requires
            old(self).wf(),
            node_len(old(self).spec_document()) <= usize::MAX,
        ensures
            final(self).wf(),
            exists|range: Range|
                #![trigger first_leaf_from(range.locations@, 0)]
                {
                    &&& crate::find_range::models_of(range.locations@) == crate::find_range::range_locs(
                        old(self).spec_document(),
                        index as int,
                        index as int,
                    )
                    &&& match first_leaf_from(range.locations@, 0) {
                        Some(i) => if range.locations@[i].node_handle@ is Some {
                            format_joined(*old(self), *final(self), range.locations@[i].node_handle.path(), 0)
                        } else {
                            *final(self) == *old(self)
                        },
                        None => *final(self) == *old(self),
                    }
                },
    {
        if let Some(next_node_handle) = self.find_leaf_containing(index) {
            if next_node_handle.is_set() {
                let mut action_list = DomActionList::default();
                self.join_format_node_with_prev(&next_node_handle, &mut action_list);
            }
        }
    }
}

} // verus!
