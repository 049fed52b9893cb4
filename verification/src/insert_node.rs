use vstd::prelude::*;

use crate::dom::{Dom, children_at, container_at, inserted_into_leaf, lemma_node_at_parent};
use crate::find_range::{LocModel, children_locs, model_of, node_locs};
use crate::handle::DomHandle;
use crate::range::{Range, first_leaf_from, range_end, range_start};
use crate::tree::{
    DomNode, children_ok, handles_ok, kind_of, lemma_children_len, lemma_children_ok_iff, lemma_decreases_children,
    node_at, node_len, rehandled_from, same_content,
};

verus! {

/// A location names a node of the document under `doc` other than the
/// document itself, of the length and kind that it records.
pub open spec fn names_node(doc: DomNode, m: LocModel) -> bool {
    &&& m.0 is Some
    &&& m.0.unwrap().len() > 0
    &&& node_at(doc, m.0.unwrap()) is Some
    &&& node_len(node_at(doc, m.0.unwrap()).unwrap()) == m.4
    &&& kind_of(node_at(doc, m.0.unwrap()).unwrap()) == m.5
}

/// The node at the path of a child of a container is that child.
proof fn lemma_node_at_push(doc: DomNode, p: Seq<usize>, k: int)
    requires
        node_at(doc, p) is Some,
        node_at(doc, p).unwrap() is Container,
        0 <= k < node_at(doc, p).unwrap()->Container_0.spec_children().len(),
        k <= usize::MAX,
    ensures
        node_at(doc, p.push(k as usize)) == Some(node_at(doc, p).unwrap()->Container_0.spec_children()[k]),
    decreases p.len(),
{
    let q = p.push(k as usize);
    if p.len() > 0 {
        let c = doc->Container_0;
        let child = c.spec_children()[p[0] as int];
        assert(node_at(doc, p) == node_at(child, p.skip(1)));
        lemma_node_at_push(child, p.skip(1), k);
        assert(q.skip(1) =~= p.skip(1).push(k as usize));
        assert(q[0] == p[0]);
        assert(node_at(doc, q) == node_at(child, q.skip(1)));
    } else {
        assert(q.skip(1) =~= Seq::<usize>::empty());
        assert(q[0] == k as usize);
        assert(node_at(doc, q) == node_at(doc->Container_0.spec_children()[k], q.skip(1)));
    }
}

/// Every location found under a node at `p` of a document whose handles are
/// in order names a node of the document.
proof fn lemma_node_locs_name(doc: DomNode, n: DomNode, p: Seq<usize>, pos: int, s: int, e: int)
    requires
        node_at(doc, p) == Some(n),
        handles_ok(n, p),
        p.len() > 0,
    ensures
        forall|i: int|
            0 <= i < node_locs(n, pos, s, e).len() ==> names_node(doc, #[trigger] node_locs(n, pos, s, e)[i]),
    decreases n, 1int,
{
    match n {
        DomNode::Container(c) => {
            lemma_decreases_children(n);
            let kids = c.spec_children();
            lemma_children_locs_name(doc, kids, kids.len() as int, p, pos, s, e);
            let a = children_locs(kids, kids.len() as int, pos, s, e);
            let own = node_locs(n, pos, s, e).skip(a.len() as int);
            assert(node_locs(n, pos, s, e) =~= a + own);
            assert forall|i: int| 0 <= i < (a + own).len() implies names_node(doc, #[trigger] (a + own)[i]) by {
                if i < a.len() {
                    assert((a + own)[i] == a[i]);
                }
            }
        },
        _ => {},
    }
}

/// Every location found under the first `k` children of a container at
/// `p` names a node of the document.
proof fn lemma_children_locs_name(
    doc: DomNode,
    kids: Seq<DomNode>,
    k: int,
    p: Seq<usize>,
    pos: int,
    s: int,
    e: int,
)
    requires
        node_at(doc, p) is Some,
        node_at(doc, p).unwrap() is Container,
        node_at(doc, p).unwrap()->Container_0.spec_children() == kids,
        children_ok(kids, p),
        0 <= k <= kids.len(),
    ensures
        forall|i: int|
            0 <= i < children_locs(kids, k, pos, s, e).len() ==> names_node(
                doc,
                #[trigger] children_locs(kids, k, pos, s, e)[i],
            ),
    decreases kids, k,
{
    if k > 0 {
        let start = pos + crate::tree::nodes_len(kids.subrange(0, k - 1));
        lemma_children_locs_name(doc, kids, k - 1, p, pos, s, e);
        lemma_children_len(node_at(doc, p).unwrap()->Container_0);
        lemma_node_at_push(doc, p, k - 1);
        lemma_children_ok_iff(kids, p);
        assert(handles_ok(kids[k - 1], p.push((k - 1) as usize)));
        lemma_node_locs_name(doc, kids[k - 1], p.push((k - 1) as usize), start, s, e);
        let a = children_locs(kids, k - 1, pos, s, e);
        let b = node_locs(kids[k - 1], start, s, e);
        assert forall|i: int| 0 <= i < (a + b).len() implies names_node(doc, #[trigger] (a + b)[i]) by {
            if i < a.len() {
                assert((a + b)[i] == a[i]);
            } else {
                assert((a + b)[i] == b[i - a.len()]);
            }
        }
    }
}

/// Every location of a selection found in a well-formed document names a
/// node of it.
pub proof fn lemma_range_locs_name(d: Dom, s: int, e: int)
    requires
        d.wf(),
    ensures
        forall|i: int|
            0 <= i < crate::find_range::range_locs(d.spec_document(), s, e).len() ==> names_node(
                d.spec_document(),
                #[trigger] crate::find_range::range_locs(d.spec_document(), s, e)[i],
            ),
{
    let doc = d.spec_document();
    let kids = doc->Container_0.spec_children();
    assert(node_at(doc, Seq::<usize>::empty()) == Some(doc));
    lemma_children_locs_name(doc, kids, kids.len() as int, Seq::<usize>::empty(), 0, s, e);
    lemma_children_locs_name(doc, kids, kids.len() as int, Seq::<usize>::empty(), 0, e, s);
    let a = children_locs(kids, kids.len() as int, 0, e, s);
    let b = a.map_values(|m: LocModel| crate::find_range::flipped(m));
    assert forall|i: int| 0 <= i < b.len() implies names_node(doc, #[trigger] b[i]) by {
        assert(b[i] == crate::find_range::flipped(a[i]));
        assert(names_node(doc, a[i]));
    }
}

/// The locations of a range name nodes of the document, with their offsets
/// inside them.
pub open spec fn locations_in(d: Dom, r: Range) -> bool {
    forall|i: int|
        0 <= i < r.locations@.len() ==> {
            &&& names_node(d.spec_document(), model_of(#[trigger] r.locations@[i]))
            &&& r.locations@[i].start_offset <= r.locations@[i].length
        }
}

/// The ranges that `find_range` finds have their locations in the
/// document.
pub proof fn lemma_found_range_locations_in(d: Dom, r: Range, s: int, e: int)
    requires
        d.wf(),
        crate::find_range::models_of(r.locations@) == crate::find_range::range_locs(d.spec_document(), s, e),
    ensures
        locations_in(d, r),
{
    lemma_range_locs_name(d, s, e);
    crate::find_range::lemma_range_locs_within(d.spec_document(), s, e);
    assert forall|i: int| 0 <= i < r.locations@.len() implies {
        &&& names_node(d.spec_document(), model_of(#[trigger] r.locations@[i]))
        &&& r.locations@[i].start_offset <= r.locations@[i].length
    } by {
        assert(crate::find_range::models_of(r.locations@)[i] == model_of(r.locations@[i]));
        assert(crate::find_range::offsets_ok(crate::find_range::range_locs(d.spec_document(), s, e)[i]));
    }
}

/// `new` is `old` with `node` inserted at the cursor of the locations
/// `locs`, and `h` its handle: see `insert_node_at_cursor`.
pub open spec fn inserted_at_cursor(old: Dom, new: Dom, locs: Seq<crate::range::DomLocation>, node: DomNode, h: DomHandle) -> bool {
    match first_leaf_from(locs, 0) {
        Some(i) => {
            let l = locs[i];
            let p = l.node_handle.path();
            let pp = p.drop_last();
            let idx = p.last() as int;
            let kids = children_at(old.spec_document(), pp);
            let fin = children_at(new.spec_document(), pp);
            &&& Dom::changed_at(old, new, pp)
            &&& if l.start_offset == 0 {
                &&& rehandled_from(kids.insert(idx, node), fin, pp, idx)
                &&& h@ == Some(p)
            } else if l.start_offset == l.length {
                &&& fin.drop_last() == kids
                &&& fin.len() == kids.len() + 1
                &&& same_content(node, fin.last())
                &&& h@ == Some(pp.push(kids.len() as usize))
            } else {
                &&& inserted_into_leaf(kids, fin, pp, idx, l.start_offset as int, node)
                &&& h@ == Some(pp.push((idx + 1) as usize))
            }
        },
        None => {
            let pp = if locs.len() > 0 {
                locs[0].node_handle.path()
            } else {
                Seq::<usize>::empty()
            };
            let kids = children_at(old.spec_document(), pp);
            let fin = children_at(new.spec_document(), pp);
            &&& Dom::changed_at(old, new, pp)
            &&& fin.drop_last() == kids
            &&& fin.len() == kids.len() + 1
            &&& same_content(node, fin.last())
            &&& h@ == Some(pp.push(kids.len() as usize))
        },
    }
}

impl Dom {
    /// Insert `new_node` at the cursor that `range` holds: at the first leaf
    /// of the range, before it when the cursor is at its start, as the last
    /// child of its parent when the cursor is at its end, and else into it
    /// at the cursor; with no leaf, as the last child of the first location
    /// of the range, or of the document for a range with no location.
    /// Returns the handle of the inserted node.
    pub fn insert_node_at_cursor(&mut self, range: &Range, new_node: DomNode) -> (h: DomHandle)
        requires
            old(self).wf(),
            range.fits(),
            range_start(range.locations@) == range_end(range.locations@),
            locations_in(*old(self), *range),
            first_leaf_from(range.locations@, 0) is None && range.locations@.len() > 0
                ==> node_at(old(self).spec_document(), range.locations@[0].node_handle.path()).unwrap() is Container,
        ensures
            final(self).wf(),
            inserted_at_cursor(*old(self), *final(self), range.locations@, new_node, h),
    {
        let ghost locs = range.locations@;
        let n = range.locations.len();
        let mut i: usize = 0;
        while i < n && !range.locations[i].is_leaf()
            invariant
                n == locs.len(),
                locs == range.locations@,
                i <= n,
                first_leaf_from(locs, 0) == first_leaf_from(locs, i as int),
            decreases n - i,
        {
            i += 1;
        }
        if i < n {
            let leaf = &range.locations[i];
            let ghost p = leaf.node_handle.path();
            let ghost doc = self.spec_document();
            proof {
                assert(first_leaf_from(locs, 0) == Some(i as int));
                assert(names_node(doc, model_of(locs[i as int])));
                lemma_node_at_parent(doc, p);
            }
            let cursor_at_end = leaf.start_offset == leaf.length;
            let cursor_at_start = leaf.start_offset == 0;
            if cursor_at_start {
                self.insert_at(&leaf.node_handle, new_node)
            } else if cursor_at_end {
                let parent_handle = leaf.node_handle.parent_handle();
                self.append(&parent_handle, new_node)
            } else {
                proof {
                    lemma_children_len(node_at(doc, p.drop_last()).unwrap()->Container_0);
                }
                self.insert_into_text(&leaf.node_handle, leaf.start_offset, new_node);
                leaf.node_handle.next_sibling()
            }
        } else {
            proof {
                assert(first_leaf_from(locs, i as int) is None);
            }
            if range.locations.len() == 0 {
                self.append_at_end_of_document(new_node)
            } else {
                let first = &range.locations[0];
                proof {
                    assert(names_node(self.spec_document(), model_of(locs[0])));
                }
                self.append(&first.node_handle, new_node)
            }
        }
    }

    /// Insert `new_node` at a cursor as `insert_node_at_cursor` does; a
    /// selection is left as it is, and the returned handle unset.
    pub fn insert_node_at_range(&mut self, range: &Range, new_node: DomNode) -> (h: DomHandle)
        requires
            old(self).wf(),
            range.fits(),
            locations_in(*old(self), *range),
            first_leaf_from(range.locations@, 0) is None && range.locations@.len() > 0
                ==> node_at(old(self).spec_document(), range.locations@[0].node_handle.path()).unwrap() is Container,
        ensures
            final(self).wf(),
            range_start(range.locations@) == range_end(range.locations@) ==> inserted_at_cursor(
                *old(self),
                *final(self),
                range.locations@,
                new_node,
                h,
            ),
            range_start(range.locations@) != range_end(range.locations@) ==> *final(self) == *old(self) && h@ is None,
    {
        if range.is_cursor() {
            self.insert_node_at_cursor(range, new_node)
        } else {
            DomHandle::new_unset()
        }
    }
}

} // verus!
