use vstd::prelude::*;

use crate::dom::Dom;
use crate::handle::DomHandle;
use crate::range::{Range, range_end, range_start};
use crate::replace::{lemma_units_cut, lemma_units_of_len, lemma_units_skip_first, units_of};
use crate::tree::{ContainerNode, DomNode, container_ok, handles_ok, lemma_children_ok_iff, lemma_container_child_decreases, lemma_nodes_len_prefix_le, lemma_nodes_len_prefix_step, lemma_same_content_units, lemma_units_len, node_at, node_len, nodes_len, same_content, text_units};

verus! {

/// `n` is a container with the name, kind and attributes of `w` holding the
/// text `text`.
pub open spec fn wraps(n: Option<DomNode>, w: ContainerNode, text: Seq<char>) -> bool {
    &&& n matches Some(DomNode::Container(x))
    &&& n.unwrap()->Container_0.spec_name() == w.spec_name()
    &&& n.unwrap()->Container_0.spec_kind() == w.spec_kind()
    &&& n.unwrap()->Container_0.spec_attrs() == w.spec_attrs()
    &&& text_units(n.unwrap()) == text
}

/// Put the text of `c` from position `a` up to position `b` into a new
/// container like `wrapper`: below the deepest container that holds the
/// whole range without being covered by it, the nodes before and after the
/// range are cut off, and the new container, holding what is between,
/// stands between them. Returns the handle of the new container.
pub fn wrap_range_in(c: &mut ContainerNode, a: usize, b: usize, wrapper: &ContainerNode) -> (h: DomHandle)
    requires
        container_ok(*old(c)),
        a < b,
        b <= nodes_len(old(c).spec_children()),
        nodes_len(old(c).spec_children()) <= usize::MAX,
    ensures
        container_ok(*final(c)),
        final(c).spec_handle() == old(c).spec_handle(),
        final(c).spec_name() == old(c).spec_name(),
        final(c).spec_kind() == old(c).spec_kind(),
        final(c).spec_attrs() == old(c).spec_attrs(),
        units_of(final(c).spec_children()) == units_of(old(c).spec_children()),
        h@ is Some,
        h.path().len() > old(c).spec_handle().unwrap().len(),
        h.path().take(old(c).spec_handle().unwrap().len() as int) == old(c).spec_handle().unwrap(),
        wraps(
            node_at(DomNode::Container(*final(c)), h.path().skip(old(c).spec_handle().unwrap().len() as int)),
            *wrapper,
            units_of(old(c).spec_children()).subrange(a as int, b as int),
        ),
    decreases *old(c),
{
    let ghost c0 = *c;
    let ghost orig = c.spec_children();
    let ghost p = c.spec_handle().unwrap();
    let n = c.children().len();
    let mut i: usize = 0;
    let mut pos: usize = 0;
    proof {
        assert(orig.take(0) =~= Seq::<DomNode>::empty());
        lemma_children_ok_iff(orig, p);
        lemma_units_of_len(orig);
    }
    while i < n
        invariant
            n == orig.len(),
            i <= n,
            orig == c0.spec_children(),
            c0 == *old(c),
            *c == c0,
            container_ok(c0),
            c0.spec_handle() == Some(p),
            pos == nodes_len(orig.take(i as int)),
            a < b,
            b <= nodes_len(orig),
            nodes_len(orig) <= usize::MAX,
            units_of(orig).len() == nodes_len(orig),
            forall|j: int| 0 <= j < orig.len() ==> #[trigger] handles_ok(orig[j], p.push(j as usize)),
        decreases n - i,
    {
        let ghost x = text_units(orig[i as int]);
        proof {
            lemma_nodes_len_prefix_step(orig, i as int);
            lemma_nodes_len_prefix_le(orig, i + 1);
            lemma_units_len(orig[i as int]);
            lemma_units_cut(orig, i as int);
            lemma_units_skip_first(orig, i as int);
            lemma_units_of_len(orig.take(i as int));
            assert(handles_ok(orig[i as int], p.push(i as usize)));
        }
        let l = c.children()[i].text_len();
        let is_container = match &c.children()[i] {
            DomNode::Container(_) => true,
            _ => false,
        };
        if is_container && pos <= a && b <= pos + l && !(pos == a && b == pos + l) {
                        let ghost mut cc1: ContainerNode = c0;
            let mut h = DomHandle::root();
            match c.get_child_mut(i) {
                Some(DomNode::Container(cc)) => {
                    proof {
                        lemma_container_child_decreases(c0, i as int);
                        let cc0 = *cc;
                        assert(orig[i as int] == DomNode::Container(cc0));
                        assert(decreases_to!(orig[i as int] => cc0));
                        assert(decreases_to!(c0 => cc0));
                        assert(container_ok(cc0));
                        assert(x == units_of(cc0.spec_children()));
                        lemma_units_of_len(cc0.spec_children());
                    }
                    h = wrap_range_in(cc, a - pos, b - pos, wrapper);
                    proof {
                        cc1 = *cc;
                    }
                },
                _ => {
                    proof {
                        assert(false);
                    }
                },
            }
            proof {
                let nw = c.spec_children();
                assert(nw.len() == orig.len());
                assert(nw == orig.update(i as int, nw[i as int]));
                assert(nw[i as int] == DomNode::Container(cc1));
                assert(handles_ok(nw[i as int], p.push(i as usize)));
                crate::replace::lemma_children_ok_update(orig, p, i as int, nw[i as int]);
                lemma_units_cut(nw, i as int);
                lemma_units_skip_first(nw, i as int);
                assert(nw.take(i as int) =~= orig.take(i as int));
                assert(nw.skip(i + 1) =~= orig.skip(i + 1));
                let q = p.push(i as usize);
                assert(h.path().take(q.len() as int) == q);
                assert(h.path().take(p.len() as int) =~= p) by {
                    assert(h.path().take(p.len() as int) =~= h.path().take(q.len() as int).take(p.len() as int));
                }
                let relc = h.path().skip(p.len() as int);
                assert(h.path()[p.len() as int] == h.path().take(q.len() as int)[p.len() as int]);
                assert(q[p.len() as int] == i);
                assert(relc[0] == i);
                assert(relc.skip(1) =~= h.path().skip(q.len() as int));
                assert(node_at(DomNode::Container(*c), relc) == node_at(nw[i as int], relc.skip(1)));
                let pre = units_of(orig.take(i as int));
                let post = units_of(orig.skip(i + 1));
                assert(units_of(orig) == pre + x + post);
                assert(units_of(orig).subrange(a as int, b as int) =~= x.subrange(a - pos, b - pos));
            }
            return h;
        }
        pos = pos + l;
        i = i + 1;
    }
    proof {
        assert(orig.take(n as int) =~= orig);
        crate::tree::lemma_units_len(DomNode::Container(c0));
    }
    let right = c.slice_after(b);
    let ghost c1 = *c;
    proof {
        crate::tree::lemma_units_len(DomNode::Container(c1));
    }
    let mid = c.slice_after(a);
    let ghost c2 = *c;
    let ghost midu = units_of(mid.spec_children());
    let ghost rightu = units_of(right.spec_children());
    proof {
        assert(units_of(orig) == units_of(c2.spec_children()) + midu + rightu);
        assert(units_of(orig).subrange(a as int, b as int) =~= midu);
    }
    let newc = wrapper.clone_with_new_children(mid.take_children());
    let ghost newn = DomNode::Container(newc);
    let idx = c.children().len();
    let h = c.append_child(DomNode::Container(newc));
    let ghost c3 = *c;
    proof {
        let s3 = c3.spec_children();
        lemma_units_cut(s3, idx as int);
        lemma_units_skip_first(s3, idx as int);
        assert(s3.take(idx as int) =~= c2.spec_children());
        assert(s3.skip(idx + 1) =~= Seq::<DomNode>::empty());
        assert(units_of(Seq::<DomNode>::empty()) =~= Seq::<char>::empty());
        lemma_same_content_units(newn, s3[idx as int]);
        assert(units_of(s3) =~= units_of(c2.spec_children()) + midu);
    }
    let rest = right.take_children();
    let mut k: usize = 0;
    while k < rest.len()
        invariant
            container_ok(*c),
            c.spec_handle() == Some(p),
            c.spec_name() == c0.spec_name(),
            c.spec_kind() == c0.spec_kind(),
            c.spec_attrs() == c0.spec_attrs(),
            k <= rest@.len(),
            rest@ == right.spec_children(),
            c.spec_children().len() > idx,
            c.spec_children()[idx as int] == c3.spec_children()[idx as int],
            units_of(c.spec_children()) == units_of(c2.spec_children()) + midu + units_of(rest@.take(k as int)),
        decreases rest@.len() - k,
    {
        let ghost before = c.spec_children();
        let child = rest[k].clone_node();
        let ghost cg = child;
        proof {
            lemma_same_content_units(rest@[k as int], cg);
        }
        c.append_child(child);
        proof {
            let s = c.spec_children();
            lemma_units_cut(s, before.len() as int);
            lemma_units_skip_first(s, before.len() as int);
            assert(s.take(before.len() as int) =~= before);
            assert(s.skip(before.len() as int + 1) =~= Seq::<DomNode>::empty());
            assert(units_of(Seq::<DomNode>::empty()) =~= Seq::<char>::empty());
            lemma_same_content_units(cg, s[before.len() as int]);
            lemma_units_cut(rest@.take(k + 1), k as int);
            lemma_units_skip_first(rest@.take(k + 1), k as int);
            assert(rest@.take(k + 1).take(k as int) =~= rest@.take(k as int));
            assert(rest@.take(k + 1).skip(k + 1) =~= Seq::<DomNode>::empty());
            assert(s[idx as int] == before[idx as int]);
        }
        k = k + 1;
    }
    proof {
        assert(rest@.take(k as int) =~= rest@);
        let s = c.spec_children();
        let relc = h.path().skip(p.len() as int);
        assert(h.path() == p.push(idx));
        assert(relc =~= seq![idx]);
        assert(relc.skip(1) =~= Seq::<usize>::empty());
        assert(h.path().take(p.len() as int) =~= p);
        assert(node_at(DomNode::Container(*c), relc) == node_at(s[idx as int], relc.skip(1)));
        assert(same_content(newn, s[idx as int]));
    }
    h
}

impl Dom {
    /// Insert `new_node`, a container without children, into the document
    /// as the parent of the text of `range`: below the deepest container that holds the whole range
    /// without being covered by it, the nodes partly in the range are split
    /// and the new container takes the nodes in between. Returns the handle
    /// of the new container.
    pub fn insert_parent(&mut self, range: &Range, new_node: DomNode) -> (h: DomHandle)
        requires
            old(self).wf(),
            range.fits(),
            new_node is Container,
            new_node->Container_0.spec_children().len() == 0,
            range_start(range.locations@) < range_end(range.locations@),
            range_end(range.locations@) <= node_len(old(self).spec_document()),
            node_len(old(self).spec_document()) <= usize::MAX,
        ensures
            final(self).wf(),
            text_units(final(self).spec_document()) == text_units(old(self).spec_document()),
            h@ is Some,
            wraps(
                node_at(final(self).spec_document(), h.path()),
                new_node->Container_0,
                text_units(old(self).spec_document()).subrange(
                    range_start(range.locations@),
                    range_end(range.locations@),
                ),
            ),
    {
        let start = range.start();
        let end = range.end();
        let wrapper = new_node.as_container().unwrap();
        let doc = self.document_mut();
        let h = wrap_range_in(doc, start, end, wrapper);
        proof {
            assert(h.path().skip(0) =~= h.path());
        }
        h
    }
}

} // verus!
