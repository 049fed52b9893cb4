use vstd::prelude::*;

use crate::dom::Dom;
use crate::handle::DomHandle;
use crate::leaf_nodes::TextNode;
use crate::tree::{ContainerNode, DomNode, lemma_decreases_children};

verus! {

/// The nodes of the tree under `n`, `n` first, in depth-first order.
pub open spec fn preorder(n: DomNode) -> Seq<DomNode>
    decreases n, 1int,
{
    match n {
        DomNode::Container(c) => {
            proof {
                lemma_decreases_children(n);
            }
            seq![n] + preorder_all(c.spec_children(), c.spec_children().len() as int)
        },
        _ => seq![n],
    }
}

/// The nodes of the trees under the first `k` of `kids`, in depth-first
/// order.
pub open spec fn preorder_all(kids: Seq<DomNode>, k: int) -> Seq<DomNode>
    decreases kids, k,
{
    if k <= 0 || k > kids.len() {
        Seq::empty()
    } else {
        preorder_all(kids, k - 1) + preorder(kids[k - 1])
    }
}

/// The text nodes among `s`, in order.
pub open spec fn texts_in(s: Seq<DomNode>) -> Seq<TextNode>
    decreases s.len(),
{
    if s.len() == 0 {
        Seq::empty()
    } else {
        let rest = texts_in(s.drop_last());
        match s.last() {
            DomNode::Text(t) => rest.push(t),
            _ => rest,
        }
    }
}

/// The containers among `s`, in order.
pub open spec fn containers_in(s: Seq<DomNode>) -> Seq<ContainerNode>
    decreases s.len(),
{
    if s.len() == 0 {
        Seq::empty()
    } else {
        let rest = containers_in(s.drop_last());
        match s.last() {
            DomNode::Container(c) => rest.push(c),
            _ => rest,
        }
    }
}

/// The nodes a list of references refers to.
pub open spec fn deref_all(s: Seq<&DomNode>) -> Seq<DomNode> {
    s.map_values(|r: &DomNode| *r)
}

proof fn lemma_deref_push(s: Seq<&DomNode>, r: &DomNode)
    ensures
        deref_all(s.push(r)) == deref_all(s).push(*r),
{
    assert(deref_all(s.push(r)) =~= deref_all(s).push(*r));
}

/// Append to `out` the nodes of the trees under `kids`, in depth-first
/// order.
fn collect_all<'a>(kids: &'a Vec<DomNode>, out: &mut Vec<&'a DomNode>)
    ensures
        deref_all(final(out)@) == deref_all(old(out)@) + preorder_all(kids@, kids@.len() as int),
    decreases kids@, 0int,
{
    let ghost before = out@;
    let mut i: usize = 0;
    while i < kids.len()
        invariant
            i <= kids@.len(),
            deref_all(out@) == deref_all(before) + preorder_all(kids@, i as int),
        decreases kids@.len() - i,
    {
        collect_nodes(&kids[i], out);
        proof {
            assert(deref_all(before) + preorder_all(kids@, i as int) + preorder(kids@[i as int])
                =~= deref_all(before) + preorder_all(kids@, i + 1));
        }
        i += 1;
    }
}

/// Append to `out` the nodes of the tree under `n`, `n` first, in
/// depth-first order.
fn collect_nodes<'a>(n: &'a DomNode, out: &mut Vec<&'a DomNode>)
    ensures
        deref_all(final(out)@) == deref_all(old(out)@) + preorder(*n),
    decreases *n, 1int,
{
    proof {
        lemma_deref_push(out@, n);
    }
    out.push(n);
    match n {
        DomNode::Container(c) => {
            proof {
                lemma_decreases_children(*n);
            }
            let ghost mid = out@;
            collect_all(c.children(), out);
            proof {
                assert(deref_all(mid) == deref_all(old(out)@).push(*n));
                assert(deref_all(old(out)@).push(*n) + preorder_all(
                    c.spec_children(),
                    c.spec_children().len() as int,
                ) =~= deref_all(old(out)@) + preorder(*n));
            }
        },
        _ => {
            assert(deref_all(old(out)@).push(*n) =~= deref_all(old(out)@) + preorder(*n));
        },
    }
}

/// The text nodes among the referred nodes, in order.
fn text_nodes_of<'a>(nodes: &Vec<&'a DomNode>) -> (r: Vec<&'a TextNode>)
    ensures
        r@.map_values(|t: &TextNode| *t) == texts_in(deref_all(nodes@)),
{
    let mut r: Vec<&'a TextNode> = Vec::new();
    let mut i: usize = 0;
    while i < nodes.len()
        invariant
            i <= nodes@.len(),
            r@.map_values(|t: &TextNode| *t) == texts_in(deref_all(nodes@.subrange(0, i as int))),
        decreases nodes@.len() - i,
    {
        let ghost before = r@;
        proof {
            assert(deref_all(nodes@.subrange(0, i + 1)).drop_last() =~= deref_all(nodes@.subrange(0, i as int)));
        }
        match nodes[i] {
            DomNode::Text(t) => {
                r.push(t);
                assert(r@.map_values(|t: &TextNode| *t) =~= before.map_values(|t: &TextNode| *t).push(*t));
            },
            _ => {},
        }
        i += 1;
    }
    assert(nodes@.subrange(0, nodes@.len() as int) =~= nodes@);
    r
}

/// The containers among the referred nodes, in order.
fn containers_of<'a>(nodes: &Vec<&'a DomNode>) -> (r: Vec<&'a ContainerNode>)
    ensures
        r@.map_values(|c: &ContainerNode| *c) == containers_in(deref_all(nodes@)),
{
    let mut r: Vec<&'a ContainerNode> = Vec::new();
    let mut i: usize = 0;
    while i < nodes.len()
        invariant
            i <= nodes@.len(),
            r@.map_values(|c: &ContainerNode| *c) == containers_in(deref_all(nodes@.subrange(0, i as int))),
        decreases nodes@.len() - i,
    {
        let ghost before = r@;
        proof {
            assert(deref_all(nodes@.subrange(0, i + 1)).drop_last() =~= deref_all(nodes@.subrange(0, i as int)));
        }
        match nodes[i] {
            DomNode::Container(c) => {
                r.push(c);
                assert(r@.map_values(|c: &ContainerNode| *c) =~= before.map_values(|c: &ContainerNode| *c).push(*c));
            },
            _ => {},
        }
        i += 1;
    }
    assert(nodes@.subrange(0, nodes@.len() as int) =~= nodes@);
    r
}

impl DomNode {
    /// The nodes of the subtree under this node, this node first, in
    /// depth-first order.
    pub fn iter(&self) -> (r: Vec<&DomNode>)
        ensures
            deref_all(r@) == preorder(*self),
    {
        let mut out: Vec<&DomNode> = Vec::new();
        collect_nodes(self, &mut out);
        assert(deref_all(Seq::<&DomNode>::empty()) + preorder(*self) =~= preorder(*self));
        out
    }

    /// The text nodes of the subtree under this node, in depth-first order.
    pub fn iter_text(&self) -> (r: Vec<&TextNode>)
        ensures
            r@.map_values(|t: &TextNode| *t) == texts_in(preorder(*self)),
    {
        let all = self.iter();
        text_nodes_of(&all)
    }

    /// The containers of the subtree under this node, in depth-first order.
    pub fn iter_containers(&self) -> (r: Vec<&ContainerNode>)
        ensures
            r@.map_values(|c: &ContainerNode| *c) == containers_in(preorder(*self)),
    {
        let all = self.iter();
        containers_of(&all)
    }
}

impl Dom {
    /// The nodes of this document, the document node first, in depth-first
    /// order.
    pub fn iter(&self) -> (r: Vec<&DomNode>)
        ensures
            deref_all(r@) == preorder(self.spec_document()),
    {
        self.document_node().iter()
    }

    /// The text nodes of this document, in depth-first order.
    pub fn iter_text(&self) -> (r: Vec<&TextNode>)
        ensures
            r@.map_values(|t: &TextNode| *t) == texts_in(preorder(self.spec_document())),
    {
        self.document_node().iter_text()
    }

    /// The containers of this document, the document node first, in
    /// depth-first order.
    pub fn iter_containers(&self) -> (r: Vec<&ContainerNode>)
        ensures
            r@.map_values(|c: &ContainerNode| *c) == containers_in(preorder(self.spec_document())),
    {
        self.document_node().iter_containers()
    }
}

/// The index of the first node of `s`, from `i` on, that holds the handle
/// `h`; the length of `s` if there is none.
pub open spec fn index_of_handle(s: Seq<DomNode>, h: Option<Seq<usize>>, i: int) -> int
    decreases s.len() - i,
{
    if i < 0 || i >= s.len() {
        s.len() as int
    } else if s[i].spec_handle() == h {
        i
    } else {
        index_of_handle(s, h, i + 1)
    }
}

/// The index found lies between where the search starts and the end.
pub proof fn lemma_index_of_handle_bounds(s: Seq<DomNode>, h: Option<Seq<usize>>, i: int)
    requires
        0 <= i <= s.len(),
    ensures
        i <= index_of_handle(s, h, i) <= s.len(),
    decreases s.len() - i,
{
    if i < s.len() && s[i].spec_handle() != h {
        lemma_index_of_handle_bounds(s, h, i + 1);
    }
}

/// The nodes of the tree under `doc` in depth-first order, from the first
/// one that holds the handle `h` to the end.
pub open spec fn nodes_from(doc: DomNode, h: Option<Seq<usize>>) -> Seq<DomNode> {
    let s = preorder(doc);
    s.skip(index_of_handle(s, h, 0))
}

/// The nodes of the tree under `doc` in depth-first order, from the first
/// one that holds the handle `h` back to the start, that one first.
pub open spec fn nodes_back_from(doc: DomNode, h: Option<Seq<usize>>) -> Seq<DomNode> {
    let s = preorder(doc);
    let k = index_of_handle(s, h, 0);
    if k < s.len() {
        s.take(k + 1).reverse()
    } else {
        Seq::empty()
    }
}

/// Where the first node that holds `handle` stands among `nodes`.
fn position_of_handle(nodes: &Vec<&DomNode>, handle: &DomHandle) -> (k: usize)
    ensures
        k == index_of_handle(deref_all(nodes@), handle@, 0),
{
    let ghost s = deref_all(nodes@);
    let mut i: usize = 0;
    while i < nodes.len()
        invariant
            s == deref_all(nodes@),
            i <= nodes@.len(),
            index_of_handle(s, handle@, 0) == index_of_handle(s, handle@, i as int),
        decreases nodes@.len() - i,
    {
        assert(s[i as int] == *nodes@[i as int]);
        if nodes[i].handle() == *handle {
            return i;
        }
        i += 1;
    }
    i
}

impl Dom {
    /// The nodes of this document in depth-first order, from the node that
    /// holds `handle` to the end.
    pub fn iter_from_handle(&self, handle: &DomHandle) -> (r: Vec<&DomNode>)
        ensures
            deref_all(r@) == nodes_from(self.spec_document(), handle@),
    {
        let all = self.iter();
        let k = position_of_handle(&all, handle);
        proof {
            lemma_index_of_handle_bounds(deref_all(all@), handle@, 0);
        }
        let mut r: Vec<&DomNode> = Vec::new();
        let mut i: usize = k;
        assert(deref_all(r@) =~= deref_all(all@).subrange(k as int, i as int));
        while i < all.len()
            invariant
                k <= i <= all@.len(),
                deref_all(all@) == preorder(self.spec_document()),
                deref_all(r@) == deref_all(all@).subrange(k as int, i as int),
            decreases all@.len() - i,
        {
            proof {
                lemma_deref_push(r@, all@[i as int]);
                assert(deref_all(all@).subrange(k as int, i + 1) =~= deref_all(all@).subrange(k as int, i as int).push(*all@[i as int]));
            }
            r.push(all[i]);
            i += 1;
        }
        assert(deref_all(all@).subrange(k as int, all@.len() as int) =~= deref_all(all@).skip(k as int));
        r
    }

    /// The nodes of this document in depth-first order from the node that
    /// holds `handle` back to the first one, that node first; nothing when
    /// no node holds it.
    pub fn iter_back_from_handle(&self, handle: &DomHandle) -> (r: Vec<&DomNode>)
        ensures
            deref_all(r@) == nodes_back_from(self.spec_document(), handle@),
    {
        let all = self.iter();
        let k = position_of_handle(&all, handle);
        let mut r: Vec<&DomNode> = Vec::new();
        if k >= all.len() {
            assert(deref_all(r@) =~= Seq::<DomNode>::empty());
            return r;
        }
        let ghost s = deref_all(all@);
        let mut i: usize = k + 1;
        while i > 0
            invariant
                i <= k + 1,
                k < all@.len(),
                s == deref_all(all@),
                deref_all(r@) == s.subrange(i as int, k + 1).reverse(),
            decreases i,
        {
            i -= 1;
            proof {
                lemma_deref_push(r@, all@[i as int]);
                assert(s.subrange(i as int, k + 1).reverse() =~= s.subrange(i + 1, k + 1).reverse().push(s[i as int]));
            }
            r.push(all[i]);
        }
        assert(s.subrange(0, k + 1) =~= s.take(k + 1));
        r
    }
}

} // verus!
