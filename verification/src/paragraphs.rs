use vstd::prelude::*;

use crate::dom::{Dom, children_at, container_at, lemma_update_container};
use crate::handle::DomHandle;
use crate::tree::{
    ContainerNode, DomNode, KindView, container_ok, is_block_kind, kind_of, lemma_node_at_handle, node_at,
    rehandled_from, same_children, same_content,
};

verus! {

/// The node is a block node.
pub open spec fn is_block(n: DomNode) -> bool {
    is_block_kind(kind_of(n))
}

/// How many inline nodes `s` starts with.
pub open spec fn inline_run_len(s: Seq<DomNode>) -> nat
    decreases s.len(),
{
    if s.len() == 0 || is_block(s[0]) {
        0
    } else {
        1 + inline_run_len(s.skip(1))
    }
}

/// `p` is a new paragraph holding nodes like `run`.
pub open spec fn paragraph_of(p: DomNode, run: Seq<DomNode>) -> bool {
    &&& p is Container
    &&& p->Container_0.spec_name() == seq!['p']
    &&& p->Container_0.spec_kind() == KindView::Paragraph
    &&& p->Container_0.spec_attrs() == None::<Seq<(Seq<char>, Seq<char>)>>
    &&& same_children(run, p->Container_0.spec_children())
}

/// `r` is `s` with each run of inline nodes in one paragraph, the block
/// nodes kept as they are.
pub open spec fn runs_wrapped(s: Seq<DomNode>, r: Seq<DomNode>) -> bool
    decreases s.len(),
{
    if s.len() == 0 {
        r.len() == 0
    } else if is_block(s[0]) {
        r.len() > 0 && same_content(s[0], r[0]) && runs_wrapped(s.skip(1), r.skip(1))
    } else {
        let m = inline_run_len(s);
        proof {
            lemma_inline_run_concat(s, Seq::<DomNode>::empty());
            assert(s + Seq::<DomNode>::empty() =~= s);
        }
        &&& r.len() > 0
        &&& paragraph_of(r[0], s.take(m as int))
        &&& runs_wrapped(s.skip(m as int), r.skip(1))
    }
}

/// The inline run at the start of `a + b`.
pub proof fn lemma_inline_run_concat(a: Seq<DomNode>, b: Seq<DomNode>)
    ensures
        inline_run_len(a) <= a.len(),
        inline_run_len(a + b) == if inline_run_len(a) < a.len() {
            inline_run_len(a)
        } else {
            a.len() + inline_run_len(b)
        },
        forall|j: int| 0 <= j < inline_run_len(a) ==> !is_block(#[trigger] a[j]),
        inline_run_len(a) < a.len() ==> is_block(a[inline_run_len(a) as int]),
    decreases a.len(),
{
    if a.len() == 0 {
        assert(a + b =~= b);
    } else if is_block(a[0]) {
        assert((a + b)[0] == a[0]);
    } else {
        lemma_inline_run_concat(a.skip(1), b);
        assert((a + b).skip(1) =~= a.skip(1) + b);
        assert((a + b)[0] == a[0]);
        assert forall|j: int| 0 <= j < inline_run_len(a) implies !is_block(#[trigger] a[j]) by {
            if j > 0 {
                assert(a[j] == a.skip(1)[j - 1]);
            }
        }
        if inline_run_len(a) < a.len() {
            assert(a[inline_run_len(a) as int] == a.skip(1)[inline_run_len(a.skip(1)) as int]);
        }
    }
}

/// Wrapping the runs of two sequences, the first ending where a run
/// ends, wraps the runs of the two together.
proof fn lemma_runs_concat(a: Seq<DomNode>, ra: Seq<DomNode>, b: Seq<DomNode>, rb: Seq<DomNode>)
    requires
        runs_wrapped(a, ra),
        runs_wrapped(b, rb),
        a.len() == 0 || b.len() == 0 || is_block(a.last()) || is_block(b[0]),
    ensures
        runs_wrapped(a + b, ra + rb),
    decreases a.len(),
{
    if a.len() == 0 {
        assert(a + b =~= b);
        assert(ra + rb =~= rb);
    } else if is_block(a[0]) {
        assert((a + b)[0] == a[0]);
        assert((a + b).skip(1) =~= a.skip(1) + b);
        assert((ra + rb)[0] == ra[0]);
        assert((ra + rb).skip(1) =~= ra.skip(1) + rb);
        if a.skip(1).len() > 0 {
            assert(a.skip(1).last() == a.last());
        }
        lemma_runs_concat(a.skip(1), ra.skip(1), b, rb);
    } else {
        let m = inline_run_len(a);
        lemma_inline_run_concat(a, b);
        if m == a.len() && b.len() > 0 {
            assert(!is_block(a[a.len() - 1]));
            lemma_inline_run_concat(b, Seq::<DomNode>::empty());
            assert(b + Seq::<DomNode>::empty() =~= b);
        }
        assert(inline_run_len(a + b) == m);
        assert((a + b)[0] == a[0]);
        assert((a + b).take(m as int) =~= a.take(m as int));
        assert((a + b).skip(m as int) =~= a.skip(m as int) + b);
        assert((ra + rb)[0] == ra[0]);
        assert((ra + rb).skip(1) =~= ra.skip(1) + rb);
        if a.skip(m as int).len() > 0 {
            assert(a.skip(m as int).last() == a.last());
        }
        lemma_runs_concat(a.skip(m as int), ra.skip(1), b, rb);
    }
}

/// A run of inline nodes followed by a block node, or by nothing, wrap into
/// one paragraph followed by that node.
proof fn lemma_run_then(run: Seq<DomNode>, p: DomNode, tail: Seq<DomNode>, rtail: Seq<DomNode>)
    requires
        run.len() > 0,
        forall|j: int| 0 <= j < run.len() ==> !is_block(#[trigger] run[j]),
        paragraph_of(p, run),
        tail.len() == 0 ==> rtail.len() == 0,
        tail.len() > 0 ==> tail.len() == 1 && is_block(tail[0]) && rtail.len() == 1 && same_content(tail[0], rtail[0]),
    ensures
        runs_wrapped(run + tail, seq![p] + rtail),
{
    lemma_inline_run_concat(run, tail);
    lemma_inline_run_concat(run, Seq::<DomNode>::empty());
    assert(run + Seq::<DomNode>::empty() =~= run);
    let m = run.len();
    assert(inline_run_len(run) == m) by {
        if inline_run_len(run) < m {
            assert(is_block(run[inline_run_len(run) as int]));
        }
    }
    if tail.len() > 0 {
        assert(inline_run_len(tail) == 0);
    }
    assert((run + tail)[0] == run[0]);
    assert((run + tail).take(m as int) =~= run);
    assert((run + tail).skip(m as int) =~= tail);
    assert((seq![p] + rtail)[0] == p);
    assert((seq![p] + rtail).skip(1) =~= rtail);
    assert(runs_wrapped(Seq::<DomNode>::empty(), Seq::<DomNode>::empty()));
    if tail.len() > 0 {
        assert(tail.skip(1) =~= Seq::<DomNode>::empty());
        assert(rtail.skip(1) =~= Seq::<DomNode>::empty());
        assert(runs_wrapped(tail, rtail));
    } else {
        assert(runs_wrapped(tail, rtail));
    }
    assert(!is_block((run + tail)[0]));
    assert(paragraph_of((seq![p] + rtail)[0], (run + tail).take(m as int)));
}

/// A block node wraps into itself.
proof fn lemma_block_alone(x: DomNode, y: DomNode)
    requires
        is_block(x),
        same_content(x, y),
    ensures
        runs_wrapped(seq![x], seq![y]),
{
    assert(seq![x].skip(1) =~= Seq::<DomNode>::empty());
    assert(seq![y].skip(1) =~= Seq::<DomNode>::empty());
    assert(runs_wrapped(Seq::<DomNode>::empty(), Seq::<DomNode>::empty()));
    assert(seq![x][0] == x);
}

impl ContainerNode {
    /// Put each run of inline children in a new paragraph of its own, in its
    /// place; block children stay.
    pub fn wrap_inline_runs(&mut self)
        requires
            container_ok(*old(self)),
        ensures
            container_ok(*final(self)),
            exists|r: Seq<DomNode>|
                #![trigger runs_wrapped(old(self).spec_children(), r)]
                runs_wrapped(old(self).spec_children(), r) && rehandled_from(
                    r,
                    final(self).spec_children(),
                    old(self).spec_handle().unwrap(),
                    0,
                ),
            final(self).spec_handle() == old(self).spec_handle(),
            final(self).spec_name() == old(self).spec_name(),
            final(self).spec_kind() == old(self).spec_kind(),
            final(self).spec_attrs() == old(self).spec_attrs(),
    {
        let ghost s = self.spec_children();
        let mut kids = self.take_children_after(0);
        proof {
            assert(s.skip(0) =~= s);
        }
        let n = kids.len();
        let mut out: Vec<DomNode> = Vec::new();
        let mut run: Vec<DomNode> = Vec::new();
        let mut i: usize = 0;
        proof {
            assert(s.take(0) =~= Seq::<DomNode>::empty());
        }
        while kids.len() > 0
            invariant
                n == s.len(),
                i + kids@.len() == n,
                kids@ == s.skip(i as int),
                run@.len() <= i,
                run@ == s.subrange(i - run@.len(), i as int),
                forall|j: int| 0 <= j < run@.len() ==> !is_block(#[trigger] run@[j]),
                runs_wrapped(s.take(i - run@.len()), out@),
                i - run@.len() == 0 || is_block(s[i - run@.len() - 1]),
            decreases kids@.len(),
        {
            let x = kids.remove(0);
            proof {
                assert(x == s[i as int]);
                assert(kids@ =~= s.skip(i + 1));
            }
            if x.is_block_node() {
                let ghost j = i - run@.len();
                let ghost out0 = out@;
                let ghost xv = x;
                if run.len() > 0 {
                    let ghost rv = run@;
                    let para = DomNode::new_paragraph(run);
                    proof {
                        crate::tree::lemma_same_children_refl(rv);
                        crate::tree::lemma_same_content_refl(xv);
                        lemma_run_then(rv, para, seq![xv], seq![xv]);
                        lemma_runs_concat(s.take(j), out0, rv + seq![xv], seq![para] + seq![xv]);
                        assert(s.take(j) + (rv + seq![xv]) =~= s.take(i + 1));
                        assert(out0 + (seq![para] + seq![xv]) =~= out0.push(para).push(xv));
                    }
                    out.push(para);
                    run = Vec::new();
                } else {
                    proof {
                        crate::tree::lemma_same_content_refl(xv);
                        lemma_block_alone(xv, xv);
                        lemma_runs_concat(s.take(j), out0, seq![xv], seq![xv]);
                        assert(s.take(j) + seq![xv] =~= s.take(i + 1));
                        assert(out0 + seq![xv] =~= out0.push(xv));
                    }
                }
                out.push(x);
            } else {
                run.push(x);
                proof {
                    assert(run@ =~= s.subrange(i + 1 - run@.len(), i + 1));
                }
            }
            i += 1;
        }
        if run.len() > 0 {
            let ghost j = i - run@.len();
            let ghost out0 = out@;
            let ghost rv = run@;
            let para = DomNode::new_paragraph(run);
            proof {
                crate::tree::lemma_same_children_refl(rv);
                lemma_run_then(rv, para, Seq::<DomNode>::empty(), Seq::<DomNode>::empty());
                assert(rv + Seq::<DomNode>::empty() =~= rv);
                assert(seq![para] + Seq::<DomNode>::empty() =~= seq![para]);
                lemma_runs_concat(s.take(j), out0, rv, seq![para]);
                assert(s.take(j) + rv =~= s.take(n as int));
                assert(out0 + seq![para] =~= out0.push(para));
            }
            out.push(para);
        }
        proof {
            assert(s.take(n as int) =~= s);
        }
        let ghost r = out@;
        self.insert_children(0, out);
        proof {
            assert(Seq::<DomNode>::empty().subrange(0, 0) + r + Seq::<DomNode>::empty().subrange(0, 0) =~= r);
        }
    }
}

impl Dom {
    /// In the container a handle names, when its children mix inline and
    /// block nodes, put each run of inline children in a new paragraph of
    /// its own; nothing changes when they are all inline or all block nodes,
    /// or for a node that is not a container.
    pub fn wrap_inline_nodes_into_paragraphs_at_container(&mut self, container_handle: &DomHandle)
        requires
            old(self).wf(),
            container_handle@ is Some,
            node_at(old(self).spec_document(), container_handle.path()) is Some,
        ensures
            final(self).wf(),
            ({
                let p = container_handle.path();
                let kids = children_at(old(self).spec_document(), p);
                if container_at(old(self).spec_document(), p) && (exists|j: int| 0 <= j < kids.len() && is_block(
                    #[trigger] kids[j],
                )) && (exists|j: int| 0 <= j < kids.len() && !is_block(#[trigger] kids[j])) {
                    &&& Dom::changed_at(*old(self), *final(self), p)
                    &&& exists|r: Seq<DomNode>|
                        #![trigger runs_wrapped(kids, r)]
                        runs_wrapped(kids, r) && rehandled_from(r, children_at(final(self).spec_document(), p), p, 0)
                } else {
                    *final(self) == *old(self)
                }
            }),
    {
        let ghost old_doc = self.spec_document();
        let ghost p = container_handle.path();
        proof {
            lemma_node_at_handle(old_doc, Seq::<usize>::empty(), p);
            assert(Seq::<usize>::empty() + p =~= p);
        }
        let node = self.lookup_node(container_handle);
        let (any_block, any_inline) = match node {
            DomNode::Container(container) => {
                let ghost kids = container.spec_children();
                let mut any_block = false;
                let mut any_inline = false;
                let mut i: usize = 0;
                while i < container.children().len()
                    invariant
                        kids == container.spec_children(),
                        i <= kids.len(),
                        any_block == exists|j: int| 0 <= j < i && is_block(#[trigger] kids[j]),
                        any_inline == exists|j: int| 0 <= j < i && !is_block(#[trigger] kids[j]),
                    decreases kids.len() - i,
                {
                    if container.children()[i].is_block_node() {
                        any_block = true;
                    } else {
                        any_inline = true;
                    }
                    i += 1;
                }
                (any_block, any_inline)
            },
            _ => (false, false),
        };
        if !any_block || !any_inline {
            return;
        }
        let node = self.lookup_node_mut(container_handle);
        match node {
            DomNode::Container(container) => {
                let ghost c_old = *container;
                container.wrap_inline_runs();
                proof {
                    lemma_update_container(old_doc, self.spec_document(), p, c_old, *container);
                    assert(children_at(self.spec_document(), p) == container.spec_children());
                    assert(c_old.spec_children() == children_at(old_doc, p));
                    let r = choose|r: Seq<DomNode>|
                        runs_wrapped(c_old.spec_children(), r) && rehandled_from(
                            r,
                            container.spec_children(),
                            c_old.spec_handle().unwrap(),
                            0,
                        );
                    assert(runs_wrapped(children_at(old_doc, p), r));
                    assert(rehandled_from(r, children_at(self.spec_document(), p), p, 0));
                    assert(Dom::changed_at(*old(self), *self, p));
                }
            },
            _ => {},
        }
    }
}

} // verus!
