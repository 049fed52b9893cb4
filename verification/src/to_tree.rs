use vstd::prelude::*;

use crate::leaf_nodes::{LineBreakNode, TextNode, ZwspNode};
use crate::tree::{ContainerNode, ContainerNodeKind, DomNode, KindView, MentionNode, lemma_container_child_decreases, lemma_decreases_children};

verus! {

/// The part of a tree line before the description, for a node at `depth`:
/// an arrow for the node itself, and for each ancestor level a bar where
/// that ancestor has more children to come (`cont` lists those levels).
pub open spec fn tree_prefix(depth: nat, cont: Seq<usize>, i: nat) -> Seq<char>
    decreases depth - i,
{
    if i >= depth {
        Seq::empty()
    } else {
        let piece = if i == depth - 1 {
            if cont.contains(i as usize) {
                seq!['\u{251C}', '>']
            } else {
                seq!['\u{2514}', '>']
            }
        } else if cont.contains(i as usize) {
            seq!['\u{2502}', ' ']
        } else {
            seq![' ', ' ']
        };
        piece + tree_prefix(depth, cont, i + 1)
    }
}

/// A line of the tree view.
pub open spec fn tree_line(description: Seq<char>, depth: nat, cont: Seq<usize>) -> Seq<char> {
    tree_prefix(depth, cont, 0) + description + seq!['\n']
}

/// The depth of a node, from its handle.
pub open spec fn depth_of(n: DomNode) -> nat {
    n.spec_handle().unwrap().len()
}

/// The description of a node in the tree view.
pub open spec fn tree_description(n: DomNode) -> Seq<char> {
    match n {
        DomNode::Container(c) => c.spec_name() + (match c.spec_kind() {
            KindView::Link(url) => seq![' ', '"'] + url + seq!['"'],
            _ => Seq::empty(),
        }),
        DomNode::Text(t) => seq!['"'] + t.spec_data() + seq!['"'],
        DomNode::LineBreak(_) => seq!['b', 'r'],
        DomNode::Zwsp(_) => seq!['~'],
        DomNode::Mention(m) => seq!['m', 'e', 'n', 't', 'i', 'o', 'n', ' ', '"'] + m.spec_display_text() + seq!['"'] + (if m.spec_is_at_room() {
            Seq::empty()
        } else {
            seq![',', ' '] + m.spec_href()
        }),
    }
}

/// Every node of the tree under `n` has its handle set.
pub open spec fn all_set(n: DomNode) -> bool
    decreases n, 0int,
{
    &&& n.spec_handle() is Some
    &&& match n {
        DomNode::Container(c) => {
            proof {
                lemma_decreases_children(n);
            }
            all_set_children(c.spec_children(), c.spec_children().len() as int)
        },
        _ => true,
    }
}

/// Every node of the trees under the first `k` nodes of `s` has its handle
/// set.
pub open spec fn all_set_children(s: Seq<DomNode>, k: int) -> bool
    decreases s, k,
{
    if k <= 0 || k > s.len() {
        true
    } else {
        all_set_children(s, k - 1) && all_set(s[k - 1])
    }
}

/// The tree view of a node, `cont` listing the levels whose ancestors have
/// more children to come.
pub open spec fn tree_of(n: DomNode, cont: Seq<usize>) -> Seq<char>
    decreases n, 0int,
{
    match n {
        DomNode::Container(c) => {
            proof {
                lemma_decreases_children(n);
            }
            tree_line(tree_description(n), depth_of(n), cont) + tree_children(
                c.spec_children(),
                c.spec_children().len() as int,
                cont,
                depth_of(n),
            )
        },
        _ => tree_line(tree_description(n), depth_of(n), cont),
    }
}

/// The tree views of the first `k` nodes of `s`, children of a container at
/// depth `d`.
pub open spec fn tree_children(s: Seq<DomNode>, k: int, cont: Seq<usize>, d: nat) -> Seq<char>
    decreases s, k,
{
    if k <= 0 || k > s.len() {
        Seq::empty()
    } else {
        tree_children(s, k - 1, cont, d) + tree_of(
            s[k - 1],
            cont + (if k - 1 < s.len() - 1 {
                seq![d as usize]
            } else {
                Seq::empty()
            }),
        )
    }
}

proof fn lemma_all_set_children(s: Seq<DomNode>, k: int, i: int)
    requires
        all_set_children(s, k),
        0 <= i < k <= s.len(),
    ensures
        all_set(s[i]),
    decreases k,
{
    if i < k - 1 {
        lemma_all_set_children(s, k - 1, i);
    }
}

/// True when `v` holds `x`.
fn contains_usize(v: &Vec<usize>, x: usize) -> (b: bool)
    ensures
        b == v@.contains(x),
{
    let mut i: usize = 0;
    while i < v.len()
        invariant
            i <= v@.len(),
            forall|j: int| 0 <= j < i ==> v@[j] != x,
        decreases v@.len() - i,
    {
        if v[i] == x {
            assert(v@[i as int] == x);
            return true;
        }
        i += 1;
    }
    false
}

/// A line of the tree view.
fn tree_line_exec(description: &Vec<char>, depth: usize, cont: &Vec<usize>) -> (r: Vec<char>)
    ensures
        r@ == tree_line(description@, depth as nat, cont@),
{
    let mut out: Vec<char> = Vec::new();
    let mut i: usize = 0;
    while i < depth
        invariant
            i <= depth,
            out@ + tree_prefix(depth as nat, cont@, i as nat) == tree_prefix(depth as nat, cont@, 0),
        decreases depth - i,
    {
        let c = contains_usize(cont, i);
        let ghost before = out@;
        if i == depth - 1 {
            if c {
                out.push('\u{251C}');
            } else {
                out.push('\u{2514}');
            }
            out.push('>');
        } else {
            if c {
                out.push('\u{2502}');
            } else {
                out.push(' ');
            }
            out.push(' ');
        }
        i += 1;
        assert(out@ + tree_prefix(depth as nat, cont@, i as nat) =~= before + tree_prefix(depth as nat, cont@, (i - 1) as nat));
    }
    assert(out@ + tree_prefix(depth as nat, cont@, i as nat) =~= out@);
    crate::html::push_chars(&mut out, description);
    out.push('\n');
    out
}

/// A copy of a list of positions.
fn copy_positions(v: &Vec<usize>) -> (r: Vec<usize>)
    ensures
        r@ == v@,
{
    let mut r: Vec<usize> = Vec::new();
    let mut i: usize = 0;
    while i < v.len()
        invariant
            i <= v@.len(),
            r@ == v@.take(i as int),
        decreases v@.len() - i,
    {
        r.push(v[i]);
        i += 1;
        assert(r@ =~= v@.take(i as int));
    }
    assert(v@.take(i as int) =~= v@);
    r
}

/// The description of a node in the tree view.
fn description_of(n: &DomNode) -> (d: Vec<char>)
    ensures
        d@ == tree_description(*n),
{
    match n {
        DomNode::Container(c) => {
            let mut d = crate::leaf_nodes::copy_range(c.name(), 0, c.name().len());
            assert(c.spec_name().subrange(0, c.spec_name().len() as int) =~= c.spec_name());
            match c.kind() {
                ContainerNodeKind::Link(url) => {
                    d.push(' ');
                    d.push('"');
                    crate::html::push_chars(&mut d, url);
                    d.push('"');
                },
                _ => {},
            }
            assert(d@ =~= tree_description(*n));
            d
        },
        DomNode::Text(t) => {
            let mut d = vec!['"'];
            crate::html::push_chars(&mut d, t.data());
            d.push('"');
            assert(d@ =~= tree_description(*n));
            d
        },
        DomNode::LineBreak(_) => {
            let d = vec!['b', 'r'];
            assert(d@ =~= tree_description(*n));
            d
        },
        DomNode::Zwsp(_) => {
            let d = vec!['~'];
            assert(d@ =~= tree_description(*n));
            d
        },
        DomNode::Mention(m) => {
            let mut d = vec!['m', 'e', 'n', 't', 'i', 'o', 'n', ' ', '"'];
            let t = m.display_text();
            crate::html::push_chars(&mut d, &t);
            d.push('"');
            let at_room = match m.kind() {
                crate::tree::MentionNodeKind::AtRoom => true,
                _ => false,
            };
            if !at_room {
                d.push(',');
                d.push(' ');
                let h = m.href();
                crate::html::push_chars(&mut d, &h);
            }
            assert(d@ =~= tree_description(*n));
            d
        },
    }
}

/// The tree view of a node.
fn tree_node(n: &DomNode, cont: &Vec<usize>) -> (r: Vec<char>)
    requires
        all_set(*n),
    ensures
        r@ == tree_of(*n, cont@),
    decreases *n,
{
    let desc = description_of(n);
    let depth = n.handle().depth();
    let mut out = tree_line_exec(&desc, depth, cont);
    match n {
        DomNode::Container(c) => {
            let children = c.children();
            let len = children.len();
            let ghost start = out@;
            let mut i: usize = 0;
            while i < len
                invariant
                    i <= len,
                    len == children@.len(),
                    children@ == c.spec_children(),
                    *n == DomNode::Container(*c),
                    depth == depth_of(*n),
                    all_set_children(children@, len as int),
                    out@ == start + tree_children(children@, i as int, cont@, depth as nat),
                decreases len - i,
            {
                let mut new_positions = copy_positions(cont);
                if i < len - 1 {
                    new_positions.push(depth);
                }
                assert(new_positions@ =~= cont@ + (if i < len - 1 {
                    seq![depth]
                } else {
                    Seq::empty()
                }));
                proof {
                    lemma_container_child_decreases(*c, i as int);
                    lemma_all_set_children(children@, len as int, i as int);
                }
                let part = tree_node(&children[i], &new_positions);
                crate::html::push_chars(&mut out, &part);
                i += 1;
                assert(out@ =~= start + tree_children(children@, i as int, cont@, depth as nat));
            }
            out
        },
        _ => out,
    }
}

/// The tree view of a node or a document, one line per node.
pub trait ToTree {
    /// Every node below has its handle set.
    spec fn tree_ready(&self) -> bool;

    /// The tree view, `cont` listing the levels whose ancestors have more
    /// children to come.
    spec fn spec_tree(&self, cont: Seq<usize>) -> Seq<char>;

    /// The tree view, `continuous_positions` listing the levels whose
    /// ancestors have more children to come.
    fn to_tree_display(&self, continuous_positions: Vec<usize>) -> (r: Vec<char>)
        requires
            self.tree_ready(),
        ensures
            r@ == self.spec_tree(continuous_positions@),
    ;

    /// The tree view.
    fn to_tree(&self) -> (r: Vec<char>)
        requires
            self.tree_ready(),
        ensures
            r@ == self.spec_tree(Seq::empty()),
    {
        let v: Vec<usize> = Vec::new();
        self.to_tree_display(v)
    }
}

impl ToTree for DomNode {
    open spec fn tree_ready(&self) -> bool {
        all_set(*self)
    }

    open spec fn spec_tree(&self, cont: Seq<usize>) -> Seq<char> {
        tree_of(*self, cont)
    }

    fn to_tree_display(&self, continuous_positions: Vec<usize>) -> (r: Vec<char>) {
        tree_node(self, &continuous_positions)
    }
}

impl ToTree for crate::dom::Dom {
    open spec fn tree_ready(&self) -> bool {
        all_set(self.spec_document())
    }

    open spec fn spec_tree(&self, cont: Seq<usize>) -> Seq<char> {
        tree_of(self.spec_document(), cont)
    }

    fn to_tree_display(&self, continuous_positions: Vec<usize>) -> (r: Vec<char>) {
        tree_node(self.document_node(), &continuous_positions)
    }
}

} // verus!
