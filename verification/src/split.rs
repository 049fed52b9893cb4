use vstd::prelude::*;

use crate::dom::{Dom, children_at, container_at, lemma_node_at_parent, lemma_update_container};
use crate::handle::{DomHandle, is_prefix};
use crate::tree::{
    ContainerNode, DomNode, container_ok, handles_ok, lemma_children_ok_iff, lemma_container_child_decreases,
    lemma_node_at_handle, lemma_same_children_iff, node_at, rehandled_from, same_children, same_content,
};

verus! {

/// Where a split cuts: it starts in the node at `from`, at `start` in it,
/// and, when `to` is set, ends in the node at `to`, at `end` in it.
pub struct SplitSpec {
    pub from: Seq<usize>,
    pub start: int,
    pub to: Option<Seq<usize>>,
    pub end: int,
}

/// A text node at `at` is cut at the start of the split: it is the node
/// where the split starts, or a first child below it.
pub open spec fn cut_at_start(at: Seq<usize>, from: Seq<usize>) -> bool {
    at == from || (is_prefix(from, at) && at != from && at.last() == 0)
}

/// The split cuts the text at `at` of length `len` where it starts.
pub open spec fn starts_in_text(at: Seq<usize>, len: int, sp: SplitSpec) -> bool {
    cut_at_start(at, sp.from) && 1 <= sp.start <= len
}

/// The split cuts the text at `at` of length `len` where it ends.
pub open spec fn ends_in_text(at: Seq<usize>, len: int, sp: SplitSpec) -> bool {
    !starts_in_text(at, len, sp) && sp.to == Some(at) && 1 <= sp.end <= len
}

/// The first child of the container at `at`, which holds `n` children,
/// that the split reaches: the one on the way to where it starts, else the
/// first.
pub open spec fn low_child(at: Seq<usize>, n: int, from: Seq<usize>) -> int {
    let lo: int = if is_prefix(at, from) && from.len() > at.len() {
        from[at.len() as int] as int
    } else {
        0
    };
    if lo > n {
        n
    } else {
        lo
    }
}

/// The child after the last child of the container at `at` that the split
/// reaches: the one after the way to where it ends, else the end.
pub open spec fn high_child(at: Seq<usize>, n: int, from: Seq<usize>, to: Option<Seq<usize>>) -> int {
    let lo = low_child(at, n, from);
    let hi: int = match to {
        Some(tp) => if is_prefix(at, tp) && tp.len() > at.len() {
            tp[at.len() as int] + 1
        } else {
            n
        },
        None => n,
    };
    let h1 = if hi > n {
        n
    } else {
        hi
    };
    if h1 < lo {
        lo
    } else {
        h1
    }
}

/// How many nodes the node `n` at `at` leaves in place when split: none or
/// one.
pub open spec fn kept_count(n: DomNode, at: Seq<usize>, sp: SplitSpec) -> int
    decreases n, 0int,
{
    match n {
        DomNode::Text(t) => if starts_in_text(at, t.spec_data().len() as int, sp) || ends_in_text(
            at,
            t.spec_data().len() as int,
            sp,
        ) {
            1
        } else {
            0
        },
        DomNode::Mention(_) => if sp.start == 0 {
            0
        } else {
            1
        },
        DomNode::Container(c) => {
            proof {
                crate::tree::lemma_decreases_children(n);
            }
            let kids = c.spec_children();
            let lo = low_child(at, kids.len() as int, sp.from);
            let hi = high_child(at, kids.len() as int, sp.from, sp.to);
            if at.len() > 0 && kids.len() > 0 && lo + kids_kept_count(kids, at, sp, lo, hi) + (kids.len()
                - hi) == 0 {
                0
            } else {
                1
            }
        },
        _ => 0,
    }
}

/// How many of the children `kids`, from `i` to `hi`, of the container at
/// `at` stay in place when split.
pub open spec fn kids_kept_count(kids: Seq<DomNode>, at: Seq<usize>, sp: SplitSpec, i: int, hi: int) -> int
    decreases kids, hi - i,
{
    if i < 0 || i >= hi || hi > kids.len() {
        0
    } else {
        kept_count(kids[i], at.push(i as usize), sp) + kids_kept_count(kids, at, sp, i + 1, hi)
    }
}

/// How many nodes the node `n` at `at` gives when split.
pub open spec fn taken_count(n: DomNode, at: Seq<usize>, sp: SplitSpec) -> int {
    match n {
        DomNode::Text(t) => {
            let len = t.spec_data().len() as int;
            if starts_in_text(at, len, sp) {
                if sp.start < len {
                    1
                } else {
                    0
                }
            } else if ends_in_text(at, len, sp) {
                if sp.end < len {
                    1
                } else {
                    0
                }
            } else {
                1
            }
        },
        DomNode::Mention(_) => if sp.start == 0 {
            1
        } else {
            0
        },
        _ => 1,
    }
}

/// `k` is what the node `n` at `at` leaves in place when split: the text
/// before the cut of a text node that the split cuts, a mention unless the
/// split starts at offset 0, nothing of the other leaves, and a container
/// with the children that the split does not reach and what those it
/// reaches leave, unless it is not the document and all of its children
/// went.
pub open spec fn split_kept_ok(n: DomNode, at: Seq<usize>, sp: SplitSpec, k: Option<DomNode>) -> bool
    decreases n, 0int,
{
    match n {
        DomNode::Text(t) => {
            let data = t.spec_data();
            let len = data.len() as int;
            if starts_in_text(at, len, sp) {
                k is Some && k.unwrap() is Text && k.unwrap()->Text_0.spec_data() == data.take(sp.start)
            } else if ends_in_text(at, len, sp) {
                k is Some && k.unwrap() is Text && k.unwrap()->Text_0.spec_data() == data.take(sp.end)
            } else {
                k is None
            }
        },
        DomNode::Mention(_) => if sp.start == 0 {
            k is None
        } else {
            k is Some && same_content(n, k.unwrap())
        },
        DomNode::Container(c) => {
            proof {
                crate::tree::lemma_decreases_children(n);
            }
            if kept_count(n, at, sp) == 0 {
                k is None
            } else {
                let kids = c.spec_children();
                let lo = low_child(at, kids.len() as int, sp.from);
                let hi = high_child(at, kids.len() as int, sp.from, sp.to);
                let m = kids_kept_count(kids, at, sp, lo, hi);
                &&& k is Some
                &&& k.unwrap() is Container
                &&& k.unwrap()->Container_0.spec_name() == c.spec_name()
                &&& k.unwrap()->Container_0.spec_kind() == c.spec_kind()
                &&& k.unwrap()->Container_0.spec_attrs() == c.spec_attrs()
                &&& {
                    let out = k.unwrap()->Container_0.spec_children();
                    &&& out.len() == lo + m + (kids.len() - hi)
                    &&& same_children(kids.take(lo), out.take(lo))
                    &&& same_children(kids.skip(hi), out.skip(lo + m))
                    &&& kids_kept_ok(kids, at, sp, lo, hi, out.subrange(lo, lo + m))
                }
            }
        },
        _ => k is None,
    }
}

/// `out` is what the children `kids`, from `i` to `hi`, of the container
/// at `at` leave in place when split, in order.
pub open spec fn kids_kept_ok(kids: Seq<DomNode>, at: Seq<usize>, sp: SplitSpec, i: int, hi: int, out: Seq<DomNode>) -> bool
    decreases kids, hi - i,
{
    if i < 0 || i >= hi || hi > kids.len() {
        out.len() == 0
    } else {
        let c = kept_count(kids[i], at.push(i as usize), sp);
        &&& out.len() >= c
        &&& split_kept_ok(kids[i], at.push(i as usize), sp, if c == 1 { Some(out[0]) } else { None })
        &&& kids_kept_ok(kids, at, sp, i + 1, hi, out.skip(c))
    }
}

/// `t` is what the node `n` at `at` gives when split: the text after the
/// cut of a text node that the split cuts, when there is some; nothing of a
/// mention unless the split starts at offset 0; the other leaves
/// themselves; and a container like it holding what the children that the
/// split reaches give.
pub open spec fn split_taken_ok(n: DomNode, at: Seq<usize>, sp: SplitSpec, t: Seq<DomNode>) -> bool
    decreases n, 0int,
{
    match n {
        DomNode::Text(tx) => {
            let data = tx.spec_data();
            let len = data.len() as int;
            if starts_in_text(at, len, sp) {
                &&& t.len() == taken_count(n, at, sp)
                &&& sp.start < len ==> t[0] is Text && t[0]->Text_0.spec_data() == data.skip(sp.start)
            } else if ends_in_text(at, len, sp) {
                &&& t.len() == taken_count(n, at, sp)
                &&& sp.end < len ==> t[0] is Text && t[0]->Text_0.spec_data() == data.skip(sp.end)
            } else {
                t.len() == 1 && same_content(n, t[0])
            }
        },
        DomNode::Mention(_) => if sp.start == 0 {
            t.len() == 1 && same_content(n, t[0])
        } else {
            t.len() == 0
        },
        DomNode::Container(c) => {
            proof {
                crate::tree::lemma_decreases_children(n);
            }
            let kids = c.spec_children();
            &&& t.len() == 1
            &&& t[0] is Container
            &&& t[0]->Container_0.spec_name() == c.spec_name()
            &&& t[0]->Container_0.spec_kind() == c.spec_kind()
            &&& t[0]->Container_0.spec_attrs() == c.spec_attrs()
            &&& kids_taken_ok(
                kids,
                at,
                sp,
                low_child(at, kids.len() as int, sp.from),
                high_child(at, kids.len() as int, sp.from, sp.to),
                t[0]->Container_0.spec_children(),
            )
        },
        _ => t.len() == 1 && same_content(n, t[0]),
    }
}

/// `out` is what the children `kids`, from `i` to `hi`, of the container
/// at `at` give when split, in order.
pub open spec fn kids_taken_ok(kids: Seq<DomNode>, at: Seq<usize>, sp: SplitSpec, i: int, hi: int, out: Seq<DomNode>) -> bool
    decreases kids, hi - i,
{
    if i < 0 || i >= hi || hi > kids.len() {
        out.len() == 0
    } else {
        let c = taken_count(kids[i], at.push(i as usize), sp);
        &&& out.len() >= c
        &&& split_taken_ok(kids[i], at.push(i as usize), sp, out.take(c))
        &&& kids_taken_ok(kids, at, sp, i + 1, hi, out.skip(c))
    }
}

/// The split that a pair of handles and offsets describe.
pub open spec fn split_spec_of(from: DomHandle, start: usize, to: Option<DomHandle>, end: usize) -> SplitSpec {
    SplitSpec {
        from: from.path(),
        start: start as int,
        to: match to {
            Some(h) => Some(h.path()),
            None => None,
        },
        end: end as int,
    }
}

/// Parts of sequences that hold the same content hold the same content.
proof fn lemma_same_children_sub(a: Seq<DomNode>, b: Seq<DomNode>, lo: int, hi: int)
    requires
        same_children(a, b),
        0 <= lo <= hi <= a.len(),
    ensures
        same_children(a.subrange(lo, hi), b.subrange(lo, hi)),
{
    lemma_same_children_iff(a, b);
    lemma_same_children_iff(a.subrange(lo, hi), b.subrange(lo, hi));
    assert forall|j: int| 0 <= j < hi - lo implies #[trigger] same_content(a.subrange(lo, hi)[j], b.subrange(lo, hi)[j]) by {
        assert(same_content(a[lo + j], b[lo + j]));
    }
}

/// The bounds of the children that a split reaches lie within the
/// children.
proof fn lemma_bounds(at: Seq<usize>, n: int, from: Seq<usize>, to: Option<Seq<usize>>)
    requires
        n >= 0,
    ensures
        0 <= low_child(at, n, from) <= high_child(at, n, from, to) <= n,
{
}

/// As many children stay in place as are reached, or fewer.
proof fn lemma_kids_kept_count_bounds(kids: Seq<DomNode>, at: Seq<usize>, sp: SplitSpec, i: int, hi: int)
    requires
        0 <= i <= hi <= kids.len(),
    ensures
        0 <= kids_kept_count(kids, at, sp, i, hi) <= hi - i,
    decreases hi - i,
{
    if i < hi {
        lemma_kids_kept_count_bounds(kids, at, sp, i + 1, hi);
        assert(0 <= kept_count(kids[i], at.push(i as usize), sp) <= 1);
    }
}

/// What a node leaves in place when split may be replaced by a node of the
/// same content.
proof fn lemma_kept_ok_same(n: DomNode, at: Seq<usize>, sp: SplitSpec, x: DomNode, y: DomNode)
    requires
        split_kept_ok(n, at, sp, Some(x)),
        same_content(x, y),
    ensures
        split_kept_ok(n, at, sp, Some(y)),
    decreases n, 1int,
{
    match n {
        DomNode::Mention(_) => {
            crate::laws::lemma_same_content_sym_trans(n, x, y);
        },
        DomNode::Container(c) => {
            crate::tree::lemma_decreases_children(n);
            let kids = c.spec_children();
            let lo = low_child(at, kids.len() as int, sp.from);
            let hi = high_child(at, kids.len() as int, sp.from, sp.to);
            let m = kids_kept_count(kids, at, sp, lo, hi);
            lemma_bounds(at, kids.len() as int, sp.from, sp.to);
            lemma_kids_kept_count_bounds(kids, at, sp, lo, hi);
            let ox = x->Container_0.spec_children();
            let oy = y->Container_0.spec_children();
            lemma_same_children_iff(ox, oy);
            lemma_same_children_sub(ox, oy, 0, lo);
            lemma_same_children_sub(ox, oy, lo + m, ox.len() as int);
            lemma_same_children_sub(ox, oy, lo, lo + m);
            assert(ox.take(lo) == ox.subrange(0, lo));
            assert(oy.take(lo) == oy.subrange(0, lo));
            assert(ox.skip(lo + m) == ox.subrange(lo + m, ox.len() as int));
            assert(oy.skip(lo + m) == oy.subrange(lo + m, oy.len() as int));
            crate::list_methods::lemma_same_children_sym_trans(kids.take(lo), ox.take(lo), oy.take(lo));
            crate::list_methods::lemma_same_children_sym_trans(kids.skip(hi), ox.skip(lo + m), oy.skip(lo + m));
            lemma_kids_kept_ok_same(kids, at, sp, lo, hi, ox.subrange(lo, lo + m), oy.subrange(lo, lo + m));
        },
        _ => {},
    }
}

/// What children leave in place when split may be replaced by nodes of the
/// same content.
proof fn lemma_kids_kept_ok_same(kids: Seq<DomNode>, at: Seq<usize>, sp: SplitSpec, i: int, hi: int, a: Seq<DomNode>, b: Seq<DomNode>)
    requires
        kids_kept_ok(kids, at, sp, i, hi, a),
        same_children(a, b),
    ensures
        kids_kept_ok(kids, at, sp, i, hi, b),
    decreases kids, hi - i,
{
    lemma_same_children_iff(a, b);
    if !(i < 0 || i >= hi || hi > kids.len()) {
        let c = kept_count(kids[i], at.push(i as usize), sp);
        if c == 1 {
            lemma_kept_ok_same(kids[i], at.push(i as usize), sp, a[0], b[0]);
        }
        lemma_same_children_sub(a, b, c, a.len() as int);
        assert(a.skip(c) == a.subrange(c, a.len() as int));
        assert(b.skip(c) == b.subrange(c, b.len() as int));
        lemma_kids_kept_ok_same(kids, at, sp, i + 1, hi, a.skip(c), b.skip(c));
    }
}

/// What a node leaves in place when split is there exactly when it keeps
/// one node, and what it gives is as many nodes as it gives.
proof fn lemma_split_counts(n: DomNode, at: Seq<usize>, sp: SplitSpec, k: Option<DomNode>, t: Seq<DomNode>)
    requires
        split_kept_ok(n, at, sp, k),
        split_taken_ok(n, at, sp, t),
    ensures
        k is Some <==> kept_count(n, at, sp) == 1,
        k is None <==> kept_count(n, at, sp) == 0,
        t.len() == taken_count(n, at, sp),
{
}

/// True when `ancestor` is `handle` or one of its ancestors.
pub fn is_ancestor_or_self(ancestor: &DomHandle, handle: &DomHandle) -> (b: bool)
    requires
        ancestor@ is Some,
        handle@ is Some,
    ensures
        b == is_prefix(ancestor.path(), handle.path()),
{
    let r = ancestor.is_ancestor_of(handle) || *ancestor == *handle;
    proof {
        if ancestor.path() == handle.path() {
            assert(handle.path().subrange(0, ancestor.path().len() as int) =~= handle.path());
        }
    }
    r
}

/// The handle cut to its first `depth` indices, when it is that deep.
pub fn sub_handle_up_to_or_none(handle: &DomHandle, depth: usize) -> (r: Option<DomHandle>)
    requires
        handle@ is Some,
    ensures
        match r {
            Some(h) => handle.path().len() >= depth && h@ == Some(handle.path().subrange(0, depth as int)),
            None => handle.path().len() < depth,
        },
{
    if handle.depth() >= depth {
        Some(handle.sub_handle_up_to(depth))
    } else {
        None
    }
}

/// The first child of the container at `at`, holding `n` children, that a
/// split from `from` reaches.
fn low_index(at: &DomHandle, from: &DomHandle, n: usize) -> (lo: usize)
    requires
        at@ is Some,
        from@ is Some,
    ensures
        lo == low_child(at.path(), n as int, from.path()),
{
    proof {
        crate::handle::lemma_path_len(*at);
        crate::handle::lemma_path_len(*from);
    }
    let lo = if is_ancestor_or_self(at, from) {
        match at.depth().checked_add(1) {
            Some(d) => match sub_handle_up_to_or_none(from, d) {
                Some(h) => {
                    let i = h.index_in_parent();
                    proof {
                        assert(h.path().last() == from.path()[at.path().len() as int]);
                    }
                    i
                },
                None => 0,
            },
            None => 0,
        }
    } else {
        0
    };
    if lo > n {
        n
    } else {
        lo
    }
}

/// The child after the last child of the container at `at`, holding `n`
/// children, that a split to `to` reaches.
fn high_index(at: &DomHandle, from: &DomHandle, to: &Option<DomHandle>, n: usize) -> (hi: usize)
    requires
        at@ is Some,
        from@ is Some,
        to is Some ==> to.unwrap()@ is Some,
    ensures
        hi == high_child(
            at.path(),
            n as int,
            from.path(),
            match *to {
                Some(h) => Some(h.path()),
                None => None,
            },
        ),
{
    let lo = low_index(at, from, n);
    proof {
        crate::handle::lemma_path_len(*at);
        if to.is_some() {
            crate::handle::lemma_path_len(to.unwrap());
        }
    }
    let h1 = match to {
        Some(th) => if is_ancestor_or_self(at, th) {
            match at.depth().checked_add(1) {
                Some(d) => match sub_handle_up_to_or_none(th, d) {
                    Some(h) => {
                        let i = h.index_in_parent();
                        proof {
                            assert(h.path().last() == th.path()[at.path().len() as int]);
                        }
                        if i >= n {
                            n
                        } else {
                            i + 1
                        }
                    },
                    None => n,
                },
                None => n,
            }
        } else {
            n
        },
        None => n,
    };
    if h1 < lo {
        lo
    } else {
        h1
    }
}

/// What a node gives when split may be replaced by nodes of the same
/// content.
proof fn lemma_taken_ok_same(n: DomNode, at: Seq<usize>, sp: SplitSpec, a: Seq<DomNode>, b: Seq<DomNode>)
    requires
        split_taken_ok(n, at, sp, a),
        same_children(a, b),
    ensures
        split_taken_ok(n, at, sp, b),
    decreases n, 1int,
{
    lemma_same_children_iff(a, b);
    match n {
        DomNode::Container(c) => {
            crate::tree::lemma_decreases_children(n);
            let kids = c.spec_children();
            assert(same_content(a[0], b[0]));
            lemma_kids_taken_ok_same(
                kids,
                at,
                sp,
                low_child(at, kids.len() as int, sp.from),
                high_child(at, kids.len() as int, sp.from, sp.to),
                a[0]->Container_0.spec_children(),
                b[0]->Container_0.spec_children(),
            );
        },
        DomNode::Text(_) => {
            if a.len() > 0 {
                assert(same_content(a[0], b[0]));
                if !(a[0] is Text) {
                    crate::laws::lemma_same_content_sym_trans(n, a[0], b[0]);
                }
            }
        },
        _ => {
            if a.len() > 0 {
                assert(same_content(a[0], b[0]));
                crate::laws::lemma_same_content_sym_trans(n, a[0], b[0]);
            }
        },
    }
}

/// What children give when split may be replaced by nodes of the same
/// content.
proof fn lemma_kids_taken_ok_same(kids: Seq<DomNode>, at: Seq<usize>, sp: SplitSpec, i: int, hi: int, a: Seq<DomNode>, b: Seq<DomNode>)
    requires
        kids_taken_ok(kids, at, sp, i, hi, a),
        same_children(a, b),
    ensures
        kids_taken_ok(kids, at, sp, i, hi, b),
    decreases kids, hi - i,
{
    lemma_same_children_iff(a, b);
    if !(i < 0 || i >= hi || hi > kids.len()) {
        let c = taken_count(kids[i], at.push(i as usize), sp);
        lemma_same_children_sub(a, b, 0, c);
        assert(a.take(c) == a.subrange(0, c));
        assert(b.take(c) == b.subrange(0, c));
        lemma_taken_ok_same(kids[i], at.push(i as usize), sp, a.take(c), b.take(c));
        lemma_same_children_sub(a, b, c, a.len() as int);
        assert(a.skip(c) == a.subrange(c, a.len() as int));
        assert(b.skip(c) == b.subrange(c, b.len() as int));
        lemma_kids_taken_ok_same(kids, at, sp, i + 1, hi, a.skip(c), b.skip(c));
    }
}

/// Split the children of the container `c` at `at` that a split reaches:
/// each leaves what `kids_kept_ok` says in its place and gives what
/// `kids_taken_ok` says, which is returned.
fn split_children(
    c: &mut ContainerNode,
    at: &DomHandle,
    from: &DomHandle,
    start: usize,
    to: &Option<DomHandle>,
    end: usize,
) -> (taken: Vec<DomNode>)
    requires
        at@ is Some,
        from@ is Some,
        to is Some ==> to.unwrap()@ is Some,
        container_ok(*old(c)),
        old(c).spec_handle() == Some(at.path()),
    ensures
        container_ok(*final(c)),
        final(c).spec_handle() == old(c).spec_handle(),
        final(c).spec_name() == old(c).spec_name(),
        final(c).spec_kind() == old(c).spec_kind(),
        final(c).spec_attrs() == old(c).spec_attrs(),
        ({
            let sp = split_spec_of(*from, start, *to, end);
            let kids = old(c).spec_children();
            let lo = low_child(at.path(), kids.len() as int, sp.from);
            let hi = high_child(at.path(), kids.len() as int, sp.from, sp.to);
            let m = kids_kept_count(kids, at.path(), sp, lo, hi);
            let out = final(c).spec_children();
            &&& out.len() == lo + m + (kids.len() - hi)
            &&& same_children(kids.take(lo), out.take(lo))
            &&& same_children(kids.skip(hi), out.skip(lo + m))
            &&& kids_kept_ok(kids, at.path(), sp, lo, hi, out.subrange(lo, lo + m))
            &&& kids_taken_ok(kids, at.path(), sp, lo, hi, taken@)
        }),
    decreases *old(c),
{
    let ghost sp = split_spec_of(*from, start, *to, end);
    let ghost c0 = *c;
    let ghost kids = c0.spec_children();
    let ghost p = at.path();
    let n = c.children().len();
    let lo = low_index(at, from, n);
    let hi = high_index(at, from, to, n);
    proof {
        lemma_bounds(p, n as int, sp.from, sp.to);
        lemma_children_ok_iff(kids, p);
    }
    let mut suffix = c.take_children_after(hi);
    let mut mid = c.take_children_after(lo);
    let ghost prefix = c.spec_children();
    proof {
        assert(mid@ =~= kids.subrange(lo as int, hi as int));
        assert(prefix =~= kids.take(lo as int));
    }
    let mut kept_mid: Vec<DomNode> = Vec::new();
    let mut taken: Vec<DomNode> = Vec::new();
    let mut j: usize = hi - lo;
    while j > 0
        invariant
            lo <= hi <= n,
            n == kids.len(),
            j <= hi - lo,
            c0 == *old(c),
            kids == c0.spec_children(),
            at@ == Some(p),
            from@ is Some,
            to is Some ==> to.unwrap()@ is Some,
            sp == split_spec_of(*from, start, *to, end),
            mid@ == kids.subrange(lo as int, lo + j),
            kids_kept_ok(kids, p, sp, lo + j, hi as int, kept_mid@),
            kept_mid@.len() == kids_kept_count(kids, p, sp, lo + j, hi as int),
            kids_taken_ok(kids, p, sp, lo + j, hi as int, taken@),
            forall|i: int| 0 <= i < kids.len() ==> #[trigger] handles_ok(kids[i], p.push(i as usize)),
        decreases j,
    {
        j -= 1;
        let ghost i = lo + j;
        let child = mid.pop().unwrap();
        proof {
            assert(child == kids[i]);
            lemma_container_child_decreases(c0, i);
            assert(handles_ok(kids[i], p.push(i as usize)));
        }
        let child_at = at.child_handle(lo + j);
        let (k, t) = split_node(child, &child_at, from, start, to, end);
        proof {
            assert(child_at.path() == p.push(i as usize));
            lemma_split_counts(kids[i], p.push(i as usize), sp, k, t@);
        }
        let ghost old_taken = taken@;
        let ghost old_kept = kept_mid@;
        let mut t2 = t;
        let ghost tv = t2@;
        t2.append(&mut taken);
        taken = t2;
        match k {
            Some(x) => {
                kept_mid.insert(0, x);
            },
            None => {},
        }
        proof {
            let kc = kept_count(kids[i], p.push(i as usize), sp);
            let tc = taken_count(kids[i], p.push(i as usize), sp);
            assert(kept_mid@.skip(kc) =~= old_kept);
            assert(taken@.take(tc) =~= tv);
            assert(taken@.skip(tc) =~= old_taken);
            if kc == 1 {
                assert(kept_mid@[0] == k.unwrap());
            }
            assert(kids_kept_ok(kids, p, sp, i, hi as int, kept_mid@));
            assert(kids_taken_ok(kids, p, sp, i, hi as int, taken@));
        }
    }
    let ghost km = kept_mid@;
    let ghost sf = suffix@;
    let mut rest = kept_mid;
    rest.append(&mut suffix);
    let ghost rs = rest@;
    c.insert_children(lo, rest);
    proof {
        let out = c.spec_children();
        let m = km.len() as int;
        let tgt = prefix.subrange(0, lo as int) + rs + prefix.subrange(lo as int, prefix.len() as int);
        assert(rs =~= km + sf);
        assert(sf =~= kids.skip(hi as int));
        assert(tgt.len() == out.len());
        assert(out.take(lo as int) =~= kids.take(lo as int)) by {
            assert forall|q: int| 0 <= q < lo implies out[q] == kids[q] by {
                assert(out[q] == tgt[q]);
            }
        }
        crate::tree::lemma_same_children_refl(kids.take(lo as int));
        lemma_same_children_iff(kids.skip(hi as int), out.skip(lo + m));
        assert forall|q: int| 0 <= q < kids.skip(hi as int).len() implies #[trigger] same_content(
            kids.skip(hi as int)[q],
            out.skip(lo + m)[q],
        ) by {
            assert(tgt[lo + m + q] == sf[q]);
            assert(same_content(tgt[lo + m + q], out[lo + m + q]));
        }
        lemma_same_children_iff(km, out.subrange(lo as int, lo + m));
        assert forall|q: int| 0 <= q < km.len() implies #[trigger] same_content(km[q], out.subrange(lo as int, lo + m)[q]) by {
            assert(tgt[lo + q] == km[q]);
            assert(same_content(tgt[lo + q], out[lo + q]));
        }
        lemma_kids_kept_ok_same(kids, p, sp, lo as int, hi as int, km, out.subrange(lo as int, lo + m));
    }
    taken
}

/// Split the node `n` at `at`: returns what it leaves in place
/// (`split_kept_ok`) and what it gives (`split_taken_ok`).
fn split_node(
    node: DomNode,
    at: &DomHandle,
    from: &DomHandle,
    start: usize,
    to: &Option<DomHandle>,
    end: usize,
) -> (r: (Option<DomNode>, Vec<DomNode>))
    requires
        at@ is Some,
        from@ is Some,
        to is Some ==> to.unwrap()@ is Some,
        handles_ok(node, at.path()),
    ensures
        split_kept_ok(node, at.path(), split_spec_of(*from, start, *to, end), r.0),
        split_taken_ok(node, at.path(), split_spec_of(*from, start, *to, end), r.1@),
        r.0 is Some ==> handles_ok(r.0.unwrap(), at.path()),
    decreases node,
{
    let ghost sp = split_spec_of(*from, start, *to, end);
    let ghost p = at.path();
    match node {
        DomNode::Text(mut t) => {
            let len = t.data().len();
            let mut from_side = *at == *from;
            if !from_side && from.is_ancestor_of(at) {
                proof {
                    if p.len() == sp.from.len() {
                        assert(p.subrange(0, p.len() as int) =~= p);
                    }
                }
                from_side = at.index_in_parent() == 0;
            }
            let to_side = match to {
                Some(th) => *th == *at,
                None => false,
            };
            proof {
                assert(from_side == cut_at_start(p, sp.from));
                assert(to_side == (sp.to == Some(p)));
            }
            if from_side && 1 <= start && start <= len {
                let left = crate::leaf_nodes::copy_range(t.data(), 0, start);
                let right = crate::leaf_nodes::copy_range(t.data(), start, len);
                let ghost data = t.spec_data();
                t.set_data(left);
                let mut taken: Vec<DomNode> = Vec::new();
                if right.len() > 0 {
                    taken.push(DomNode::new_text(right));
                }
                proof {
                    assert(data.take(start as int) =~= t.spec_data());
                    assert(data.skip(start as int) =~= data.subrange(start as int, len as int));
                }
                (Some(DomNode::Text(t)), taken)
            } else if to_side && 1 <= end && end <= len {
                let left = crate::leaf_nodes::copy_range(t.data(), 0, end);
                let right = crate::leaf_nodes::copy_range(t.data(), end, len);
                let ghost data = t.spec_data();
                t.set_data(left);
                let mut taken: Vec<DomNode> = Vec::new();
                if right.len() > 0 {
                    taken.push(DomNode::new_text(right));
                }
                proof {
                    assert(data.take(end as int) =~= t.spec_data());
                    assert(data.skip(end as int) =~= data.subrange(end as int, len as int));
                }
                (Some(DomNode::Text(t)), taken)
            } else {
                let ghost n0 = DomNode::Text(t);
                proof {
                    crate::tree::lemma_same_content_refl(n0);
                }
                (None, vec![DomNode::Text(t)])
            }
        },
        DomNode::Mention(m) => {
            let ghost n0 = DomNode::Mention(m);
            proof {
                crate::tree::lemma_same_content_refl(n0);
            }
            if start == 0 {
                (None, vec![DomNode::Mention(m)])
            } else {
                (Some(DomNode::Mention(m)), Vec::new())
            }
        },
        DomNode::Container(mut c) => {
            let ghost c0 = c;
            let n = c.children().len();
            proof {
                assert(container_ok(c));
            }
            let taken = split_children(&mut c, at, from, start, to, end);
            let taken_node = DomNode::Container(c.clone_with_new_children(taken));
            let out = vec![taken_node];
            proof {
                let kids = c0.spec_children();
                lemma_bounds(p, kids.len() as int, sp.from, sp.to);
                lemma_kids_kept_count_bounds(
                    kids,
                    p,
                    sp,
                    low_child(p, kids.len() as int, sp.from),
                    high_child(p, kids.len() as int, sp.from, sp.to),
                );
            }
            if !at.is_root() && c.children().len() == 0 && n > 0 {
                (None, out)
            } else {
                (Some(DomNode::Container(c)), out)
            }
        },
        DomNode::LineBreak(b) => {
            let ghost n0 = DomNode::LineBreak(b);
            proof {
                crate::tree::lemma_same_content_refl(n0);
            }
            (None, vec![DomNode::LineBreak(b)])
        },
        DomNode::Zwsp(z) => {
            let ghost n0 = DomNode::Zwsp(z);
            proof {
                crate::tree::lemma_same_content_refl(n0);
            }
            (None, vec![DomNode::Zwsp(z)])
        },
    }
}

/// What a split of the document `old` leaves of it in `new`: the document
/// node itself when the split's root is the document, else the node at the
/// split's root `cur` in its parent, or nothing there.
pub open spec fn split_left(old: Dom, new: Dom, cur: Seq<usize>, sp: SplitSpec) -> bool {
    let n0 = node_at(old.spec_document(), cur).unwrap();
    if cur.len() == 0 {
        split_kept_ok(n0, cur, sp, Some(new.spec_document()))
    } else {
        let pp = cur.drop_last();
        let k = cur.last() as int;
        let kids = children_at(old.spec_document(), pp);
        let fin = children_at(new.spec_document(), pp);
        &&& Dom::changed_at(old, new, pp)
        &&& if kept_count(n0, cur, sp) == 1 {
            &&& fin.len() == kids.len()
            &&& forall|j: int| 0 <= j < k ==> fin[j] == kids[j]
            &&& forall|j: int| k < j < kids.len() ==> #[trigger] same_content(kids[j], fin[j])
            &&& split_kept_ok(n0, cur, sp, Some(fin[k]))
        } else {
            rehandled_from(kids.remove(k), fin, pp, k)
        }
    }
}

/// A split depends on the content of the node it splits only.
proof fn lemma_split_same_input(n: DomNode, m: DomNode, at: Seq<usize>, sp: SplitSpec)
    requires
        same_content(n, m),
    ensures
        kept_count(n, at, sp) == kept_count(m, at, sp),
        taken_count(n, at, sp) == taken_count(m, at, sp),
        forall|k: Option<DomNode>| split_kept_ok(n, at, sp, k) == #[trigger] split_kept_ok(m, at, sp, k),
        forall|t: Seq<DomNode>| split_taken_ok(n, at, sp, t) == #[trigger] split_taken_ok(m, at, sp, t),
    decreases n, 1int,
{
    match (n, m) {
        (DomNode::Container(c), DomNode::Container(d)) => {
            crate::tree::lemma_decreases_children(n);
            let ks = c.spec_children();
            let ms = d.spec_children();
            lemma_same_children_iff(ks, ms);
            let lo = low_child(at, ks.len() as int, sp.from);
            let hi = high_child(at, ks.len() as int, sp.from, sp.to);
            lemma_bounds(at, ks.len() as int, sp.from, sp.to);
            lemma_kids_split_same_input(ks, ms, at, sp, lo, hi);
            assert forall|k: Option<DomNode>| split_kept_ok(n, at, sp, k) == #[trigger] split_kept_ok(m, at, sp, k) by {
                if k is Some && k.unwrap() is Container {
                    let out = k.unwrap()->Container_0.spec_children();
                    let mc = kids_kept_count(ks, at, sp, lo, hi);
                    lemma_kids_kept_count_bounds(ks, at, sp, lo, hi);
                    if out.len() == lo + mc + (ks.len() - hi) {
                        lemma_same_children_sub(ks, ms, 0, lo);
                        lemma_same_children_sub(ks, ms, hi, ks.len() as int);
                        assert(ks.take(lo) == ks.subrange(0, lo));
                        assert(ms.take(lo) == ms.subrange(0, lo));
                        assert(ks.skip(hi) == ks.subrange(hi, ks.len() as int));
                        assert(ms.skip(hi) == ms.subrange(hi, ms.len() as int));
                        crate::list_methods::lemma_same_children_sym_trans(ks.take(lo), ms.take(lo), out.take(lo));
                        crate::list_methods::lemma_same_children_sym_trans(ms.take(lo), ks.take(lo), out.take(lo));
                        crate::list_methods::lemma_same_children_sym_trans(ks.skip(hi), ms.skip(hi), out.skip(lo + mc));
                        crate::list_methods::lemma_same_children_sym_trans(ms.skip(hi), ks.skip(hi), out.skip(lo + mc));
                        assert(kids_kept_ok(ks, at, sp, lo, hi, out.subrange(lo, lo + mc)) == kids_kept_ok(
                            ms,
                            at,
                            sp,
                            lo,
                            hi,
                            out.subrange(lo, lo + mc),
                        ));
                    }
                }
            }
            assert forall|t: Seq<DomNode>| split_taken_ok(n, at, sp, t) == #[trigger] split_taken_ok(m, at, sp, t) by {
                if t.len() > 0 && t[0] is Container {
                    let o = t[0]->Container_0.spec_children();
                    assert(kids_taken_ok(ks, at, sp, lo, hi, o) == kids_taken_ok(ms, at, sp, lo, hi, o));
                }
            }
        },
        _ => {
            assert forall|k: Option<DomNode>| split_kept_ok(n, at, sp, k) == #[trigger] split_kept_ok(m, at, sp, k) by {
                if k is Some {
                    crate::laws::lemma_same_content_sym_trans(n, m, k.unwrap());
                    crate::laws::lemma_same_content_sym_trans(m, n, k.unwrap());
                }
            }
            assert forall|t: Seq<DomNode>| split_taken_ok(n, at, sp, t) == #[trigger] split_taken_ok(m, at, sp, t) by {
                if t.len() > 0 {
                    crate::laws::lemma_same_content_sym_trans(n, m, t[0]);
                    crate::laws::lemma_same_content_sym_trans(m, n, t[0]);
                }
            }
        },
    }
}

/// A split of children depends on their content only.
proof fn lemma_kids_split_same_input(ks: Seq<DomNode>, ms: Seq<DomNode>, at: Seq<usize>, sp: SplitSpec, i: int, hi: int)
    requires
        same_children(ks, ms),
    ensures
        kids_kept_count(ks, at, sp, i, hi) == kids_kept_count(ms, at, sp, i, hi),
        forall|o: Seq<DomNode>| kids_kept_ok(ks, at, sp, i, hi, o) == #[trigger] kids_kept_ok(ms, at, sp, i, hi, o),
        forall|o: Seq<DomNode>| kids_taken_ok(ks, at, sp, i, hi, o) == #[trigger] kids_taken_ok(ms, at, sp, i, hi, o),
    decreases ks, hi - i,
{
    lemma_same_children_iff(ks, ms);
    if !(i < 0 || i >= hi || hi > ks.len()) {
        let a = at.push(i as usize);
        lemma_split_same_input(ks[i], ms[i], a, sp);
        lemma_kids_split_same_input(ks, ms, at, sp, i + 1, hi);
        let c = kept_count(ks[i], a, sp);
        let tc = taken_count(ks[i], a, sp);
        assert forall|o: Seq<DomNode>| kids_kept_ok(ks, at, sp, i, hi, o) == #[trigger] kids_kept_ok(ms, at, sp, i, hi, o) by {
            let kk = if c == 1 {
                Some(o[0])
            } else {
                None
            };
            assert(split_kept_ok(ks[i], a, sp, kk) == split_kept_ok(ms[i], a, sp, kk));
            assert(kids_kept_ok(ks, at, sp, i + 1, hi, o.skip(c)) == kids_kept_ok(ms, at, sp, i + 1, hi, o.skip(c)));
        }
        assert forall|o: Seq<DomNode>| kids_taken_ok(ks, at, sp, i, hi, o) == #[trigger] kids_taken_ok(ms, at, sp, i, hi, o) by {
            assert(split_taken_ok(ks[i], a, sp, o.take(tc)) == split_taken_ok(ms[i], a, sp, o.take(tc)));
            assert(kids_taken_ok(ks, at, sp, i + 1, hi, o.skip(tc)) == kids_taken_ok(ms, at, sp, i + 1, hi, o.skip(tc)));
        }
    }
}

/// The first node of `s`, if there is one.
pub open spec fn first_of(s: Seq<DomNode>) -> Seq<DomNode> {
    if s.len() == 0 {
        s
    } else {
        s.take(1)
    }
}

impl Dom {
    /// Split the tree under the node at the first `depth` indices of
    /// `from_handle`, the split's root, where the split starts (at
    /// `start_offset` in the node at `from_handle`) and, with a `to_handle`,
    /// where it ends (at `end_offset` in that node): the document keeps what
    /// the split leaves (`split_left`), and the returned document is what the
    /// split's root gives (`split_taken_ok`).
    pub fn split_sub_tree(
        &mut self,
        from_handle: &DomHandle,
        start_offset: usize,
        to_handle: Option<DomHandle>,
        end_offset: usize,
        depth: usize,
    ) -> (r: Dom)
        requires
            old(self).wf(),
            from_handle@ is Some,
            depth <= from_handle.path().len(),
            container_at(old(self).spec_document(), from_handle.path().subrange(0, depth as int)),
            to_handle is Some ==> to_handle.unwrap()@ is Some && node_at(
                old(self).spec_document(),
                to_handle.unwrap().path(),
            ) is Some,
        ensures
            final(self).wf(),
            r.wf(),
            split_taken_ok(
                node_at(old(self).spec_document(), from_handle.path().subrange(0, depth as int)).unwrap(),
                from_handle.path().subrange(0, depth as int),
                split_spec_of(*from_handle, start_offset, to_handle, end_offset),
                seq![r.spec_document()],
            ),
            split_left(
                *old(self),
                *final(self),
                from_handle.path().subrange(0, depth as int),
                split_spec_of(*from_handle, start_offset, to_handle, end_offset),
            ),
    {
        let ghost sp = split_spec_of(*from_handle, start_offset, to_handle, end_offset);
        let ghost old_doc = self.spec_document();
        let cur_handle = from_handle.sub_handle_up_to(depth);
        let ghost cur = cur_handle.path();
        let ghost n0 = node_at(old_doc, cur).unwrap();
        proof {
            lemma_node_at_handle(old_doc, Seq::<usize>::empty(), cur);
            assert(Seq::<usize>::empty() + cur =~= cur);
        }
        let mut taken: Vec<DomNode>;
        if depth == 0 {
            proof {
                assert(cur =~= Seq::<usize>::empty());
            }
            let c = self.document_mut();
            let ghost c0 = *c;
            let children_taken = split_children(c, &cur_handle, from_handle, start_offset, &to_handle, end_offset);
            let t = DomNode::Container(c.clone_with_new_children(children_taken));
            taken = vec![t];
            proof {
                let kids = c0.spec_children();
                lemma_bounds(cur, kids.len() as int, sp.from, sp.to);
                lemma_kids_kept_count_bounds(
                    kids,
                    cur,
                    sp,
                    low_child(cur, kids.len() as int, sp.from),
                    high_child(cur, kids.len() as int, sp.from, sp.to),
                );
                assert(split_kept_ok(n0, cur, sp, Some(self.spec_document())));
            }
        } else {
            let ghost pp = cur.drop_last();
            let ghost kids = children_at(old_doc, pp);
            proof {
                lemma_node_at_parent(old_doc, cur);
                lemma_node_at_handle(old_doc, Seq::<usize>::empty(), pp);
                assert(Seq::<usize>::empty() + pp =~= pp);
            }
            let k = cur_handle.index_in_parent();
            let parent = self.parent_mut(&cur_handle);
            let ghost c_old = *parent;
            proof {
                lemma_children_ok_iff(kids, pp);
                assert(handles_ok(kids[k as int], pp.push((k as int) as usize)));
                assert(pp.push(k) =~= cur);
            }
            let child = parent.remove_child(k);
            let ghost c1 = parent.spec_children();
            let (kept, t) = split_node(child, &cur_handle, from_handle, start_offset, &to_handle, end_offset);
            taken = t;
            match kept {
                Some(x) => {
                    parent.insert_child(k, x);
                    proof {
                        let fin = parent.spec_children();
                        let ins = c1.insert(k as int, x);
                        assert(same_content(ins[k as int], fin[k as int]));
                        lemma_kept_ok_same(n0, cur, sp, x, fin[k as int]);
                        assert forall|j: int| k < j < kids.len() implies #[trigger] same_content(kids[j], fin[j]) by {
                            assert(kids.remove(k as int)[j - 1] == kids[j]);
                            assert(same_content(kids.remove(k as int)[j - 1], c1[j - 1]));
                            assert(ins[j] == c1[j - 1]);
                            crate::laws::lemma_same_content_sym_trans(kids[j], c1[j - 1], fin[j]);
                        }
                        assert forall|j: int| 0 <= j < k implies fin[j] == kids[j] by {
                            assert(ins[j] == c1[j]);
                            assert(kids.remove(k as int)[j] == kids[j]);
                        }
                    }
                },
                None => {},
            }
            proof {
                lemma_update_container(old_doc, self.spec_document(), pp, c_old, *parent);
            }
        }
        let first = taken.remove(0);
        let r = Dom::new_with_root(first);
        proof {
            crate::tree::lemma_same_children_refl(seq![first]);
            assert(same_children(seq![first], seq![r.spec_document()])) by {
                lemma_same_children_iff(seq![first], seq![r.spec_document()]);
            }
            lemma_taken_ok_same(n0, cur, sp, seq![first], seq![r.spec_document()]);
        }
        r
    }

    /// Split as `split_sub_tree` does, from where the split starts to the
    /// end.
    pub fn split_sub_tree_from(&mut self, from_handle: &DomHandle, start_offset: usize, depth: usize) -> (r: Dom)
        requires
            old(self).wf(),
            from_handle@ is Some,
            depth <= from_handle.path().len(),
            container_at(old(self).spec_document(), from_handle.path().subrange(0, depth as int)),
        ensures
            final(self).wf(),
            r.wf(),
            split_taken_ok(
                node_at(old(self).spec_document(), from_handle.path().subrange(0, depth as int)).unwrap(),
                from_handle.path().subrange(0, depth as int),
                split_spec_of(*from_handle, start_offset, None, usize::MAX),
                seq![r.spec_document()],
            ),
            split_left(
                *old(self),
                *final(self),
                from_handle.path().subrange(0, depth as int),
                split_spec_of(*from_handle, start_offset, None, usize::MAX),
            ),
    {
        self.split_sub_tree(from_handle, start_offset, None, usize::MAX, depth)
    }

    /// Split as `split_sub_tree` does, between where the split starts and
    /// where it ends.
    pub fn split_sub_tree_between(
        &mut self,
        from_handle: &DomHandle,
        start_offset: usize,
        to_handle: &DomHandle,
        end_offset: usize,
        depth: usize,
    ) -> (r: Dom)
        requires
            old(self).wf(),
            from_handle@ is Some,
            depth <= from_handle.path().len(),
            container_at(old(self).spec_document(), from_handle.path().subrange(0, depth as int)),
            to_handle@ is Some,
            node_at(old(self).spec_document(), to_handle.path()) is Some,
        ensures
            final(self).wf(),
            r.wf(),
            split_taken_ok(
                node_at(old(self).spec_document(), from_handle.path().subrange(0, depth as int)).unwrap(),
                from_handle.path().subrange(0, depth as int),
                split_spec_of(*from_handle, start_offset, Some(*to_handle), end_offset),
                seq![r.spec_document()],
            ),
            split_left(
                *old(self),
                *final(self),
                from_handle.path().subrange(0, depth as int),
                split_spec_of(*from_handle, start_offset, Some(*to_handle), end_offset),
            ),
    {
        self.split_sub_tree(from_handle, start_offset, Some(to_handle.clone()), end_offset, depth)
    }

    /// Split a copy of the tree under the node at the first `depth` indices
    /// of `from_handle` from `offset` in the node at `from_handle` to the
    /// end, leaving this document as it is: returns, each as a document, the
    /// last child of what the copy keeps and the first child of what it
    /// gives, each with the handle of the node at `from_handle` under it, its
    /// first index set to 0.
    pub fn split_new_sub_trees(&self, from_handle: &DomHandle, offset: usize, depth: usize) -> (r: (
        Dom,
        DomHandle,
        Dom,
        DomHandle,
    ))
        requires
            self.wf(),
            from_handle@ is Some,
            depth < from_handle.path().len(),
            container_at(self.spec_document(), from_handle.path().subrange(0, depth as int)),
            ({
                let cur = from_handle.path().subrange(0, depth as int);
                let n0 = node_at(self.spec_document(), cur).unwrap();
                let sp = split_spec_of(*from_handle, offset, None, usize::MAX);
                let kids = n0->Container_0.spec_children();
                let lo = low_child(cur, kids.len() as int, sp.from);
                let hi = high_child(cur, kids.len() as int, sp.from, sp.to);
                &&& kept_count(n0, cur, sp) == 1
                &&& lo + kids_kept_count(kids, cur, sp, lo, hi) + (kids.len() - hi) > 0
            }),
        ensures
            r.0.wf(),
            r.2.wf(),
            r.1@ == Some(from_handle.path().skip(depth as int).update(0, 0usize)),
            r.3@ == r.1@,
            ({
                let cur = from_handle.path().subrange(0, depth as int);
                let n0 = node_at(self.spec_document(), cur).unwrap();
                let sp = split_spec_of(*from_handle, offset, None, usize::MAX);
                exists|k: DomNode, t: DomNode|
                    #![trigger split_kept_ok(n0, cur, sp, Some(k)), split_taken_ok(n0, cur, sp, seq![t])]
                    {
                        &&& split_kept_ok(n0, cur, sp, Some(k))
                        &&& split_taken_ok(n0, cur, sp, seq![t])
                        &&& same_children(
                            k->Container_0.spec_children().skip(k->Container_0.spec_children().len() - 1),
                            r.0.spec_document()->Container_0.spec_children(),
                        )
                        &&& same_children(
                            first_of(t->Container_0.spec_children()),
                            r.2.spec_document()->Container_0.spec_children(),
                        )
                    }
            }),
    {
        let ghost sp = split_spec_of(*from_handle, offset, None, usize::MAX);
        let cur_handle = from_handle.sub_handle_up_to(depth);
        let ghost cur = cur_handle.path();
        let ghost n0 = node_at(self.spec_document(), cur).unwrap();
        let mut copy = self.lookup_node(&cur_handle).clone();
        let ghost c0 = copy;
        copy.set_handle(cur_handle.clone());
        let ghost c1 = copy;
        proof {
            crate::laws::lemma_same_content_sym_trans(n0, c0, c1);
            lemma_split_same_input(n0, c1, cur, sp);
        }
        let (kept, mut taken) = split_node(copy, &cur_handle, from_handle, offset, &None, usize::MAX);
        let ghost k = kept.unwrap();
        let ghost t = taken@[0];
        proof {
            assert(split_kept_ok(n0, cur, sp, Some(k)));
            assert(taken@ =~= seq![t]);
            assert(split_taken_ok(n0, cur, sp, seq![t]));
            let kids = n0->Container_0.spec_children();
            lemma_bounds(cur, kids.len() as int, sp.from, sp.to);
            lemma_kids_kept_count_bounds(
                kids,
                cur,
                sp,
                low_child(cur, kids.len() as int, sp.from),
                high_child(cur, kids.len() as int, sp.from, sp.to),
            );
        }
        let mut left = match kept {
            Some(DomNode::Container(c)) => c.take_children(),
            _ => Vec::new(),
        };
        let left = left.split_off(left.len() - 1);
        let first = taken.remove(0);
        let mut right = match first {
            DomNode::Container(c) => c.take_children(),
            _ => Vec::new(),
        };
        right.truncate(1);
        let ghost kl = k->Container_0.spec_children();
        let ghost tl = t->Container_0.spec_children();
        proof {
            assert(left@ =~= kl.skip(kl.len() - 1));
            assert(right@ =~= first_of(tl));
        }
        let mut hp: Vec<usize> = Vec::new();
        let raw = from_handle.raw();
        let mut i: usize = depth;
        while i < raw.len()
            invariant
                depth <= i <= raw@.len(),
                raw@ == from_handle.path(),
                hp@ == raw@.subrange(depth as int, i as int),
            decreases raw@.len() - i,
        {
            hp.push(raw[i]);
            i += 1;
        }
        hp.set(0, 0);
        proof {
            assert(hp@ =~= from_handle.path().skip(depth as int).update(0, 0usize));
        }
        let left_handle = DomHandle::from_raw(hp.clone());
        let right_handle = DomHandle::from_raw(hp);
        let l = Dom::new(left);
        let rd = Dom::new(right);
        (l, left_handle, rd, right_handle)
    }
}

} // verus!
