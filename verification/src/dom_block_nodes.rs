use vstd::prelude::*;

use crate::dom::{Dom, is_list_item_at};
use crate::handle::is_prefix;
use crate::find_range::{LocModel, is_leaf_model, model_of, models_of, range_locs};
use crate::handle::DomHandle;
use crate::iter::{deref_all, nodes_back_from, nodes_from};
use crate::range::Range;
use crate::tree::{DomNode, DomNodeKind, is_block_kind, kind_of, node_at, node_len};

verus! {

/// Nodes that the search for the nodes to wrap in a block goes over:
/// neither block nodes nor line breaks.
pub open spec fn include_in_wrap(n: DomNode) -> bool {
    !is_block_kind(kind_of(n)) && !(kind_of(n) is LineBreak)
}

/// Walking `s` from `j` on while the nodes are to be included: the handle
/// and kind of the last leaf met, or `cur` if none.
pub open spec fn cover_walk(s: Seq<DomNode>, j: int, cur: (Option<Seq<usize>>, DomNodeKind)) -> (
    Option<Seq<usize>>,
    DomNodeKind,
)
    decreases s.len() - j,
{
    if j < 0 || j >= s.len() || !include_in_wrap(s[j]) {
        cur
    } else {
        cover_walk(
            s,
            j + 1,
            if !(s[j] is Container) {
                (s[j].spec_handle(), kind_of(s[j]))
            } else {
                cur
            },
        )
    }
}

/// The depth of the closest ancestor of the node at `path` (looking at the
/// ancestors at depth below `i`) that is a block node; 0, the document, if
/// there is none.
pub open spec fn block_ancestor_depth(doc: DomNode, path: Seq<usize>, i: int) -> int
    decreases i,
{
    if i <= 0 {
        0
    } else if node_at(doc, path.subrange(0, i - 1)) matches Some(n) && is_block_kind(kind_of(n)) {
        i - 1
    } else {
        block_ancestor_depth(doc, path, i - 1)
    }
}

/// The depth at which the search for the nodes to wrap splits: the
/// closest block ancestor, or the document for a node at the top.
pub open spec fn split_depth(doc: DomNode, path: Seq<usize>) -> int {
    if path.len() <= 1 {
        0
    } else {
        block_ancestor_depth(doc, path, path.len() as int)
    }
}

/// Going through the depths from `i` up to `max`: the first one at which
/// `a` and `b` differ (or `b` is too short), else the last one.
pub open spec fn shared_depth(a: Seq<usize>, b: Seq<usize>, i: int, max: int) -> int
    decreases max - i,
{
    if i >= max {
        if max > 0 {
            max - 1
        } else {
            0
        }
    } else if i >= b.len() || a[i] != b[i] {
        i
    } else {
        shared_depth(a, b, i + 1, max)
    }
}

/// The first leaf among the locations, if any.
pub open spec fn first_leaf_model(ms: Seq<LocModel>, i: int) -> Option<LocModel>
    decreases ms.len() - i,
{
    if i < 0 || i >= ms.len() {
        None
    } else if is_leaf_model(ms[i]) {
        Some(ms[i])
    } else {
        first_leaf_model(ms, i + 1)
    }
}

/// The last leaf among the first `k` locations, if any.
pub open spec fn last_leaf_model(ms: Seq<LocModel>, k: int) -> Option<LocModel>
    decreases k,
{
    if k <= 0 || k > ms.len() {
        None
    } else if is_leaf_model(ms[k - 1]) {
        Some(ms[k - 1])
    } else {
        last_leaf_model(ms, k - 1)
    }
}

/// What the search for the nodes to wrap in a block finds.
pub struct WrapSearchResult {
    /// The closest common ancestor of the nodes to wrap.
    pub ancestor_handle: DomHandle,
    /// The first leaf to wrap.
    pub start_handle: DomHandle,
    /// The last leaf to wrap.
    pub end_handle: DomHandle,
    /// The range of the selection.
    pub range: Range,
}

/// The handles and depth that the search for the nodes to wrap finds for
/// the selection from `start` to `end`: `None` when the selection holds
/// no leaf, when a handle met names no node, and when it covers a lone
/// line break. Otherwise: the first leaf, extended back over the leaves
/// before it that are neither line breaks nor in block nodes; the last leaf,
/// extended forward likewise; and the depth of their closest common
/// ancestor below the block ancestor of the first one, one deeper when both
/// are in the same list item.
pub open spec fn wrap_search(doc: DomNode, start: int, end: int) -> Option<
    (Seq<usize>, Seq<usize>, Seq<usize>),
> {
    let ms = range_locs(doc, start, end);
    match (first_leaf_model(ms, 0), last_leaf_model(ms, ms.len() as int)) {
        (Some(f), Some(l)) => {
            let first = cover_walk(nodes_back_from(doc, f.0), 0, (f.0, f.5));
            let last = cover_walk(nodes_from(doc, l.0), 0, (l.0, l.5));
            if first.0 is None || last.0 is None || node_at(doc, first.0.unwrap()) is None || node_at(
                doc,
                last.0.unwrap(),
            ) is None {
                None
            } else {
                let a = first.0.unwrap();
                let b = last.0.unwrap();
                let max = split_depth(doc, a);
                let d = shared_depth(a, b, 0, max);
                let same_item = match (list_item_depth(doc, a, a.len() as int), list_item_depth(
                    doc,
                    b,
                    b.len() as int,
                )) {
                    (Some(x), Some(y)) => a.take(x) == b.take(y),
                    _ => false,
                };
                let depth = if same_item && d < a.len() {
                    d + 1
                } else {
                    d
                };
                if a == b && first.1 is LineBreak {
                    None
                } else {
                    Some((a.subrange(0, depth), a, b))
                }
            }
        },
        _ => None,
    }
}

/// The length of the longest prefix of `path`, no longer than `k`, that
/// leads to a list item, if there is one.
pub open spec fn list_item_depth(doc: DomNode, path: Seq<usize>, k: int) -> Option<int>
    decreases k + 1,
{
    if k < 0 {
        None
    } else if is_list_item_at(doc, path.take(k)) {
        Some(k)
    } else {
        list_item_depth(doc, path, k - 1)
    }
}

/// The closest list item that holds a node, found by going up, is the one
/// `list_item_depth` names.
pub proof fn lemma_list_item_depth(doc: DomNode, path: Seq<usize>, k: int, m: int)
    requires
        0 <= m <= k <= path.len(),
        is_list_item_at(doc, path.take(m)),
        forall|j: int| m < j <= path.len() ==> !is_list_item_at(doc, #[trigger] path.take(j)),
    ensures
        list_item_depth(doc, path, k) == Some(m),
    decreases k,
{
    if k > m {
        assert(!is_list_item_at(doc, path.take(k)));
        lemma_list_item_depth(doc, path, k - 1, m);
    }
}

/// Without a list item on the way, `list_item_depth` finds none.
pub proof fn lemma_no_list_item_depth(doc: DomNode, path: Seq<usize>, k: int)
    requires
        k <= path.len(),
        forall|j: int| 0 <= j <= path.len() ==> !is_list_item_at(doc, #[trigger] path.take(j)),
    ensures
        list_item_depth(doc, path, k) is None,
    decreases k + 1,
{
    if k >= 0 {
        assert(!is_list_item_at(doc, path.take(k)));
        lemma_no_list_item_depth(doc, path, k - 1);
    }
}

/// A prefix of the path of an existing node leads to an existing node.
pub proof fn lemma_node_at_prefix(n: DomNode, path: Seq<usize>, i: int)
    requires
        node_at(n, path) is Some,
        0 <= i <= path.len(),
    ensures
        node_at(n, path.subrange(0, i)) is Some,
    decreases path.len(),
{
    if i > 0 {
        let c = n->Container_0;
        lemma_node_at_prefix(c.spec_children()[path[0] as int], path.skip(1), i - 1);
        assert(path.subrange(0, i).skip(1) =~= path.skip(1).subrange(0, i - 1));
    }
}

impl Dom {
    /// The handle of the closest ancestor of the node a handle names that is
    /// a block node; the document for a node at the top.
    pub fn find_block_ancestor_to_split(&self, handle: &DomHandle) -> (r: DomHandle)
        requires
            self.wf(),
            handle@ is Some,
            node_at(self.spec_document(), handle.path()) is Some,
        ensures
            r@ == Some(handle.path().subrange(0, split_depth(self.spec_document(), handle.path()))),
    {
        let depth = handle.depth();
        if depth <= 1 {
            let r = DomHandle::root();
            assert(handle.path().subrange(0, 0) =~= Seq::<usize>::empty());
            return r;
        }
        let mut i: usize = depth;
        while i > 0
            invariant
                i <= depth,
                handle@ is Some,
                depth == handle.path().len(),
                node_at(self.spec_document(), handle.path()) is Some,
                block_ancestor_depth(self.spec_document(), handle.path(), depth as int)
                    == block_ancestor_depth(self.spec_document(), handle.path(), i as int),
            decreases i,
        {
            let ancestor_handle = handle.sub_handle_up_to(i - 1);
            proof {
                lemma_node_at_prefix(self.spec_document(), handle.path(), i - 1);
            }
            let ancestor = self.lookup_node(&ancestor_handle);
            if ancestor.is_block_node() || ancestor.kind() == DomNodeKind::ListItem {
                return ancestor_handle;
            }
            i -= 1;
        }
        let r = DomHandle::root();
        assert(handle.path().subrange(0, 0) =~= Seq::<usize>::empty());
        r
    }

    /// Find the nodes that wrapping the selection from `start` to `end` in a
    /// block would take in; see `wrap_search`.
    pub fn find_nodes_to_wrap_in_block(&self, start: usize, end: usize) -> (r: Option<WrapSearchResult>)
        requires
            self.wf(),
            node_len(self.spec_document()) <= usize::MAX,
        ensures
            match (r, wrap_search(self.spec_document(), start as int, end as int)) {
                (Some(w), Some(x)) => w.ancestor_handle@ == Some(x.0) && w.start_handle@ == Some(x.1)
                    && w.end_handle@ == Some(x.2) && models_of(w.range.locations@) == range_locs(
                    self.spec_document(),
                    start as int,
                    end as int,
                ),
                (None, None) => true,
                _ => false,
            },
    {
        let ghost doc = self.spec_document();
        let range = self.find_range(start, end);
        let ghost locs = range.locations@;
        let ghost ms = models_of(locs);
        let n = range.locations.len();
        let mut fi: usize = 0;
        while fi < n && !range.locations[fi].is_leaf()
            invariant
                n == locs.len(),
                locs == range.locations@,
                ms == models_of(locs),
                fi <= n,
                first_leaf_model(ms, 0) == first_leaf_model(ms, fi as int),
            decreases n - fi,
        {
            assert(ms[fi as int] == model_of(locs[fi as int]));
            fi += 1;
        }
        let mut li: usize = n;
        while li > 0 && !range.locations[li - 1].is_leaf()
            invariant
                n == locs.len(),
                locs == range.locations@,
                ms == models_of(locs),
                li <= n,
                last_leaf_model(ms, n as int) == last_leaf_model(ms, li as int),
            decreases li,
        {
            assert(ms[li - 1] == model_of(locs[li - 1]));
            li -= 1;
        }
        if fi >= n || li == 0 {
            return None;
        }
        assert(ms[fi as int] == model_of(locs[fi as int]));
        assert(ms[li - 1] == model_of(locs[li - 1]));
        let first_leaf = &range.locations[fi];
        let last_leaf = &range.locations[li - 1];
        // Walk backwards from the first leaf until a line break or a block.
        let back = self.iter_back_from_handle(&first_leaf.node_handle);
        let mut first_handle = first_leaf.node_handle.clone();
        let mut first_kind = first_leaf.kind;
        let ghost bs = deref_all(back@);
        let mut j: usize = 0;
        while j < back.len() && back[j].is_leaf_or_included()
            invariant
                bs == deref_all(back@),
                bs == nodes_back_from(doc, first_leaf.node_handle@),
                cover_walk(bs, 0, (first_leaf.node_handle@, first_leaf.kind)) == cover_walk(
                    bs,
                    j as int,
                    (first_handle@, first_kind),
                ),
            decreases back@.len() - j,
        {
            assert(bs[j as int] == *back@[j as int]);
            if back[j].is_leaf() {
                first_handle = back[j].handle();
                first_kind = back[j].kind();
            }
            j += 1;
        }
        // Walk forwards from the last leaf likewise.
        let fwd = self.iter_from_handle(&last_leaf.node_handle);
        let mut last_handle = last_leaf.node_handle.clone();
        let mut last_kind = last_leaf.kind;
        let ghost fs = deref_all(fwd@);
        let mut k: usize = 0;
        while k < fwd.len() && fwd[k].is_leaf_or_included()
            invariant
                fs == deref_all(fwd@),
                fs == nodes_from(doc, last_leaf.node_handle@),
                cover_walk(fs, 0, (last_leaf.node_handle@, last_leaf.kind)) == cover_walk(
                    fs,
                    k as int,
                    (last_handle@, last_kind),
                ),
            decreases fwd@.len() - k,
        {
            assert(fs[k as int] == *fwd@[k as int]);
            if fwd[k].is_leaf() {
                last_handle = fwd[k].handle();
                last_kind = fwd[k].kind();
            }
            k += 1;
        }
        if !first_handle.is_set() || !last_handle.is_set() || !self.contains(&first_handle) || !self.contains(
            &last_handle,
        ) {
            return None;
        }
        proof {
            assert(cover_walk(bs, j as int, (first_handle@, first_kind)) == (first_handle@, first_kind));
            assert(cover_walk(fs, k as int, (last_handle@, last_kind)) == (last_handle@, last_kind));
            lemma_split_depth_bound(doc, first_handle.path());
        }
        let first_ancestor_to_split = self.find_block_ancestor_to_split(&first_handle);
        let max_depth = first_ancestor_to_split.depth();
        let a = first_handle.raw();
        let b = last_handle.raw();
        assert(max_depth == split_depth(doc, a@));
        let mut min_depth: usize = 0;
        let mut i: usize = 0;
        let mut found = false;
        while i < max_depth && !found
            invariant
                i <= max_depth,
                max_depth <= a@.len(),
                min_depth <= max_depth,
                !found ==> shared_depth(a@, b@, 0, max_depth as int) == shared_depth(a@, b@, i as int, max_depth as int),
                !found ==> (i == 0 ==> min_depth == 0) && (i > 0 ==> min_depth == i - 1),
                found ==> shared_depth(a@, b@, 0, max_depth as int) == min_depth,
            decreases max_depth - i,
        {
            min_depth = i;
            if i >= b.len() || a[i] != b[i] {
                found = true;
            }
            i += 1;
        }
        let ghost d = min_depth;
        assert(d == shared_depth(a@, b@, 0, max_depth as int));
        let first_list_item = self.find_parent_list_item_or_self(&first_handle);
        let last_list_item = self.find_parent_list_item_or_self(&last_handle);
        proof {
            let pa = first_handle.path();
            let pb = last_handle.path();
            match &first_list_item {
                Some(h) => {
                    assert(pa.subrange(0, h.path().len() as int) == pa.take(h.path().len() as int));
                    lemma_list_item_depth(doc, pa, pa.len() as int, h.path().len() as int);
                },
                None => lemma_no_list_item_depth(doc, pa, pa.len() as int),
            }
            match &last_list_item {
                Some(h) => {
                    assert(pb.subrange(0, h.path().len() as int) == pb.take(h.path().len() as int));
                    lemma_list_item_depth(doc, pb, pb.len() as int, h.path().len() as int);
                },
                None => lemma_no_list_item_depth(doc, pb, pb.len() as int),
            }
        }
        let same_item = match (&first_list_item, &last_list_item) {
            (Some(x), Some(y)) => *x == *y,
            _ => false,
        };
        if same_item && min_depth < a.len() {
            min_depth += 1;
        }
        if first_handle == last_handle && first_kind == DomNodeKind::LineBreak {
            return None;
        }
        let ancestor_handle = first_handle.sub_handle_up_to(min_depth);
        Some(WrapSearchResult { ancestor_handle, start_handle: first_handle, end_handle: last_handle, range })
    }
}

/// The split depth is no deeper than the node.
pub proof fn lemma_split_depth_bound(doc: DomNode, path: Seq<usize>)
    ensures
        0 <= split_depth(doc, path) <= path.len(),
        path.len() > 1 ==> split_depth(doc, path) < path.len(),
{
    if path.len() > 1 {
        lemma_block_ancestor_bound(doc, path, path.len() as int);
    }
}

proof fn lemma_block_ancestor_bound(doc: DomNode, path: Seq<usize>, i: int)
    requires
        i >= 0,
    ensures
        0 <= block_ancestor_depth(doc, path, i) <= if i > 0 {
            i - 1
        } else {
            0
        },
    decreases i,
{
    if i > 0 {
        lemma_block_ancestor_bound(doc, path, i - 1);
    }
}

impl DomNode {
    /// True for the nodes that the search for the nodes to wrap in a block
    /// goes over: neither block nodes nor line breaks.
    pub fn is_leaf_or_included(&self) -> (b: bool)
        ensures
            b == include_in_wrap(*self),
    {
        !self.is_block_node() && !self.is_line_break()
    }
}

} // verus!
