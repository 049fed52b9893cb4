use vstd::prelude::*;

use crate::dom::Dom;
use crate::find_range::{LocModel, is_leaf_model, model_of, models_of, range_locs};
use crate::handle::DomHandle;
use crate::iter::{deref_all, nodes_back_from, nodes_from};
use crate::range::{DomLocation, Range, last_leaf_before, loc_is_leaf, range_end};
use crate::tree::{DomNode, DomNodeKind, is_block_kind, kind_of, node_at, node_len};

verus! {

/// Nodes that end the walk of an extended selection: block nodes and list
/// items.
pub open spec fn ends_walk(n: DomNode) -> bool {
    is_block_kind(kind_of(n)) || kind_of(n) is ListItem
}

/// Walking `s` from `j` on until a line break, a block node or a list
/// item: the lengths of the text nodes met, plus one for a line break that
/// ends the walk.
pub open spec fn walk_back_len(s: Seq<DomNode>, j: int) -> int
    decreases s.len() - j,
{
    if j < 0 || j >= s.len() {
        0
    } else {
        match s[j] {
            DomNode::Text(t) => t.spec_data().len() + walk_back_len(s, j + 1),
            DomNode::LineBreak(_) => 1,
            _ => if ends_walk(s[j]) {
                0
            } else {
                walk_back_len(s, j + 1)
            },
        }
    }
}

/// The node at `path` in the tree under `doc` is the last child of a list,
/// or the last child of a node that is, going up.
pub open spec fn last_child_of_list(doc: DomNode, path: Seq<usize>) -> bool
    decreases path.len(),
{
    if path.len() == 0 {
        false
    } else {
        match node_at(doc, path.drop_last()) {
            Some(DomNode::Container(p)) => if p.spec_children().len() - 1 == path.last() {
                if p.spec_kind() is List {
                    true
                } else {
                    last_child_of_list(doc, path.drop_last())
                }
            } else {
                false
            },
            _ => false,
        }
    }
}

/// Walking `s` from `j` on as `walk_back_len` does, a text node of `doc`
/// that is the last child of a list also ending the walk, after its length.
pub open spec fn walk_fwd_len(doc: DomNode, s: Seq<DomNode>, j: int) -> int
    decreases s.len() - j,
{
    if j < 0 || j >= s.len() {
        0
    } else {
        match s[j] {
            DomNode::Text(t) => t.spec_data().len() + if t.spec_handle() is Some && node_at(
                doc,
                t.spec_handle().unwrap(),
            ) is Some && last_child_of_list(doc, t.spec_handle().unwrap()) {
                0
            } else {
                walk_fwd_len(doc, s, j + 1)
            },
            DomNode::LineBreak(_) => 1,
            _ => if ends_walk(s[j]) {
                0
            } else {
                walk_fwd_len(doc, s, j + 1)
            },
        }
    }
}

/// `x` capped at `usize::MAX`.
pub open spec fn capped(x: int) -> int {
    if x > usize::MAX {
        usize::MAX as int
    } else {
        x
    }
}

/// How far the selection extends back from a location, up to the previous
/// line break, block node or list item.
pub open spec fn offset_before(doc: DomNode, m: LocModel) -> int {
    if m.5 is LineBreak {
        m.2
    } else {
        capped(m.2 + walk_back_len(nodes_back_from(doc, m.0), 1))
    }
}

/// How far the selection extends forward from a location, up to the next
/// line break, block node or list item, or the end of a list.
pub open spec fn offset_after(doc: DomNode, m: LocModel) -> int {
    if m.5 is LineBreak || (m.0 is Some && node_at(doc, m.0.unwrap()) is Some && last_child_of_list(
        doc,
        m.0.unwrap(),
    )) {
        m.4 - m.3
    } else {
        capped(m.4 - m.3 + walk_fwd_len(doc, nodes_from(doc, m.0), 1))
    }
}

/// The index of the first leaf from `i` on that starts before `e`.
pub open spec fn first_leaf_before_pos(ms: Seq<LocModel>, e: int, i: int) -> Option<int>
    decreases ms.len() - i,
{
    if i < 0 || i >= ms.len() {
        None
    } else if is_leaf_model(ms[i]) && ms[i].1 < e {
        Some(i)
    } else {
        first_leaf_before_pos(ms, e, i + 1)
    }
}

/// The index of the last leaf before index `k` that starts before `e`.
pub open spec fn last_leaf_before_pos(ms: Seq<LocModel>, e: int, k: int) -> Option<int>
    decreases k,
{
    if k <= 0 || k > ms.len() {
        None
    } else if is_leaf_model(ms[k - 1]) && ms[k - 1].1 < e {
        Some(k - 1)
    } else {
        last_leaf_before_pos(ms, e, k - 1)
    }
}

/// Where the locations end: at the end offset of their last leaf, or 0.
pub open spec fn models_end(ms: Seq<LocModel>, k: int) -> int
    decreases k,
{
    if k <= 0 || k > ms.len() {
        0
    } else if is_leaf_model(ms[k - 1]) {
        ms[k - 1].1 + ms[k - 1].3
    } else {
        models_end(ms, k - 1)
    }
}

/// The selection from `start` to `end` extended on each side up to the
/// next line break, block node or list item: from the first leaf of the
/// selection that starts before its end, back; from the last such leaf,
/// forward. Unchanged when there is no such leaf.
pub open spec fn extended_selection(doc: DomNode, start: int, end: int) -> (int, int) {
    let ms = range_locs(doc, start, end);
    let e = models_end(ms, ms.len() as int);
    match (first_leaf_before_pos(ms, e, 0), last_leaf_before_pos(ms, e, ms.len() as int)) {
        (Some(i), Some(k)) => {
            let b = offset_before(doc, ms[i]);
            (if start >= b {
                start - b
            } else {
                0
            }, capped(end + offset_after(doc, ms[k])))
        },
        _ => (start, end),
    }
}

proof fn lemma_first_leaf_pos(ms: Seq<LocModel>, e: int, i: int)
    requires
        0 <= i,
    ensures
        first_leaf_before_pos(ms, e, i) matches Some(f) ==> i <= f < ms.len(),
    decreases ms.len() - i,
{
    if i < ms.len() && !(is_leaf_model(ms[i]) && ms[i].1 < e) {
        lemma_first_leaf_pos(ms, e, i + 1);
    }
}

proof fn lemma_last_leaf_pos(ms: Seq<LocModel>, e: int, k: int)
    ensures
        last_leaf_before_pos(ms, e, k) matches Some(f) ==> 0 <= f < k && f < ms.len(),
    decreases k,
{
    if 0 < k <= ms.len() && !(is_leaf_model(ms[k - 1]) && ms[k - 1].1 < e) {
        lemma_last_leaf_pos(ms, e, k - 1);
    }
}

proof fn lemma_end_of_models(s: Seq<DomLocation>, k: int)
    requires
        0 <= k <= s.len(),
    ensures
        models_end(models_of(s), k) == match last_leaf_before(s, k) {
            Some(i) => s[i].position + s[i].end_offset,
            None => 0,
        },
    decreases k,
{
    if k > 0 {
        assert(models_of(s)[k - 1] == model_of(s[k - 1]));
        lemma_end_of_models(s, k - 1);
    }
}

impl Dom {
    /// Whether the node a handle names is the last child of a list, or the
    /// last child of a node that is, going up.
    pub fn is_last_child_of_list(&self, handle: &DomHandle) -> (b: bool)
        requires
            self.wf(),
            handle@ is Some,
            node_at(self.spec_document(), handle.path()) is Some,
        ensures
            b == last_child_of_list(self.spec_document(), handle.path()),
        decreases handle.path().len(),
    {
        if !handle.has_parent() {
            return false;
        }
        proof {
            crate::dom::lemma_node_at_parent(self.spec_document(), handle.path());
        }
        let index_in_parent = handle.index_in_parent();
        let parent = self.parent(handle);
        if parent.children().len() - 1 == index_in_parent {
            if parent.is_list() {
                true
            } else {
                let up = handle.parent_handle();
                self.is_last_child_of_list(&up)
            }
        } else {
            false
        }
    }

    /// How far the selection extends back from a location: see
    /// `offset_before`.
    fn extended_offset_before(&self, location: &DomLocation) -> (o: usize)
        ensures
            o == offset_before(self.spec_document(), model_of(*location)),
    {
        if location.kind == DomNodeKind::LineBreak {
            return location.start_offset;
        }
        let nodes = self.iter_back_from_handle(&location.node_handle);
        let ghost s = deref_all(nodes@);
        let ghost start = location.start_offset as int;
        let mut offset: usize = location.start_offset;
        let mut j: usize = 1;
        let mut done = false;
        while j < nodes.len() && !done
            invariant
                s == deref_all(nodes@),
                1 <= j,
                !done ==> offset == capped(start + walk_back_len(s, 1) - walk_back_len(s, j as int)),
                done ==> offset == capped(start + walk_back_len(s, 1)),
            decreases nodes@.len() - j,
        {
            let node = nodes[j];
            assert(s[j as int] == *node);
            match node {
                DomNode::Text(t) => {
                    offset = offset.saturating_add(t.data().len());
                },
                DomNode::LineBreak(_) => {
                    offset = offset.saturating_add(1);
                    done = true;
                },
                _ => {
                    if node.is_block_node() || node.is_list_item() {
                        done = true;
                    }
                },
            }
            j += 1;
        }
        offset
    }

    /// How far the selection extends forward from a location: see
    /// `offset_after`.
    fn extended_offset_after(&self, location: &DomLocation) -> (o: usize)
        requires
            self.wf(),
            location.end_offset <= location.length,
        ensures
            o == offset_after(self.spec_document(), model_of(*location)),
    {
        let h = &location.node_handle;
        if location.kind == DomNodeKind::LineBreak || (h.is_set() && self.contains(h)
            && self.is_last_child_of_list(h)) {
            return location.length - location.end_offset;
        }
        let nodes = self.iter_from_handle(&location.node_handle);
        let ghost s = deref_all(nodes@);
        let ghost doc = self.spec_document();
        let ghost first = (location.length - location.end_offset) as int;
        let mut offset: usize = location.length - location.end_offset;
        let mut j: usize = 1;
        let mut done = false;
        while j < nodes.len() && !done
            invariant
                self.wf(),
                doc == self.spec_document(),
                s == deref_all(nodes@),
                s == nodes_from(doc, location.node_handle@),
                1 <= j,
                !done ==> offset == capped(first + walk_fwd_len(doc, s, 1) - walk_fwd_len(doc, s, j as int)),
                done ==> offset == capped(first + walk_fwd_len(doc, s, 1)),
            decreases nodes@.len() - j,
        {
            let node = nodes[j];
            assert(s[j as int] == *node);
            match node {
                DomNode::Text(t) => {
                    offset = offset.saturating_add(t.data().len());
                    let h = t.handle();
                    if h.is_set() && self.contains(&h) && self.is_last_child_of_list(&h) {
                        done = true;
                    }
                },
                DomNode::LineBreak(_) => {
                    offset = offset.saturating_add(1);
                    done = true;
                },
                _ => {
                    if node.is_block_node() || node.is_list_item() {
                        done = true;
                    }
                },
            }
            j += 1;
        }
        offset
    }

    /// The selection from `start` to `end` extended on each side up to the
    /// next line break, block node or list item; see `extended_selection`.
    pub fn find_extended_selection(&self, start: usize, end: usize) -> (r: (usize, usize))
        requires
            self.wf(),
            node_len(self.spec_document()) <= usize::MAX,
        ensures
            r.0 == extended_selection(self.spec_document(), start as int, end as int).0,
            r.1 == extended_selection(self.spec_document(), start as int, end as int).1,
    {
        let range = self.find_range(start, end);
        let ghost locs = range.locations@;
        let ghost ms = models_of(locs);
        let e = range.end();
        proof {
            lemma_end_of_models(locs, locs.len() as int);
            crate::find_range::lemma_range_locs_within(self.spec_document(), start as int, end as int);
        }
        let n = range.locations.len();
        let mut first: Option<usize> = None;
        let mut i: usize = 0;
        while i < n
            invariant
                n == locs.len(),
                locs == range.locations@,
                ms == models_of(locs),
                i <= n,
                first is None ==> first_leaf_before_pos(ms, e as int, 0) == first_leaf_before_pos(ms, e as int, i as int),
                first matches Some(f) ==> first_leaf_before_pos(ms, e as int, 0) == Some(f as int),
            decreases n - i,
        {
            assert(ms[i as int] == model_of(locs[i as int]));
            if first.is_none() && range.locations[i].is_leaf() && range.locations[i].position < e {
                first = Some(i);
            }
            i += 1;
        }
        let mut last: Option<usize> = None;
        let mut k: usize = n;
        while k > 0
            invariant
                n == locs.len(),
                locs == range.locations@,
                ms == models_of(locs),
                k <= n,
                last is None ==> last_leaf_before_pos(ms, e as int, n as int) == last_leaf_before_pos(ms, e as int, k as int),
                last matches Some(f) ==> last_leaf_before_pos(ms, e as int, n as int) == Some(f as int),
            decreases k,
        {
            assert(ms[k - 1] == model_of(locs[k - 1]));
            if last.is_none() && range.locations[k - 1].is_leaf() && range.locations[k - 1].position < e {
                last = Some(k - 1);
            }
            k -= 1;
        }
        proof {
            lemma_first_leaf_pos(ms, e as int, 0);
            lemma_last_leaf_pos(ms, e as int, n as int);
        }
        match (first, last) {
            (Some(f), Some(l)) => {
                assert(ms[f as int] == model_of(locs[f as int]));
                assert(ms[l as int] == model_of(locs[l as int]));
                assert(ms == range_locs(self.spec_document(), start as int, end as int));
                assert(crate::find_range::offsets_ok(ms[l as int]));
                let b = self.extended_offset_before(&range.locations[f]);
                let a = self.extended_offset_after(&range.locations[l]);
                (start.saturating_sub(b), end.saturating_add(a))
            },
            _ => (start, end),
        }
    }

    /// The range of the selection from `start` to `end` extended on each
    /// side up to the next line break, block node or list item.
    pub fn find_extended_range(&self, start: usize, end: usize) -> (r: Range)
        requires
            self.wf(),
            node_len(self.spec_document()) <= usize::MAX,
        ensures
            models_of(r.locations@) == range_locs(
                self.spec_document(),
                extended_selection(self.spec_document(), start as int, end as int).0,
                extended_selection(self.spec_document(), start as int, end as int).1,
            ),
            r.fits(),
    {
        let (s, e) = self.find_extended_selection(start, end);
        self.find_range(s, e)
    }
}

} // verus!
