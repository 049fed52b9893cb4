use vstd::prelude::*;

use crate::dom::Dom;
use crate::handle::DomHandle;
use crate::range::{DomLocation, Range, last_greatest, last_greatest_marked, loc_fits, loc_is_end, loc_is_start, same_loc};
use crate::tree::{
    node_at, DomNode, DomNodeKind, kind_of, lemma_container_child_decreases, lemma_decreases_children,
    lemma_nodes_len_prefix_le, lemma_nodes_len_prefix_step, node_len, nodes_len,
};

verus! {

/// What a location records of a node: its handle, where it starts, where the
/// range starts and ends inside it, its length and its kind.
pub type LocModel = (Option<Seq<usize>>, int, int, int, int, DomNodeKind);

/// The values a location holds.
pub open spec fn model_of(l: DomLocation) -> LocModel {
    (l.node_handle@, l.position as int, l.start_offset as int, l.end_offset as int, l.length as int, l.kind)
}

/// The values of a list of locations, in order.
pub open spec fn models_of(s: Seq<DomLocation>) -> Seq<LocModel> {
    s.map_values(|l: DomLocation| model_of(l))
}

/// A position `x` of the document taken inside a node that starts at `pos`
/// and holds `len` code units: clamped to the node.
pub open spec fn offset_in(x: int, pos: int, len: int) -> int {
    if x < pos {
        0
    } else if x > pos + len {
        len
    } else {
        x - pos
    }
}

/// A node that starts at `pos` and holds `len` code units is part of the
/// selection from `s` to `e`: for a cursor (`s == e`), when the cursor is
/// inside it or at one of its ends; for a selection, when they overlap by
/// more than a point.
pub open spec fn touches(pos: int, len: int, s: int, e: int) -> bool {
    if s == e {
        pos <= s <= pos + len
    } else {
        s < pos + len && pos < e
    }
}

/// The location of a node that starts at `pos`, for the selection from `s`
/// to `e`.
pub open spec fn loc_model(n: DomNode, pos: int, s: int, e: int) -> LocModel {
    let len = node_len(n) as int;
    (n.spec_handle(), pos, offset_in(s, pos, len), offset_in(e, pos, len), len, kind_of(n))
}

/// The locations of the nodes of the tree under `n`, which starts at `pos`,
/// that touch the selection from `s` to `e`: each container after its
/// children, the children in order.
pub open spec fn node_locs(n: DomNode, pos: int, s: int, e: int) -> Seq<LocModel>
    decreases n, 1int,
{
    let own: Seq<LocModel> = if touches(pos, node_len(n) as int, s, e) {
        seq![loc_model(n, pos, s, e)]
    } else {
        Seq::empty()
    };
    match n {
        DomNode::Container(c) => {
            proof {
                lemma_decreases_children(n);
            }
            children_locs(c.spec_children(), c.spec_children().len() as int, pos, s, e) + own
        },
        _ => own,
    }
}

/// The locations under the first `k` nodes of `kids`, the first of which
/// starts at `pos`.
pub open spec fn children_locs(kids: Seq<DomNode>, k: int, pos: int, s: int, e: int) -> Seq<
    LocModel,
>
    decreases kids, k,
{
    if k <= 0 || k > kids.len() {
        Seq::empty()
    } else {
        children_locs(kids, k - 1, pos, s, e) + node_locs(
            kids[k - 1],
            pos + nodes_len(kids.subrange(0, k - 1)),
            s,
            e,
        )
    }
}

/// A location with its start and end offsets swapped.
pub open spec fn flipped(m: LocModel) -> LocModel {
    (m.0, m.1, m.3, m.2, m.4, m.5)
}

/// The locations of the selection from `start` to `end` in the tree under
/// `doc`, the document node itself left out: the nodes that are part of the
/// selection between the smaller and the larger of the two, each with its
/// offsets swapped when `end` comes before `start`.
pub open spec fn range_locs(doc: DomNode, start: int, end: int) -> Seq<LocModel> {
    let kids = doc->Container_0.spec_children();
    if start <= end {
        children_locs(kids, kids.len() as int, 0, start, end)
    } else {
        children_locs(kids, kids.len() as int, 0, end, start).map_values(|m: LocModel| flipped(m))
    }
}

/// A location lies within the span from `lo` to `hi`, its offsets within
/// its length.
pub open spec fn loc_within(m: LocModel, lo: int, hi: int) -> bool {
    &&& lo <= m.1
    &&& m.1 + m.4 <= hi
    &&& 0 <= m.2 <= m.4
    &&& 0 <= m.3 <= m.4
}

/// Every location found under a node lies within the node.
pub proof fn lemma_node_locs_within(n: DomNode, pos: int, s: int, e: int)
    requires
        pos >= 0,
    ensures
        forall|i: int|
            0 <= i < node_locs(n, pos, s, e).len() ==> loc_within(
                #[trigger] node_locs(n, pos, s, e)[i],
                pos,
                pos + node_len(n),
            ),
    decreases n, 1int,
{
    match n {
        DomNode::Container(c) => {
            lemma_decreases_children(n);
            let kids = c.spec_children();
            lemma_children_locs_within(kids, kids.len() as int, pos, s, e);
            assert(kids.subrange(0, kids.len() as int) =~= kids);
            let a = children_locs(kids, kids.len() as int, pos, s, e);
            let own: Seq<LocModel> = if touches(pos, node_len(n) as int, s, e) {
                seq![loc_model(n, pos, s, e)]
            } else {
                Seq::empty()
            };
            assert(node_locs(n, pos, s, e) == a + own);
            assert forall|i: int| 0 <= i < (a + own).len() implies loc_within(
                #[trigger] (a + own)[i],
                pos,
                pos + node_len(n),
            ) by {
                if i < a.len() {
                    assert((a + own)[i] == a[i]);
                } else {
                    assert((a + own)[i] == own[i - a.len()]);
                }
            }
        },
        _ => {},
    }
}

/// Every location found under the first `k` children lies within them.
pub proof fn lemma_children_locs_within(kids: Seq<DomNode>, k: int, pos: int, s: int, e: int)
    requires
        pos >= 0,
        0 <= k <= kids.len(),
    ensures
        forall|i: int|
            0 <= i < children_locs(kids, k, pos, s, e).len() ==> loc_within(
                #[trigger] children_locs(kids, k, pos, s, e)[i],
                pos,
                pos + nodes_len(kids.subrange(0, k)),
            ),
    decreases kids, k,
{
    if k > 0 {
        let start = pos + nodes_len(kids.subrange(0, k - 1));
        lemma_children_locs_within(kids, k - 1, pos, s, e);
        lemma_node_locs_within(kids[k - 1], start, s, e);
        lemma_nodes_len_prefix_step(kids, k - 1);
        let a = children_locs(kids, k - 1, pos, s, e);
        let b = node_locs(kids[k - 1], start, s, e);
        assert forall|i: int| 0 <= i < (a + b).len() implies loc_within(
            #[trigger] (a + b)[i],
            pos,
            pos + nodes_len(kids.subrange(0, k)),
        ) by {
            if i < a.len() {
                assert((a + b)[i] == a[i]);
            } else {
                assert((a + b)[i] == b[i - a.len()]);
            }
        }
    }
}


/// Leaf locations: text, line breaks and zero-width spaces.
pub open spec fn is_leaf_model(m: LocModel) -> bool {
    m.5 is Text || m.5 is LineBreak || m.5 is Zwsp
}

/// The smallest position of a leaf among the first `k` locations, if one
/// of them is a leaf.
pub open spec fn leaves_start(ms: Seq<LocModel>, k: int) -> Option<int>
    decreases k,
{
    if k <= 0 || k > ms.len() {
        None
    } else {
        let prev = leaves_start(ms, k - 1);
        let m = ms[k - 1];
        if is_leaf_model(m) {
            match prev {
                Some(p) => Some(if m.1 < p { m.1 } else { p }),
                None => Some(m.1),
            }
        } else {
            prev
        }
    }
}

/// The largest end (position plus length) of a leaf among the first `k`
/// locations, if one of them is a leaf.
pub open spec fn leaves_end(ms: Seq<LocModel>, k: int) -> Option<int>
    decreases k,
{
    if k <= 0 || k > ms.len() {
        None
    } else {
        let prev = leaves_end(ms, k - 1);
        let m = ms[k - 1];
        if is_leaf_model(m) {
            match prev {
                Some(p) => Some(if m.1 + m.4 > p { m.1 + m.4 } else { p }),
                None => Some(m.1 + m.4),
            }
        } else {
            prev
        }
    }
}

/// The locations of every node of the tree under `n`, positions counted
/// from the start of `n`.
pub open spec fn whole_node_locs(n: DomNode) -> Seq<LocModel> {
    node_locs(n, 0, 0, usize::MAX as int)
}

/// A node of a tree holds no more text than the tree.
pub proof fn lemma_node_at_len(n: DomNode, path: Seq<usize>)
    requires
        node_at(n, path) is Some,
    ensures
        node_len(node_at(n, path).unwrap()) <= node_len(n),
    decreases path.len(),
{
    if path.len() > 0 {
        let c = n->Container_0;
        let k = path[0] as int;
        lemma_node_at_len(c.spec_children()[k], path.skip(1));
        lemma_nodes_len_prefix_step(c.spec_children(), k);
        lemma_nodes_len_prefix_le(c.spec_children(), k + 1);
    }
}

/// The offsets of a location lie within its length.
pub open spec fn offsets_ok(m: LocModel) -> bool {
    0 <= m.2 <= m.4 && 0 <= m.3 <= m.4
}

/// The offsets of every location of a range lie within its length.
pub proof fn lemma_range_locs_within(doc: DomNode, start: int, end: int)
    requires
        doc is Container,
    ensures
        forall|i: int|
            0 <= i < range_locs(doc, start, end).len() ==> offsets_ok(#[trigger] range_locs(doc, start, end)[i]),
{
    let kids = doc->Container_0.spec_children();
    let (s, e) = if start <= end {
        (start, end)
    } else {
        (end, start)
    };
    lemma_children_locs_within(kids, kids.len() as int, 0, s, e);
    let ms = children_locs(kids, kids.len() as int, 0, s, e);
    if start > end {
        let fl = ms.map_values(|m: LocModel| flipped(m));
        assert forall|i: int| 0 <= i < fl.len() implies #[trigger] fl[i] == flipped(ms[i]) by {}
    }
}

proof fn lemma_models_push(s: Seq<DomLocation>, l: DomLocation)
    ensures
        models_of(s.push(l)) == models_of(s) + seq![model_of(l)],
{
    assert(models_of(s.push(l)) =~= models_of(s) + seq![model_of(l)]);
}

/// Append to `out` the locations of the nodes of the trees under `kids`,
/// the first of which starts at `pos`, that are part of the selection from
/// `s` to `e`; returns where the last one ends.
fn collect_children(kids: &Vec<DomNode>, pos: usize, s: usize, e: usize, out: &mut Vec<DomLocation>) -> (next:
    usize)
    requires
        pos + nodes_len(kids@) <= usize::MAX,
    ensures
        next == pos + nodes_len(kids@),
        models_of(final(out)@) == models_of(old(out)@) + children_locs(
            kids@,
            kids@.len() as int,
            pos as int,
            s as int,
            e as int,
        ),
    decreases kids@, 0int,
{
    let ghost before = out@;
    let ghost ks = kids@;
    let mut cur: usize = pos;
    let mut i: usize = 0;
    while i < kids.len()
        invariant
            kids@ == ks,
            i <= ks.len(),
            pos + nodes_len(ks) <= usize::MAX,
            cur == pos + nodes_len(ks.subrange(0, i as int)),
            models_of(out@) == models_of(before) + children_locs(ks, i as int, pos as int, s as int, e as int),
        decreases ks.len() - i,
    {
        proof {
            lemma_nodes_len_prefix_step(ks, i as int);
            lemma_nodes_len_prefix_le(ks, i + 1);
        }
        cur = collect_locations(&kids[i], cur, s, e, out);
        i += 1;
    }
    assert(ks.subrange(0, ks.len() as int) =~= ks);
    cur
}

/// Append to `out` the locations of the nodes of the tree under `n`, which
/// starts at `pos`, that are part of the selection from `s` to `e`; returns
/// where the node ends.
fn collect_locations(n: &DomNode, pos: usize, s: usize, e: usize, out: &mut Vec<DomLocation>) -> (next:
    usize)
    requires
        pos + node_len(*n) <= usize::MAX,
    ensures
        next == pos + node_len(*n),
        models_of(final(out)@) == models_of(old(out)@) + node_locs(*n, pos as int, s as int, e as int),
    decreases *n, 1int,
{
    let cur: usize = match n {
        DomNode::Container(c) => {
            proof {
                lemma_decreases_children(*n);
            }
            collect_children(c.children(), pos, s, e, out)
        },
        DomNode::Text(t) => pos + t.data().len(),
        _ => pos + 1,
    };
    let len = cur - pos;
    let part_of = if s == e {
        pos <= s && s <= cur
    } else {
        s < cur && pos < e
    };
    if part_of {
        let start_offset = if s < pos {
            0
        } else if s > cur {
            len
        } else {
            s - pos
        };
        let end_offset = if e < pos {
            0
        } else if e > cur {
            len
        } else {
            e - pos
        };
        let l = DomLocation::new(n.handle(), pos, start_offset, end_offset, len, n.kind());
        proof {
            lemma_models_push(out@, l);
        }
        out.push(l);
    }
    cur
}

impl Dom {
    /// The nodes a selection from `start` to `end` (in code units) touches,
    /// with where it starts and ends inside each; see `range_locs`.
    pub fn find_range(&self, start: usize, end: usize) -> (r: Range)
        requires
            self.wf(),
            node_len(self.spec_document()) <= usize::MAX,
        ensures
            models_of(r.locations@) == range_locs(self.spec_document(), start as int, end as int),
            r.fits(),
    {
        let kids = self.children();
        let ghost ks = kids@;
        let (s, e) = if start <= end {
            (start, end)
        } else {
            (end, start)
        };
        let mut out: Vec<DomLocation> = Vec::new();
        proof {
            lemma_node_locs_within(self.spec_document(), 0, s as int, e as int);
            lemma_decreases_children(self.spec_document());
        }
        collect_children(kids, 0, s, e, &mut out);
        assert(models_of(Seq::<DomLocation>::empty()) =~= Seq::<LocModel>::empty());
        let ghost all = children_locs(ks, ks.len() as int, 0, s as int, e as int);
        assert(Seq::<LocModel>::empty() + all =~= all);
        proof {
            lemma_children_locs_within(ks, ks.len() as int, 0, s as int, e as int);
            assert(ks.subrange(0, ks.len() as int) =~= ks);
            assert(nodes_len(ks) == node_len(self.spec_document()));
        }
        if start <= end {
            proof {
                assert forall|i: int| 0 <= i < out@.len() implies #[trigger] crate::range::loc_fits(out@[i]) by {
                    assert(models_of(out@)[i] == model_of(out@[i]));
                }
            }
            Range { locations: out }
        } else {
            let ghost found = out@;
            let mut flipped_out: Vec<DomLocation> = Vec::new();
            let mut i: usize = 0;
            while i < out.len()
                invariant
                    out@ == found,
                    i <= found.len(),
                    models_of(flipped_out@) == models_of(found.subrange(0, i as int)).map_values(
                        |m: LocModel| flipped(m),
                    ),
                decreases found.len() - i,
            {
                let l = out[i].reversed();
                proof {
                    lemma_models_push(flipped_out@, l);
                    assert(found.subrange(0, i + 1) =~= found.subrange(0, i as int).push(found[i as int]));
                    lemma_models_push(found.subrange(0, i as int), found[i as int]);
                    assert(models_of(found.subrange(0, i + 1)).map_values(|m: LocModel| flipped(m))
                        =~= models_of(found.subrange(0, i as int)).map_values(|m: LocModel| flipped(m))
                        + seq![flipped(model_of(found[i as int]))]);
                }
                flipped_out.push(l);
                i += 1;
            }
            assert(found.subrange(0, found.len() as int) =~= found);
            proof {
                assert forall|i: int| 0 <= i < flipped_out@.len() implies #[trigger] crate::range::loc_fits(flipped_out@[i]) by {
                    assert(models_of(flipped_out@)[i] == model_of(flipped_out@[i]));
                    assert(models_of(found)[i] == model_of(found[i]));
                }
            }
            Range { locations: flipped_out }
        }
    }

    /// The range that spans the leaves of the node a handle names: from the
    /// smallest position of one of its leaves to the largest end of one,
    /// both counted from the start of that node.
    pub fn find_range_by_node(&self, node_handle: &DomHandle) -> (r: Range)
        requires
            self.wf(),
            node_len(self.spec_document()) <= usize::MAX,
            node_handle@ is Some,
            node_at(self.spec_document(), node_handle.path()) is Some,
            leaves_start(
                whole_node_locs(node_at(self.spec_document(), node_handle.path()).unwrap()),
                whole_node_locs(node_at(self.spec_document(), node_handle.path()).unwrap()).len() as int,
            ) is Some,
        ensures
            ({
                let ms = whole_node_locs(node_at(self.spec_document(), node_handle.path()).unwrap());
                models_of(r.locations@) == range_locs(
                    self.spec_document(),
                    leaves_start(ms, ms.len() as int).unwrap(),
                    leaves_end(ms, ms.len() as int).unwrap(),
                )
            }),
            r.fits(),
    {
        let ghost doc = self.spec_document();
        let ghost node = node_at(doc, node_handle.path()).unwrap();
        proof {
            lemma_node_at_len(doc, node_handle.path());
        }
        let n = self.lookup_node(node_handle);
        let mut out: Vec<DomLocation> = Vec::new();
        collect_locations(n, 0, 0, usize::MAX, &mut out);
        let ghost ms = whole_node_locs(node);
        assert(models_of(Seq::<DomLocation>::empty()) =~= Seq::<LocModel>::empty());
        assert(Seq::<LocModel>::empty() + ms =~= ms);
        proof {
            lemma_node_locs_within(node, 0, 0, usize::MAX as int);
        }
        let mut s: usize = 0;
        let mut e: usize = 0;
        let mut found = false;
        let mut i: usize = 0;
        while i < out.len()
            invariant
                models_of(out@) == ms,
                i <= ms.len(),
                forall|j: int| 0 <= j < ms.len() ==> loc_within(#[trigger] ms[j], 0, node_len(node) as int),
                node_len(node) <= usize::MAX,
                found == (leaves_start(ms, i as int) is Some),
                found ==> leaves_start(ms, i as int) == Some(s as int) && leaves_end(ms, i as int) == Some(e as int),
                leaves_end(ms, i as int) is Some == found,
            decreases ms.len() - i,
        {
            let l = &out[i];
            assert(models_of(out@)[i as int] == model_of(out@[i as int]));
            assert(loc_within(ms[i as int], 0, node_len(node) as int));
            if l.is_leaf() {
                let end = l.position + l.length;
                if !found {
                    s = l.position;
                    e = end;
                    found = true;
                } else {
                    if l.position < s {
                        s = l.position;
                    }
                    if end > e {
                        e = end;
                    }
                }
            }
            i += 1;
        }
        self.find_range(s, e)
    }
}

/// A location that the search for the top block nodes takes as the start:
/// a block node that the range starts at the end of, at `start_pos`.
pub open spec fn top_start_candidate(l: DomLocation, start_pos: int) -> bool {
    crate::tree::is_block_kind(l.kind) && loc_is_start(l) && l.position + l.start_offset == start_pos
}

/// A location that the search for the top block nodes takes as the end: a
/// block node that is not a start and that the range ends at the start of.
pub open spec fn top_end_candidate(l: DomLocation, start_pos: int) -> bool {
    crate::tree::is_block_kind(l.kind) && !(loc_is_start(l) && l.position + l.start_offset == start_pos)
        && loc_is_end(l)
}

/// `r` is the last greatest location of `locs` in the order of handles
/// among those `marks` marks, or `None` when none is marked.
pub open spec fn picked_greatest(locs: Seq<DomLocation>, marks: Seq<bool>, r: Option<DomLocation>) -> bool {
    match r {
        None => forall|j: int| 0 <= j < marks.len() ==> !#[trigger] marks[j],
        Some(l) => exists|i: int| #![trigger locs[i]] same_loc(l, locs[i]) && last_greatest(locs, marks, i),
    }
}

impl Dom {
    /// The block locations of `range` where the range starts (at
    /// `start_pos`, at the end of the node) and where it ends (at the start
    /// of the node), each the greatest in the order of handles among those
    /// found, the last of those as great.
    pub fn top_most_block_nodes_in_range(&self, start_pos: usize, range: &Range) -> (r: (
        Option<DomLocation>,
        Option<DomLocation>,
    ))
        requires
            range.fits(),
        ensures
            picked_greatest(
                range.locations@,
                range.locations@.map_values(|x: DomLocation| top_start_candidate(x, start_pos as int)),
                r.0,
            ),
            picked_greatest(
                range.locations@,
                range.locations@.map_values(|x: DomLocation| top_end_candidate(x, start_pos as int)),
                r.1,
            ),
    {
        let locs = &range.locations;
        let mut starts: Vec<bool> = Vec::new();
        let mut ends: Vec<bool> = Vec::new();
        let mut i: usize = 0;
        while i < locs.len()
            invariant
                locs@ == range.locations@,
                range.fits(),
                i <= locs@.len(),
                starts@.len() == i,
                ends@.len() == i,
                forall|j: int| 0 <= j < i ==> #[trigger] starts@[j] == top_start_candidate(locs@[j], start_pos as int),
                forall|j: int| 0 <= j < i ==> #[trigger] ends@[j] == top_end_candidate(locs@[j], start_pos as int),
            decreases locs@.len() - i,
        {
            let l = &locs[i];
            proof {
                assert(loc_fits(range.locations@[i as int]));
            }
            let is_block = l.kind.is_block_kind();
            let starts_here = is_block && l.is_start() && l.index_in_dom() == start_pos;
            starts.push(starts_here);
            ends.push(is_block && !starts_here && l.is_end());
            i += 1;
        }
        let ghost ms = locs@.map_values(|x: DomLocation| top_start_candidate(x, start_pos as int));
        let ghost me = locs@.map_values(|x: DomLocation| top_end_candidate(x, start_pos as int));
        proof {
            assert(starts@ =~= ms);
            assert(ends@ =~= me);
        }
        let s = match last_greatest_marked(locs, &starts) {
            Some(k) => Some(locs[k].clone()),
            None => None,
        };
        let e = match last_greatest_marked(locs, &ends) {
            Some(k) => Some(locs[k].clone()),
            None => None,
        };
        (s, e)
    }

    /// The block locations where the range from `selection_pos` over
    /// `length` code units starts and ends; see
    /// `top_most_block_nodes_in_range`.
    pub fn top_most_block_nodes_in_boundary(&self, selection_pos: usize, length: usize) -> (r: (
        Option<DomLocation>,
        Option<DomLocation>,
    ))
        requires
            self.wf(),
            node_len(self.spec_document()) <= usize::MAX,
            selection_pos + length <= usize::MAX,
        ensures
            exists|range: Range|
                #![trigger models_of(range.locations@)]
                {
                    &&& models_of(range.locations@) == range_locs(
                        self.spec_document(),
                        selection_pos as int,
                        selection_pos + length,
                    )
                    &&& picked_greatest(
                        range.locations@,
                        range.locations@.map_values(
                            |x: DomLocation| top_start_candidate(x, selection_pos as int),
                        ),
                        r.0,
                    )
                    &&& picked_greatest(
                        range.locations@,
                        range.locations@.map_values(|x: DomLocation| top_end_candidate(x, selection_pos as int)),
                        r.1,
                    )
                },
    {
        let range = self.find_range(selection_pos, selection_pos + length);
        self.top_most_block_nodes_in_range(selection_pos, &range)
    }
}

} // verus!
