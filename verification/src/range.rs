use vstd::prelude::*;

use crate::handle::{DomHandle, is_prefix};
use crate::tree::{DomNodeKind, is_block_kind};

verus! {

/// Where a node stands relative to a range.
#[derive(Clone, Copy, Debug, PartialEq, Eq, Structural)]
pub enum DomLocationPosition {
    /// The node is before the start of the range (and at the border).
    Before,
    /// The node is after the end of the range (and at the border).
    After,
    /// The node is at least partly within the range, or the cursor is
    /// strictly inside it.
    Inside,
}

/// A node of a range, with where the range starts and ends inside it.
#[derive(Debug, PartialEq, Eq)]
pub struct DomLocation {
    /// The handle of the node.
    pub node_handle: DomHandle,
    /// Where the range starts inside the node, in code units.
    pub start_offset: usize,
    /// Where the range ends inside the node, in code units.
    pub end_offset: usize,
    /// Where the node starts in the whole document, in code units.
    pub position: usize,
    /// How many code units the node holds.
    pub length: usize,
    /// The kind of the node.
    pub kind: DomNodeKind,
}

/// Leaf locations: text, line breaks and zero-width spaces.
pub open spec fn loc_is_leaf(l: DomLocation) -> bool {
    l.kind is Text || l.kind is LineBreak || l.kind is Zwsp
}

/// The range starts at the end of this location.
pub open spec fn loc_is_start(l: DomLocation) -> bool {
    (if l.start_offset < l.end_offset {
        l.end_offset
    } else {
        l.start_offset
    }) == l.length
}

/// The range ends at the start of this location.
pub open spec fn loc_is_end(l: DomLocation) -> bool {
    (if l.start_offset < l.end_offset {
        l.start_offset
    } else {
        l.end_offset
    }) == 0
}

impl DomLocation {
    /// A new location.
    pub fn new(
        node_handle: DomHandle,
        position: usize,
        start_offset: usize,
        end_offset: usize,
        length: usize,
        kind: DomNodeKind,
    ) -> (l: Self)
        ensures
            l.node_handle@ == node_handle@,
            l.position == position,
            l.start_offset == start_offset,
            l.end_offset == end_offset,
            l.length == length,
            l.kind == kind,
    {
        Self { node_handle, position, start_offset, end_offset, length, kind }
    }

    /// A copy of this location for another handle; its position is no longer
    /// known and is set to `usize::MAX`.
    pub fn with_new_handle(&self, handle: DomHandle) -> (l: Self)
        ensures
            l.node_handle@ == handle@,
            l.position == usize::MAX,
            l.start_offset == self.start_offset,
            l.end_offset == self.end_offset,
            l.length == self.length,
            l.kind == self.kind,
    {
        Self {
            node_handle: handle,
            position: usize::MAX,
            start_offset: self.start_offset,
            end_offset: self.end_offset,
            length: self.length,
            kind: self.kind,
        }
    }

    /// True for text nodes, line breaks and zero-width spaces.
    pub fn is_leaf(&self) -> (b: bool)
        ensures
            b == loc_is_leaf(*self),
    {
        match self.kind {
            DomNodeKind::Text | DomNodeKind::LineBreak | DomNodeKind::Zwsp => true,
            _ => false,
        }
    }

    /// Where this node stands relative to the range.
    pub fn relative_position(&self) -> (p: DomLocationPosition)
        ensures
            p == (if self.length == 0 {
                DomLocationPosition::Inside
            } else if self.start_offset == self.length {
                DomLocationPosition::Before
            } else if self.end_offset == 0 {
                DomLocationPosition::After
            } else {
                DomLocationPosition::Inside
            }),
    {
        if self.length == 0 {
            DomLocationPosition::Inside
        } else if self.start_offset == self.length {
            DomLocationPosition::Before
        } else if self.end_offset == 0 {
            DomLocationPosition::After
        } else {
            DomLocationPosition::Inside
        }
    }

    /// Where the range starts in the whole document.
    pub fn index_in_dom(&self) -> (i: usize)
        requires
            self.position + self.start_offset <= usize::MAX,
        ensures
            i == self.position + self.start_offset,
    {
        self.position + self.start_offset
    }

    /// A copy of this location with the start and end offsets swapped.
    pub fn reversed(&self) -> (l: Self)
        ensures
            l.node_handle@ == self.node_handle@,
            l.position == self.position,
            l.start_offset == self.end_offset,
            l.end_offset == self.start_offset,
            l.length == self.length,
            l.kind == self.kind,
    {
        Self {
            node_handle: self.node_handle.clone(),
            position: self.position,
            start_offset: self.end_offset,
            end_offset: self.start_offset,
            length: self.length,
            kind: self.kind,
        }
    }

    /// True when the range starts at this location: its larger offset is the
    /// end of the node.
    pub fn is_start(&self) -> (b: bool)
        ensures
            b == loc_is_start(*self),
    {
        let end_offset = if self.start_offset < self.end_offset {
            self.end_offset
        } else {
            self.start_offset
        };
        end_offset == self.length
    }

    /// True when the range ends at this location: its smaller offset is the
    /// start of the node.
    pub fn is_end(&self) -> (b: bool)
        ensures
            b == loc_is_end(*self),
    {
        let start_offset = if self.start_offset < self.end_offset {
            self.start_offset
        } else {
            self.end_offset
        };
        start_offset == 0
    }

    /// True when the range starts after the start of this node.
    pub fn starts_inside(&self) -> (b: bool)
        ensures
            b == (self.start_offset > 0),
    {
        self.start_offset > 0
    }

    /// True when the range ends before the end of this node.
    pub fn ends_inside(&self) -> (b: bool)
        ensures
            b == (self.end_offset < self.length),
    {
        self.end_offset < self.length
    }

    /// True when the range covers this whole node.
    pub fn is_covered(&self) -> (b: bool)
        ensures
            b == (loc_is_start(*self) && loc_is_end(*self)),
    {
        self.is_start() && self.is_end()
    }

    /// True when this is a list item and `position` is at its start or end.
    pub fn position_is_end_of_list_item(&self, position: usize) -> (b: bool)
        ensures
            b == (self.kind is ListItem && (position == self.position || position
                == self.position + self.length)),
    {
        let is_list_item = match self.kind {
            DomNodeKind::ListItem => true,
            _ => false,
        };
        let location_start = self.position;
        let at_end = if self.length <= usize::MAX - self.position {
            position == self.position + self.length
        } else {
            false
        };
        is_list_item && (position == location_start || at_end)
    }
}

impl Clone for DomLocation {
    fn clone(&self) -> (l: Self)
        ensures
            l.node_handle@ == self.node_handle@,
            l.position == self.position,
            l.start_offset == self.start_offset,
            l.end_offset == self.end_offset,
            l.length == self.length,
            l.kind == self.kind,
    {
        Self {
            node_handle: self.node_handle.clone(),
            position: self.position,
            start_offset: self.start_offset,
            end_offset: self.end_offset,
            length: self.length,
            kind: self.kind,
        }
    }
}

/// Two locations hold the same values.
pub open spec fn same_loc(a: DomLocation, b: DomLocation) -> bool {
    &&& a.node_handle@ == b.node_handle@
    &&& a.position == b.position
    &&& a.start_offset == b.start_offset
    &&& a.end_offset == b.end_offset
    &&& a.length == b.length
    &&& a.kind == b.kind
}

/// Two lists of locations hold the same values, in order.
pub open spec fn same_locs(a: Seq<DomLocation>, b: Seq<DomLocation>) -> bool {
    &&& a.len() == b.len()
    &&& forall|i: int| 0 <= i < a.len() ==> #[trigger] same_loc(a[i], b[i])
}

/// The offsets of a location can be added to its position.
pub open spec fn loc_fits(l: DomLocation) -> bool {
    &&& l.position + l.start_offset <= usize::MAX
    &&& l.position + l.end_offset <= usize::MAX
}

/// The index of the first leaf location at or after `i`, if there is one.
pub open spec fn first_leaf_from(s: Seq<DomLocation>, i: int) -> Option<int>
    decreases s.len() - i,
{
    if i < 0 || i >= s.len() {
        None
    } else if loc_is_leaf(s[i]) {
        Some(i)
    } else {
        first_leaf_from(s, i + 1)
    }
}

/// The index of the last leaf location before `k`, if there is one.
pub open spec fn last_leaf_before(s: Seq<DomLocation>, k: int) -> Option<int>
    decreases k,
{
    if k <= 0 || k > s.len() {
        None
    } else if loc_is_leaf(s[k - 1]) {
        Some(k - 1)
    } else {
        last_leaf_before(s, k - 1)
    }
}

/// Where a range of locations starts: at its first leaf, or 0.
pub open spec fn range_start(s: Seq<DomLocation>) -> int {
    match first_leaf_from(s, 0) {
        Some(i) => s[i].position + s[i].start_offset,
        None => 0,
    }
}

/// Where a range of locations ends: at its last leaf, or 0.
pub open spec fn range_end(s: Seq<DomLocation>) -> int {
    match last_leaf_before(s, s.len() as int) {
        Some(i) => s[i].position + s[i].end_offset,
        None => 0,
    }
}

/// `d` is the smallest depth of a location that is not the document node.
pub open spec fn is_top_level_depth(s: Seq<DomLocation>, d: int) -> bool {
    &&& exists|i: int|
        0 <= i < s.len() && (#[trigger] s[i]).node_handle.path().len() > 0
            && s[i].node_handle.path().len() == d
    &&& forall|i: int|
        0 <= i < s.len() && (#[trigger] s[i]).node_handle.path().len() > 0 ==> d
            <= s[i].node_handle.path().len()
}

/// Handle paths in the order that handles are compared in: element by
/// element, a path coming before the longer paths it starts.
pub open spec fn path_lt(a: Seq<usize>, b: Seq<usize>) -> bool
    decreases a.len(),
{
    if b.len() == 0 {
        false
    } else if a.len() == 0 {
        true
    } else if a[0] != b[0] {
        a[0] < b[0]
    } else {
        path_lt(a.skip(1), b.skip(1))
    }
}

/// The smallest handle path of the leaf locations among the first `k`.
pub open spec fn leaf_min(s: Seq<DomLocation>, k: int) -> Option<Seq<usize>>
    decreases k,
{
    if k <= 0 || k > s.len() {
        None
    } else {
        let prev = leaf_min(s, k - 1);
        let l = s[k - 1];
        if !loc_is_leaf(l) {
            prev
        } else {
            match prev {
                None => Some(l.node_handle.path()),
                Some(p) => if path_lt(l.node_handle.path(), p) {
                    Some(l.node_handle.path())
                } else {
                    Some(p)
                },
            }
        }
    }
}

/// The largest handle path of the leaf locations among the first `k`.
pub open spec fn leaf_max(s: Seq<DomLocation>, k: int) -> Option<Seq<usize>>
    decreases k,
{
    if k <= 0 || k > s.len() {
        None
    } else {
        let prev = leaf_max(s, k - 1);
        let l = s[k - 1];
        if !loc_is_leaf(l) {
            prev
        } else {
            match prev {
                None => Some(l.node_handle.path()),
                Some(p) => if path_lt(l.node_handle.path(), p) {
                    Some(p)
                } else {
                    Some(l.node_handle.path())
                },
            }
        }
    }
}

/// The index of the first location from `i` on whose handle is `p`.
pub open spec fn first_loc_index(s: Seq<DomLocation>, p: Seq<usize>, i: int) -> Option<int>
    decreases s.len() - i,
{
    if i < 0 || i >= s.len() {
        None
    } else if s[i].node_handle@ == Some(p) {
        Some(i)
    } else {
        first_loc_index(s, p, i + 1)
    }
}

/// The first location for `p` is covered by the range.
pub open spec fn covered_at(s: Seq<DomLocation>, p: Seq<usize>) -> bool {
    match first_loc_index(s, p, 0) {
        Some(i) => loc_is_start(s[i]) && loc_is_end(s[i]),
        None => false,
    }
}

/// How long the shared path is: the paths `lo` and `hi` agree up to it, it
/// is below `cap`, and, unless covered nodes are allowed, it stops before the
/// first node that the range covers.
pub open spec fn shared_len(s: Seq<DomLocation>, lo: Seq<usize>, hi: Seq<usize>, k: int, cap: int, allow: bool) -> int
    decreases cap - k,
{
    if k >= cap {
        cap
    } else if lo[k] != hi[k] {
        k
    } else if !allow && covered_at(s, lo.take(k + 1)) {
        k
    } else {
        shared_len(s, lo, hi, k + 1, cap, allow)
    }
}

/// The handle of the deepest node that holds every leaf of the range;
/// unless covered nodes are allowed, one that the range does not cover.
pub open spec fn shared_parent_path(s: Seq<DomLocation>, allow: bool) -> Seq<usize> {
    let lo = leaf_min(s, s.len() as int).unwrap();
    let hi = leaf_max(s, s.len() as int).unwrap();
    let cap = if lo.len() < hi.len() { lo.len() - 1 } else { hi.len() - 1 };
    lo.take(shared_len(s, lo, hi, 0, cap, allow))
}

/// The range's locations have set handles, a leaf is among them, no leaf is
/// the document, and every node above a leaf has a location.
pub open spec fn shared_parent_ready(s: Seq<DomLocation>) -> bool {
    &&& forall|i: int| 0 <= i < s.len() ==> (#[trigger] s[i]).node_handle@ is Some
    &&& exists|i: int| 0 <= i < s.len() && loc_is_leaf(#[trigger] s[i])
    &&& forall|i: int| 0 <= i < s.len() && loc_is_leaf(#[trigger] s[i]) ==> s[i].node_handle.path().len() > 0
    &&& forall|i: int, j: int|
        0 <= i < s.len() && loc_is_leaf(#[trigger] s[i]) && 0 < j < s[i].node_handle.path().len() ==> first_loc_index(
            s,
            #[trigger] s[i].node_handle.path().take(j),
            0,
        ) is Some
}

/// A set of nodes, with where a selection starts and ends inside each.
#[derive(Debug, PartialEq, Eq)]
pub struct Range {
    pub locations: Vec<DomLocation>,
}

impl Range {
    /// Every location's offsets can be added to its position.
    pub open spec fn fits(&self) -> bool {
        forall|i: int| 0 <= i < self.locations@.len() ==> #[trigger] loc_fits(self.locations@[i])
    }

    /// A range holding copies of the given locations.
    pub fn new(locations: &Vec<DomLocation>) -> (r: Self)
        ensures
            same_locs(r.locations@, locations@),
    {
        Range { locations: clone_locations(locations) }
    }

    /// Where this range starts: at its first leaf location, or 0 if it has
    /// none.
    pub fn start(&self) -> (s: usize)
        requires
            self.fits(),
        ensures
            s == range_start(self.locations@),
    {
        let mut i: usize = 0;
        while i < self.locations.len()
            invariant
                i <= self.locations@.len(),
                self.fits(),
                first_leaf_from(self.locations@, 0) == first_leaf_from(self.locations@, i as int),
            decreases self.locations@.len() - i,
        {
            let loc = &self.locations[i];
            if loc.is_leaf() {
                assert(loc_fits(self.locations@[i as int]));
                return loc.position + loc.start_offset;
            }
            i += 1;
        }
        0
    }

    /// Where this range ends: at its last leaf location, or 0 if it has none.
    pub fn end(&self) -> (e: usize)
        requires
            self.fits(),
        ensures
            e == range_end(self.locations@),
    {
        let mut k: usize = self.locations.len();
        while k > 0
            invariant
                k <= self.locations@.len(),
                self.fits(),
                last_leaf_before(self.locations@, self.locations@.len() as int)
                    == last_leaf_before(self.locations@, k as int),
            decreases k,
        {
            let loc = &self.locations[k - 1];
            if loc.is_leaf() {
                assert(loc_fits(self.locations@[k - 1]));
                return loc.position + loc.end_offset;
            }
            k -= 1;
        }
        0
    }

    /// Copies of the leaf locations, in order.
    pub fn leaves(&self) -> (l: Vec<DomLocation>)
        ensures
            same_locs(l@, self.locations@.filter(|x: DomLocation| loc_is_leaf(x))),
    {
        let mut out: Vec<DomLocation> = Vec::new();
        let mut i: usize = 0;
        while i < self.locations.len()
            invariant
                i <= self.locations@.len(),
                same_locs(
                    out@,
                    self.locations@.subrange(0, i as int).filter(|x: DomLocation| loc_is_leaf(x)),
                ),
            decreases self.locations@.len() - i,
        {
            let ghost pre = self.locations@.subrange(0, i as int);
            let ghost post = self.locations@.subrange(0, i + 1);
            assert(post.drop_last() =~= pre);
            reveal_with_fuel(Seq::filter, 1);
            if self.locations[i].is_leaf() {
                out.push(self.locations[i].clone());
            }
            i += 1;
        }
        assert(self.locations@.subrange(0, i as int) =~= self.locations@);
        out
    }

    /// The smallest depth of a location that is not the document node.
    pub fn top_level_depth(&self) -> (d: usize)
        requires
            forall|i: int| 0 <= i < self.locations@.len() ==> (#[trigger] self.locations@[i]).node_handle@ is Some,
            exists|i: int| 0 <= i < self.locations@.len() && (#[trigger] self.locations@[i]).node_handle.path().len() > 0,
        ensures
            is_top_level_depth(self.locations@, d as int),
    {
        let mut best: Option<usize> = None;
        let mut i: usize = 0;
        while i < self.locations.len()
            invariant
                i <= self.locations@.len(),
                forall|j: int| 0 <= j < self.locations@.len() ==> (#[trigger] self.locations@[j]).node_handle@ is Some,
                match best {
                    Some(b) => (exists|j: int|
                        0 <= j < i && (#[trigger] self.locations@[j]).node_handle.path().len() > 0
                            && self.locations@[j].node_handle.path().len() == b) && (forall|j: int|
                        0 <= j < i && (#[trigger] self.locations@[j]).node_handle.path().len() > 0
                            ==> b <= self.locations@[j].node_handle.path().len()),
                    None => forall|j: int|
                        0 <= j < i ==> (#[trigger] self.locations@[j]).node_handle.path().len() == 0,
                },
            decreases self.locations@.len() - i,
        {
            assert(self.locations@[i as int].node_handle@ is Some);
            if !self.locations[i].node_handle.is_root() {
                let d = self.locations[i].node_handle.depth();
                match best {
                    Some(b) => {
                        if d < b {
                            best = Some(d);
                        }
                    },
                    None => {
                        best = Some(d);
                    },
                }
            }
            i += 1;
        }
        match best {
            Some(b) => b,
            None => {
                assert(false);
                0
            },
        }
    }

    /// Copies of the locations at the top-level depth.
    pub fn top_level_locations(&self) -> (l: Vec<DomLocation>)
        requires
            forall|i: int| 0 <= i < self.locations@.len() ==> (#[trigger] self.locations@[i]).node_handle@ is Some,
            exists|i: int| 0 <= i < self.locations@.len() && (#[trigger] self.locations@[i]).node_handle.path().len() > 0,
        ensures
            exists|d: int|
                #[trigger] is_top_level_depth(self.locations@, d) && same_locs(
                    l@,
                    self.locations@.filter(|x: DomLocation| x.node_handle@.unwrap().len() == d),
                ),
    {
        let d = self.top_level_depth();
        self.locations_at_depth(d)
    }

    /// The smallest and the largest handle paths of the leaf locations.
    fn leaf_extremes(&self) -> (r: (&Vec<usize>, &Vec<usize>))
        requires
            forall|i: int| 0 <= i < self.locations@.len() ==> (#[trigger] self.locations@[i]).node_handle@ is Some,
            exists|i: int| 0 <= i < self.locations@.len() && loc_is_leaf(#[trigger] self.locations@[i]),
        ensures
            leaf_min(self.locations@, self.locations@.len() as int) == Some(r.0@),
            leaf_max(self.locations@, self.locations@.len() as int) == Some(r.1@),
    {
        let mut lo: Option<&Vec<usize>> = None;
        let mut hi: Option<&Vec<usize>> = None;
        let mut i: usize = 0;
        while i < self.locations.len()
            invariant
                i <= self.locations@.len(),
                forall|j: int| 0 <= j < self.locations@.len() ==> (#[trigger] self.locations@[j]).node_handle@ is Some,
                match lo {
                    Some(p) => leaf_min(self.locations@, i as int) == Some(p@),
                    None => leaf_min(self.locations@, i as int) is None,
                },
                match hi {
                    Some(p) => leaf_max(self.locations@, i as int) == Some(p@),
                    None => leaf_max(self.locations@, i as int) is None,
                },
            decreases self.locations@.len() - i,
        {
            proof {
                lemma_leaf_min_is_leaf(self.locations@, i as int);
            }
            let l = &self.locations[i];
            if l.is_leaf() {
                assert(l.node_handle@ is Some);
                let p = l.node_handle.raw();
                match lo {
                    None => {
                        lo = Some(p);
                    },
                    Some(m) => {
                        if path_less(p, m) {
                            lo = Some(p);
                        }
                    },
                }
                match hi {
                    None => {
                        hi = Some(p);
                    },
                    Some(m) => {
                        if !path_less(p, m) {
                            hi = Some(p);
                        }
                    },
                }
            }
            i += 1;
        }
        proof {
            lemma_leaf_min_is_leaf(self.locations@, self.locations@.len() as int);
        }
        match (lo, hi) {
            (Some(a), Some(b)) => (a, b),
            _ => {
                assert(false);
                (self.locations[0].node_handle.raw(), self.locations[0].node_handle.raw())
            },
        }
    }

    /// The handle of the deepest node that holds every leaf of the range;
    /// unless `allow_covered_nodes`, one that the range does not cover.
    fn find_shared_parent(&self, allow_covered_nodes: bool) -> (h: DomHandle)
        requires
            shared_parent_ready(self.locations@),
        ensures
            h@ == Some(shared_parent_path(self.locations@, allow_covered_nodes)),
    {
        let ghost s = self.locations@;
        let (lo, hi) = self.leaf_extremes();
        proof {
            lemma_leaf_min_is_leaf(s, s.len() as int);
        }
        let cap = if lo.len() < hi.len() {
            lo.len() - 1
        } else {
            hi.len() - 1
        };
        let mut shared: Vec<usize> = Vec::new();
        let mut i: usize = 0;
        assert(lo@.take(0) =~= Seq::<usize>::empty());
        while i < cap
            invariant
                shared_parent_ready(s),
                s == self.locations@,
                leaf_min(s, s.len() as int) == Some(lo@),
                leaf_max(s, s.len() as int) == Some(hi@),
                cap < lo@.len(),
                cap < hi@.len(),
                cap == (if lo@.len() < hi@.len() { lo@.len() - 1 } else { hi@.len() - 1 }),
                i <= cap,
                shared@ == lo@.take(i as int),
                shared_len(s, lo@, hi@, 0, cap as int, allow_covered_nodes) == shared_len(s, lo@, hi@, i as int, cap as int, allow_covered_nodes),
            decreases cap - i,
        {
            if lo[i] != hi[i] {
                return DomHandle::from_raw(shared);
            }
            shared.push(lo[i]);
            assert(shared@ =~= lo@.take(i + 1));
            if !allow_covered_nodes {
                let ghost p = lo@.take(i + 1);
                proof {
                    lemma_leaf_min_is_leaf(s, s.len() as int);
                    let w = choose|w: int| 0 <= w < s.len() && loc_is_leaf(#[trigger] s[w]) && s[w].node_handle.path() == lo@;
                    assert(first_loc_index(s, s[w].node_handle.path().take(i + 1), 0) is Some);
                }
                let probe = DomHandle::from_raw(copy_path(&shared));
                match self.find_location(&probe) {
                    Some(location) => {
                        proof {
                            let j = choose|j: int|
                                0 <= j < s.len() && s[j] == *location && location.node_handle@ == probe@
                                    && forall|m: int| 0 <= m < j ==> #[trigger] s[m].node_handle@ != probe@;
                            lemma_first_loc(s, p, 0, j);
                        }
                        if location.is_covered() {
                            shared.pop();
                            assert(shared@ =~= lo@.take(i as int));
                            return DomHandle::from_raw(shared);
                        }
                    },
                    None => {
                        proof {
                            lemma_first_loc_none(s, p, 0);
                        }
                        assert(false);
                    },
                }
            }
            i += 1;
        }
        DomHandle::from_raw(shared)
    }

    /// The handle of the deepest node that holds every leaf of the range and
    /// that the range does not cover.
    pub fn shared_parent_outside(&self) -> (h: DomHandle)
        requires
            shared_parent_ready(self.locations@),
        ensures
            h@ == Some(shared_parent_path(self.locations@, false)),
    {
        self.find_shared_parent(false)
    }

    /// The handle of the deepest node that holds every leaf of the range; it
    /// may be covered by the range.
    pub fn shared_parent(&self) -> (h: DomHandle)
        requires
            shared_parent_ready(self.locations@),
        ensures
            h@ == Some(shared_parent_path(self.locations@, true)),
    {
        self.find_shared_parent(true)
    }

    /// True when this range is a cursor: it starts where it ends.
    pub fn is_cursor(&self) -> (b: bool)
        requires
            self.fits(),
        ensures
            b == (range_start(self.locations@) == range_end(self.locations@)),
    {
        self.start() == self.end()
    }

    /// True when this range is a selection: it starts before or after where
    /// it ends.
    pub fn is_selection(&self) -> (b: bool)
        requires
            self.fits(),
        ensures
            b == (range_start(self.locations@) != range_end(self.locations@)),
    {
        self.start() != self.end()
    }

    /// True when this range holds no location.
    pub fn is_empty(&self) -> (b: bool)
        ensures
            b == (self.locations@.len() == 0),
    {
        self.locations.len() == 0
    }

    /// True when some location is for the given handle.
    pub fn contains(&self, handle: &DomHandle) -> (b: bool)
        ensures
            b == (exists|i: int|
                0 <= i < self.locations@.len() && #[trigger] self.locations@[i].node_handle@
                    == handle@),
    {
        let mut i: usize = 0;
        while i < self.locations.len()
            invariant
                i <= self.locations@.len(),
                forall|j: int| 0 <= j < i ==> #[trigger] self.locations@[j].node_handle@ != handle@,
            decreases self.locations@.len() - i,
        {
            if self.locations[i].node_handle.same_as(handle) {
                return true;
            }
            i += 1;
        }
        false
    }

    /// The first location for the given handle, if there is one.
    pub fn find_location(&self, node_handle: &DomHandle) -> (l: Option<&DomLocation>)
        ensures
            match l {
                Some(x) => exists|i: int|
                    0 <= i < self.locations@.len() && self.locations@[i] == *x
                        && x.node_handle@ == node_handle@ && forall|j: int|
                        0 <= j < i ==> #[trigger] self.locations@[j].node_handle@
                            != node_handle@,
                None => forall|j: int|
                    0 <= j < self.locations@.len() ==> #[trigger] self.locations@[j].node_handle@
                        != node_handle@,
            },
    {
        let mut i: usize = 0;
        while i < self.locations.len()
            invariant
                i <= self.locations@.len(),
                forall|j: int| 0 <= j < i ==> #[trigger] self.locations@[j].node_handle@ != node_handle@,
            decreases self.locations@.len() - i,
        {
            if self.locations[i].node_handle.same_as(node_handle) {
                return Some(&self.locations[i]);
            }
            i += 1;
        }
        None
    }

    /// The handles of the locations, in order.
    pub fn node_handles(&self) -> (h: Vec<DomHandle>)
        ensures
            h@.len() == self.locations@.len(),
            forall|i: int| 0 <= i < h@.len() ==> #[trigger] h@[i]@ == self.locations@[i].node_handle@,
    {
        let mut out: Vec<DomHandle> = Vec::new();
        let mut i: usize = 0;
        while i < self.locations.len()
            invariant
                i <= self.locations@.len(),
                out@.len() == i,
                forall|j: int| 0 <= j < i ==> #[trigger] out@[j]@ == self.locations@[j].node_handle@,
            decreases self.locations@.len() - i,
        {
            out.push(self.locations[i].node_handle.clone());
            i += 1;
        }
        out
    }

    /// Copies of the locations whose handle is at the given depth.
    pub fn locations_at_depth(&self, depth: usize) -> (l: Vec<DomLocation>)
        requires
            forall|i: int| 0 <= i < self.locations@.len() ==> (#[trigger] self.locations@[i]).node_handle@ is Some,
        ensures
            same_locs(
                l@,
                self.locations@.filter(|x: DomLocation| x.node_handle@.unwrap().len() == depth),
            ),
    {
        let mut out: Vec<DomLocation> = Vec::new();
        let mut i: usize = 0;
        while i < self.locations.len()
            invariant
                i <= self.locations@.len(),
                forall|j: int| 0 <= j < self.locations@.len() ==> (#[trigger] self.locations@[j]).node_handle@ is Some,
                same_locs(
                    out@,
                    self.locations@.subrange(0, i as int).filter(
                        |x: DomLocation| x.node_handle@.unwrap().len() == depth,
                    ),
                ),
            decreases self.locations@.len() - i,
        {
            let ghost pre = self.locations@.subrange(0, i as int);
            let ghost post = self.locations@.subrange(0, i + 1);
            assert(post.drop_last() =~= pre);
            reveal_with_fuel(Seq::filter, 1);
            assert(self.locations@[i as int].node_handle@ is Some);
            if self.locations[i].node_handle.depth() == depth {
                out.push(self.locations[i].clone());
            }
            i += 1;
        }
        assert(self.locations@.subrange(0, i as int) =~= self.locations@);
        out
    }

    /// Copies of the locations whose handle is deeper than the given depth.
    pub fn locations_from_depth(&self, depth: usize) -> (l: Vec<DomLocation>)
        requires
            forall|i: int| 0 <= i < self.locations@.len() ==> (#[trigger] self.locations@[i]).node_handle@ is Some,
        ensures
            same_locs(
                l@,
                self.locations@.filter(|x: DomLocation| x.node_handle@.unwrap().len() > depth),
            ),
    {
        let mut out: Vec<DomLocation> = Vec::new();
        let mut i: usize = 0;
        while i < self.locations.len()
            invariant
                i <= self.locations@.len(),
                forall|j: int| 0 <= j < self.locations@.len() ==> (#[trigger] self.locations@[j]).node_handle@ is Some,
                same_locs(
                    out@,
                    self.locations@.subrange(0, i as int).filter(
                        |x: DomLocation| x.node_handle@.unwrap().len() > depth,
                    ),
                ),
            decreases self.locations@.len() - i,
        {
            let ghost pre = self.locations@.subrange(0, i as int);
            let ghost post = self.locations@.subrange(0, i + 1);
            assert(post.drop_last() =~= pre);
            reveal_with_fuel(Seq::filter, 1);
            assert(self.locations@[i as int].node_handle@ is Some);
            if self.locations[i].node_handle.depth() > depth {
                out.push(self.locations[i].clone());
            }
            i += 1;
        }
        assert(self.locations@.subrange(0, i as int) =~= self.locations@);
        out
    }
}

/// True when path `a` comes before path `b`.
pub fn path_less(a: &Vec<usize>, b: &Vec<usize>) -> (r: bool)
    ensures
        r == path_lt(a@, b@),
{
    let mut i: usize = 0;
    assert(a@.skip(0) =~= a@);
    assert(b@.skip(0) =~= b@);
    loop
        invariant
            i <= a@.len(),
            i <= b@.len(),
            path_lt(a@, b@) == path_lt(a@.skip(i as int), b@.skip(i as int)),
        decreases a@.len() - i,
    {
        if i >= b.len() {
            return false;
        }
        if i >= a.len() {
            return true;
        }
        if a[i] != b[i] {
            return a[i] < b[i];
        }
        assert(a@.skip(i as int).skip(1) =~= a@.skip(i + 1));
        assert(b@.skip(i as int).skip(1) =~= b@.skip(i + 1));
        i += 1;
    }
}

/// A copy of a path.
fn copy_path(v: &Vec<usize>) -> (r: Vec<usize>)
    ensures
        r@ == v@,
{
    let mut r: Vec<usize> = Vec::new();
    let mut i: usize = 0;
    while i < v.len()
        invariant
            i <= v@.len(),
            r@ == v@.take(i as int),
        decreases v@.len() - i,
    {
        r.push(v[i]);
        i += 1;
        assert(r@ =~= v@.take(i as int));
    }
    assert(v@.take(i as int) =~= v@);
    r
}

proof fn lemma_leaf_min_is_leaf(s: Seq<DomLocation>, k: int)
    requires
        0 <= k <= s.len(),
    ensures
        (exists|i: int| 0 <= i < k && loc_is_leaf(#[trigger] s[i])) ==> leaf_min(s, k) is Some,
        leaf_min(s, k) matches Some(p) ==> exists|i: int| 0 <= i < k && loc_is_leaf(#[trigger] s[i]) && s[i].node_handle.path() == p,
        leaf_max(s, k) is Some == leaf_min(s, k) is Some,
        leaf_max(s, k) matches Some(p) ==> exists|i: int| 0 <= i < k && loc_is_leaf(#[trigger] s[i]) && s[i].node_handle.path() == p,
    decreases k,
{
    if k > 0 {
        lemma_leaf_min_is_leaf(s, k - 1);
        if exists|i: int| 0 <= i < k && loc_is_leaf(#[trigger] s[i]) {
            if !loc_is_leaf(s[k - 1]) {
                let w = choose|i: int| 0 <= i < k && loc_is_leaf(#[trigger] s[i]);
                assert(0 <= w < k - 1);
            }
        }
    }
}

proof fn lemma_first_loc(s: Seq<DomLocation>, p: Seq<usize>, k: int, i: int)
    requires
        0 <= k <= i < s.len(),
        s[i].node_handle@ == Some(p),
        forall|j: int| 0 <= j < i ==> #[trigger] s[j].node_handle@ != Some(p),
    ensures
        first_loc_index(s, p, k) == Some(i),
    decreases i - k,
{
    if k < i {
        lemma_first_loc(s, p, k + 1, i);
    }
}

proof fn lemma_first_loc_none(s: Seq<DomLocation>, p: Seq<usize>, k: int)
    requires
        0 <= k,
        forall|j: int| 0 <= j < s.len() ==> #[trigger] s[j].node_handle@ != Some(p),
    ensures
        first_loc_index(s, p, k) is None,
    decreases s.len() - k,
{
    if k < s.len() {
        lemma_first_loc_none(s, p, k + 1);
    }
}

/// Copies of a list of locations.
pub fn clone_locations(v: &Vec<DomLocation>) -> (r: Vec<DomLocation>)
    ensures
        same_locs(r@, v@),
{
    let mut out: Vec<DomLocation> = Vec::new();
    let mut i: usize = 0;
    while i < v.len()
        invariant
            i <= v@.len(),
            out@.len() == i,
            forall|j: int| 0 <= j < i ==> #[trigger] same_loc(out@[j], v@[j]),
        decreases v@.len() - i,
    {
        out.push(v[i].clone());
        i += 1;
    }
    out
}

/// The order of handles: an unset handle first, then set ones by path.
pub open spec fn handle_lt(a: Option<Seq<usize>>, b: Option<Seq<usize>>) -> bool {
    match (a, b) {
        (None, Some(_)) => true,
        (Some(x), Some(y)) => path_lt(x, y),
        _ => false,
    }
}

/// Paths with the same first index and the same rest are the same.
proof fn lemma_path_same(a: Seq<usize>, b: Seq<usize>)
    requires
        a.len() > 0,
        b.len() > 0,
        a[0] == b[0],
        a.skip(1) == b.skip(1),
    ensures
        a == b,
{
    assert(a.skip(1).len() == a.len() - 1);
    assert(b.skip(1).len() == b.len() - 1);
    assert(a.len() == b.len());
    assert forall|i: int| 0 <= i < a.len() implies a[i] == b[i] by {
        if i > 0 {
            assert(a[i] == a.skip(1)[i - 1]);
            assert(b[i] == b.skip(1)[i - 1]);
        }
    }
    assert(a =~= b);
}

/// The order of paths is strict, total and transitive.
pub proof fn lemma_path_order(a: Seq<usize>, b: Seq<usize>, c: Seq<usize>)
    ensures
        !path_lt(a, a),
        a != b ==> path_lt(a, b) || path_lt(b, a),
        path_lt(a, b) ==> !path_lt(b, a),
        path_lt(a, b) && path_lt(b, c) ==> path_lt(a, c),
    decreases a.len(),
{
    if a.len() > 0 {
        if b.len() > 0 && c.len() > 0 {
            lemma_path_order(a.skip(1), b.skip(1), c.skip(1));
        } else if b.len() > 0 {
            lemma_path_order(a.skip(1), b.skip(1), b.skip(1));
        } else {
            lemma_path_order(a.skip(1), a.skip(1), a.skip(1));
        }
        if b.len() > 0 && a[0] == b[0] && a.skip(1) == b.skip(1) {
            lemma_path_same(a, b);
        }
    } else if b.len() == 0 {
        assert(a =~= b);
    }
}

/// The order of handles is strict, total and transitive.
pub proof fn lemma_handle_order(a: Option<Seq<usize>>, b: Option<Seq<usize>>, c: Option<Seq<usize>>)
    ensures
        !handle_lt(a, a),
        a != b ==> handle_lt(a, b) || handle_lt(b, a),
        handle_lt(a, b) ==> !handle_lt(b, a),
        handle_lt(a, b) && handle_lt(b, c) ==> handle_lt(a, c),
{
    match (a, b, c) {
        (Some(x), Some(y), Some(z)) => lemma_path_order(x, y, z),
        (Some(x), Some(y), None) => lemma_path_order(x, y, y),
        (Some(x), None, Some(z)) => lemma_path_order(x, z, z),
        (None, Some(y), Some(z)) => lemma_path_order(y, z, z),
        (Some(x), None, None) => lemma_path_order(x, x, x),
        (None, Some(y), None) => lemma_path_order(y, y, y),
        (None, None, Some(z)) => lemma_path_order(z, z, z),
        _ => {},
    }
}

/// Compare two handles in the order of handles.
pub fn handle_less(a: &DomHandle, b: &DomHandle) -> (r: bool)
    ensures
        r == handle_lt(a@, b@),
{
    if !a.is_set() {
        return b.is_set();
    }
    if !b.is_set() {
        return false;
    }
    path_less(a.raw(), b.raw())
}

/// Position `i` holds, among the marked locations, the greatest one in the
/// order of handles, the last one among those as great.
pub open spec fn last_greatest(locs: Seq<DomLocation>, marks: Seq<bool>, i: int) -> bool {
    &&& 0 <= i < locs.len()
    &&& i < marks.len()
    &&& marks[i]
    &&& forall|j: int|
        0 <= j < i && j < marks.len() && #[trigger] marks[j] ==> !handle_lt(
            locs[i].node_handle@,
            locs[j].node_handle@,
        )
    &&& forall|j: int|
        i < j < locs.len() && j < marks.len() && #[trigger] marks[j] ==> handle_lt(
            locs[j].node_handle@,
            locs[i].node_handle@,
        )
}

/// The position of the last greatest marked location, if any is marked.
pub fn last_greatest_marked(locs: &Vec<DomLocation>, marks: &Vec<bool>) -> (r: Option<usize>)
    requires
        marks@.len() == locs@.len(),
    ensures
        r is None <==> forall|j: int| 0 <= j < marks@.len() ==> !#[trigger] marks@[j],
        r matches Some(i) ==> last_greatest(locs@, marks@, i as int),
{
    let mut best: Option<usize> = None;
    let mut i: usize = 0;
    while i < locs.len()
        invariant
            marks@.len() == locs@.len(),
            i <= locs@.len(),
            best is None <==> forall|j: int| 0 <= j < i ==> !#[trigger] marks@[j],
            best matches Some(b) ==> b < i && last_greatest(locs@.take(i as int), marks@.take(i as int), b as int),
        decreases locs@.len() - i,
    {
        let ghost li = locs@.take(i as int);
        let ghost mi = marks@.take(i as int);
        let ghost l1 = locs@.take(i + 1);
        let ghost m1 = marks@.take(i + 1);
        if marks[i] {
            match best {
                None => {
                    best = Some(i);
                },
                Some(b) => {
                    let take = !handle_less(&locs[i].node_handle, &locs[b].node_handle);
                    proof {
                        let hi = locs@[i as int].node_handle@;
                        let hb = locs@[b as int].node_handle@;
                        assert(li[b as int] == locs@[b as int]);
                        if take {
                            assert forall|j: int| 0 <= j < i && j < m1.len() && #[trigger] m1[j] implies !handle_lt(
                                l1[i as int].node_handle@,
                                l1[j].node_handle@,
                            ) by {
                                assert(mi[j] == m1[j]);
                                assert(li[j] == l1[j]);
                                let hj = l1[j].node_handle@;
                                lemma_handle_order(hi, hb, hj);
                                lemma_handle_order(hj, hb, hi);
                                lemma_handle_order(hi, hj, hb);
                                if j < b {
                                    assert(!handle_lt(hb, hj));
                                } else if j > b {
                                    assert(handle_lt(hj, hb));
                                }
                            }
                        } else {
                            assert forall|j: int| 0 <= j < b && j < m1.len() && #[trigger] m1[j] implies !handle_lt(
                                l1[b as int].node_handle@,
                                l1[j].node_handle@,
                            ) by {
                                assert(mi[j] == m1[j]);
                                assert(li[j] == l1[j]);
                            }
                            assert forall|j: int| b < j < l1.len() && j < m1.len() && #[trigger] m1[j] implies handle_lt(
                                l1[j].node_handle@,
                                l1[b as int].node_handle@,
                            ) by {
                                if j < i {
                                    assert(mi[j] == m1[j]);
                                    assert(li[j] == l1[j]);
                                }
                            }
                        }
                    }
                    if take {
                        best = Some(i);
                    }
                },
            }
        } else {
            proof {
                if best is Some {
                    let b = best.unwrap() as int;
                    assert forall|j: int| 0 <= j < b && j < m1.len() && #[trigger] m1[j] implies !handle_lt(
                        l1[b].node_handle@,
                        l1[j].node_handle@,
                    ) by {
                        assert(mi[j] == m1[j]);
                        assert(li[j] == l1[j]);
                    }
                    assert forall|j: int| b < j < l1.len() && j < m1.len() && #[trigger] m1[j] implies handle_lt(
                        l1[j].node_handle@,
                        l1[b].node_handle@,
                    ) by {
                        assert(mi[j] == m1[j]);
                        assert(li[j] == l1[j]);
                    }
                }
            }
        }
        proof {
            assert forall|j: int| 0 <= j < i + 1 implies #[trigger] marks@[j] == m1[j] by {}
        }
        i += 1;
    }
    proof {
        assert(locs@.take(locs@.len() as int) =~= locs@);
        assert(marks@.take(marks@.len() as int) =~= marks@);
    }
    best
}

/// The path of an optional handle.
pub open spec fn opt_path(h: Option<DomHandle>) -> Option<Seq<usize>> {
    match h {
        Some(x) => x@,
        None => None,
    }
}

/// A location that the search for the deepest block node keeps: a block or
/// structure node, an ancestor of the node `ancestor_of` names when there
/// is one.
pub open spec fn deep_block_candidate(l: DomLocation, ancestor_of: Option<Seq<usize>>) -> bool {
    &&& (ancestor_of matches Some(p) ==> l.node_handle@ matches Some(q) && is_prefix(q, p) && q != p)
    &&& (is_block_kind(l.kind) || l.kind is List || l.kind is ListItem)
}

impl Range {
    /// Among the block and structure locations, those of ancestors of the
    /// node `ancestor_of` names when it is given, the greatest in the order
    /// of handles (the last of those as great).
    pub fn deepest_block_node(&self, ancestor_of: Option<DomHandle>) -> (r: Option<&DomLocation>)
        requires
            ancestor_of matches Some(h) ==> h@ is Some && forall|i: int|
                0 <= i < self.locations@.len() ==> (#[trigger] self.locations@[i]).node_handle@ is Some,
        ensures
            r is None <==> forall|i: int|
                0 <= i < self.locations@.len() ==> !deep_block_candidate(
                    #[trigger] self.locations@[i],
                    opt_path(ancestor_of),
                ),
            r matches Some(l) ==> exists|i: int|
                #![trigger self.locations@[i]]
                {
                    &&& *l == self.locations@[i]
                    &&& last_greatest(
                        self.locations@,
                        self.locations@.map_values(
                            |x: DomLocation| deep_block_candidate(x, opt_path(ancestor_of)),
                        ),
                        i,
                    )
                },
    {
        let ghost anc = opt_path(ancestor_of);
        let mut marks: Vec<bool> = Vec::new();
        let mut i: usize = 0;
        while i < self.locations.len()
            invariant
                i <= self.locations@.len(),
                marks@.len() == i,
                anc == opt_path(ancestor_of),
                ancestor_of matches Some(h) ==> h@ is Some && forall|k: int|
                    0 <= k < self.locations@.len() ==> (#[trigger] self.locations@[k]).node_handle@ is Some,
                forall|j: int| 0 <= j < i ==> #[trigger] marks@[j] == deep_block_candidate(self.locations@[j], anc),
            decreases self.locations@.len() - i,
        {
            let l = &self.locations[i];
            let found = match &ancestor_of {
                Some(a) => l.node_handle.is_ancestor_of(a),
                None => true,
            };
            marks.push(found && (l.kind.is_block_kind() || l.kind.is_structure_kind()));
            i += 1;
        }
        let ghost ms = self.locations@.map_values(|x: DomLocation| deep_block_candidate(x, anc));
        proof {
            assert(marks@ =~= ms);
            assert forall|j: int| 0 <= j < ms.len() implies #[trigger] ms[j] == deep_block_candidate(
                self.locations@[j],
                anc,
            ) by {}
        }
        let best = last_greatest_marked(&self.locations, &marks);
        proof {
            if forall|j: int| 0 <= j < marks@.len() ==> !#[trigger] marks@[j] {
                assert forall|i: int| 0 <= i < self.locations@.len() implies !deep_block_candidate(
                    #[trigger] self.locations@[i],
                    anc,
                ) by {
                    assert(!marks@[i]);
                }
            }
            if forall|i: int| 0 <= i < self.locations@.len() ==> !deep_block_candidate(
                #[trigger] self.locations@[i],
                anc,
            ) {
                assert forall|j: int| 0 <= j < marks@.len() implies !#[trigger] marks@[j] by {
                    assert(!deep_block_candidate(self.locations@[j], anc));
                }
            }
        }
        match best {
            Some(k) => Some(&self.locations[k]),
            None => None,
        }
    }
}

} // verus!
