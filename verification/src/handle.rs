use vstd::prelude::*;

verus! {

/// True when `prefix` is a prefix of `path`.
pub open spec fn is_prefix(prefix: Seq<usize>, path: Seq<usize>) -> bool {
    prefix.len() <= path.len() && path.subrange(0, prefix.len() as int) == prefix
}

/// The location of a node in the tree, as the list of child indices that
/// lead to it from the document node, or nothing if it is not known yet.
#[derive(Debug)]
pub struct DomHandle {
    path: Option<Vec<usize>>,
}

impl View for DomHandle {
    type V = Option<Seq<usize>>;

    closed spec fn view(&self) -> Option<Seq<usize>> {
        match self.path {
            Some(v) => Some(v@),
            None => None,
        }
    }
}

/// A set handle's path is no longer than a `usize` counts.
pub proof fn lemma_path_len(h: DomHandle)
    requires
        h@ is Some,
    ensures
        h.path().len() <= usize::MAX,
{
    match h.path {
        Some(v) => {
            assert(v.len() == v@.len());
        },
        None => {},
    }
}

impl DomHandle {
    /// The path of a set handle.
    pub open spec fn path(&self) -> Seq<usize> {
        self@.unwrap()
    }

    /// Create a new handle for the root/document node.
    pub fn root() -> (h: Self)
        ensures
            h@ == Some(Seq::<usize>::empty()),
    {
        Self { path: Some(Vec::new()) }
    }

    /// Create a new handle with the provided path.
    pub fn from_raw(path: Vec<usize>) -> (h: Self)
        ensures
            h@ == Some(path@),
    {
        Self { path: Some(path) }
    }

    /// Create a new UNSET handle.
    pub fn new_unset() -> (h: Self)
        ensures
            h@ == None::<Seq<usize>>,
    {
        Self { path: None }
    }

    /// Returns true if this handle has been set to a value.
    pub fn is_set(&self) -> (b: bool)
        ensures
            b == self@.is_some(),
    {
        self.path.is_some()
    }

    /// Returns true if this handle refers to the root node.
    pub fn is_root(&self) -> (b: bool)
        requires
            self@.is_some(),
        ensures
            b == (self.path().len() == 0),
    {
        self.raw().len() == 0
    }

    /// Returns the depth of the handle.
    pub fn depth(&self) -> (d: usize)
        requires
            self@.is_some(),
        ensures
            d == self.path().len(),
    {
        self.raw().len()
    }

    /// Return the handle of this node's parent.
    pub fn parent_handle(&self) -> (h: DomHandle)
        requires
            self@.is_some(),
            self.path().len() > 0,
        ensures
            h@ == Some(self.path().drop_last()),
    {
        let mut new_path = self.raw().clone();
        assert(new_path@ == self.path());
        new_path.pop();
        DomHandle::from_raw(new_path)
    }

    /// Return a new handle for one of our children, with the supplied index.
    pub fn child_handle(&self, child_index: usize) -> (h: DomHandle)
        requires
            self@.is_some(),
        ensures
            h@ == Some(self.path().push(child_index)),
    {
        let mut new_path = self.raw().clone();
        assert(new_path@ == self.path());
        new_path.push(child_index);
        DomHandle::from_raw(new_path)
    }

    /// Returns a handle with the sub-path up to the passed depth.
    pub fn sub_handle_up_to(&self, depth: usize) -> (h: DomHandle)
        requires
            self@.is_some(),
            depth <= self.path().len(),
        ensures
            h@ == Some(self.path().subrange(0, depth as int)),
    {
        let path = self.raw();
        let mut new_path: Vec<usize> = Vec::new();
        let mut i: usize = 0;
        while i < depth
            invariant
                i <= depth,
                depth <= path@.len(),
                new_path@ == path@.subrange(0, i as int),
            decreases depth - i,
        {
            new_path.push(path[i]);
            i += 1;
            assert(new_path@ =~= path@.subrange(0, i as int));
        }
        DomHandle::from_raw(new_path)
    }

    /// Return true if this handle has a parent i.e. it is not the root.
    pub fn has_parent(&self) -> (b: bool)
        requires
            self@.is_some(),
        ensures
            b == (self.path().len() > 0),
    {
        self.raw().len() != 0
    }

    /// Return this handle's position within its parent.
    pub fn index_in_parent(&self) -> (i: usize)
        requires
            self@.is_some(),
            self.path().len() > 0,
        ensures
            i == self.path().last(),
    {
        let p = self.raw();
        p[p.len() - 1]
    }

    /// Return the underlying path used to represent this handle.
    pub fn raw(&self) -> (p: &Vec<usize>)
        requires
            self@.is_some(),
        ensures
            p@ == self.path(),
    {
        self.path.as_ref().unwrap()
    }

    /// Consume self and return the underlying path.
    pub fn into_raw(self) -> (p: Vec<usize>)
        requires
            self@.is_some(),
        ensures
            p@ == self.path(),
    {
        match self.path {
            Some(p) => p,
            None => Vec::new(),
        }
    }

    /// The handle of the next sibling (which may not exist in the Dom).
    pub fn next_sibling(&self) -> (h: Self)
        requires
            self@.is_some(),
            self.path().len() > 0,
            self.path().last() < usize::MAX,
        ensures
            h@ == Some(self.path().drop_last().push((self.path().last() + 1) as usize)),
    {
        let index_in_parent = self.index_in_parent();
        let mut path = self.parent_handle().into_raw();
        path.push(index_in_parent + 1);
        Self::from_raw(path)
    }

    /// The handle of the previous sibling.
    pub fn prev_sibling(&self) -> (h: Self)
        requires
            self@.is_some(),
            self.path().len() > 0,
            self.path().last() > 0,
        ensures
            h@ == Some(self.path().drop_last().push((self.path().last() - 1) as usize)),
    {
        let index_in_parent = self.index_in_parent();
        let mut path = self.parent_handle().into_raw();
        path.push(index_in_parent - 1);
        Self::from_raw(path)
    }

    /// Returns true if the passed handle is a strict descendant of this one.
    pub fn is_ancestor_of(&self, other: &DomHandle) -> (b: bool)
        requires
            self@.is_some(),
            other@.is_some(),
        ensures
            b == (is_prefix(self.path(), other.path()) && self.path() != other.path()),
    {
        let own = self.raw();
        let oth = other.raw();
        if own.len() >= oth.len() {
            proof {
                if is_prefix(own@, oth@) {
                    assert(own@.len() == oth@.len());
                    assert(oth@.subrange(0, oth@.len() as int) =~= oth@);
                }
            }
            return false;
        }
        let mut i: usize = 0;
        while i < own.len()
            invariant
                i <= own@.len(),
                own@.len() < oth@.len(),
                own@ == self.path(),
                oth@ == other.path(),
                forall|j: int| 0 <= j < i ==> own@[j] == oth@[j],
            decreases own@.len() - i,
        {
            if own[i] != oth[i] {
                proof {
                    assert(oth@.subrange(0, own@.len() as int)[i as int] != own@[i as int]);
                    assert(oth@.subrange(0, own@.len() as int) != own@);
                }
                return false;
            }
            i += 1;
        }
        assert(oth@.subrange(0, own@.len() as int) =~= own@);
        true
    }

    /// Returns true when both handles hold the same path, or are both unset.
    pub fn same_as(&self, other: &DomHandle) -> (b: bool)
        ensures
            b == (self@ == other@),
    {
        match (&self.path, &other.path) {
            (Some(a), Some(b)) => {
                if a.len() != b.len() {
                    assert(a@ != b@);
                    return false;
                }
                let mut i: usize = 0;
                while i < a.len()
                    invariant
                        i <= a@.len(),
                        a@.len() == b@.len(),
                        self@ == Some(a@),
                        other@ == Some(b@),
                        forall|j: int| 0 <= j < i ==> a@[j] == b@[j],
                    decreases a@.len() - i,
                {
                    if a[i] != b[i] {
                        assert(a@ != b@);
                        return false;
                    }
                    i += 1;
                }
                assert(a@ =~= b@);
                true
            },
            (None, None) => true,
            _ => false,
        }
    }

    /// Replaces the sub-path shared with `old` with the path of `new`.
    pub fn replace_ancestor(&mut self, old_ancestor: DomHandle, new_ancestor: DomHandle)
        requires
            old(self)@.is_some(),
            old_ancestor@.is_some(),
            new_ancestor@.is_some(),
            is_prefix(old_ancestor.path(), old(self).path()),
        ensures
            final(self)@ == Some(
                new_ancestor.path() + old(self).path().skip(old_ancestor.path().len() as int),
            ),
    {
        let old_len = old_ancestor.raw().len();
        let ghost np = new_ancestor.path();
        let mut new_path = new_ancestor.into_raw();
        let own = self.raw();
        let mut i = old_len;
        while i < own.len()
            invariant
                old_len <= i <= own@.len(),
                new_path@ == np + own@.subrange(old_len as int, i as int),
            decreases own@.len() - i,
        {
            new_path.push(own[i]);
            i += 1;
            assert(new_path@ =~= np + own@.subrange(old_len as int, i as int));
        }
        assert(own@.subrange(old_len as int, own@.len() as int) =~= own@.skip(old_len as int));
        self.path = Some(new_path);
    }
}

impl PartialEq for DomHandle {
    fn eq(&self, other: &Self) -> (b: bool) {
        self.same_as(other)
    }
}

impl vstd::std_specs::cmp::PartialEqSpecImpl for DomHandle {
    open spec fn obeys_eq_spec() -> bool {
        true
    }

    open spec fn eq_spec(&self, other: &Self) -> bool {
        self@ == other@
    }
}

impl Eq for DomHandle {
}

impl Clone for DomHandle {
    fn clone(&self) -> (h: Self)
        ensures
            h@ == self@,
    {
        match &self.path {
            Some(p) => {
                let c = p.clone();
                assert(c@ =~= p@);
                DomHandle { path: Some(c) }
            },
            None => DomHandle { path: None },
        }
    }
}

} // verus!
