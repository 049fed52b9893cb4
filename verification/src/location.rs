use vstd::prelude::*;

verus! {

/// A position in a document's text, in code units.
#[derive(Copy, Clone, Debug, PartialEq, Eq, Structural, PartialOrd, Ord)]
pub struct Location(pub usize);

impl Location {
    /// The position this location stands for.
    pub fn value(&self) -> (v: usize)
        ensures
            v == self.0,
    {
        self.0
    }

    /// Move the location by `rhs`, stopping at 0.
    pub fn add_assign(&mut self, rhs: isize)
        requires
            old(self).0 <= isize::MAX,
            old(self).0 + rhs <= isize::MAX,
        ensures
            final(self).0 == (if old(self).0 + rhs < 0 {
                0
            } else {
                old(self).0 + rhs
            }),
    {
        let i: isize = self.0 as isize;
        let j: isize = i + rhs;
        if j < 0 {
            self.0 = 0;
        } else {
            self.0 = j as usize;
        }
    }

    /// Move the location back by `rhs`, stopping at 0.
    pub fn sub_assign(&mut self, rhs: isize)
        requires
            rhs > isize::MIN,
            old(self).0 <= isize::MAX,
            old(self).0 - rhs <= isize::MAX,
        ensures
            final(self).0 == (if old(self).0 - rhs < 0 {
                0
            } else {
                old(self).0 - rhs
            }),
    {
        self.add_assign(-rhs);
    }
}

impl From<usize> for Location {
    fn from(value: usize) -> (l: Self) {
        Location(value)
    }
}

impl vstd::std_specs::convert::FromSpecImpl<usize> for Location {
    open spec fn obeys_from_spec() -> bool {
        true
    }

    open spec fn from_spec(v: usize) -> Self {
        Location(v)
    }
}

impl From<Location> for usize {
    fn from(val: Location) -> (v: Self) {
        val.0
    }
}

impl vstd::std_specs::convert::FromSpecImpl<Location> for usize {
    open spec fn obeys_from_spec() -> bool {
        true
    }

    open spec fn from_spec(v: Location) -> Self {
        v.0
    }
}

impl core::ops::Add for Location {
    type Output = Self;

    fn add(self, rhs: Self) -> (r: Self) {
        Location(self.0 + rhs.0)
    }
}

impl vstd::std_specs::ops::AddSpecImpl for Location {
    open spec fn obeys_add_spec() -> bool {
        true
    }

    open spec fn add_req(self, rhs: Self) -> bool {
        self.0 + rhs.0 <= usize::MAX
    }

    open spec fn add_spec(self, rhs: Self) -> Self {
        Location((self.0 + rhs.0) as usize)
    }
}

} // verus!
