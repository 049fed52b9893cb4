use vstd::prelude::*;

use crate::handle::{DomHandle, is_prefix};
use crate::tree::DomNode;

verus! {

broadcast use vstd::std_specs::vec::axiom_spec_into_iter;

/// A change to be made to a document.
#[derive(Clone, Debug, PartialEq, Eq)]
pub enum DomAction {
    Add(AddNodeAction),
    Remove(RemoveNodeAction),
    Move(MoveNodeAction),
}

/// Add `node` as the child at `index` of the node at `parent_handle`.
#[derive(Clone, Debug, PartialEq, Eq)]
pub struct AddNodeAction {
    pub parent_handle: DomHandle,
    pub index: usize,
    pub node: DomNode,
}

/// Remove the node at `handle`.
#[derive(Clone, Debug, PartialEq, Eq)]
pub struct RemoveNodeAction {
    pub handle: DomHandle,
}

/// Move the node at `from_handle` to `to_handle`.
#[derive(Clone, Debug, PartialEq, Eq)]
pub struct MoveNodeAction {
    pub from_handle: DomHandle,
    pub to_handle: DomHandle,
}

impl DomAction {
    /// The action that adds `node` at `index` under `parent_handle`.
    pub fn add_node(parent_handle: DomHandle, index: usize, node: DomNode) -> (a: Self)
        ensures
            a == DomAction::Add(AddNodeAction { parent_handle, index, node }),
    {
        DomAction::Add(AddNodeAction { parent_handle, index, node })
    }

    /// The action that removes the node at `handle`.
    pub fn remove_node(handle: DomHandle) -> (a: Self)
        ensures
            a == DomAction::Remove(RemoveNodeAction { handle }),
    {
        DomAction::Remove(RemoveNodeAction { handle })
    }

    /// The action that moves the node at `from_handle` to `to_handle`.
    pub fn move_node(from_handle: DomHandle, to_handle: DomHandle) -> (a: Self)
        ensures
            a == DomAction::Move(MoveNodeAction { from_handle, to_handle }),
    {
        DomAction::Move(MoveNodeAction { from_handle, to_handle })
    }
}

/// The additions among `s`, in order.
pub open spec fn additions_of(s: Seq<DomAction>) -> Seq<AddNodeAction>
    decreases s.len(),
{
    if s.len() == 0 {
        Seq::empty()
    } else {
        let rest = additions_of(s.drop_last());
        match s.last() {
            DomAction::Add(a) => rest.push(a),
            _ => rest,
        }
    }
}

/// The removals among `s`, in order.
pub open spec fn removals_of(s: Seq<DomAction>) -> Seq<RemoveNodeAction>
    decreases s.len(),
{
    if s.len() == 0 {
        Seq::empty()
    } else {
        let rest = removals_of(s.drop_last());
        match s.last() {
            DomAction::Remove(a) => rest.push(a),
            _ => rest,
        }
    }
}

/// The moves among `s`, in order.
pub open spec fn moves_of(s: Seq<DomAction>) -> Seq<MoveNodeAction>
    decreases s.len(),
{
    if s.len() == 0 {
        Seq::empty()
    } else {
        let rest = moves_of(s.drop_last());
        match s.last() {
            DomAction::Move(a) => rest.push(a),
            _ => rest,
        }
    }
}

/// A move whose source is `handle` or one of its ancestors.
pub open spec fn moves_parent_or_self(a: DomAction, handle: Seq<usize>) -> bool {
    match a {
        DomAction::Move(m) => m.from_handle@ is Some && is_prefix(m.from_handle.path(), handle),
        _ => false,
    }
}

/// An ordered list of changes to be made to a document.
pub struct DomActionList {
    actions: Vec<DomAction>,
}

impl DomActionList {
    /// The changes, in order.
    pub closed spec fn spec_actions(&self) -> Seq<DomAction> {
        self.actions@
    }

    /// A list holding the given changes.
    pub fn new(actions: Vec<DomAction>) -> (l: Self)
        ensures
            l.spec_actions() == actions@,
    {
        DomActionList { actions }
    }

    /// The changes, in order.
    pub fn actions(&self) -> (a: &Vec<DomAction>)
        ensures
            a@ == self.spec_actions(),
    {
        &self.actions
    }

    /// The additions, in order.
    pub fn additions(&self) -> (r: Vec<&AddNodeAction>)
        ensures
            r@.len() == additions_of(self.spec_actions()).len(),
            forall|i: int| 0 <= i < r@.len() ==> *#[trigger] r@[i] == additions_of(self.spec_actions())[i],
    {
        let mut out: Vec<&AddNodeAction> = Vec::new();
        let mut i: usize = 0;
        while i < self.actions.len()
            invariant
                i <= self.actions@.len(),
                out@.len() == additions_of(self.actions@.subrange(0, i as int)).len(),
                forall|j: int| 0 <= j < out@.len() ==> *#[trigger] out@[j] == additions_of(self.actions@.subrange(0, i as int))[j],
            decreases self.actions@.len() - i,
        {
            assert(self.actions@.subrange(0, i + 1).drop_last() =~= self.actions@.subrange(0, i as int));
            match &self.actions[i] {
                DomAction::Add(a) => out.push(a),
                _ => {},
            }
            i += 1;
        }
        assert(self.actions@.subrange(0, i as int) =~= self.actions@);
        out
    }

    /// The removals, in order.
    pub fn removals(&self) -> (r: Vec<&RemoveNodeAction>)
        ensures
            r@.len() == removals_of(self.spec_actions()).len(),
            forall|i: int| 0 <= i < r@.len() ==> *#[trigger] r@[i] == removals_of(self.spec_actions())[i],
    {
        let mut out: Vec<&RemoveNodeAction> = Vec::new();
        let mut i: usize = 0;
        while i < self.actions.len()
            invariant
                i <= self.actions@.len(),
                out@.len() == removals_of(self.actions@.subrange(0, i as int)).len(),
                forall|j: int| 0 <= j < out@.len() ==> *#[trigger] out@[j] == removals_of(self.actions@.subrange(0, i as int))[j],
            decreases self.actions@.len() - i,
        {
            assert(self.actions@.subrange(0, i + 1).drop_last() =~= self.actions@.subrange(0, i as int));
            match &self.actions[i] {
                DomAction::Remove(a) => out.push(a),
                _ => {},
            }
            i += 1;
        }
        assert(self.actions@.subrange(0, i as int) =~= self.actions@);
        out
    }

    /// The moves, in order.
    pub fn moves(&self) -> (r: Vec<&MoveNodeAction>)
        ensures
            r@.len() == moves_of(self.spec_actions()).len(),
            forall|i: int| 0 <= i < r@.len() ==> *#[trigger] r@[i] == moves_of(self.spec_actions())[i],
    {
        let mut out: Vec<&MoveNodeAction> = Vec::new();
        let mut i: usize = 0;
        while i < self.actions.len()
            invariant
                i <= self.actions@.len(),
                out@.len() == moves_of(self.actions@.subrange(0, i as int)).len(),
                forall|j: int| 0 <= j < out@.len() ==> *#[trigger] out@[j] == moves_of(self.actions@.subrange(0, i as int))[j],
            decreases self.actions@.len() - i,
        {
            assert(self.actions@.subrange(0, i + 1).drop_last() =~= self.actions@.subrange(0, i as int));
            match &self.actions[i] {
                DomAction::Move(a) => out.push(a),
                _ => {},
            }
            i += 1;
        }
        assert(self.actions@.subrange(0, i as int) =~= self.actions@);
        out
    }

    /// The additions, removals and moves, each in order, taking the list.
    pub fn grouped(self) -> (g: (Vec<AddNodeAction>, Vec<RemoveNodeAction>, Vec<MoveNodeAction>))
        ensures
            g.0@ == additions_of(self.spec_actions()),
            g.1@ == removals_of(self.spec_actions()),
            g.2@ == moves_of(self.spec_actions()),
    {
        let ghost all = self.actions@;
        let mut to_add: Vec<AddNodeAction> = Vec::new();
        let mut to_remove: Vec<RemoveNodeAction> = Vec::new();
        let mut to_move: Vec<MoveNodeAction> = Vec::new();
        for action in it: self.actions.into_iter()
            invariant
                it.seq() == all,
                to_add@ == additions_of(all.subrange(0, it.index() as int)),
                to_remove@ == removals_of(all.subrange(0, it.index() as int)),
                to_move@ == moves_of(all.subrange(0, it.index() as int)),
        {
            assert(all.subrange(0, it.index() + 1).drop_last() =~= all.subrange(0, it.index() as int));
            match action {
                DomAction::Add(a) => to_add.push(a),
                DomAction::Remove(a) => to_remove.push(a),
                DomAction::Move(a) => to_move.push(a),
            }
        }
        assert(all.subrange(0, all.len() as int) =~= all);
        (to_add, to_remove, to_move)
    }

    /// Add a change at the end.
    pub fn push(&mut self, action: DomAction)
        ensures
            final(self).spec_actions() == old(self).spec_actions().push(action),
    {
        self.actions.push(action);
    }

    /// Take out the change at `idx`.
    pub fn remove(&mut self, idx: usize) -> (a: DomAction)
        requires
            idx < old(self).spec_actions().len(),
        ensures
            a == old(self).spec_actions()[idx as int],
            final(self).spec_actions() == old(self).spec_actions().remove(idx as int),
    {
        self.actions.remove(idx)
    }

    /// Replace all the changes.
    pub fn replace_actions(&mut self, new_actions: Vec<DomAction>)
        ensures
            final(self).spec_actions() == new_actions@,
    {
        self.actions = new_actions;
    }

    /// Add the given changes at the end, in order.
    pub fn extend(&mut self, more: Vec<DomAction>)
        ensures
            final(self).spec_actions() == old(self).spec_actions() + more@,
    {
        let mut more = more;
        self.actions.append(&mut more);
    }

    /// The first move whose source is `handle` or one of its ancestors, as
    /// the pair of its source and destination.
    pub fn find_moved_parent_or_self(&self, handle: &DomHandle) -> (r: Option<(DomHandle, DomHandle)>)
        requires
            handle@ is Some,
        ensures
            match r {
                Some((from, to)) => exists|i: int|
                    #![trigger self.spec_actions()[i]]
                    {
                        &&& 0 <= i < self.spec_actions().len()
                        &&& moves_parent_or_self(self.spec_actions()[i], handle.path())
                        &&& forall|j: int|
                            0 <= j < i ==> !moves_parent_or_self(
                                #[trigger] self.spec_actions()[j],
                                handle.path(),
                            )
                        &&& self.spec_actions()[i] matches DomAction::Move(m)
                        &&& from@ == m.from_handle@
                        &&& to@ == m.to_handle@
                    },
                None => forall|j: int|
                    0 <= j < self.spec_actions().len() ==> !moves_parent_or_self(
                        #[trigger] self.spec_actions()[j],
                        handle.path(),
                    ),
            },
    {
        let mut i: usize = 0;
        while i < self.actions.len()
            invariant
                i <= self.actions@.len(),
                handle@ is Some,
                forall|j: int|
                    0 <= j < i ==> !moves_parent_or_self(#[trigger] self.actions@[j], handle.path()),
            decreases self.actions@.len() - i,
        {
            match &self.actions[i] {
                DomAction::Move(a) => {
                    if a.from_handle.is_set() {
                        if a.from_handle.is_ancestor_of(handle) || a.from_handle == *handle {
                            let r = (a.from_handle.clone(), a.to_handle.clone());
                            assert(handle.path().subrange(0, handle.path().len() as int) =~= handle.path());
                            assert(moves_parent_or_self(self.actions@[i as int], handle.path()));
                            assert(self.spec_actions()[i as int] == self.actions@[i as int]);
                            return Some(r);
                        }
                    }
                },
                _ => {},
            }
            i += 1;
        }
        None
    }
}

impl Default for DomActionList {
    fn default() -> (l: Self)
        ensures
            l.spec_actions().len() == 0,
    {
        DomActionList { actions: Vec::new() }
    }
}

} // verus!
