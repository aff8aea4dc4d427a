//! One-shot cursors over a snapshot of a node's neighbours.

use crate::ids::NodeId;
use vstd::prelude::*;

verus! {

/// The positions of a sequence of node handles.
pub open spec fn positions(ids: Seq<NodeId>) -> Seq<nat> {
    ids.map_values(|id: NodeId| id@)
}

/// The positions and payloads of a sequence of handles paired with references.
pub open spec fn entries<N>(pairs: Seq<(NodeId, &N)>) -> Seq<(nat, N)> {
    pairs.map_values(|pair: (NodeId, &N)| (pair.0@, *pair.1))
}

/// The neighbours of a node, as they were when the query was made.
pub struct Neighbors(Vec<NodeId>);

/// A cursor that steps through a [`Neighbors`] snapshot.
pub struct NeighborsIter(bool, usize, Vec<NodeId>);

/// The neighbours of a node together with their payloads, as they were when
/// the query was made.
pub struct NeighborsData<'a, NodeUserData>(Vec<(NodeId, &'a NodeUserData)>);

/// A cursor that steps through a [`NeighborsData`] snapshot.
pub struct NeighborsDataIter<'a, 'b, NodeUserData>(
    bool,
    usize,
    &'b Vec<(NodeId, &'a NodeUserData)>,
);

impl View for Neighbors {
    type V = Seq<nat>;

    /// The positions of the neighbours, in the order a cursor will yield them.
    closed spec fn view(&self) -> Seq<nat> {
        positions(self.0@)
    }
}

impl Neighbors {
    pub(crate) fn new(ids: Vec<NodeId>) -> (snapshot: Neighbors)
        ensures
            snapshot@ == positions(ids@),
    {
        Neighbors(ids)
    }

    /// Turns the snapshot into a cursor that yields all of it.
    pub fn detach(self) -> (cursor: NeighborsIter)
        ensures
            cursor@ == self@,
    {
        NeighborsIter(false, 0, self.0)
    }
}

impl View for NeighborsIter {
    type V = Seq<nat>;

    /// The positions of the neighbours that are still to come.
    closed spec fn view(&self) -> Seq<nat> {
        positions(self.2@.skip(self.1 as int))
    }
}

impl NeighborsIter {
    /// The cursor has not run past the end of its snapshot.
    #[verifier::type_invariant]
    spec fn in_range(&self) -> bool {
        &&& self.1 <= self.2.len()
        &&& self.0 ==> self.1 == self.2.len()
    }

    /// Yields the next neighbour, or `None` once the snapshot is used up.
    /// The argument is not looked at.
    pub fn next_node<T>(&mut self, _graph: T) -> (next: Option<NodeId>)
        ensures
            old(self)@.len() == 0 ==> next is None && final(self)@ == old(self)@,
            old(self)@.len() > 0 ==> next is Some && next->0@ == old(self)@[0] && final(self)@
                == old(self)@.drop_first(),
    {
        proof {
            use_type_invariant(&*self);
        }
        if self.0 {
            return None;
        }
        let idx = self.1;
        if idx == self.2.len() {
            self.0 = true;
            return None;
        }
        self.1 = 1 + idx;
        Some(self.2[idx])
    }
}

impl<'a, N> View for NeighborsData<'a, N> {
    type V = Seq<(nat, N)>;

    /// The position and payload of each neighbour, in the order a cursor
    /// will yield them.
    closed spec fn view(&self) -> Seq<(nat, N)> {
        entries(self.0@)
    }
}

impl<'a, N> NeighborsData<'a, N> {
    /// The positions of the neighbours, without their payloads.
    pub open spec fn ids(&self) -> Seq<nat> {
        self@.map_values(|entry: (nat, N)| entry.0)
    }

    pub(crate) fn new(pairs: Vec<(NodeId, &'a N)>) -> (snapshot: NeighborsData<'a, N>)
        ensures
            snapshot@ == entries(pairs@),
    {
        NeighborsData(pairs)
    }

    /// A cursor that yields all of the snapshot. The snapshot stays usable,
    /// so several cursors can be taken from it.
    pub fn detach<'b>(&'b self) -> (cursor: NeighborsDataIter<'a, 'b, N>)
        ensures
            cursor@ == self@,
    {
        NeighborsDataIter(false, 0, &self.0)
    }
}

impl<'a, 'b, N> View for NeighborsDataIter<'a, 'b, N> {
    type V = Seq<(nat, N)>;

    /// The position and payload of each neighbour that is still to come.
    closed spec fn view(&self) -> Seq<(nat, N)> {
        entries(self.2@.skip(self.1 as int))
    }
}

impl<'a, 'b, N> NeighborsDataIter<'a, 'b, N> {
    /// The cursor has not run past the end of its snapshot.
    #[verifier::type_invariant]
    spec fn in_range(&self) -> bool {
        &&& self.1 <= self.2.len()
        &&& self.0 ==> self.1 == self.2.len()
    }

    /// Yields the handle of the next neighbour, or `None` once the snapshot
    /// is used up. The argument is not looked at.
    pub fn next_node<T>(&mut self, _graph: T) -> (next: Option<NodeId>)
        ensures
            old(self)@.len() == 0 ==> next is None && final(self)@ == old(self)@,
            old(self)@.len() > 0 ==> next is Some && next->0@ == old(self)@[0].0 && final(self)@
                == old(self)@.drop_first(),
    {
        proof {
            use_type_invariant(&*self);
        }
        if self.0 {
            return None;
        }
        let idx = self.1;
        if idx == self.2.len() {
            self.0 = true;
            return None;
        }
        self.1 = 1 + idx;
        Some(self.2[idx].0)
    }

    /// Yields the payload of the next neighbour, or `None` once the snapshot
    /// is used up.
    pub fn next(&mut self) -> (next: Option<&'a N>)
        ensures
            old(self)@.len() == 0 ==> next is None && final(self)@ == old(self)@,
            old(self)@.len() > 0 ==> next is Some && *next->0 == old(self)@[0].1 && final(self)@
                == old(self)@.drop_first(),
    {
        proof {
            use_type_invariant(&*self);
        }
        if self.0 {
            return None;
        }
        let idx = self.1;
        if idx == self.2.len() {
            self.0 = true;
            return None;
        }
        self.1 = 1 + idx;
        Some(self.2[idx].1)
    }
}

} // verus!
