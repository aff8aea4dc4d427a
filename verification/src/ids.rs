//! Handles for nodes and edges.

use vstd::prelude::*;

verus! {

/// Handle of a node. Handles are ordered by the moment they were issued.
#[derive(Debug, PartialEq, Eq, PartialOrd, Ord, Clone, Copy, Hash, Structural)]
pub struct NodeId(usize);

/// Handle of an edge. It is drawn from the same counter as [`NodeId`] but is
/// a type of its own, so the two kinds can never be confused.
#[derive(Debug, PartialEq, Eq, PartialOrd, Ord, Clone, Copy, Hash, Structural)]
pub struct EdgeId(usize);

/// A bare edge payload, for callers that want a named record around it.
#[derive(Default, Clone)]
pub struct Edge<EdgeUserData = ()> {
    pub user_data: EdgeUserData,
}

impl View for NodeId {
    type V = nat;

    /// The position of this handle in the order of issue.
    closed spec fn view(&self) -> nat {
        self.0 as nat
    }
}

impl View for EdgeId {
    type V = nat;

    /// The position of this handle in the order of issue.
    closed spec fn view(&self) -> nat {
        self.0 as nat
    }
}

impl NodeId {
    pub(crate) fn from_raw(raw: usize) -> (id: NodeId)
        ensures
            id@ == raw,
    {
        NodeId(raw)
    }

    pub(crate) fn raw(self) -> (raw: usize)
        ensures
            raw == self@,
    {
        self.0
    }

    /// A node handle is determined by its position, which fits in a `usize`.
    pub proof fn lemma_view(self, other: NodeId)
        ensures
            self@ <= usize::MAX,
            self@ == other@ <==> self == other,
    {
    }
}

impl EdgeId {
    pub(crate) fn from_raw(raw: usize) -> (id: EdgeId)
        ensures
            id@ == raw,
    {
        EdgeId(raw)
    }

    pub(crate) fn raw(self) -> (raw: usize)
        ensures
            raw == self@,
    {
        self.0
    }

    /// An edge handle is determined by its position, which fits in a `usize`.
    pub proof fn lemma_view(self, other: EdgeId)
        ensures
            self@ <= usize::MAX,
            self@ == other@ <==> self == other,
    {
    }
}

} // verus!
