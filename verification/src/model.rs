//! The mathematical model of a graph.

use crate::counting::{fibre, lemma_image_counts};
use vstd::prelude::*;

verus! {

/// One edge of the model: its two endpoints, in the order given when the edge
/// was added, and its payload.
pub struct Link<E> {
    pub left: nat,
    pub right: nat,
    pub data: E,
}

impl<E> Link<E> {
    /// Whether `n` is an endpoint of this edge.
    pub open spec fn touches(self, n: nat) -> bool {
        self.left == n || self.right == n
    }

    /// The endpoint opposite to `n`. For a loop at `n` this is `n` itself.
    pub open spec fn far_end(self, n: nat) -> nat {
        if self.left == n {
            self.right
        } else {
            self.left
        }
    }
}

/// One operation that changes what a graph holds.
pub enum Op<N, E> {
    AddNode(N),
    AddEdge(nat, nat, E),
    RemoveNode(nat),
    RemoveEdge(nat),
}

impl<N, E> Op<N, E> {
    /// Whether the operation issues a handle.
    pub open spec fn issues(self) -> bool {
        self is AddNode || self is AddEdge
    }
}

/// What a graph holds: how many handles it has issued, its live nodes and
/// its live edges, each keyed by the position of its handle.
#[verifier::ext_equal]
pub struct GraphModel<N, E> {
    pub issued: nat,
    pub nodes: Map<nat, N>,
    pub edges: Map<nat, Link<E>>,
}

impl<N, E> GraphModel<N, E> {
    /// The graph with nothing in it and no handle issued.
    pub open spec fn empty() -> Self {
        GraphModel { issued: 0, nodes: Map::empty(), edges: Map::empty() }
    }

    /// Every live handle was issued, the two kinds never share a position,
    /// and only finitely many things are stored.
    pub open spec fn inv(self) -> bool {
        &&& self.nodes.dom().finite()
        &&& self.edges.dom().finite()
        &&& forall|n: nat| self.nodes.contains_key(n) ==> n < self.issued
        &&& forall|e: nat| self.edges.contains_key(e) ==> e < self.issued
        &&& forall|k: nat| !(self.nodes.contains_key(k) && self.edges.contains_key(k))
    }

    /// Both endpoints of every edge are live nodes.
    pub open spec fn anchored(self) -> bool {
        forall|e: nat| #[trigger]
            self.edges.contains_key(e) ==> self.nodes.contains_key(self.edges[e].left)
                && self.nodes.contains_key(self.edges[e].right)
    }

    /// What a visitor of edges is shown for edge `e`: the payloads of its
    /// left and right endpoints, and its own.
    pub open spec fn edge_tuple(self, e: nat) -> (N, N, E) {
        (self.nodes[self.edges[e].left], self.nodes[self.edges[e].right], self.edges[e].data)
    }

    /// The edges that have `n` as an endpoint.
    pub open spec fn incident(self, n: nat) -> Set<nat> {
        Set::new(|e: nat| self.edges.contains_key(e) && self.edges[e].touches(n))
    }

    /// The edges that lead from `n` to `m`, whichever way round they were added.
    pub open spec fn links(self, n: nat, m: nat) -> Set<nat> {
        Set::new(
            |e: nat|
                self.edges.contains_key(e) && self.edges[e].touches(n) && self.edges[e].far_end(n)
                    == m,
        )
    }

    /// How many times `m` is a neighbour of `n`: once for each edge between them.
    pub open spec fn neighbor_count(self, n: nat, m: nat) -> nat {
        self.links(n, m).len()
    }

    /// Every neighbour of `n` is a live node.
    pub open spec fn neighbors_live(self, n: nat) -> bool {
        forall|e: nat| #[trigger]
            self.incident(n).contains(e) ==> self.nodes.contains_key(self.edges[e].far_end(n))
    }

    /// The model after a node with payload `data` was added.
    pub open spec fn add_node(self, data: N) -> Self {
        GraphModel {
            issued: self.issued + 1,
            nodes: self.nodes.insert(self.issued, data),
            edges: self.edges,
        }
    }

    /// The model after an edge from `left` to `right` with payload `data` was added.
    pub open spec fn add_edge(self, left: nat, right: nat, data: E) -> Self {
        GraphModel {
            issued: self.issued + 1,
            nodes: self.nodes,
            edges: self.edges.insert(self.issued, Link { left, right, data }),
        }
    }

    /// The model after edge `e` was removed; unchanged if `e` is not live.
    pub open spec fn remove_edge(self, e: nat) -> Self {
        GraphModel { issued: self.issued, nodes: self.nodes, edges: self.edges.remove(e) }
    }

    /// The model after node `n` was removed together with every edge that
    /// has it as an endpoint.
    pub open spec fn remove_node(self, n: nat) -> Self {
        GraphModel {
            issued: self.issued,
            nodes: self.nodes.remove(n),
            edges: self.edges.remove_keys(self.incident(n)),
        }
    }

    /// The model after the payload of node `n` was replaced by `data`.
    pub open spec fn set_node(self, n: nat, data: N) -> Self {
        GraphModel { issued: self.issued, nodes: self.nodes.insert(n, data), edges: self.edges }
    }

    /// The model after the payload of edge `e` was replaced by `data`.
    pub open spec fn set_edge(self, e: nat, data: E) -> Self {
        GraphModel {
            issued: self.issued,
            nodes: self.nodes,
            edges: self.edges.insert(
                e,
                Link { left: self.edges[e].left, right: self.edges[e].right, data },
            ),
        }
    }

    /// The model after `op`.
    pub open spec fn apply(self, op: Op<N, E>) -> Self {
        match op {
            Op::AddNode(data) => self.add_node(data),
            Op::AddEdge(left, right, data) => self.add_edge(left, right, data),
            Op::RemoveNode(n) => self.remove_node(n),
            Op::RemoveEdge(e) => self.remove_edge(e),
        }
    }

    /// The model after each of `ops` in turn.
    pub open spec fn apply_all(self, ops: Seq<Op<N, E>>) -> Self
        decreases ops.len(),
    {
        if ops.len() == 0 {
            self
        } else {
            self.apply_all(ops.drop_last()).apply(ops.last())
        }
    }

    /// Listing the far end of each edge at `n`, each edge once, lists every
    /// neighbour of `n` as often as there are edges to it.
    pub proof fn lemma_far_ends_count(self, n: nat, walk: Seq<nat>, far: Seq<nat>)
        requires
            walk.no_duplicates(),
            walk.to_set() == self.incident(n),
            far.len() == walk.len(),
            forall|i: int| 0 <= i < walk.len() ==> far[i] == self.edges[walk[i]].far_end(n),
        ensures
            far.len() == self.incident(n).len(),
            forall|m: nat| #[trigger] far.to_multiset().count(m) == self.neighbor_count(n, m),
            forall|i: int| 0 <= i < far.len() ==> self.neighbor_count(n, #[trigger] far[i]) > 0,
    {
        let far_end = |e: nat| self.edges[e].far_end(n);
        walk.unique_seq_to_set();
        assert(far =~= walk.map_values(far_end));
        assert forall|m: nat| #[trigger] far.to_multiset().count(m) == self.neighbor_count(
            n,
            m,
        ) by {
            lemma_image_counts(walk, far_end, m);
            assert(fibre(walk.to_set(), far_end, m) =~= self.links(n, m));
        }
        assert forall|i: int| 0 <= i < far.len() implies self.neighbor_count(
            n,
            #[trigger] far[i],
        ) > 0 by {
            far.to_multiset_ensures();
            assert(far.contains(far[i]));
            assert(far.to_multiset().count(far[i]) > 0);
        }
    }
}

} // verus!
