//! The graph container.

use crate::cursor::{entries, positions, Neighbors, NeighborsData};
use crate::ids::{EdgeId, NodeId};
use crate::laws::{lemma_anchored_kept, lemma_set_edge_kept, lemma_set_node_kept};
use crate::model::{GraphModel, Link, Op};
use crate::store::{
    keys_of, lemma_iter_walks, lemma_lift_insert, lemma_lift_len, lemma_lift_remove, lift,
    pair_mut, slot_mut,
};
use std::collections::HashMap;
use vstd::prelude::*;
use vstd::std_specs::hash::spec_hash_map_iter;
use vstd::std_specs::iter::IteratorSpec;

verus! {

broadcast use vstd::std_specs::hash::group_hash_axioms;

/// A graph whose nodes carry a `NodeUserData` and whose edges carry an
/// `EdgeUserData`.
pub struct Graph<NodeUserData = (), EdgeUserData = ()> {
    next_id: usize,
    nodes_data: HashMap<usize, NodeUserData>,
    edges_data: HashMap<usize, EdgeUserData>,
    edge_nodes: HashMap<usize, (NodeId, NodeId)>,
}

impl<N, E> View for Graph<N, E> {
    type V = GraphModel<N, E>;

    closed spec fn view(&self) -> GraphModel<N, E> {
        GraphModel {
            issued: self.next_id as nat,
            nodes: lift(self.nodes_data@),
            edges: links_of(self.edges_data@, self.edge_nodes@),
        }
    }
}

/// The model's edges, put together from the stored payloads and endpoints.
spec fn links_of<E>(data: Map<usize, E>, ends: Map<usize, (NodeId, NodeId)>) -> Map<nat, Link<E>> {
    lift(data).map_entries(
        |e: nat, data: E| Link { left: ends[e as usize].0@, right: ends[e as usize].1@, data },
    )
}

/// The positions of the edges in a list of edges paired with nodes.
spec fn edges_of(links: Seq<(EdgeId, NodeId)>) -> Seq<nat> {
    links.map_values(|link: (EdgeId, NodeId)| link.0@)
}

/// The keys of the first `upto` edges in a list of edges paired with nodes.
spec fn keys_upto(links: Seq<(EdgeId, NodeId)>, upto: int) -> Set<usize> {
    Set::new(|k: usize| exists|a: int| 0 <= a < upto && (#[trigger] links[a]).0@ == k)
}

impl<N, E> Graph<N, E> {
    /// The representation is consistent: payloads and endpoints are stored
    /// for the same edges, and no stored handle is ahead of the counter.
    pub closed spec fn wf(&self) -> bool {
        &&& self.edges_data@.dom() == self.edge_nodes@.dom()
        &&& forall|k: usize| self.nodes_data@.contains_key(k) ==> k < self.next_id
        &&& forall|k: usize| self.edges_data@.contains_key(k) ==> k < self.next_id
        &&& forall|k: usize|
            !(self.nodes_data@.contains_key(k) && self.edges_data@.contains_key(k))
    }

    /// A consistent graph has a model that satisfies the model's invariant.
    pub proof fn lemma_wf_inv(&self)
        requires
            self.wf(),
        ensures
            self@.inv(),
    {
        lemma_lift_len(self.nodes_data@);
        lemma_lift_len(self.edges_data@);
        assert(self@.edges.dom() =~= lift(self.edges_data@).dom());
    }

    /// An empty graph.
    pub fn new() -> (g: Self)
        ensures
            g.wf(),
            g@ == GraphModel::<N, E>::empty(),
    {
        Graph {
            next_id: 0,
            nodes_data: HashMap::new(),
            edges_data: HashMap::new(),
            edge_nodes: HashMap::new(),
        }
    }

    /// Every edge at `id`, each with the node at its other end.
    fn links_at(&self, id: NodeId) -> (found: Vec<(EdgeId, NodeId)>)
        requires
            self.wf(),
        ensures
            edges_of(found@).no_duplicates(),
            edges_of(found@).to_set() == self@.incident(id@),
            forall|i: int|
                0 <= i < found.len() ==> (#[trigger] found[i]).1@
                    == self@.edges[found[i].0@].far_end(id@),
    {
        let mut found: Vec<(EdgeId, NodeId)> = Vec::new();
        let ghost all = spec_hash_map_iter(&self.edge_nodes).remaining();
        let ghost mut seen: int = 0;
        for (key, ends) in it: self.edge_nodes.iter()
            invariant
                self.wf(),
                all.no_duplicates(),
                all == spec_hash_map_iter(&self.edge_nodes).remaining(),
                it.seq() == all,
                seen == it.index(),
                forall|a: int|
                    0 <= a < found.len() ==> self@.incident(id@).contains((#[trigger] found[a]).0@)
                        && found[a].1@ == self@.edges[found[a].0@].far_end(id@) && exists|j: int|
                        0 <= j < seen && *(#[trigger] all[j]).0 == found[a].0@,
                forall|a: int, b: int|
                    0 <= a < b < found.len() ==> (#[trigger] found[a]).0@ != (
                    #[trigger] found[b]).0@,
                forall|j: int|
                    0 <= j < seen && self@.incident(id@).contains(*(#[trigger] all[j]).0 as nat)
                        ==> exists|a: int|
                        0 <= a < found.len() && (#[trigger] found[a]).0@ == *all[j].0,
        {
            proof {
                lemma_iter_walks(&self.edge_nodes, all);
            }
            let ghost before = found@;
            let (left, right) = *ends;
            if left.raw() == id.raw() {
                found.push((EdgeId::from_raw(*key), right));
                assert(found[before.len() as int].0@ == *all[seen].0);
                assert(forall|a: int| 0 <= a < before.len() ==> found[a] == before[a]);
            } else if right.raw() == id.raw() {
                found.push((EdgeId::from_raw(*key), left));
                assert(found[before.len() as int].0@ == *all[seen].0);
                assert(forall|a: int| 0 <= a < before.len() ==> found[a] == before[a]);
            }
            proof {
                seen = seen + 1;
            }
        }
        proof {
            lemma_iter_walks(&self.edge_nodes, all);
            assert forall|e: nat| self@.incident(id@).contains(e) implies edges_of(
                found@,
            ).to_set().contains(e) by {
                let j = choose|j: int| 0 <= j < all.len() && *(#[trigger] all[j]).0 == e as usize;
                let a = choose|a: int| 0 <= a < found.len() && (#[trigger] found[a]).0@ == e;
                assert(edges_of(found@)[a] == e);
            }
        }
        found
    }

    /// Stores `node` under a fresh handle and returns the handle.
    pub fn add_node(&mut self, node: N) -> (id: NodeId)
        requires
            old(self).wf(),
            old(self)@.issued < usize::MAX,
        ensures
            final(self).wf(),
            id@ == old(self)@.issued,
            final(self)@ == old(self)@.add_node(node),
            old(self)@.anchored() ==> final(self)@.anchored(),
    {
        let raw = self.next_id;
        self.next_id += 1;
        self.nodes_data.insert(raw, node);
        proof {
            lemma_lift_insert(old(self).nodes_data@, raw, node);
            old(self).lemma_wf_inv();
            if old(self)@.anchored() {
                lemma_anchored_kept(old(self)@, Op::AddNode(node));
            }
        }
        NodeId::from_raw(raw)
    }

    /// Removes the node `id` and, with it, every edge that has `id` as an
    /// endpoint. Nothing happens to the nodes if `id` is not live.
    pub fn remove_node(&mut self, id: NodeId)
        requires
            old(self).wf(),
        ensures
            final(self).wf(),
            final(self)@ == old(self)@.remove_node(id@),
            old(self)@.anchored() ==> final(self)@.anchored(),
    {
        let doomed = self.links_at(id);
        let mut at: usize = 0;
        while at < doomed.len()
            invariant
                at <= doomed.len(),
                self.next_id == old(self).next_id,
                self.nodes_data@ == old(self).nodes_data@,
                self.edge_nodes@ == old(self).edge_nodes@.remove_keys(
                    keys_upto(doomed@, at as int),
                ),
                self.edges_data@ == old(self).edges_data@.remove_keys(
                    keys_upto(doomed@, at as int),
                ),
            decreases doomed.len() - at,
        {
            let key = doomed[at].0.raw();
            self.edge_nodes.remove(&key);
            self.edges_data.remove(&key);
            at += 1;
        }
        let node = id.raw();
        self.nodes_data.remove(&node);
        proof {
            lemma_lift_remove(old(self).nodes_data@, node);
            let all_gone = keys_upto(doomed@, doomed.len() as int);
            assert forall|k: usize| all_gone.contains(k) <==> old(self)@.incident(id@).contains(
                k as nat,
            ) by {
                if old(self)@.incident(id@).contains(k as nat) {
                    let a = choose|a: int|
                        0 <= a < doomed.len() && edges_of(doomed@)[a] == k as nat;
                    assert(doomed[a].0@ == k);
                }
                if all_gone.contains(k) {
                    let a = choose|a: int| 0 <= a < doomed.len() && (#[trigger] doomed[a]).0@ == k;
                    assert(edges_of(doomed@)[a] == k);
                }
            }
            old(self).lemma_wf_inv();
            if old(self)@.anchored() {
                lemma_anchored_kept(old(self)@, Op::RemoveNode(id@));
            }
        }
    }

    /// Stores an edge from `l` to `r` with payload `edge` under a fresh
    /// handle and returns the handle.
    pub fn add_edge(&mut self, l: NodeId, r: NodeId, edge: E) -> (id: EdgeId)
        requires
            old(self).wf(),
            old(self)@.issued < usize::MAX,
        ensures
            final(self).wf(),
            id@ == old(self)@.issued,
            final(self)@ == old(self)@.add_edge(l@, r@, edge),
            old(self)@.anchored() && old(self)@.nodes.contains_key(l@) && old(
                self,
            )@.nodes.contains_key(r@) ==> final(self)@.anchored(),
    {
        let raw = self.next_id;
        self.next_id += 1;
        self.edges_data.insert(raw, edge);
        self.edge_nodes.insert(raw, (l, r));
        proof {
            lemma_lift_insert(old(self).edges_data@, raw, edge);
            assert(final(self)@ == old(self)@.add_edge(l@, r@, edge));
            old(self).lemma_wf_inv();
            if old(self)@.anchored() && old(self)@.nodes.contains_key(l@) && old(
                self,
            )@.nodes.contains_key(r@) {
                lemma_anchored_kept(old(self)@, Op::AddEdge(l@, r@, edge));
            }
        }
        EdgeId::from_raw(raw)
    }

    /// Removes the edge `id`. Nothing happens if `id` is not live, and no
    /// node is touched either way.
    pub fn remove_edge(&mut self, id: EdgeId)
        requires
            old(self).wf(),
        ensures
            final(self).wf(),
            final(self)@ == old(self)@.remove_edge(id@),
            old(self)@.anchored() ==> final(self)@.anchored(),
    {
        let key = id.raw();
        self.edge_nodes.remove(&key);
        self.edges_data.remove(&key);
        proof {
            lemma_lift_remove(old(self).edges_data@, key);
            assert(final(self)@ == old(self)@.remove_edge(id@));
            old(self).lemma_wf_inv();
            if old(self)@.anchored() {
                lemma_anchored_kept(old(self)@, Op::RemoveEdge(id@));
            }
        }
    }

    /// The neighbours of `id`: for every edge that has `id` as an endpoint,
    /// the node at the other end. A node joined to `id` by several edges is
    /// listed once for each; an edge from `id` to itself lists `id`.
    pub fn neighbors(&self, id: NodeId) -> (found: Neighbors)
        requires
            self.wf(),
        ensures
            found@.len() == self@.incident(id@).len(),
            forall|m: nat| #[trigger] found@.to_multiset().count(m) == self@.neighbor_count(id@, m),
            forall|i: int|
                0 <= i < found@.len() ==> self@.neighbor_count(id@, #[trigger] found@[i]) > 0,
    {
        let links = self.links_at(id);
        let mut ids: Vec<NodeId> = Vec::new();
        let mut at: usize = 0;
        while at < links.len()
            invariant
                at <= links.len(),
                ids.len() == at,
                forall|a: int| 0 <= a < at ==> ids[a] == (#[trigger] links[a]).1,
            decreases links.len() - at,
        {
            ids.push(links[at].1);
            at += 1;
        }
        proof {
            self@.lemma_far_ends_count(id@, edges_of(links@), positions(ids@));
        }
        Neighbors::new(ids)
    }

    /// The neighbours of `id`, as [`Graph::neighbors`] lists them, each with
    /// a reference to its payload.
    pub fn neighbors_data<'a>(&'a self, id: NodeId) -> (found: NeighborsData<'a, N>)
        requires
            self.wf(),
            self@.neighbors_live(id@),
        ensures
            found@.len() == self@.incident(id@).len(),
            forall|m: nat| #[trigger]
                found.ids().to_multiset().count(m) == self@.neighbor_count(id@, m),
            forall|i: int|
                0 <= i < found@.len() ==> self@.neighbor_count(id@, (#[trigger] found@[i]).0) > 0
                    && self@.nodes.contains_key(found@[i].0) && found@[i].1
                    == self@.nodes[found@[i].0],
    {
        let links = self.links_at(id);
        let mut pairs: Vec<(NodeId, &'a N)> = Vec::new();
        let mut at: usize = 0;
        while at < links.len()
            invariant
                self.wf(),
                self@.neighbors_live(id@),
                at <= links.len(),
                pairs.len() == at,
                edges_of(links@).to_set() == self@.incident(id@),
                forall|a: int|
                    0 <= a < links.len() ==> (#[trigger] links[a]).1@
                        == self@.edges[links[a].0@].far_end(id@),
                forall|a: int|
                    0 <= a < at ==> (#[trigger] pairs[a]).0 == links[a].1
                        && self@.nodes.contains_key(pairs[a].0@) && *pairs[a].1
                        == self@.nodes[pairs[a].0@],
            decreases links.len() - at,
        {
            let far = links[at].1;
            let key = far.raw();
            proof {
                assert(edges_of(links@)[at as int] == links[at as int].0@);
                assert(self@.incident(id@).contains(links[at as int].0@));
            }
            let data = self.nodes_data.get(&key).unwrap();
            pairs.push((far, data));
            at += 1;
        }
        let ghost far = entries(pairs@).map_values(|entry: (nat, N)| entry.0);
        proof {
            self@.lemma_far_ends_count(id@, edges_of(links@), far);
            assert forall|i: int| 0 <= i < far.len() implies self@.neighbor_count(
                id@,
                (#[trigger] entries(pairs@)[i]).0,
            ) > 0 by {
                assert(far[i] == entries(pairs@)[i].0);
            }
        }
        NeighborsData::new(pairs)
    }

    /// Calls `f` on every live node, with its handle and its payload, in no
    /// particular order.
    pub fn visit_nodes<F: FnMut(NodeId, &N)>(&self, mut f: F)
        requires
            self.wf(),
            forall|id: NodeId|
                self@.nodes.contains_key(id@) ==> call_requires(f, (id, &self@.nodes[id@])),
        ensures
            forall|id: NodeId|
                self@.nodes.contains_key(id@) ==> call_ensures(f, (id, &self@.nodes[id@]), ()),
    {
        let ghost visitor = f;
        let ghost all = spec_hash_map_iter(&self.nodes_data).remaining();
        let ghost mut seen: int = 0;
        for (key, data) in it: self.nodes_data.iter()
            invariant
                self.wf(),
                f == visitor,
                all.no_duplicates(),
                all == spec_hash_map_iter(&self.nodes_data).remaining(),
                it.seq() == all,
                seen == it.index(),
                forall|id: NodeId|
                    self@.nodes.contains_key(id@) ==> call_requires(f, (id, &self@.nodes[id@])),
                forall|id: NodeId, a: int|
                    0 <= a < seen && *(#[trigger] all[a]).0 == id@ ==> #[trigger] call_ensures(
                        f,
                        (id, &self@.nodes[id@]),
                        (),
                    ),
        {
            proof {
                lemma_iter_walks(&self.nodes_data, all);
            }
            let id = NodeId::from_raw(*key);
            f(id, data);
            proof {
                assert forall|other: NodeId| *all[seen].0 == other@ implies other == id by {
                    NodeId::lemma_view(other, id);
                }
                seen = seen + 1;
            }
        }
        proof {
            lemma_iter_walks(&self.nodes_data, all);
        }
    }

    /// Calls `f` on every live node, with its handle and mutable access to
    /// its payload, in no particular order.
    pub fn visit_nodes_mut<F: FnMut(NodeId, &mut N)>(&mut self, mut f: F)
        requires
            old(self).wf(),
            forall|id: NodeId, slot: &mut N|
                old(self)@.nodes.contains_key(id@) && *slot == old(self)@.nodes[id@]
                    ==> call_requires(f, (id, slot)),
        ensures
            final(self).wf(),
            final(self)@.issued == old(self)@.issued,
            final(self)@.edges == old(self)@.edges,
            final(self)@.nodes.dom() == old(self)@.nodes.dom(),
            old(self)@.anchored() ==> final(self)@.anchored(),
            forall|id: NodeId|
                old(self)@.nodes.contains_key(id@) ==> exists|slot: &mut N|
                    *slot == old(self)@.nodes[id@] && *final(slot) == final(self)@.nodes[id@]
                        && #[trigger] call_ensures(f, (id, slot), ()),
    {
        let ghost visitor = f;
        let keys = keys_of(&self.nodes_data);
        let mut at: usize = 0;
        while at < keys.len()
            invariant
                at <= keys.len(),
                f == visitor,
                keys@.no_duplicates(),
                forall|k: usize| keys@.contains(k) <==> old(self).nodes_data@.contains_key(k),
                forall|id: NodeId, slot: &mut N|
                    old(self)@.nodes.contains_key(id@) && *slot == old(self)@.nodes[id@]
                        ==> call_requires(f, (id, slot)),
                self.next_id == old(self).next_id,
                self.edges_data == old(self).edges_data,
                self.edge_nodes == old(self).edge_nodes,
                self.nodes_data@.dom() == old(self).nodes_data@.dom(),
                forall|a: int|
                    at <= a < keys.len() ==> self.nodes_data@[#[trigger] keys[a]] == old(
                        self,
                    ).nodes_data@[keys[a]],
                forall|id: NodeId, a: int|
                    #![trigger keys[a], id@]
                    0 <= a < at && keys[a] == id@ ==> exists|slot: &mut N|
                        *slot == old(self).nodes_data@[keys[a]] && *final(slot)
                            == self.nodes_data@[keys[a]] && #[trigger] call_ensures(
                            f,
                            (id, slot),
                            (),
                        ),
            decreases keys.len() - at,
        {
            let key = keys[at];
            assert(keys@.contains(key));
            let id = NodeId::from_raw(key);
            let slot = slot_mut(&mut self.nodes_data, key);
            f(id, slot);
            proof {
                assert forall|other: NodeId| key == other@ implies other == id by {
                    NodeId::lemma_view(other, id);
                }
            }
            at += 1;
        }
        proof {
            assert forall|id: NodeId| old(self)@.nodes.contains_key(id@) implies exists|
                slot: &mut N,
            |
                *slot == old(self)@.nodes[id@] && *final(slot) == final(self)@.nodes[id@]
                    && #[trigger] call_ensures(f, (id, slot), ()) by {
                let k = id@ as usize;
                assert(keys@.contains(k));
                let a = choose|a: int| 0 <= a < keys.len() && keys[a] == k;
                assert(keys[a] == id@);
            }
            assert(final(self)@.edges == old(self)@.edges);
            assert(final(self)@.nodes.dom() =~= old(self)@.nodes.dom());
            if old(self)@.anchored() {
                assert forall|e: nat| #[trigger]
                    final(self)@.edges.contains_key(e) implies final(self)@.nodes.contains_key(
                    final(self)@.edges[e].left,
                ) && final(self)@.nodes.contains_key(final(self)@.edges[e].right) by {
                    assert(old(self)@.edges.contains_key(e));
                    assert(old(self)@.nodes.dom().contains(old(self)@.edges[e].left));
                    assert(old(self)@.nodes.dom().contains(old(self)@.edges[e].right));
                }
            }
        }
    }

    /// Calls `f` on every live edge, with its handle, the payloads of its
    /// two endpoints in the order given when the edge was added, and its own
    /// payload, in no particular order.
    pub fn visit_edges<F: FnMut(EdgeId, &N, &N, &E)>(&self, mut f: F)
        requires
            self.wf(),
            self@.anchored(),
            forall|id: EdgeId|
                self@.edges.contains_key(id@) ==> call_requires(
                    f,
                    (
                        id,
                        &self@.edge_tuple(id@).0,
                        &self@.edge_tuple(id@).1,
                        &self@.edge_tuple(id@).2,
                    ),
                ),
        ensures
            forall|id: EdgeId|
                self@.edges.contains_key(id@) ==> call_ensures(
                    f,
                    (
                        id,
                        &self@.edge_tuple(id@).0,
                        &self@.edge_tuple(id@).1,
                        &self@.edge_tuple(id@).2,
                    ),
                    (),
                ),
    {
        let ghost visitor = f;
        let ghost all = spec_hash_map_iter(&self.edges_data).remaining();
        let ghost mut seen: int = 0;
        for (key, data) in it: self.edges_data.iter()
            invariant
                self.wf(),
                self@.anchored(),
                f == visitor,
                all.no_duplicates(),
                all == spec_hash_map_iter(&self.edges_data).remaining(),
                it.seq() == all,
                seen == it.index(),
                forall|id: EdgeId|
                    self@.edges.contains_key(id@) ==> call_requires(
                        f,
                        (
                            id,
                            &self@.edge_tuple(id@).0,
                            &self@.edge_tuple(id@).1,
                            &self@.edge_tuple(id@).2,
                        ),
                    ),
                forall|id: EdgeId, a: int|
                    0 <= a < seen && *(#[trigger] all[a]).0 == id@ ==> #[trigger] call_ensures(
                        f,
                        (
                            id,
                            &self@.edge_tuple(id@).0,
                            &self@.edge_tuple(id@).1,
                            &self@.edge_tuple(id@).2,
                        ),
                        (),
                    ),
        {
            proof {
                lemma_iter_walks(&self.edges_data, all);
            }
            let id = EdgeId::from_raw(*key);
            assert(self@.edges.contains_key(id@));
            let (node1, node2) = self.edge_nodes.get(key).unwrap();
            let data1 = self.nodes_data.get(&node1.raw()).unwrap();
            let data2 = self.nodes_data.get(&node2.raw()).unwrap();
            f(id, data1, data2, data);
            proof {
                assert forall|other: EdgeId| *all[seen].0 == other@ implies other == id by {
                    EdgeId::lemma_view(other, id);
                }
                seen = seen + 1;
            }
        }
        proof {
            lemma_iter_walks(&self.edges_data, all);
        }
    }

    /// Whether node `id` is live.
    pub fn contains_node(&self, id: NodeId) -> (live: bool)
        requires
            self.wf(),
        ensures
            live == self@.nodes.contains_key(id@),
    {
        self.nodes_data.contains_key(&id.raw())
    }

    /// Whether edge `id` is live.
    pub fn contains_edge(&self, id: EdgeId) -> (live: bool)
        requires
            self.wf(),
        ensures
            live == self@.edges.contains_key(id@),
    {
        self.edges_data.contains_key(&id.raw())
    }

    /// The payload of node `id`.
    pub fn get_node(&self, id: NodeId) -> (data: &N)
        requires
            self.wf(),
            self@.nodes.contains_key(id@),
        ensures
            *data == self@.nodes[id@],
    {
        self.nodes_data.get(&id.raw()).unwrap()
    }

    /// Mutable access to the payload of node `id`.
    pub fn get_node_mut(&mut self, id: NodeId) -> (data: &mut N)
        requires
            old(self).wf(),
            old(self)@.nodes.contains_key(id@),
        ensures
            *data == old(self)@.nodes[id@],
            final(self).wf(),
            final(self)@ == old(self)@.set_node(id@, *final(data)),
            old(self)@.anchored() ==> final(self)@.anchored(),
    {
        let key = id.raw();
        let data = slot_mut(&mut self.nodes_data, key);
        proof {
            lemma_lift_insert(old(self).nodes_data@, key, *final(data));
            old(self).lemma_wf_inv();
            lemma_set_node_kept(old(self)@, id@, *final(data));
        }
        data
    }

    /// The payload of edge `id`.
    pub fn get_edge(&self, id: EdgeId) -> (data: &E)
        requires
            self.wf(),
            self@.edges.contains_key(id@),
        ensures
            *data == self@.edges[id@].data,
    {
        self.edges_data.get(&id.raw()).unwrap()
    }

    /// Mutable access to the payload of edge `id`.
    pub fn get_edge_mut(&mut self, id: EdgeId) -> (data: &mut E)
        requires
            old(self).wf(),
            old(self)@.edges.contains_key(id@),
        ensures
            *data == old(self)@.edges[id@].data,
            final(self).wf(),
            final(self)@ == old(self)@.set_edge(id@, *final(data)),
            old(self)@.anchored() ==> final(self)@.anchored(),
    {
        let key = id.raw();
        let data = slot_mut(&mut self.edges_data, key);
        proof {
            let after = old(self).edges_data@.insert(key, *final(data));
            assert(after.dom() =~= old(self).edges_data@.dom());
            old(self).lemma_wf_inv();
            lemma_set_edge_kept(old(self)@, id@, *final(data));
        }
        data
    }

    /// Mutable access to the payloads of two different nodes at once.
    pub fn index_twice_mut(&mut self, id1: NodeId, id2: NodeId) -> (pair: (&mut N, &mut N))
        requires
            old(self).wf(),
            id1 != id2,
            old(self)@.nodes.contains_key(id1@),
            old(self)@.nodes.contains_key(id2@),
        ensures
            *pair.0 == old(self)@.nodes[id1@],
            *pair.1 == old(self)@.nodes[id2@],
            final(self).wf(),
            final(self)@ == old(self)@.set_node(id1@, *final(pair.0)).set_node(
                id2@,
                *final(pair.1),
            ),
            old(self)@.anchored() ==> final(self)@.anchored(),
    {
        let key1 = id1.raw();
        let key2 = id2.raw();
        proof {
            NodeId::lemma_view(id1, id2);
        }
        let (first, second) = pair_mut(&mut self.nodes_data, key1, key2);
        let pair = (first.unwrap(), second.unwrap());
        proof {
            let once = old(self).nodes_data@.insert(key1, *final(pair.0));
            lemma_lift_insert(old(self).nodes_data@, key1, *final(pair.0));
            lemma_lift_insert(once, key2, *final(pair.1));
            old(self).lemma_wf_inv();
            lemma_set_node_kept(old(self)@, id1@, *final(pair.0));
            lemma_set_node_kept(old(self)@.set_node(id1@, *final(pair.0)), id2@, *final(pair.1));
        }
        pair
    }

    /// The number of live nodes.
    pub fn node_count(&self) -> (count: usize)
        requires
            self.wf(),
        ensures
            count == self@.nodes.len(),
    {
        proof {
            lemma_lift_len(self.nodes_data@);
        }
        self.nodes_data.len()
    }
}

impl<N, E> Default for Graph<N, E> {
    /// An empty graph.
    fn default() -> (g: Self)
        ensures
            g.wf(),
            g@ == GraphModel::<N, E>::empty(),
    {
        Graph::new()
    }
}

impl<N, E> vstd::std_specs::core::IndexSpecImpl<NodeId> for Graph<N, E> {
    /// Indexing by a node handle asks for a live node.
    open spec fn index_req(&self, index: &NodeId) -> bool {
        self.wf() && self@.nodes.contains_key(index@)
    }
}

impl<N, E> std::ops::Index<NodeId> for Graph<N, E> {
    type Output = N;

    /// The payload of node `idx`.
    fn index(&self, idx: NodeId) -> (data: &N)
        ensures
            *data == self@.nodes[idx@],
    {
        self.get_node(idx)
    }
}

impl<N, E> vstd::std_specs::core::IndexSpecImpl<EdgeId> for Graph<N, E> {
    /// Indexing by an edge handle asks for a live edge.
    open spec fn index_req(&self, index: &EdgeId) -> bool {
        self.wf() && self@.edges.contains_key(index@)
    }
}

impl<N, E> std::ops::Index<EdgeId> for Graph<N, E> {
    type Output = E;

    /// The payload of edge `idx`.
    fn index(&self, idx: EdgeId) -> (data: &E)
        ensures
            *data == self@.edges[idx@].data,
    {
        self.get_edge(idx)
    }
}

} // verus!
