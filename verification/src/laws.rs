//! What holds of every graph, stated over the model.

use crate::model::{GraphModel, Op};
use vstd::prelude::*;
use vstd::set_lib::{lemma_set_difference_len, lemma_set_subset_finite};

verus! {

/// The empty graph satisfies the invariant and is anchored.
pub proof fn lemma_empty_inv<N, E>()
    ensures
        GraphModel::<N, E>::empty().inv(),
        GraphModel::<N, E>::empty().anchored(),
{
}

/// Every operation keeps the invariant.
pub proof fn lemma_inv_kept<N, E>(m: GraphModel<N, E>, op: Op<N, E>)
    requires
        m.inv(),
    ensures
        m.apply(op).inv(),
        m.apply(op).issued >= m.issued,
        op.issues() ==> m.apply(op).issued == m.issued + 1,
{
    if let Op::RemoveNode(n) = op {
        lemma_set_subset_finite(m.edges.dom(), m.remove_node(n).edges.dom());
    }
}

/// Every run of operations keeps the invariant and never lowers the count
/// of issued handles.
pub proof fn lemma_inv_kept_all<N, E>(m: GraphModel<N, E>, ops: Seq<Op<N, E>>)
    requires
        m.inv(),
    ensures
        m.apply_all(ops).inv(),
        m.apply_all(ops).issued >= m.issued,
    decreases ops.len(),
{
    if ops.len() > 0 {
        lemma_inv_kept_all(m, ops.drop_last());
        lemma_inv_kept(m.apply_all(ops.drop_last()), ops.last());
    }
}

/// Replacing the payload of a live node keeps the invariant and the
/// anchoring.
pub proof fn lemma_set_node_kept<N, E>(m: GraphModel<N, E>, n: nat, data: N)
    requires
        m.inv(),
        m.nodes.contains_key(n),
    ensures
        m.set_node(n, data).inv(),
        m.anchored() ==> m.set_node(n, data).anchored(),
{
}

/// Replacing the payload of a live edge keeps the invariant and the
/// anchoring.
pub proof fn lemma_set_edge_kept<N, E>(m: GraphModel<N, E>, e: nat, data: E)
    requires
        m.inv(),
        m.edges.contains_key(e),
    ensures
        m.set_edge(e, data).inv(),
        m.anchored() ==> m.set_edge(e, data).anchored(),
{
}

/// Anchoring survives every operation, provided that an added edge is given
/// live endpoints. In particular, removing a node leaves no edge behind that
/// would point at it.
pub proof fn lemma_anchored_kept<N, E>(m: GraphModel<N, E>, op: Op<N, E>)
    requires
        m.inv(),
        m.anchored(),
        op matches Op::AddEdge(left, right, _) ==> m.nodes.contains_key(left)
            && m.nodes.contains_key(right),
    ensures
        m.apply(op).anchored(),
{
}

/// In an anchored graph every neighbour of every node is live.
pub proof fn lemma_anchored_neighbors_live<N, E>(m: GraphModel<N, E>, n: nat)
    requires
        m.anchored(),
    ensures
        m.neighbors_live(n),
{
}

/// A node that was just added is found under the handle that was returned
/// for it, with the payload it was given, and no other node has changed.
pub proof fn lemma_added_node_is_stored<N, E>(m: GraphModel<N, E>, data: N)
    requires
        m.inv(),
    ensures
        !m.nodes.contains_key(m.issued),
        m.add_node(data).nodes.contains_key(m.issued),
        m.add_node(data).nodes[m.issued] == data,
        m.add_node(data).nodes.remove(m.issued) == m.nodes,
        m.add_node(data).nodes.len() == m.nodes.len() + 1,
{
}

/// Removing a live node lowers the number of nodes by exactly one and takes
/// every edge at that node with it; the other nodes and edges stay as they
/// were, and no edge at the removed node is left.
pub proof fn lemma_remove_node_cascades<N, E>(m: GraphModel<N, E>, n: nat)
    requires
        m.inv(),
    ensures
        m.nodes.contains_key(n) ==> m.remove_node(n).nodes.len() == m.nodes.len() - 1,
        !m.nodes.contains_key(n) ==> m.remove_node(n).nodes == m.nodes,
        forall|e: nat| m.incident(n).contains(e) ==> !m.remove_node(n).edges.contains_key(e),
        forall|e: nat|
            m.edges.contains_key(e) && !m.incident(n).contains(e) ==> m.remove_node(
                n,
            ).edges.contains_key(e) && m.remove_node(n).edges[e] == m.edges[e],
        forall|e: nat| m.remove_node(n).edges.contains_key(e) ==> m.edges.contains_key(e),
        m.remove_node(n).incident(n) == Set::<nat>::empty(),
        m.remove_node(n).edges.len() == m.edges.len() - m.incident(n).len(),
{
    assert(m.remove_node(n).edges.dom() =~= m.edges.dom().difference(m.incident(n)));
    assert(m.edges.dom().intersect(m.incident(n)) =~= m.incident(n));
    lemma_set_subset_finite(m.edges.dom(), m.incident(n));
    lemma_set_difference_len(m.edges.dom(), m.incident(n));
}

/// A handle that is not live, and is behind the counter, is not live after
/// any further run of operations either: what was removed stays removed, and
/// its handle is not issued again.
pub proof fn lemma_removed_stays_removed<N, E>(m: GraphModel<N, E>, ops: Seq<Op<N, E>>, k: nat)
    requires
        m.inv(),
        k < m.issued,
    ensures
        !m.nodes.contains_key(k) ==> !m.apply_all(ops).nodes.contains_key(k),
        !m.edges.contains_key(k) ==> !m.apply_all(ops).edges.contains_key(k),
    decreases ops.len(),
{
    if ops.len() > 0 {
        lemma_removed_stays_removed(m, ops.drop_last(), k);
        lemma_inv_kept_all(m, ops.drop_last());
    }
}

/// An edge that was just added is found under the handle that was returned
/// for it, which no edge had before. A visitor of edges is shown the payloads
/// of the two endpoints and the payload of the edge for it, and every other
/// edge as before.
pub proof fn lemma_added_edge_is_listed<N, E>(m: GraphModel<N, E>, left: nat, right: nat, data: E)
    requires
        m.inv(),
    ensures
        !m.edges.contains_key(m.issued),
        m.add_edge(left, right, data).edges.dom() == m.edges.dom().insert(m.issued),
        m.add_edge(left, right, data).edges.len() == m.edges.len() + 1,
        m.add_edge(left, right, data).edge_tuple(m.issued) == (
            m.nodes[left],
            m.nodes[right],
            data,
        ),
        forall|e: nat|
            m.edges.contains_key(e) ==> m.add_edge(left, right, data).edge_tuple(e)
                == m.edge_tuple(e),
{
}

/// Removing a node a second time changes nothing, and neither does removing
/// an edge a second time.
pub proof fn lemma_remove_idempotent<N, E>(m: GraphModel<N, E>, k: nat)
    ensures
        m.remove_node(k).remove_node(k) == m.remove_node(k),
        m.remove_edge(k).remove_edge(k) == m.remove_edge(k),
{
}

/// Removing a node that is not live changes nothing in an anchored graph,
/// and removing an edge that is not live changes nothing in any graph. This
/// covers handles that were never issued.
pub proof fn lemma_remove_absent<N, E>(m: GraphModel<N, E>, k: nat)
    ensures
        m.anchored() && !m.nodes.contains_key(k) ==> m.remove_node(k) == m,
        !m.edges.contains_key(k) ==> m.remove_edge(k) == m,
{
}

/// The handle that the operation at index `at` of a run is given, if it
/// issues one: the count of handles issued before it.
pub open spec fn handle_issued<N, E>(m: GraphModel<N, E>, ops: Seq<Op<N, E>>, at: int) -> nat {
    m.apply_all(ops.take(at)).issued
}

/// Over any run of additions and removals, a later addition is given a
/// larger handle than an earlier one, so no two additions are given the same
/// handle; and the handle is one that nothing live has and that was never
/// issued before the run.
pub proof fn lemma_handles_never_repeat<N, E>(
    m: GraphModel<N, E>,
    ops: Seq<Op<N, E>>,
    first: int,
    second: int,
)
    requires
        m.inv(),
        0 <= first < second < ops.len(),
        ops[first].issues(),
    ensures
        handle_issued(m, ops, first) < handle_issued(m, ops, second),
        m.issued <= handle_issued(m, ops, first),
        !m.apply_all(ops.take(second)).nodes.contains_key(handle_issued(m, ops, second)),
        !m.apply_all(ops.take(second)).edges.contains_key(handle_issued(m, ops, second)),
{
    let before = ops.take(first);
    let upto = ops.take(first + 1);
    let rest = ops.take(second).skip(first + 1);
    lemma_inv_kept_all(m, before);
    assert(upto.drop_last() =~= before);
    lemma_inv_kept(m.apply_all(before), ops[first]);
    lemma_apply_all_split(m, ops.take(second), first + 1);
    assert(ops.take(second).take(first + 1) =~= upto);
    lemma_inv_kept_all(m.apply_all(upto), rest);
    lemma_inv_kept_all(m, ops.take(second));
}

/// Running a sequence of operations is running its first part and then the
/// rest.
pub proof fn lemma_apply_all_split<N, E>(m: GraphModel<N, E>, ops: Seq<Op<N, E>>, at: int)
    requires
        0 <= at <= ops.len(),
    ensures
        m.apply_all(ops) == m.apply_all(ops.take(at)).apply_all(ops.skip(at)),
    decreases ops.len(),
{
    if at == ops.len() {
        assert(ops.take(at) =~= ops);
    } else {
        lemma_apply_all_split(m, ops.drop_last(), at);
        assert(ops.drop_last().take(at) =~= ops.take(at));
        assert(ops.drop_last().skip(at) =~= ops.skip(at).drop_last());
    }
}

/// Being neighbours does not depend on which endpoint of an edge a node is:
/// `b` is a neighbour of `a` as often as `a` is a neighbour of `b`, and that
/// is more than never exactly when some edge joins the two.
pub proof fn lemma_neighbors_symmetric<N, E>(m: GraphModel<N, E>, a: nat, b: nat)
    requires
        m.inv(),
    ensures
        m.links(a, b) == m.links(b, a),
        m.neighbor_count(a, b) == m.neighbor_count(b, a),
        m.neighbor_count(a, b) > 0 <==> exists|e: nat|
            #![trigger m.edges[e]]
            m.edges.contains_key(e) && ((m.edges[e].left == a && m.edges[e].right == b) || (
            m.edges[e].left == b && m.edges[e].right == a)),
{
    assert(m.links(a, b) =~= m.links(b, a));
    lemma_set_subset_finite(m.edges.dom(), m.links(a, b));
    if m.neighbor_count(a, b) > 0 {
        let e = m.links(a, b).choose();
        assert(m.links(a, b).contains(e));
    }
    if exists|e: nat|
        #![trigger m.edges[e]]
        m.edges.contains_key(e) && ((m.edges[e].left == a && m.edges[e].right == b) || (
        m.edges[e].left == b && m.edges[e].right == a)) {
        let e = choose|e: nat|
            #![trigger m.edges[e]]
            m.edges.contains_key(e) && ((m.edges[e].left == a && m.edges[e].right == b) || (
            m.edges[e].left == b && m.edges[e].right == a));
        assert(m.links(a, b).contains(e));
    }
}

/// A node is its own neighbour only through an edge from it to itself.
pub proof fn lemma_never_own_neighbor<N, E>(m: GraphModel<N, E>, n: nat)
    requires
        m.inv(),
        forall|e: nat|
            #![trigger m.edges[e]]
            m.edges.contains_key(e) ==> !(m.edges[e].left == n && m.edges[e].right == n),
    ensures
        m.neighbor_count(n, n) == 0,
{
    assert(m.links(n, n) =~= Set::<nat>::empty());
}

/// Adding an edge between `left` and `right` makes each of them a neighbour
/// of the other once more, whichever of the two is named first, and changes
/// nothing else about who neighbours whom.
pub proof fn lemma_add_edge_neighbors<N, E>(
    m: GraphModel<N, E>,
    left: nat,
    right: nat,
    data: E,
    a: nat,
    b: nat,
)
    requires
        m.inv(),
    ensures
        m.add_edge(left, right, data).neighbor_count(a, b) == m.neighbor_count(a, b) + (if (a
            == left && b == right) || (a == right && b == left) {
            1nat
        } else {
            0nat
        }),
{
    let after = m.add_edge(left, right, data);
    lemma_set_subset_finite(m.edges.dom(), m.links(a, b));
    if (a == left && b == right) || (a == right && b == left) {
        assert(after.links(a, b) =~= m.links(a, b).insert(m.issued));
    } else {
        assert(after.links(a, b) =~= m.links(a, b));
    }
}

/// A node with no edges that is then joined to `a` and to `b`, once as the
/// left and once as the right endpoint, has exactly `a` and `b` as its
/// neighbours, and is not its own neighbour unless `a` or `b` is the node
/// itself.
pub proof fn lemma_two_edges_two_neighbors<N, E>(
    m: GraphModel<N, E>,
    n: nat,
    a: nat,
    b: nat,
    first: E,
    second: E,
    other: nat,
)
    requires
        m.inv(),
        m.incident(n) == Set::<nat>::empty(),
    ensures
        m.add_edge(n, a, first).add_edge(b, n, second).neighbor_count(n, other) == (if other
            == a {
            1nat
        } else {
            0nat
        }) + (if other == b {
            1nat
        } else {
            0nat
        }),
        m.add_edge(n, a, first).add_edge(b, n, second).incident(n).len() == 2,
{
    let one = m.add_edge(n, a, first);
    let two = one.add_edge(b, n, second);
    lemma_inv_kept(m, Op::AddEdge(n, a, first));
    lemma_add_edge_neighbors(m, n, a, first, n, other);
    lemma_add_edge_neighbors(one, b, n, second, n, other);
    assert(m.links(n, other) =~= Set::<nat>::empty());
    assert(two.incident(n) =~= set![m.issued, m.issued + 1]);
}

/// Removing an edge takes one away from how often its two endpoints are
/// neighbours of each other, and changes nothing else about who neighbours
/// whom.
pub proof fn lemma_remove_edge_neighbors<N, E>(m: GraphModel<N, E>, e: nat, a: nat, b: nat)
    requires
        m.inv(),
    ensures
        m.remove_edge(e).neighbor_count(a, b) == m.neighbor_count(a, b) - (if m.links(
            a,
            b,
        ).contains(e) {
            1nat
        } else {
            0nat
        }),
{
    let after = m.remove_edge(e);
    lemma_set_subset_finite(m.edges.dom(), m.links(a, b));
    if m.links(a, b).contains(e) {
        assert(after.links(a, b) =~= m.links(a, b).remove(e));
    } else {
        assert(after.links(a, b) =~= m.links(a, b));
    }
}

/// After a node was removed it has no neighbours and is nobody's neighbour;
/// between the other nodes nothing has changed.
pub proof fn lemma_remove_node_neighbors<N, E>(m: GraphModel<N, E>, n: nat, a: nat, b: nat)
    requires
        m.inv(),
    ensures
        m.remove_node(n).neighbor_count(a, b) == (if a == n || b == n {
            0
        } else {
            m.neighbor_count(a, b)
        }),
{
    let after = m.remove_node(n);
    if a == n || b == n {
        assert(after.links(a, b) =~= Set::<nat>::empty());
    } else {
        assert(after.links(a, b) =~= m.links(a, b));
    }
}

/// Writing to two different nodes is independent: each keeps what was
/// written to it, whichever was written first, and no other node changes.
pub proof fn lemma_dual_access_independent<N, E>(m: GraphModel<N, E>, a: nat, b: nat, x: N, y: N)
    requires
        a != b,
    ensures
        m.set_node(a, x).set_node(b, y) == m.set_node(b, y).set_node(a, x),
        m.set_node(a, x).set_node(b, y).nodes[a] == x,
        m.set_node(a, x).set_node(b, y).nodes[b] == y,
        forall|k: nat|
            k != a && k != b && m.nodes.contains_key(k) ==> m.set_node(a, x).set_node(
                b,
                y,
            ).nodes[k] == m.nodes[k],
{
}

} // verus!
