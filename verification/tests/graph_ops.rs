use arena_graph::{Edge, EdgeId, Graph, NodeId};

fn node_ids<N, E>(g: &Graph<N, E>) -> Vec<NodeId> {
    let mut ids = Vec::new();
    g.visit_nodes(|id, _| ids.push(id));
    ids.sort();
    ids
}

fn edge_rows(g: &Graph<&'static str, u32>) -> Vec<(EdgeId, &'static str, &'static str, u32)> {
    let mut rows = Vec::new();
    g.visit_edges(|id, left, right, data| rows.push((id, *left, *right, *data)));
    rows.sort();
    rows
}

fn drain(g: &Graph<&'static str, u32>, id: NodeId) -> Vec<NodeId> {
    let mut cursor = g.neighbors(id).detach();
    let mut out = Vec::new();
    while let Some(n) = cursor.next_node(g) {
        out.push(n);
    }
    out.sort();
    out
}

#[test]
fn new_graph_is_empty() {
    let g: Graph<u8, u8> = Graph::new();
    assert_eq!(g.node_count(), 0);
    assert!(node_ids(&g).is_empty());
    let mut edges = 0;
    g.visit_edges(|_, _, _, _| edges += 1);
    assert_eq!(edges, 0);
}

#[test]
fn default_graph_is_empty() {
    let g: Graph<String, ()> = Graph::default();
    assert_eq!(g.node_count(), 0);
    let unit: Graph = Graph::default();
    assert_eq!(unit.node_count(), 0);
}

#[test]
fn added_node_is_read_back() {
    let mut g: Graph<String, ()> = Graph::new();
    let a = g.add_node("alpha".to_string());
    let b = g.add_node("beta".to_string());
    assert_eq!(g.get_node(a), "alpha");
    assert_eq!(g.get_node(b), "beta");
    assert_eq!(&g[a], "alpha");
    assert_eq!(g.node_count(), 2);
}

#[test]
fn added_edge_is_read_back() {
    let mut g: Graph<&'static str, u32> = Graph::new();
    let a = g.add_node("a");
    let b = g.add_node("b");
    let e = g.add_edge(a, b, 7);
    assert_eq!(*g.get_edge(e), 7);
    assert_eq!(g[e], 7);
    *g.get_edge_mut(e) = 8;
    assert_eq!(*g.get_edge(e), 8);
    assert_eq!(edge_rows(&g), vec![(e, "a", "b", 8)]);
}

#[test]
fn node_payload_is_changed_in_place() {
    let mut g: Graph<u32, ()> = Graph::new();
    let a = g.add_node(1);
    let b = g.add_node(2);
    *g.get_node_mut(a) += 10;
    assert_eq!(*g.get_node(a), 11);
    assert_eq!(*g.get_node(b), 2);
    assert_eq!(g.node_count(), 2);
}

#[test]
fn handles_come_from_one_counter() {
    let mut g: Graph<(), ()> = Graph::new();
    let a = g.add_node(());
    let b = g.add_node(());
    let e = g.add_edge(a, b, ());
    let c = g.add_node(());
    let f = g.add_edge(b, c, ());
    assert_eq!(format!("{:?}", a), "NodeId(0)");
    assert_eq!(format!("{:?}", b), "NodeId(1)");
    assert_eq!(format!("{:?}", e), "EdgeId(2)");
    assert_eq!(format!("{:?}", c), "NodeId(3)");
    assert_eq!(format!("{:?}", f), "EdgeId(4)");
    assert!(a < b && b < c);
    assert!(e < f);
}

#[test]
fn handles_are_never_reissued() {
    let mut g: Graph<u32, u32> = Graph::new();
    let mut nodes = Vec::new();
    let mut edges = Vec::new();
    let first = g.add_node(0);
    nodes.push(first);
    for round in 1..20u32 {
        let n = g.add_node(round);
        let e = g.add_edge(first, n, round);
        assert!(!nodes.contains(&n));
        assert!(!edges.contains(&e));
        nodes.push(n);
        edges.push(e);
        if round % 2 == 0 {
            g.remove_node(n);
        } else {
            g.remove_edge(e);
        }
    }
    let again = g.add_node(99);
    assert!(nodes.iter().all(|n| *n < again));
    assert_eq!(format!("{:?}", again), "NodeId(39)");
}

#[test]
fn remove_node_lowers_count_by_one() {
    let mut g: Graph<&'static str, u32> = Graph::new();
    let a = g.add_node("a");
    let b = g.add_node("b");
    let c = g.add_node("c");
    g.add_edge(a, b, 1);
    let kept = g.add_edge(a, c, 2);
    g.add_edge(b, c, 3);
    g.add_edge(b, b, 4);
    assert_eq!(g.node_count(), 3);
    g.remove_node(b);
    assert_eq!(g.node_count(), 2);
    assert_eq!(node_ids(&g), vec![a, c]);
    assert_eq!(edge_rows(&g), vec![(kept, "a", "c", 2)]);
    assert_eq!(drain(&g, a), vec![c]);
    assert_eq!(drain(&g, c), vec![a]);
}

#[test]
fn removed_edges_stay_away_after_later_additions() {
    let mut g: Graph<&'static str, u32> = Graph::new();
    let a = g.add_node("a");
    let b = g.add_node("b");
    let ab = g.add_edge(a, b, 1);
    g.remove_node(b);
    let c = g.add_node("c");
    let ac = g.add_edge(a, c, 2);
    assert_ne!(ab, ac);
    assert_ne!(b, c);
    assert_eq!(edge_rows(&g), vec![(ac, "a", "c", 2)]);
}

#[test]
fn remove_node_twice_is_a_no_op() {
    let mut g: Graph<&'static str, u32> = Graph::new();
    let a = g.add_node("a");
    let b = g.add_node("b");
    let c = g.add_node("c");
    g.add_edge(a, b, 1);
    let ac = g.add_edge(a, c, 2);
    g.remove_node(b);
    let nodes = node_ids(&g);
    let edges = edge_rows(&g);
    g.remove_node(b);
    assert_eq!(g.node_count(), 2);
    assert_eq!(node_ids(&g), nodes);
    assert_eq!(edge_rows(&g), edges);
    assert_eq!(edges, vec![(ac, "a", "c", 2)]);
}

#[test]
fn remove_never_issued_node_is_a_no_op() {
    let mut other: Graph<(), ()> = Graph::new();
    let mut stranger = other.add_node(());
    for _ in 0..10 {
        stranger = other.add_node(());
    }
    let mut g: Graph<&'static str, u32> = Graph::new();
    let a = g.add_node("a");
    let b = g.add_node("b");
    let ab = g.add_edge(a, b, 1);
    g.remove_node(stranger);
    assert_eq!(g.node_count(), 2);
    assert_eq!(node_ids(&g), vec![a, b]);
    assert_eq!(edge_rows(&g), vec![(ab, "a", "b", 1)]);
}

#[test]
fn remove_edge_leaves_nodes_alone() {
    let mut g: Graph<&'static str, u32> = Graph::new();
    let a = g.add_node("a");
    let b = g.add_node("b");
    let ab = g.add_edge(a, b, 1);
    let ba = g.add_edge(b, a, 2);
    g.remove_edge(ab);
    assert_eq!(g.node_count(), 2);
    assert_eq!(*g.get_node(a), "a");
    assert_eq!(*g.get_node(b), "b");
    assert_eq!(edge_rows(&g), vec![(ba, "b", "a", 2)]);
    g.remove_edge(ab);
    assert_eq!(edge_rows(&g), vec![(ba, "b", "a", 2)]);
    assert_eq!(g.node_count(), 2);
}

#[test]
fn remove_never_issued_edge_is_a_no_op() {
    let mut other: Graph<(), ()> = Graph::new();
    let mut x = other.add_node(());
    for _ in 0..5 {
        x = other.add_node(());
    }
    let stranger = other.add_edge(x, x, ());
    let mut g: Graph<&'static str, u32> = Graph::new();
    let a = g.add_node("a");
    let aa = g.add_edge(a, a, 5);
    assert_ne!(stranger, aa);
    g.remove_edge(stranger);
    assert_eq!(g.node_count(), 1);
    assert_eq!(edge_rows(&g), vec![(aa, "a", "a", 5)]);
}

#[test]
fn added_edge_is_listed_exactly_once() {
    let mut g: Graph<&'static str, u32> = Graph::new();
    let l = g.add_node("left");
    let r = g.add_node("right");
    let old = g.add_edge(r, l, 1);
    let e = g.add_edge(l, r, 42);
    let rows = edge_rows(&g);
    assert_eq!(rows.len(), 2);
    assert_eq!(rows.iter().filter(|row| row.0 == e).count(), 1);
    assert_eq!(rows.iter().filter(|row| **row == (e, "left", "right", 42)).count(), 1);
    assert_eq!(rows.iter().filter(|row| **row == (old, "right", "left", 1)).count(), 1);
}

#[test]
fn visit_nodes_sees_every_node_once() {
    let mut g: Graph<u32, ()> = Graph::new();
    let mut expected = Vec::new();
    for i in 0..10u32 {
        expected.push((g.add_node(i * i), i * i));
    }
    let gone = expected.remove(4);
    g.remove_node(gone.0);
    let mut seen = Vec::new();
    g.visit_nodes(|id, data| seen.push((id, *data)));
    seen.sort();
    assert_eq!(seen, expected);
}

#[test]
fn visit_nodes_mut_changes_every_payload() {
    let mut g: Graph<u32, ()> = Graph::new();
    let a = g.add_node(1);
    let b = g.add_node(2);
    let c = g.add_node(3);
    let mut calls = 0;
    g.visit_nodes_mut(|_, data| {
        *data *= 10;
        calls += 1;
    });
    assert_eq!(calls, 3);
    assert_eq!(*g.get_node(a), 10);
    assert_eq!(*g.get_node(b), 20);
    assert_eq!(*g.get_node(c), 30);
    assert_eq!(g.node_count(), 3);
}

#[test]
fn visit_nodes_mut_is_told_the_handle() {
    let mut g: Graph<String, ()> = Graph::new();
    let a = g.add_node(String::new());
    let b = g.add_node(String::new());
    g.visit_nodes_mut(|id, data| *data = format!("{:?}", id));
    assert_eq!(g.get_node(a), "NodeId(0)");
    assert_eq!(g.get_node(b), "NodeId(1)");
}

#[test]
fn two_nodes_are_changed_independently() {
    let mut g: Graph<u32, ()> = Graph::new();
    let a = g.add_node(1);
    let b = g.add_node(2);
    let c = g.add_node(3);
    {
        let (x, y) = g.index_twice_mut(a, c);
        assert_eq!((*x, *y), (1, 3));
        *x = 100;
        assert_eq!(*y, 3);
        *y += *x;
        assert_eq!(*x, 100);
    }
    assert_eq!(*g.get_node(a), 100);
    assert_eq!(*g.get_node(b), 2);
    assert_eq!(*g.get_node(c), 103);
    let (y, x) = g.index_twice_mut(c, a);
    std::mem::swap(x, y);
    assert_eq!(*g.get_node(a), 103);
    assert_eq!(*g.get_node(c), 100);
    assert_eq!(g.node_count(), 3);
}

#[test]
fn payload_moves_along_an_edge() {
    let mut g: Graph<Vec<u8>, ()> = Graph::new();
    let from = g.add_node(vec![1, 2, 3]);
    let to = g.add_node(vec![9]);
    g.add_edge(from, to, ());
    let (src, dst) = g.index_twice_mut(from, to);
    dst.append(src);
    assert_eq!(*g.get_node(from), Vec::<u8>::new());
    assert_eq!(*g.get_node(to), vec![9, 1, 2, 3]);
}

#[test]
fn edge_record_holds_its_payload() {
    let plain: Edge = Edge::default();
    assert_eq!(plain.user_data, ());
    let number: Edge<u32> = Edge::default();
    assert_eq!(number.user_data, 0);
    let named = Edge { user_data: "road".to_string() };
    let copy = named.clone();
    assert_eq!(copy.user_data, "road");
    assert_eq!(named.user_data, "road");
}

#[test]
fn handles_compare_and_hash_by_value() {
    let mut g: Graph<(), ()> = Graph::new();
    let a = g.add_node(());
    let b = g.add_node(());
    let e = g.add_edge(a, b, ());
    let f = g.add_edge(a, b, ());
    let a2 = a;
    assert_eq!(a, a2);
    assert_ne!(a, b);
    assert_ne!(e, f);
    let mut set = std::collections::HashSet::new();
    assert!(set.insert(a));
    assert!(!set.insert(a2));
    assert!(set.insert(b));
    let mut edges = std::collections::BTreeSet::new();
    assert!(edges.insert(f));
    assert!(edges.insert(e));
    assert!(!edges.insert(f));
    assert_eq!(edges.into_iter().collect::<Vec<_>>(), vec![e, f]);
}

#[test]
fn liveness_follows_additions_and_removals() {
    let mut g: Graph<u8, u8> = Graph::new();
    let a = g.add_node(1);
    let b = g.add_node(2);
    let e = g.add_edge(a, b, 3);
    let f = g.add_edge(b, b, 4);
    assert!(g.contains_node(a) && g.contains_node(b));
    assert!(g.contains_edge(e) && g.contains_edge(f));
    g.remove_edge(f);
    assert!(!g.contains_edge(f));
    assert!(g.contains_edge(e));
    g.remove_node(a);
    assert!(!g.contains_node(a));
    assert!(g.contains_node(b));
    assert!(!g.contains_edge(e));
    let mut other: Graph<u8, u8> = Graph::new();
    let x = other.add_node(0);
    assert!(!g.contains_node(x));
}

#[test]
fn visit_edges_keeps_endpoint_order() {
    let mut g: Graph<&'static str, u32> = Graph::new();
    let a = g.add_node("a");
    let b = g.add_node("b");
    let ab = g.add_edge(a, b, 1);
    let ba = g.add_edge(b, a, 2);
    let aa = g.add_edge(a, a, 3);
    *g.get_node_mut(a) = "A";
    assert_eq!(edge_rows(&g), vec![(ab, "A", "b", 1), (ba, "b", "A", 2), (aa, "A", "A", 3)]);
}
