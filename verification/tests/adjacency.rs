use arena_graph::{Graph, NodeId};

fn drain<N, E>(g: &Graph<N, E>, id: NodeId) -> Vec<NodeId> {
    let mut cursor = g.neighbors(id).detach();
    let mut out = Vec::new();
    while let Some(n) = cursor.next_node(()) {
        out.push(n);
    }
    out.sort();
    out
}

#[test]
fn scenario_remove_middle_node() {
    let mut g: Graph<&'static str, &'static str> = Graph::new();
    let a = g.add_node("A");
    let b = g.add_node("B");
    let c = g.add_node("C");
    g.add_edge(a, b, "A-B");
    g.add_edge(b, c, "B-C");
    assert_eq!(drain(&g, b), vec![a, c]);
    assert_eq!(g.node_count(), 3);
    g.remove_node(b);
    assert_eq!(g.node_count(), 2);
    let mut edges = 0;
    g.visit_edges(|_, _, _, _| edges += 1);
    assert_eq!(edges, 0);
    assert!(drain(&g, a).is_empty());
    assert!(drain(&g, c).is_empty());
}

#[test]
fn neighbors_are_the_opposite_endpoints() {
    let mut g: Graph<(), ()> = Graph::new();
    let n = g.add_node(());
    let a = g.add_node(());
    let b = g.add_node(());
    let far = g.add_node(());
    g.add_edge(n, a, ());
    g.add_edge(b, n, ());
    g.add_edge(a, far, ());
    let found = drain(&g, n);
    assert_eq!(found, vec![a, b]);
    assert!(!found.contains(&n));
    assert_eq!(drain(&g, a), vec![n, far]);
    assert_eq!(drain(&g, b), vec![n]);
    assert_eq!(drain(&g, far), vec![a]);
}

#[test]
fn node_without_edges_has_no_neighbors() {
    let mut g: Graph<(), ()> = Graph::new();
    let a = g.add_node(());
    let b = g.add_node(());
    let c = g.add_node(());
    g.add_edge(a, b, ());
    assert!(drain(&g, c).is_empty());
    let mut cursor = g.neighbors(c).detach();
    assert_eq!(cursor.next_node(()), None);
    assert_eq!(cursor.next_node(()), None);
}

#[test]
fn parallel_edges_list_a_neighbor_once_each() {
    let mut g: Graph<(), u8> = Graph::new();
    let a = g.add_node(());
    let b = g.add_node(());
    g.add_edge(a, b, 1);
    g.add_edge(b, a, 2);
    g.add_edge(a, b, 3);
    assert_eq!(drain(&g, a), vec![b, b, b]);
    assert_eq!(drain(&g, b), vec![a, a, a]);
}

#[test]
fn loop_lists_the_node_itself_once() {
    let mut g: Graph<(), ()> = Graph::new();
    let a = g.add_node(());
    let b = g.add_node(());
    g.add_edge(a, a, ());
    g.add_edge(a, b, ());
    assert_eq!(drain(&g, a), vec![a, b]);
    assert_eq!(drain(&g, b), vec![a]);
}

#[test]
fn removing_an_edge_removes_the_neighbor() {
    let mut g: Graph<(), ()> = Graph::new();
    let a = g.add_node(());
    let b = g.add_node(());
    let c = g.add_node(());
    let ab = g.add_edge(a, b, ());
    g.add_edge(c, a, ());
    assert_eq!(drain(&g, a), vec![b, c]);
    g.remove_edge(ab);
    assert_eq!(drain(&g, a), vec![c]);
    assert!(drain(&g, b).is_empty());
}

#[test]
fn cursor_keeps_its_snapshot() {
    let mut g: Graph<(), ()> = Graph::new();
    let a = g.add_node(());
    let b = g.add_node(());
    let c = g.add_node(());
    g.add_edge(a, b, ());
    g.add_edge(a, c, ());
    let mut cursor = g.neighbors(a).detach();
    g.remove_node(b);
    g.remove_node(c);
    let d = g.add_node(());
    g.add_edge(a, d, ());
    let mut seen = Vec::new();
    while let Some(n) = cursor.next_node(&g) {
        seen.push(n);
    }
    seen.sort();
    assert_eq!(seen, vec![b, c]);
    assert_eq!(drain(&g, a), vec![d]);
}

#[test]
fn cursor_stays_finished() {
    let mut g: Graph<(), ()> = Graph::new();
    let a = g.add_node(());
    let b = g.add_node(());
    g.add_edge(a, b, ());
    let mut cursor = g.neighbors(a).detach();
    assert_eq!(cursor.next_node(0u8), Some(b));
    assert_eq!(cursor.next_node("anything"), None);
    assert_eq!(cursor.next_node(()), None);
    assert_eq!(cursor.next_node(()), None);
}

#[test]
fn neighbors_data_pairs_handles_with_payloads() {
    let mut g: Graph<String, ()> = Graph::new();
    let n = g.add_node("n".to_string());
    let a = g.add_node("a".to_string());
    let b = g.add_node("b".to_string());
    g.add_edge(n, a, ());
    g.add_edge(b, n, ());
    let snapshot = g.neighbors_data(n);
    let mut ids = Vec::new();
    let mut cursor = snapshot.detach();
    while let Some(id) = cursor.next_node(&g) {
        ids.push(id);
    }
    assert_eq!(cursor.next_node(&g), None);
    let mut payloads = Vec::new();
    let mut cursor = snapshot.detach();
    while let Some(data) = cursor.next() {
        payloads.push(data.clone());
    }
    assert_eq!(cursor.next(), None);
    assert_eq!(ids.len(), 2);
    for (id, data) in ids.iter().zip(payloads.iter()) {
        assert_eq!(g.get_node(*id), data);
    }
    ids.sort();
    payloads.sort();
    assert_eq!(ids, vec![a, b]);
    assert_eq!(payloads, vec!["a".to_string(), "b".to_string()]);
}

#[test]
fn data_cursor_steps_by_either_method() {
    let mut g: Graph<u32, ()> = Graph::new();
    let n = g.add_node(0);
    let a = g.add_node(10);
    g.add_edge(n, a, ());
    g.add_edge(a, n, ());
    g.add_edge(n, n, ());
    let snapshot = g.neighbors_data(n);
    let mut cursor = snapshot.detach();
    let mut ids = Vec::new();
    let mut sum = 0;
    ids.push(cursor.next_node(()).unwrap());
    sum += *cursor.next().unwrap();
    ids.push(cursor.next_node(()).unwrap());
    assert_eq!(cursor.next(), None);
    assert_eq!(cursor.next_node(()), None);
    let mut all = Vec::new();
    let mut again = snapshot.detach();
    while let Some(data) = again.next() {
        all.push(*data);
    }
    all.sort();
    assert_eq!(all, vec![0, 10, 10]);
    assert!(sum == 0 || sum == 10);
    assert!(ids.iter().all(|id| *id == n || *id == a));
}

#[test]
fn neighbors_data_of_isolated_node_is_empty() {
    let mut g: Graph<u32, ()> = Graph::new();
    let a = g.add_node(1);
    let snapshot = g.neighbors_data(a);
    let mut cursor = snapshot.detach();
    assert_eq!(cursor.next(), None);
    assert_eq!(cursor.next_node(()), None);
}
