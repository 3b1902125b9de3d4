use graph::{NodeError, NodeIndex, WUGraph};

#[test]
fn directed_simple_graph_walkthrough() {
    let mut ug = WUGraph::new(false, false);
    let u1 = ug.new_node(100);
    let u2 = ug.new_node(200);
    let u3 = ug.new_node(300);

    ug.connect(u1, u2);
    ug.connect(u2, u3);
    ug.connect(u3, u1);

    assert!(ug.are_connected(u1, u2));
    assert!(!ug.are_connected(u2, u1));
    assert!(!ug.are_connected(u1, u3));
    assert_eq!(ug.neighbors_out(u1), &vec![u2]);
    assert_eq!(ug.neighbors_in(u1), &vec![u3]);
    assert_eq!(ug.iter_neighbors_out(u1), vec![u2]);
    assert_eq!(ug.edge_count(), 3);

    // An existing edge is not added again.
    ug.try_connect(u1, u2).unwrap();
    assert_eq!(ug.edge_count(), 3);

    // Self-loops are refused.
    assert_eq!(ug.try_connect(u1, u1), Err(NodeError::SelfLoop(u1)));

    assert_eq!(ug.edge_count_between(u1, u2), 1);
    assert_eq!(ug.edge_count_between(u2, u1), 0);

    assert_eq!(ug.iter_node(), vec![u1, u2, u3]);
    let values: Vec<i32> = ug.iter_value().into_iter().copied().collect();
    assert_eq!(values, vec![100, 200, 300]);
    assert_eq!(ug.iter_edges(), vec![(u1, u2), (u2, u3), (u3, u1)]);

    assert_eq!(ug.find(&200), Some(u2));
    assert_eq!(ug.find(&999), None);

    assert_eq!(ug.bfs(u1), vec![u1, u2, u3]);
    assert_eq!(ug.dfs(u1), vec![u1, u2, u3]);

    let old_val = ug.try_insert(u2, 250).unwrap();
    assert_eq!(old_val, 200);
    assert_eq!(*ug.value(u2), 250);

    ug.disconnect(u2, u3);
    assert!(!ug.are_connected(u2, u3));
    assert_eq!(ug.edge_count(), 2);

    ug.del(u2);
    assert!(!ug.has_node(u2));
    assert_eq!(ug.node_count(), 2);
    assert_eq!(ug.edge_count(), 1);
    assert_eq!(ug.iter_edges(), vec![(u3, u1)]);
}

#[test]
fn directed_connect_all_both_ways() {
    let mut ug2 = WUGraph::new(false, false);
    let a = ug2.new_node("A");
    let b = ug2.new_node("B");
    let c = ug2.new_node("C");
    ug2.connect_all(&[a, b, c]);
    assert_eq!(ug2.edge_count(), 6);
    for &x in &[a, b, c] {
        for &y in &[a, b, c] {
            assert_eq!(ug2.are_connected(x, y), x != y);
        }
    }
}

#[test]
fn directed_remove_all_edges_both_directions() {
    let mut ug3 = WUGraph::new(false, false);
    let x = ug3.new_node(1);
    let y = ug3.new_node(2);
    ug3.connect(x, y);
    ug3.connect(y, x);
    assert_eq!(ug3.edge_count(), 2);
    let removed = ug3.remove_all_edges(x, y);
    assert_eq!(removed, 2);
    assert_eq!(ug3.edge_count(), 0);
    assert_eq!(ug3.try_remove_all_edges(x, y), Err(NodeError::NoEdge(x, y)));

    let fake = ug3.first_node().unwrap();
    ug3.del(fake);
    assert_eq!(ug3.try_connect(fake, y), Err(NodeError::InvalidIndex(fake)));
}

#[test]
fn directed_self_loops_allowed() {
    let mut ug = WUGraph::new(true, false);
    let u1 = ug.new_node(10);
    let u2 = ug.new_node(20);
    let u3 = ug.new_node(30);
    ug.connect(u1, u2);
    ug.connect(u2, u3);
    ug.connect(u3, u3);
    assert!(ug.are_connected(u3, u3));
    assert!(!ug.are_connected(u1, u3));
    assert_eq!(ug.neighbors_out(u3), &vec![u3]);
    assert_eq!(ug.neighbors_in(u3), &vec![u2, u3]);

    ug.try_connect(u1, u2).unwrap();
    assert_eq!(ug.edge_count(), 3);
    ug.try_connect(u3, u3).unwrap();
    assert_eq!(ug.edge_count(), 3);
    assert_eq!(ug.edge_count_between(u3, u3), 1);

    assert_eq!(ug.bfs(u3), vec![u3]);
    assert_eq!(ug.dfs(u3), vec![u3]);
    assert_eq!(ug.bfs(u1), vec![u1, u2, u3]);

    ug.disconnect(u3, u3);
    assert!(!ug.are_connected(u3, u3));
    assert_eq!(ug.edge_count(), 2);

    let mut ug2 = WUGraph::new(true, false);
    let a = ug2.new_node('a');
    let b = ug2.new_node('b');
    let c = ug2.new_node('c');
    ug2.connect_all(&[a, b, c]);
    assert!(!ug2.are_connected(a, a));
    assert_eq!(ug2.edge_count(), 6);

    let mut ug3 = WUGraph::new(true, false);
    let x = ug3.new_node(1);
    let y = ug3.new_node(2);
    ug3.connect(x, y);
    ug3.connect(y, x);
    assert_eq!(ug3.edge_count(), 2);
    assert_eq!(ug3.remove_all_edges(x, y), 2);
    assert_eq!(ug3.edge_count(), 0);

    let mut ug4 = WUGraph::new(true, false);
    let p = ug4.new_node(42);
    ug4.connect(p, p);
    ug4.del(p);
    assert!(!ug4.has_node(p));
    assert_eq!(ug4.node_count(), 0);
}

#[test]
fn directed_parallel_edges_allowed() {
    let mut ug = WUGraph::new(false, true);
    let u1 = ug.new_node(1);
    let u2 = ug.new_node(2);
    let u3 = ug.new_node(3);
    ug.connect(u1, u2);
    ug.connect(u1, u2);
    ug.connect(u2, u3);
    ug.connect(u2, u3);
    assert_eq!(ug.edge_count(), 4);
    assert_eq!(ug.edge_count_between(u1, u2), 2);
    assert_eq!(ug.edge_count_between(u2, u3), 2);
    assert_eq!(ug.try_connect(u1, u1), Err(NodeError::SelfLoop(u1)));
    assert_eq!(ug.neighbors_out(u1), &vec![u2, u2]);
    assert_eq!(ug.neighbors_in(u2), &vec![u1, u1]);

    // Disconnecting takes out every parallel edge.
    ug.disconnect(u1, u2);
    assert_eq!(ug.edge_count_between(u1, u2), 0);
    assert_eq!(ug.edge_count(), 2);

    let removed = ug.remove_all_edges(u2, u3);
    assert_eq!(removed, 2);
    assert_eq!(ug.edge_count_between(u2, u3), 0);
    assert_eq!(ug.edge_count(), 0);

    let mut ug2 = WUGraph::new(false, true);
    let a = ug2.new_node('A');
    let b = ug2.new_node('B');
    let c = ug2.new_node('C');
    ug2.connect_all(&[a, b, c]);
    assert_eq!(ug2.edge_count(), 6);
    ug2.connect_all(&[a, b, c]);
    assert_eq!(ug2.edge_count(), 12);
    assert_eq!(ug2.edge_count_between(a, b), 2);

    let mut ug3 = WUGraph::new(false, true);
    let x = ug3.new_node(10);
    let y = ug3.new_node(20);
    ug3.connect(x, y);
    ug3.connect(x, y);
    ug3.del(x);
    assert!(!ug3.has_node(x));
    assert_eq!(ug3.edge_count(), 0);
    assert!(ug3.neighbors_in(y).is_empty());
}

#[test]
fn directed_self_loops_and_parallel_edges() {
    let mut ug = WUGraph::new(true, true);
    let u1 = ug.new_node(100);
    let u2 = ug.new_node(200);
    let u3 = ug.new_node(300);
    ug.connect(u1, u2);
    ug.connect(u1, u2);
    ug.connect(u2, u3);
    ug.connect(u3, u3);
    ug.connect(u3, u3);
    assert_eq!(ug.edge_count(), 5);
    assert_eq!(ug.edge_count_between(u1, u2), 2);
    assert_eq!(ug.edge_count_between(u3, u3), 2);
    assert_eq!(ug.neighbors_out(u3), &vec![u3, u3]);

    ug.disconnect(u1, u2);
    assert_eq!(ug.edge_count_between(u1, u2), 0);
    assert_eq!(ug.edge_count(), 3);
    ug.disconnect(u3, u3);
    assert_eq!(ug.edge_count_between(u3, u3), 0);
    assert_eq!(ug.edge_count(), 1);
    assert_eq!(ug.remove_all_edges(u2, u3), 1);
    assert_eq!(ug.edge_count(), 0);

    let mut ug2 = WUGraph::new(true, true);
    let a = ug2.new_node('A');
    let b = ug2.new_node('B');
    let c = ug2.new_node('C');
    ug2.connect_all(&[a, b, c]);
    assert_eq!(ug2.edge_count(), 6);
    ug2.connect_all(&[a, b, c]);
    assert_eq!(ug2.edge_count(), 12);
    assert_eq!(ug2.edge_count_between(a, b), 2);
    ug2.connect(a, a);
    ug2.connect(b, b);
    ug2.connect(c, c);
    assert_eq!(ug2.edge_count(), 15);
    ug2.remove_all_edges(a, b);
    ug2.remove_all_edges(a, c);
    ug2.remove_all_edges(b, c);
    assert_eq!(ug2.edge_count(), 3);
}

#[test]
fn directed_errors() {
    let mut g: WUGraph<i32> = WUGraph::default();
    assert!(!g.is_allow_self_loop());
    assert!(!g.is_pseudo_graph());
    let a = g.new_node(1);
    let b = g.new_node(2);
    let bad = NodeIndex { index: 999 };
    assert_eq!(g.try_connect(a, bad), Err(NodeError::InvalidIndex(bad)));
    assert_eq!(g.try_connect(bad, a), Err(NodeError::InvalidIndex(bad)));
    assert_eq!(g.try_disconnect(a, b), Err(NodeError::NoEdge(a, b)));
    assert_eq!(g.try_are_connected(a, bad), Err(NodeError::InvalidIndex(bad)));
    assert_eq!(g.try_edge_count_between(bad, a), Err(NodeError::InvalidIndex(bad)));
    assert_eq!(g.try_del(bad), Err(NodeError::InvalidIndex(bad)));
    assert_eq!(g.try_insert(bad, 5), Err(NodeError::InvalidIndex(bad)));
    assert!(matches!(g.try_value(bad), Err(NodeError::InvalidIndex(_))));
    assert!(matches!(g.try_neighbors_out(bad), Err(NodeError::InvalidIndex(_))));
    assert!(matches!(g.try_neighbors_in(bad), Err(NodeError::InvalidIndex(_))));
    assert_eq!(g.try_bfs(bad), Err(NodeError::InvalidIndex(bad)));
    assert_eq!(g.try_dfs(bad), Err(NodeError::InvalidIndex(bad)));
    assert_eq!(g.try_connect_all(&[a, bad, b]), Err(NodeError::InvalidIndex(bad)));
    assert_eq!(g.edge_count(), 0);
    // A repeated node without self-loops stops connect_all at that pair.
    assert_eq!(g.try_connect_all(&[a, b, a]), Err(NodeError::SelfLoop(a)));
    assert!(g.are_connected(a, b) && g.are_connected(b, a));
}

#[test]
fn directed_values_and_stale_handles() {
    let mut g = WUGraph::new(false, false);
    let a = g.new_node(1);
    let b = g.new_node(2);
    *g.value_mut(a) = 10;
    assert_eq!(*g.value(a), 10);
    *g.try_value_mut(b).unwrap() = 20;
    assert_eq!(*g.try_value(b).unwrap(), 20);
    g.try_neighbors_out_mut(a).unwrap().push(b);
    g.try_neighbors_in_mut(b).unwrap().push(a);
    assert!(g.are_connected(a, b));
    g.del(a);
    let c = g.new_node(3);
    assert_ne!(c, a);
    assert_eq!(c.index, 2);
    assert_eq!(*g.value(c), 3);
    assert_eq!(g[c], 3);
    assert_eq!(g[b], 20);
    assert!(g.neighbors_in(b).is_empty());
    assert_eq!(g.first_node(), Some(b));
    // The handle of the deleted node stays invalid after a new node is added.
    assert!(!g.has_node(a));
    assert_eq!(g.try_value(a), Err(NodeError::InvalidIndex(a)));
    assert_eq!(g.try_connect(a, b), Err(NodeError::InvalidIndex(a)));
    assert_eq!(g.iter_node(), vec![b, c]);
    assert_eq!(g.deleted, vec![a.index]);
}

#[test]
fn directed_traversal_orders() {
    let mut g = WUGraph::new(false, false);
    let n: Vec<NodeIndex> = (0..6).map(|i| g.new_node(i)).collect();
    g.connect(n[0], n[1]);
    g.connect(n[0], n[2]);
    g.connect(n[1], n[3]);
    g.connect(n[2], n[4]);
    g.connect(n[3], n[0]);
    g.connect(n[4], n[3]);
    assert_eq!(g.bfs(n[0]), vec![n[0], n[1], n[2], n[3], n[4]]);
    assert_eq!(g.dfs(n[0]), vec![n[0], n[1], n[3], n[2], n[4]]);
    assert_eq!(g.try_bfs(n[5]).unwrap(), vec![n[5]]);
    assert_eq!(g.iter_neighbors(n[0]), vec![n[1], n[2]]);
    assert_eq!(g.neighbors(n[0]), &vec![n[1], n[2]]);
    assert_eq!(g.try_iter_neighbors_in(n[3]).unwrap(), vec![n[1], n[4]]);
    assert_eq!(g.iter_neighbors_in(n[3]), vec![n[1], n[4]]);
    assert_eq!(g.try_iter_neighbors_out(n[3]).unwrap(), vec![n[0]]);
}
