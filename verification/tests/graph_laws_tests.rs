use graph::{EngineResponse, Graph, NodeError, NodeIndex, RequestId};

fn graph_with(n: usize) -> (Graph<usize>, Vec<NodeIndex>) {
    let mut g = Graph::new();
    let nodes: Vec<NodeIndex> = (0..n).map(|i| g.get_new_node(i)).collect();
    (g, nodes)
}

#[test]
fn connect_is_symmetric_and_idempotent() {
    let (mut g, n) = graph_with(3);
    g.connect(n[0], n[1]);
    assert!(g.are_connected(n[0], n[1]));
    assert!(g.are_connected(n[1], n[0]));
    let before = g.links.clone();
    g.connect(n[1], n[0]);
    assert_eq!(g.links, before);
    assert_eq!(g.edge_count(), 1);
}

#[test]
fn disconnect_undoes_connect() {
    let (mut g, n) = graph_with(4);
    g.connect(n[0], n[2]);
    g.connect(n[0], n[3]);
    let before = g.links.clone();
    g.connect(n[0], n[1]);
    assert_eq!(g.edge_count(), 3);
    g.disconnect(n[0], n[1]);
    assert_eq!(g.links, before);
    assert_eq!(g.edge_count(), 2);
    assert_eq!(g.try_disconnect(n[0], n[1]), Err(NodeError::NoEdge(n[0], n[1])));
}

#[test]
fn disconnect_moves_last_neighbour_into_place() {
    let (mut g, n) = graph_with(4);
    g.connect(n[0], n[1]);
    g.connect(n[0], n[2]);
    g.connect(n[0], n[3]);
    g.disconnect(n[0], n[1]);
    assert_eq!(g.links[0], vec![n[3], n[2]]);
}

#[test]
fn delete_isolates_and_frees_slot() {
    let (mut g, n) = graph_with(4);
    g.connect_all(&n);
    g.del(n[1]);
    assert!(!g.has_node(&n[1]));
    assert_eq!(g.node_count(), 3);
    assert_eq!(g.iter_node(), vec![n[0], n[2], n[3]]);
    for i in 0..4 {
        assert!(!g.links[i].contains(&n[1]));
    }
    assert_eq!(g.free, vec![1]);
    assert_eq!(g.edge_count(), 3);
    let m = g.get_new_node(7);
    assert_eq!(m, n[1]);
    assert!(g.links[1].is_empty());
    assert_eq!(*g.value(m), 7);
}

#[test]
fn connect_all_joins_every_pair_and_loop_joins_cycle() {
    let (mut g, n) = graph_with(5);
    g.connect_all(&n);
    for i in 0..5 {
        for j in 0..5 {
            assert_eq!(g.are_connected(n[i], n[j]), i != j);
        }
    }
    assert_eq!(g.edge_count(), 10);

    let (mut h, m) = graph_with(5);
    h.loop_node(&m);
    for k in 0..5 {
        assert!(h.are_connected(m[k], m[(k + 1) % 5]));
    }
    assert_eq!(h.edge_count(), 5);
    assert!(!h.are_connected(m[0], m[2]));
}

#[test]
fn connect_all_stops_at_first_repeat() {
    let (mut g, n) = graph_with(3);
    assert_eq!(g.try_connect_all(&[n[0], n[1], n[0], n[2]]), Err(NodeError::SelfLoop(n[0])));
    assert!(g.are_connected(n[0], n[1]));
    assert!(!g.are_connected(n[0], n[2]));
    let bad = NodeIndex { index: 999 };
    assert_eq!(g.try_connect_all(&[n[2], bad]), Err(NodeError::InvalidIndex(bad)));
    assert_eq!(g.try_loop_node(&[n[2]]), Err(NodeError::SelfLoop(n[2])));
    assert_eq!(g.try_loop_node(&[bad]), Err(NodeError::InvalidIndex(bad)));
}

#[test]
fn traversals_visit_reachable_nodes() {
    let (mut g, n) = graph_with(7);
    g.connect(n[0], n[1]);
    g.connect(n[0], n[2]);
    g.connect(n[1], n[3]);
    g.connect(n[2], n[4]);
    g.connect(n[3], n[4]);
    g.connect(n[5], n[6]);
    assert_eq!(g.bfs(n[0]), vec![n[0], n[1], n[2], n[3], n[4]]);
    assert_eq!(g.dfs(n[0]), vec![n[0], n[1], n[3], n[4], n[2]]);
    assert_eq!(g.bfs_panic(n[5]), vec![n[5], n[6]]);
    assert_eq!(g.dfs_panic(n[6]), vec![n[6], n[5]]);
    let mut b = g.try_bfs(n[0]).unwrap();
    let mut d = g.try_dfs(n[0]).unwrap();
    b.sort();
    d.sort();
    assert_eq!(b, d);
}

#[test]
fn edges_listed_once_from_lower_slot() {
    let (mut g, n) = graph_with(4);
    g.connect(n[2], n[0]);
    g.connect(n[1], n[3]);
    g.connect(n[0], n[1]);
    assert_eq!(g.iter_edges(), vec![(n[0], n[2]), (n[0], n[1]), (n[1], n[3])]);
    assert_eq!(g.edge_count(), 3);
}

#[test]
fn values_read_back_what_was_written() {
    let (mut g, n) = graph_with(2);
    assert_eq!(g.try_insert(n[0], 40), Ok(0));
    assert_eq!(*g.value(n[0]), 40);
    *g.value_mut(n[1]) = 41;
    assert_eq!(*g.get_value_ref_panic(n[1]), 41);
    *g.get_value_mut_ref_panic(n[1]) = 42;
    assert_eq!(*g.try_value(n[1]).unwrap(), 42);
    let bad = NodeIndex { index: 5 };
    assert_eq!(g.try_insert(bad, 1), Err(NodeError::InvalidIndex(bad)));
    assert!(matches!(g.try_value_mut(bad), Err(NodeError::InvalidIndex(_))));
}

#[test]
fn neighbour_lists() {
    let (mut g, n) = graph_with(3);
    g.connect(n[0], n[1]);
    g.connect(n[0], n[2]);
    assert_eq!(g.links(n[0]), &vec![n[1], n[2]]);
    assert_eq!(g.get_links_from_node_panic(&n[2]), &vec![n[0]]);
    assert_eq!(g.iter_neighbors(n[0]), vec![n[1], n[2]]);
    assert_eq!(g.try_iter_neighbors(n[1]).unwrap(), vec![n[0]]);
    g.links_mut(n[1]).clear();
    assert!(g.links[1].is_empty());
    g.try_links_mut(n[1]).unwrap().push(n[0]);
    assert_eq!(g.links[1], vec![n[0]]);
    assert_eq!(g.try_are_connected(n[1], NodeIndex { index: 9 }), Err(NodeError::InvalidIndex(NodeIndex { index: 9 })));
    assert!(g.try_iter_neighbors(NodeIndex { index: 9 }).is_err());
}

#[test]
fn delete_through_panicking_variant() {
    let (mut g, n) = graph_with(3);
    g.connect(n[0], n[1]);
    g.connect(n[1], n[2]);
    g.del_panic(n[1]);
    assert!(!g.is_node_valid(&n[1]));
    assert!(g.links[0].is_empty() && g.links[2].is_empty());
    assert_eq!(g.count, 2);
    assert_eq!(g.first_node(), Some(n[0]));
    assert_eq!(g.try_del(n[1]), Err(NodeError::InvalidIndex(n[1])));
}

#[test]
fn engine_messages() {
    assert_eq!(RequestId(3), RequestId(3));
    assert_ne!(RequestId(3), RequestId(4));
    let r = EngineResponse::AllNeighbors(vec![NodeIndex { index: 1 }]);
    assert!(matches!(r, EngineResponse::AllNeighbors(ref v) if v.len() == 1));
    let e = EngineResponse::Result(Err(NodeError::NoEdge(NodeIndex { index: 0 }, NodeIndex { index: 1 })));
    assert!(matches!(e, EngineResponse::Result(Err(NodeError::NoEdge(_, _)))));
    assert!(matches!(EngineResponse::Ack, EngineResponse::Ack));
    assert!(matches!(EngineResponse::NewNodeIndex(NodeIndex::new(2)), EngineResponse::NewNodeIndex(NodeIndex { index: 2 })));
}

#[test]
fn edge_list_holds_each_joined_pair_once() {
    let (mut g, n) = graph_with(5);
    g.connect(n[3], n[1]);
    g.connect(n[0], n[4]);
    g.connect(n[2], n[0]);
    g.connect(n[4], n[3]);
    g.del(n[2]);
    let edges = g.iter_edges();
    assert_eq!(edges.len(), g.edge_count());
    assert_eq!(edges.len(), 3);
    for (k, &(a, b)) in edges.iter().enumerate() {
        assert!(a.index < b.index);
        assert!(g.are_connected(a, b));
        assert!(!edges[k + 1..].contains(&(a, b)));
    }
    let mut joined = 0;
    for a in g.iter_node() {
        for b in g.iter_node() {
            if a.index < b.index && g.are_connected(a, b) {
                joined += 1;
                assert!(edges.contains(&(a, b)));
            }
        }
    }
    assert_eq!(joined, g.edge_count());
}

#[test]
fn directed_edge_list_counts_every_arc() {
    let mut g = graph::WUGraph::new(true, true);
    let a = g.new_node(1);
    let b = g.new_node(2);
    let c = g.new_node(3);
    g.connect(a, b);
    g.connect(a, b);
    g.connect(b, b);
    g.connect(c, a);
    let edges = g.iter_edges();
    assert_eq!(edges.len(), 4);
    assert_eq!(edges.len(), g.edge_count());
    let incoming: usize = g.iter_node().iter().map(|&x| g.neighbors_in(x).len()).sum();
    assert_eq!(incoming, edges.len());
    assert_eq!(edges.iter().filter(|&&e| e == (a, b)).count(), 2);
    assert_eq!(edges.iter().filter(|&&e| e == (b, b)).count(), 1);
}
