use palmcds::{BuildError, CycleError, Graph, GraphBuilder, NodeId, Reorder};

fn ids(v: &[u32]) -> Vec<NodeId> {
    v.iter().map(|&i| NodeId::new(i)).collect()
}

fn edge_list<N: Clone, E: Clone>(graph: &Graph<N, E>) -> Vec<(N, N, E)> {
    let mut out = Vec::new();
    for i in 0..graph.node_count() {
        let source = NodeId::new(i as u32);
        for edge in graph.edges_from(source).unwrap().collect() {
            out.push((
                graph.node_data(source).unwrap().clone(),
                graph.node_data(edge.target()).unwrap().clone(),
                edge.data().clone(),
            ));
        }
    }
    out
}

fn sample_graph() -> Graph<&'static str, u32> {
    Graph::from_edges(
        vec!["a", "b", "c", "d", "e"],
        vec![
            (NodeId::new(0), NodeId::new(1), 1),
            (NodeId::new(0), NodeId::new(2), 2),
            (NodeId::new(1), NodeId::new(3), 3),
            (NodeId::new(2), NodeId::new(3), 4),
            (NodeId::new(3), NodeId::new(1), 5),
            (NodeId::new(4), NodeId::new(4), 6),
        ],
    )
    .unwrap()
}

#[test]
fn from_edges_keeps_input_order_per_source() {
    let graph = Graph::from_edges(
        vec![(), (), ()],
        vec![
            (NodeId::new(1), NodeId::new(0), "x"),
            (NodeId::new(0), NodeId::new(1), "y"),
            (NodeId::new(1), NodeId::new(2), "z"),
        ],
    )
    .unwrap();
    let out: Vec<_> = graph
        .edges_from(NodeId::new(1))
        .unwrap()
        .collect()
        .into_iter()
        .map(|e| (e.target(), *e.data()))
        .collect();
    assert_eq!(out, vec![(NodeId::new(0), "x"), (NodeId::new(2), "z")]);
    assert_eq!(graph.out_degree(NodeId::new(0)), Some(1));
    assert_eq!(graph.out_degree(NodeId::new(2)), Some(0));
}

#[test]
fn from_edges_reports_first_invalid_endpoint() {
    let err = Graph::from_edges(
        vec![()],
        vec![
            (NodeId::new(0), NodeId::new(5), ()),
            (NodeId::new(7), NodeId::new(0), ()),
        ],
    )
    .unwrap_err();
    assert_eq!(err, BuildError::InvalidNodeId { id: NodeId::new(5), node_count: 1 });
}

#[test]
fn build_error_messages() {
    assert_eq!(
        BuildError::TooManyNodes { count: 4294967296 }.to_string(),
        "graph has 4294967296 nodes, exceeding u32::MAX"
    );
    assert_eq!(
        BuildError::TooManyEdges { count: 7 }.to_string(),
        "graph has 7 edges, exceeding u32::MAX"
    );
    assert_eq!(
        BuildError::InvalidNodeId { id: NodeId::new(12), node_count: 0 }.to_string(),
        "node id 12 is out of bounds for 0 nodes"
    );
    assert_eq!(CycleError.to_string(), "graph contains at least one cycle");
}

#[test]
fn node_id_round_trips() {
    let id = NodeId::new(42);
    assert_eq!(id.index(), 42);
    assert_eq!(id.as_u32(), 42);
}

#[test]
fn neighbors_iterate_from_both_ends() {
    let graph = sample_graph();
    let mut n = graph.neighbors(NodeId::new(0)).unwrap();
    assert_eq!(n.next_back(), Some(NodeId::new(2)));
    assert_eq!(n.len(), 1);
    assert_eq!(n.next(), Some(NodeId::new(1)));
    assert_eq!(n.next(), None);
    assert_eq!(n.next_back(), None);
}

#[test]
fn traversal_steps_one_node_at_a_time() {
    let graph = sample_graph();
    let mut bfs = graph.bfs(NodeId::new(0)).unwrap();
    assert_eq!(bfs.next(), Some(NodeId::new(0)));
    assert_eq!(bfs.next(), Some(NodeId::new(1)));
    assert_eq!(bfs.collect(), ids(&[2, 3]));
    assert_eq!(graph.dfs(NodeId::new(0)).unwrap().collect(), ids(&[0, 1, 3, 2]));
    assert_eq!(graph.bfs(NodeId::new(4)).unwrap().collect(), ids(&[4]));
}

#[test]
fn topological_sort_takes_sources_in_index_order() {
    let graph = Graph::from_edges(
        vec![(), (), ()],
        vec![(NodeId::new(2), NodeId::new(0), ()), (NodeId::new(1), NodeId::new(0), ())],
    )
    .unwrap();
    let order = graph.topological_sort().unwrap();
    assert_eq!(order, ids(&[1, 2, 0]));
}

#[test]
fn topological_order_puts_every_edge_forward() {
    let graph = Graph::from_edges(
        vec![(); 6],
        vec![
            (NodeId::new(5), NodeId::new(2), ()),
            (NodeId::new(5), NodeId::new(0), ()),
            (NodeId::new(4), NodeId::new(0), ()),
            (NodeId::new(4), NodeId::new(1), ()),
            (NodeId::new(2), NodeId::new(3), ()),
            (NodeId::new(3), NodeId::new(1), ()),
        ],
    )
    .unwrap();
    let order = graph.topological_sort().unwrap();
    assert_eq!(order.len(), 6);
    let pos = |x: NodeId| order.iter().position(|&y| y == x).unwrap();
    for i in 0..6u32 {
        for t in graph.neighbors(NodeId::new(i)).unwrap().collect() {
            assert!(pos(NodeId::new(i)) < pos(t));
        }
    }
}

#[test]
fn self_loop_is_a_cycle() {
    let graph = sample_graph();
    assert!(graph.has_cycle());
    assert_eq!(graph.topological_sort(), Err(CycleError));
    let empty = Graph::<(), ()>::from_edges(Vec::new(), Vec::new()).unwrap();
    assert!(!empty.has_cycle());
    assert_eq!(empty.topological_sort(), Ok(Vec::new()));
}

#[test]
fn dijkstra_handles_unreachable_and_invalid_starts() {
    let graph = Graph::from_edges(
        vec![(), (), ()],
        vec![
            (NodeId::new(0), NodeId::new(1), 7u64),
            (NodeId::new(0), NodeId::new(1), 4u64),
        ],
    )
    .unwrap();
    let d = graph.dijkstra(NodeId::new(0), |&w| w).unwrap();
    assert_eq!(d, vec![Some(0), Some(4), None]);
    assert!(graph.dijkstra(NodeId::new(3), |&w| w).is_none());
    let doubled = graph.dijkstra(NodeId::new(0), |&w| 2 * w).unwrap();
    assert_eq!(doubled, vec![Some(0), Some(8), None]);
}

#[test]
fn scc_components_partition_nodes_in_reverse_topological_order() {
    let graph = Graph::from_edges(
        vec![(); 6],
        vec![
            (NodeId::new(0), NodeId::new(1), ()),
            (NodeId::new(1), NodeId::new(2), ()),
            (NodeId::new(2), NodeId::new(0), ()),
            (NodeId::new(2), NodeId::new(3), ()),
            (NodeId::new(3), NodeId::new(4), ()),
            (NodeId::new(4), NodeId::new(3), ()),
        ],
    )
    .unwrap();
    let sccs = graph.strongly_connected_components();
    let mut sorted: Vec<Vec<u32>> = sccs
        .iter()
        .map(|c| {
            let mut v: Vec<u32> = c.iter().map(|x| x.as_u32()).collect();
            v.sort();
            v
        })
        .collect();
    assert_eq!(sorted, vec![vec![3, 4], vec![0, 1, 2], vec![5]]);
    sorted.sort();
    assert_eq!(sorted, vec![vec![0, 1, 2], vec![3, 4], vec![5]]);
}

#[test]
fn scc_of_a_chain_is_singletons_last_first() {
    let graph = Graph::from_edges(
        vec![(); 3],
        vec![(NodeId::new(0), NodeId::new(1), ()), (NodeId::new(1), NodeId::new(2), ())],
    )
    .unwrap();
    assert_eq!(
        graph.strongly_connected_components(),
        vec![ids(&[2]), ids(&[1]), ids(&[0])]
    );
}

#[test]
fn reordering_keeps_payloads_and_edges_for_every_strategy() {
    let graph = sample_graph();
    let mut before = edge_list(&graph);
    before.sort();
    let strategies = [
        Reorder::Unchanged,
        Reorder::Bfs { root: NodeId::new(2) },
        Reorder::Dfs { root: NodeId::new(0) },
        Reorder::ReversePostOrder { root: NodeId::new(0) },
        Reorder::Topological,
        Reorder::ReverseCuthillMcKee { root: None },
        Reorder::ReverseCuthillMcKee { root: Some(NodeId::new(3)) },
    ];
    for reorder in strategies {
        let g = graph.reordered(reorder).unwrap();
        assert_eq!(g.node_count(), 5);
        assert_eq!(g.edge_count(), 6);
        let mut payloads: Vec<_> = (0..5).map(|i| *g.node_data(NodeId::new(i)).unwrap()).collect();
        payloads.sort();
        assert_eq!(payloads, vec!["a", "b", "c", "d", "e"]);
        let mut edges = edge_list(&g);
        edges.sort();
        assert_eq!(edges, before);
    }
}

#[test]
fn reorder_rcm_order_on_a_path() {
    let graph = Graph::from_edges(
        vec!["a", "b", "c", "d"],
        vec![
            (NodeId::new(0), NodeId::new(1), ()),
            (NodeId::new(1), NodeId::new(2), ()),
            (NodeId::new(2), NodeId::new(3), ()),
        ],
    )
    .unwrap()
    .into_reordered(Reorder::ReverseCuthillMcKee { root: None })
    .unwrap();
    let names: Vec<_> = (0..4).map(|i| *graph.node_data(NodeId::new(i)).unwrap()).collect();
    assert_eq!(names, vec!["a", "b", "c", "d"]);
    for i in 0..4u32 {
        for e in graph.edges_from(NodeId::new(i)).unwrap().collect() {
            let t = e.target().as_u32();
            let span = if t > i { t - i } else { i - t };
            assert!(span <= 1);
        }
    }
}

#[test]
fn reorder_rcm_follows_edges_both_ways() {
    // d -> c -> b -> a, with a listed first: the search from `a` (lowest
    // out-degree) reaches the others only through incoming edges.
    let graph = Graph::from_edges(
        vec!["a", "b", "c", "d"],
        vec![
            (NodeId::new(3), NodeId::new(2), ()),
            (NodeId::new(2), NodeId::new(1), ()),
            (NodeId::new(1), NodeId::new(0), ()),
        ],
    )
    .unwrap()
    .into_reordered(Reorder::ReverseCuthillMcKee { root: None })
    .unwrap();
    let names: Vec<_> = (0..4).map(|i| *graph.node_data(NodeId::new(i)).unwrap()).collect();
    assert_eq!(names, vec!["d", "c", "b", "a"]);
}

#[test]
fn reorder_topological_appends_cyclic_nodes_in_index_order() {
    let graph = Graph::from_edges(
        vec!["a", "b", "c", "d"],
        vec![
            (NodeId::new(0), NodeId::new(1), ()),
            (NodeId::new(1), NodeId::new(2), ()),
            (NodeId::new(2), NodeId::new(1), ()),
        ],
    )
    .unwrap()
    .into_reordered(Reorder::Topological)
    .unwrap();
    let names: Vec<_> = (0..4).map(|i| *graph.node_data(NodeId::new(i)).unwrap()).collect();
    assert_eq!(names, vec!["a", "d", "b", "c"]);
}

#[test]
fn reorder_rpo_appends_unreached_nodes() {
    let graph = Graph::from_edges(
        vec!["a", "b", "c", "d"],
        vec![(NodeId::new(1), NodeId::new(2), ()), (NodeId::new(1), NodeId::new(3), ())],
    )
    .unwrap()
    .into_reordered(Reorder::ReversePostOrder { root: NodeId::new(1) })
    .unwrap();
    let names: Vec<_> = (0..4).map(|i| *graph.node_data(NodeId::new(i)).unwrap()).collect();
    assert_eq!(names, vec!["b", "d", "c", "a"]);
}

#[test]
fn reorder_refuses_roots_outside_the_graph() {
    let graph = sample_graph();
    for reorder in [
        Reorder::Dfs { root: NodeId::new(9) },
        Reorder::ReversePostOrder { root: NodeId::new(5) },
        Reorder::ReverseCuthillMcKee { root: Some(NodeId::new(5)) },
    ] {
        let err = graph.reordered(reorder).unwrap_err();
        assert!(matches!(err, BuildError::InvalidNodeId { node_count: 5, .. }));
    }
}

#[test]
fn builder_assigns_ids_in_order_and_checks_edges() {
    let mut builder = GraphBuilder::<u8, ()>::default();
    assert_eq!(builder.add_node(1), Ok(NodeId::new(0)));
    assert_eq!(builder.add_node(2), Ok(NodeId::new(1)));
    assert_eq!(
        builder.add_edge(NodeId::new(3), NodeId::new(7), ()),
        Err(BuildError::InvalidNodeId { id: NodeId::new(3), node_count: 2 })
    );
    assert_eq!(builder.edge_count(), 0);
    builder.add_edge(NodeId::new(1), NodeId::new(0), ()).unwrap();
    builder.reorder(Reorder::Dfs { root: NodeId::new(4) });
    assert_eq!(
        builder.build().unwrap_err(),
        BuildError::InvalidNodeId { id: NodeId::new(4), node_count: 2 }
    );
}

#[test]
fn storage_covers_every_entry() {
    let graph = sample_graph();
    assert!(graph.node_storage_bytes() >= 5 * Graph::<&str, u32>::node_entry_size());
    assert_eq!(Graph::<&str, u32>::edge_target_size(), 4);
    assert_eq!(Graph::<&str, u32>::edge_payload_size(), 4);
    assert_eq!(graph.edge_storage_bytes(), 6 * 4 + 6 * 4);
    assert_eq!(
        graph.total_storage_bytes(),
        graph.node_storage_bytes() + graph.edge_storage_bytes()
    );
    assert!(!graph.is_empty());
}

fn dag() -> Graph<u32, ()> {
    Graph::from_edges(
        vec![0, 1, 2, 3, 4, 5],
        vec![
            (NodeId::new(5), NodeId::new(2), ()),
            (NodeId::new(5), NodeId::new(0), ()),
            (NodeId::new(4), NodeId::new(0), ()),
            (NodeId::new(4), NodeId::new(1), ()),
            (NodeId::new(2), NodeId::new(3), ()),
            (NodeId::new(3), NodeId::new(1), ()),
        ],
    )
    .unwrap()
}

fn edges_go_up_from(graph: &Graph<u32, ()>, below: usize) -> bool {
    (0..below).all(|i| {
        graph
            .neighbors(NodeId::new(i as u32))
            .unwrap()
            .collect()
            .into_iter()
            .all(|t| i < t.index())
    })
}

#[test]
fn topological_reorder_makes_dag_edges_go_up() {
    let g = dag().into_reordered(Reorder::Topological).unwrap();
    assert!(edges_go_up_from(&g, 6));
}

#[test]
fn reverse_post_order_makes_reached_edges_go_up() {
    let g = dag().into_reordered(Reorder::ReversePostOrder { root: NodeId::new(5) }).unwrap();
    // 5 reaches 5, 2, 0, 3, 1: the first five new IDs.
    assert!(edges_go_up_from(&g, 5));
    assert_eq!(*g.node_data(NodeId::new(0)).unwrap(), 5);
}

#[test]
fn clones_are_independent() {
    let graph = sample_graph();
    let mut a = graph.neighbors(NodeId::new(0)).unwrap();
    let b = a.clone();
    a.next();
    assert_eq!(a.len(), 1);
    assert_eq!(b.len(), 2);
    let mut bfs = graph.bfs(NodeId::new(0)).unwrap();
    let copy = bfs.clone();
    bfs.next();
    assert_eq!(copy.collect(), ids(&[0, 1, 2, 3]));
    let mut builder = GraphBuilder::<&str, ()>::new();
    builder.add_node("x").unwrap();
    let other = builder.clone();
    builder.add_node("y").unwrap();
    assert_eq!(other.node_count(), 1);
    assert_eq!(builder.node_count(), 2);
    let g2 = graph.clone();
    assert_eq!(g2.edge_count(), graph.edge_count());
    assert_eq!(g2.node_data(NodeId::new(3)), Some(&"d"));
}

#[test]
fn dijkstra_weighs_only_edges_of_reached_nodes() {
    let graph = Graph::from_edges(
        vec![(), (), (), ()],
        vec![
            (NodeId::new(0), NodeId::new(1), 3u64),
            (NodeId::new(1), NodeId::new(2), 4u64),
            (NodeId::new(3), NodeId::new(0), 999u64),
        ],
    )
    .unwrap();
    let calls = std::cell::Cell::new(0u32);
    let d = graph
        .dijkstra(NodeId::new(0), |&w| {
            assert!(w != 999);
            calls.set(calls.get() + 1);
            w
        })
        .unwrap();
    assert_eq!(d, vec![Some(0), Some(3), Some(7), None]);
    assert_eq!(calls.get(), 2);
}

#[test]
fn node_ids_compare_as_their_indices() {
    assert!(NodeId::new(1) < NodeId::new(2));
    assert!(NodeId::new(7) > NodeId::new(3));
    assert!(NodeId::new(4) <= NodeId::new(4));
    assert_eq!(NodeId::new(5).cmp(&NodeId::new(9)), std::cmp::Ordering::Less);
    assert_eq!(NodeId::new(5).partial_cmp(&NodeId::new(5)), Some(std::cmp::Ordering::Equal));
}

#[test]
fn reverse_post_order_ignores_unreached_cycles() {
    let g = Graph::from_edges(
        vec![0u32, 1, 2, 3],
        vec![
            (NodeId::new(0), NodeId::new(1), ()),
            (NodeId::new(2), NodeId::new(3), ()),
            (NodeId::new(3), NodeId::new(2), ()),
        ],
    )
    .unwrap()
    .into_reordered(Reorder::ReversePostOrder { root: NodeId::new(0) })
    .unwrap();
    assert!(edges_go_up_from(&g, 2));
    assert_eq!(*g.node_data(NodeId::new(1)).unwrap(), 1);
}

#[test]
fn scc_lists_nodes_last_discovered_first_and_components_as_their_roots_finish() {
    let graph = Graph::from_edges(
        vec![(); 6],
        vec![
            (NodeId::new(0), NodeId::new(1), ()),
            (NodeId::new(1), NodeId::new(2), ()),
            (NodeId::new(2), NodeId::new(0), ()),
            (NodeId::new(2), NodeId::new(3), ()),
            (NodeId::new(3), NodeId::new(4), ()),
            (NodeId::new(4), NodeId::new(3), ()),
        ],
    )
    .unwrap();
    assert_eq!(
        graph.strongly_connected_components(),
        vec![ids(&[4, 3]), ids(&[2, 1, 0]), ids(&[5])]
    );
}

fn branching_graph() -> Graph<u32, ()> {
    Graph::from_edges(
        vec![0, 1, 2, 3, 4],
        vec![
            (NodeId::new(0), NodeId::new(1), ()),
            (NodeId::new(0), NodeId::new(2), ()),
            (NodeId::new(1), NodeId::new(3), ()),
            (NodeId::new(1), NodeId::new(4), ()),
            (NodeId::new(3), NodeId::new(2), ()),
        ],
    )
    .unwrap()
}

#[test]
fn dfs_descends_before_taking_later_neighbors() {
    let graph = branching_graph();
    assert_eq!(graph.dfs(NodeId::new(0)).unwrap().collect(), ids(&[0, 1, 3, 2, 4]));
    let mut it = graph.dfs(NodeId::new(0)).unwrap();
    assert_eq!(it.next(), Some(NodeId::new(0)));
    assert_eq!(it.next(), Some(NodeId::new(1)));
    assert_eq!(it.next(), Some(NodeId::new(3)));
    assert_eq!(it.next(), Some(NodeId::new(2)));
    assert_eq!(it.next(), Some(NodeId::new(4)));
    assert_eq!(it.next(), None);
    assert_eq!(it.next(), None);
    assert_eq!(graph.dfs(NodeId::new(3)).unwrap().collect(), ids(&[3, 2]));
}

#[test]
fn dfs_reorder_uses_preorder_then_unreached_nodes() {
    let graph = Graph::from_edges(
        vec![0, 1, 2, 3, 4, 5],
        vec![
            (NodeId::new(0), NodeId::new(1), ()),
            (NodeId::new(0), NodeId::new(2), ()),
            (NodeId::new(1), NodeId::new(3), ()),
            (NodeId::new(1), NodeId::new(4), ()),
            (NodeId::new(3), NodeId::new(2), ()),
        ],
    )
    .unwrap()
    .into_reordered(Reorder::Dfs { root: NodeId::new(0) })
    .unwrap();
    let labels: Vec<u32> = (0..6).map(|i| *graph.node_data(NodeId::new(i)).unwrap()).collect();
    assert_eq!(labels, vec![0, 1, 3, 2, 4, 5]);
}
