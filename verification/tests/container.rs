use rxgraph::graph::GraphError;
use rxgraph::graph::PyGraph;

#[test]
fn handle_reuse_after_removal() {
    let mut g: PyGraph<i64, i64> = PyGraph::new(true);
    for v in 0..5 {
        g.add_node(v);
    }
    g.remove_node(2);
    let h = g.add_node(99);
    assert_eq!(h, 2);
}

#[test]
fn bound_and_count_after_reuse_scenario() {
    let mut g: PyGraph<i64, i64> = PyGraph::new(true);
    for v in 0..5 {
        g.add_node(v);
    }
    g.remove_node(2);
    assert_eq!(g.node_bound(), 5);
    assert_eq!(g.num_nodes(), 4);
    let h = g.add_node(99);
    assert_eq!(h, 2);
    assert_eq!(g.node_bound(), 5);
    assert_eq!(g.num_nodes(), 5);
}

#[test]
fn non_multigraph_insert_overwrites() {
    let mut g: PyGraph<i64, &str> = PyGraph::new(false);
    g.add_node(0);
    g.add_node(1);
    let e1 = g.add_edge(0, 1, "a").unwrap();
    let e2 = g.add_edge(0, 1, "b").unwrap();
    assert_eq!(e1, e2);
    assert_eq!(g.num_edges(), 1);
    assert_eq!(g.get_edge_data(0, 1).unwrap(), "b");
}

#[test]
fn multigraph_keeps_parallel_edges() {
    let mut g: PyGraph<i64, &str> = PyGraph::new(true);
    g.add_node(0);
    g.add_node(1);
    g.add_edge(0, 1, "a").unwrap();
    g.add_edge(0, 1, "b").unwrap();
    assert_eq!(g.num_edges(), 2);
    assert!(g.has_parallel_edges());
    let all = g.get_all_edge_data(0, 1).unwrap();
    assert_eq!(all, vec!["a", "b"]);
}

#[test]
fn self_loop_counts_twice_in_degree() {
    let mut g: PyGraph<i64, i64> = PyGraph::new(true);
    let n = g.add_node(7);
    g.add_edge(n, n, 0).unwrap();
    assert_eq!(g.degree(n), 2);
}

#[test]
fn degree_mixes_self_loops_and_plain_edges() {
    let mut g: PyGraph<i64, i64> = PyGraph::new(true);
    let a = g.add_node(0);
    let b = g.add_node(1);
    g.add_edge(a, a, 0).unwrap();
    g.add_edge(a, b, 1).unwrap();
    assert_eq!(g.degree(a), 3);
    assert_eq!(g.degree(b), 1);
}

#[test]
fn add_edge_rejects_dead_endpoint() {
    let mut g: PyGraph<i64, i64> = PyGraph::new(true);
    g.add_node(0);
    assert_eq!(g.add_edge(0, 5, 1), Err(GraphError::InvalidEndpoint));
    assert_eq!(g.num_edges(), 0);
}

#[test]
fn remove_node_cascades_incident_edges() {
    let mut g: PyGraph<i64, i64> = PyGraph::new(true);
    let a = g.add_node(0);
    let b = g.add_node(1);
    let c = g.add_node(2);
    g.add_edge(a, b, 10).unwrap();
    g.add_edge(b, c, 11).unwrap();
    g.add_edge(a, c, 12).unwrap();
    g.remove_node(b);
    assert_eq!(g.num_edges(), 1);
    assert!(g.has_edge(a, c));
    assert!(!g.has_edge(a, b));
    assert!(!g.has_node(b));
}

#[test]
fn remove_absent_node_is_ignored() {
    let mut g: PyGraph<i64, i64> = PyGraph::new(true);
    g.add_node(0);
    g.remove_node(17);
    assert_eq!(g.num_nodes(), 1);
}

#[test]
fn remove_edge_errors_when_none_joins() {
    let mut g: PyGraph<i64, i64> = PyGraph::new(true);
    g.add_node(0);
    g.add_node(1);
    assert_eq!(g.remove_edge(0, 1), Err(GraphError::NoEdgeBetweenNodes));
    g.add_edge(0, 1, 5).unwrap();
    assert_eq!(g.remove_edge(0, 1), Ok(()));
    assert_eq!(g.num_edges(), 0);
}

#[test]
fn edge_handles_are_reused_lowest_first() {
    let mut g: PyGraph<i64, i64> = PyGraph::new(true);
    let a = g.add_node(0);
    let b = g.add_node(1);
    let e0 = g.add_edge(a, b, 0).unwrap();
    let e1 = g.add_edge(a, b, 1).unwrap();
    let e2 = g.add_edge(a, b, 2).unwrap();
    assert_eq!((e0, e1, e2), (0, 1, 2));
    g.remove_edge_from_index(1);
    let e3 = g.add_edge(a, b, 3).unwrap();
    assert_eq!(e3, 1);
}

#[test]
fn getters_report_handles_and_payloads() {
    let mut g: PyGraph<&str, &str> = PyGraph::new(true);
    let a = g.add_node("x");
    let b = g.add_node("y");
    let c = g.add_node("z");
    g.remove_node(b);
    assert_eq!(g.node_indices(), vec![a, c]);
    assert_eq!(g.node_indexes(), vec![a, c]);
    assert_eq!(g.nodes(), vec!["x", "z"]);
    assert_eq!(g.get_node_data(a), Ok("x"));
    assert_eq!(g.get_node_data(b), Err(GraphError::NotFound));
    g.set_node_data(c, "w").unwrap();
    assert_eq!(g.get_node_data(c), Ok("w"));
}

#[test]
fn edge_getters_report_endpoints_and_weights() {
    let mut g: PyGraph<i64, &str> = PyGraph::new(true);
    let a = g.add_node(0);
    let b = g.add_node(1);
    let c = g.add_node(2);
    let e0 = g.add_edge(a, b, "ab").unwrap();
    let e1 = g.add_edge(b, c, "bc").unwrap();
    assert_eq!(g.edge_indices(), vec![e0, e1]);
    assert_eq!(g.edges(), vec!["ab", "bc"]);
    assert_eq!(g.edge_list(), vec![(a, b), (b, c)]);
    assert_eq!(g.weighted_edge_list(), vec![(a, b, "ab"), (b, c, "bc")]);
    assert_eq!(g.edge_index_map(), vec![(e0, (a, b, "ab")), (e1, (b, c, "bc"))]);
    assert_eq!(g.get_edge_data_by_index(e1), Ok("bc"));
    assert_eq!(g.get_edge_endpoints_by_index(e1), Ok((b, c)));
    assert_eq!(g.get_edge_data_by_index(9), Err(GraphError::NotFound));
    assert_eq!(g.get_edge_endpoints_by_index(9), Err(GraphError::NotFound));
}

#[test]
fn incident_views_keep_the_node_first_or_second() {
    let mut g: PyGraph<i64, &str> = PyGraph::new(true);
    let a = g.add_node(0);
    let b = g.add_node(1);
    let c = g.add_node(2);
    let e0 = g.add_edge(a, b, "ab").unwrap();
    let e1 = g.add_edge(c, b, "cb").unwrap();
    assert_eq!(g.incident_edges(b), vec![e0, e1]);
    assert_eq!(g.in_edge_indices(b), vec![e0, e1]);
    assert_eq!(g.out_edge_indices(b), vec![e0, e1]);
    assert_eq!(g.in_edges(b), vec![(a, b, "ab"), (c, b, "cb")]);
    assert_eq!(g.out_edges(b), vec![(b, a, "ab"), (b, c, "cb")]);
    assert_eq!(
        g.incident_edge_index_map(b),
        vec![(e0, (b, a, "ab")), (e1, (b, c, "cb"))]
    );
    assert_eq!(g.incident_edges(9), Vec::<usize>::new());
}

#[test]
fn neighbors_and_adjacency() {
    let mut g: PyGraph<i64, &str> = PyGraph::new(true);
    let a = g.add_node(0);
    let b = g.add_node(1);
    let c = g.add_node(2);
    g.add_edge(a, b, "ab").unwrap();
    g.add_edge(a, c, "ac").unwrap();
    g.add_edge(a, b, "ab2").unwrap();
    assert_eq!(g.neighbors(a), vec![b, c]);
    assert_eq!(g.adj(a), vec![(b, "ab"), (c, "ac")]);
    assert_eq!(g.neighbors(b), vec![a]);
}

#[test]
fn update_edge_by_pair_and_by_index() {
    let mut g: PyGraph<i64, &str> = PyGraph::new(true);
    let a = g.add_node(0);
    let b = g.add_node(1);
    let e = g.add_edge(a, b, "old").unwrap();
    g.update_edge(a, b, "mid").unwrap();
    assert_eq!(g.get_edge_data(a, b), Ok("mid"));
    g.update_edge_by_index(e, "new").unwrap();
    assert_eq!(g.get_edge_data_by_index(e), Ok("new"));
    assert_eq!(g.update_edge(a, 9, "x"), Err(GraphError::NoEdgeBetweenNodes));
    assert_eq!(g.update_edge_by_index(9, "x"), Err(GraphError::NotFound));
}

#[test]
fn bulk_edge_additions() {
    let mut g: PyGraph<i64, &str> = PyGraph::new(true);
    g.add_nodes_from(vec![0, 1, 2]);
    let hs = g.add_edges_from(vec![(0, 1, "a"), (1, 2, "b")]).unwrap();
    assert_eq!(hs, vec![0, 1]);
    let hs2 = g.add_edges_from_no_data(vec![(0, 2)], "none").unwrap();
    assert_eq!(hs2, vec![2]);
    assert_eq!(g.get_edge_data(0, 2), Ok("none"));
    assert_eq!(
        g.add_edges_from(vec![(0, 9, "x")]),
        Err(GraphError::InvalidEndpoint)
    );
}

#[test]
fn remove_edges_from_stops_on_missing_pair() {
    let mut g: PyGraph<i64, i64> = PyGraph::new(true);
    g.add_nodes_from(vec![0, 1, 2]);
    g.add_edge(0, 1, 1).unwrap();
    assert_eq!(
        g.remove_edges_from(vec![(0, 1), (1, 2)]),
        Err(GraphError::NoEdgeBetweenNodes)
    );
    assert_eq!(g.num_edges(), 0);
}

#[test]
fn extend_from_edge_list_adds_missing_nodes() {
    let mut g: PyGraph<&str, &str> = PyGraph::new(true);
    g.extend_from_edge_list(vec![(0, 1), (0, 2), (1, 2)], "fill", "e")
        .unwrap();
    assert_eq!(g.num_nodes(), 3);
    assert_eq!(g.num_edges(), 3);
    assert!(g.has_edge(0, 2));
    assert_eq!(g.get_node_data(2), Ok("fill"));
}

#[test]
fn extend_from_weighted_edge_list_keeps_weights() {
    let mut g: PyGraph<&str, i64> = PyGraph::new(false);
    g.extend_from_weighted_edge_list(vec![(0, 1, 7), (0, 1, 9)], "fill")
        .unwrap();
    assert_eq!(g.num_nodes(), 2);
    assert_eq!(g.num_edges(), 1);
    assert_eq!(g.get_edge_data(0, 1), Ok(9));
}

#[test]
fn clear_and_clear_edges() {
    let mut g: PyGraph<i64, i64> = PyGraph::new(true);
    g.add_nodes_from(vec![0, 1]);
    g.add_edge(0, 1, 5).unwrap();
    g.clear_edges();
    assert_eq!(g.num_nodes(), 2);
    assert_eq!(g.num_edges(), 0);
    g.add_edge(0, 1, 5).unwrap();
    g.clear();
    assert_eq!(g.num_nodes(), 0);
    assert_eq!(g.num_edges(), 0);
    let h = g.add_node(0);
    assert_eq!(h, 0);
}

#[test]
fn copy_shares_structure_but_not_later_changes() {
    let mut g: PyGraph<i64, &str> = PyGraph::new(true);
    g.add_nodes_from(vec![0, 1]);
    g.add_edge(0, 1, "a").unwrap();
    let mut h = g.copy();
    assert_eq!(h.num_nodes(), 2);
    assert_eq!(h.num_edges(), 1);
    h.remove_node(0);
    assert_eq!(g.num_nodes(), 2);
    assert_eq!(g.num_edges(), 1);
}

#[test]
fn find_node_by_weight_returns_lowest_match() {
    let mut g: PyGraph<&str, i64> = PyGraph::new(true);
    g.add_nodes_from(vec!["a", "b", "a"]);
    assert_eq!(g.find_node_by_weight("a"), Some(0));
    assert_eq!(g.find_node_by_weight("b"), Some(1));
    assert_eq!(g.find_node_by_weight("c"), None);
}

#[test]
fn edge_indices_from_endpoints_lists_both_orientations() {
    let mut g: PyGraph<i64, i64> = PyGraph::new(true);
    g.add_nodes_from(vec![0, 1]);
    let e0 = g.add_edge(0, 1, 10).unwrap();
    let e1 = g.add_edge(1, 0, 11).unwrap();
    assert_eq!(g.edge_indices_from_endpoints(0, 1), vec![e0, e1]);
    assert_eq!(g.get_all_edge_data(0, 1), Ok(vec![10, 11]));
    assert_eq!(g.get_all_edge_data(1, 1), Err(GraphError::NoEdgeBetweenNodes));
}

#[test]
fn filters_report_matching_handles() {
    let mut g: PyGraph<i64, i64> = PyGraph::new(true);
    g.add_nodes_from(vec![0, 5, 10]);
    g.add_edge(0, 1, 3).unwrap();
    g.add_edge(1, 2, 8).unwrap();
    let big_nodes = g.filter_nodes(|v: i64| v > 2);
    assert_eq!(big_nodes, vec![1, 2]);
    let small_edges = g.filter_edges(|w: i64| w < 5);
    assert_eq!(small_edges, vec![0]);
}

#[test]
fn remove_nodes_from_ignores_absent_handles() {
    let mut g: PyGraph<i64, i64> = PyGraph::new(true);
    g.add_nodes_from(vec![0, 1, 2, 3]);
    g.remove_nodes_from(vec![1, 9, 3]);
    assert_eq!(g.node_indices(), vec![0, 2]);
}

#[test]
fn bound_drops_when_the_last_node_goes() {
    let mut g: PyGraph<i64, i64> = PyGraph::new(true);
    g.add_nodes_from(vec![0, 1, 2]);
    g.remove_node(2);
    assert_eq!(g.node_bound(), 2);
    assert_eq!(g.add_node(9), 2);
    assert_eq!(g.node_bound(), 3);
}

#[test]
fn insert_or_update_edge_follows_the_policy() {
    let mut g: PyGraph<i64, &str> = PyGraph::new(false);
    g.add_nodes_from(vec![0, 1]);
    let e0 = g.insert_or_update_edge(0, 1, "first");
    let e1 = g.insert_or_update_edge(1, 0, "second");
    assert_eq!(e0, e1);
    assert_eq!(g.get_edge_data(0, 1), Ok("second"));
    assert_eq!(g.get_edge_endpoints_by_index(e0), Ok((0, 1)));
}

#[test]
fn extend_fills_new_nodes_with_the_sentinel() {
    let mut g: PyGraph<&str, i64> = PyGraph::new(true);
    g.extend_from_weighted_edge_list(vec![(0, 2, 7)], "fill").unwrap();
    assert_eq!(g.get_node_data(0), Ok("fill"));
    assert_eq!(g.get_node_data(1), Ok("fill"));
    assert_eq!(g.get_node_data(2), Ok("fill"));
    assert_eq!(g.get_edge_data(0, 2), Ok(7));
}

#[test]
fn extend_weighted_last_entry_wins_on_non_multigraph() {
    let mut g: PyGraph<&str, i64> = PyGraph::new(false);
    g.extend_from_weighted_edge_list(vec![(0, 1, 7), (1, 0, 9)], "fill")
        .unwrap();
    assert_eq!(g.num_edges(), 1);
    assert_eq!(g.get_edge_data(0, 1), Ok(9));
}

#[test]
fn add_edges_from_leaves_prefix_added_on_failure() {
    let mut g: PyGraph<i64, &str> = PyGraph::new(true);
    g.add_nodes_from(vec![0, 1, 2]);
    let r = g.add_edges_from(vec![(0, 1, "kept"), (0, 9, "bad"), (1, 2, "never")]);
    assert_eq!(r.unwrap_err(), GraphError::InvalidEndpoint);
    assert!(g.has_edge(0, 1));
    assert!(!g.has_edge(1, 2));
    assert_eq!(g.num_edges(), 1);
}

#[test]
fn add_nodes_from_returns_lowest_free_handles() {
    let mut g: PyGraph<i64, i64> = PyGraph::new(true);
    g.add_nodes_from(vec![0, 1, 2]);
    g.remove_node(1);
    let hs = g.add_nodes_from(vec![10, 11]);
    assert_eq!(hs, vec![1, 3]);
    assert_eq!(g.get_node_data(1), Ok(10));
    assert_eq!(g.get_node_data(3), Ok(11));
}
