use rxgraph::codec::GraphState;
use rxgraph::graph::GraphError;
use rxgraph::graph::PyGraph;

fn build_holey() -> PyGraph<&'static str, &'static str> {
    let mut g: PyGraph<&str, &str> = PyGraph::new(true);
    for v in ["n0", "n1", "n2", "n3", "n4"] {
        g.add_node(v);
    }
    g.add_edge(0, 1, "e0").unwrap();
    g.add_edge(1, 3, "e1").unwrap();
    g.add_edge(3, 4, "e2").unwrap();
    g.add_edge(4, 0, "e3").unwrap();
    g.remove_node(2);
    g.remove_edge_from_index(1);
    g
}

#[test]
fn round_trip_preserves_bounds_counts_and_holes() {
    let g = build_holey();
    let st = g.encode();
    let d = PyGraph::decode(&st, true, "fill", "fill").unwrap();
    assert_eq!(d.num_nodes(), g.num_nodes());
    assert_eq!(d.num_edges(), g.num_edges());
    assert_eq!(d.node_bound(), g.node_bound());
    assert_eq!(d.edge_bound(), g.edge_bound());
    assert_eq!(d.node_indices(), g.node_indices());
    assert_eq!(d.nodes(), g.nodes());
    assert_eq!(d.edge_indices(), g.edge_indices());
    assert_eq!(d.weighted_edge_list(), g.weighted_edge_list());
    assert_eq!(d.edge_index_map(), g.edge_index_map());
}

#[test]
fn round_trip_reuses_the_same_holes() {
    let g = build_holey();
    let st = g.encode();
    let mut d = PyGraph::decode(&st, true, "fill", "fill").unwrap();
    let n = d.add_node("again");
    assert_eq!(n, 2);
    let e = d.add_edge(0, 1, "again").unwrap();
    assert_eq!(e, 1);
}

#[test]
fn encode_shape_lists_live_nodes_and_marks_edge_holes() {
    let g = build_holey();
    let st = g.encode();
    assert_eq!(st.nodes, vec![(0, "n0"), (1, "n1"), (3, "n3"), (4, "n4")]);
    assert_eq!(
        st.edges,
        vec![Some((0, 1, "e0")), None, Some((3, 4, "e2")), Some((4, 0, "e3"))]
    );
    assert!(st.nodes_removed);
}

#[test]
fn decode_empty_node_list_gives_empty_container() {
    let st: GraphState<i64, i64> = GraphState {
        nodes: vec![],
        edges: vec![],
        nodes_removed: false,
    };
    let d = PyGraph::decode(&st, false, 0, 0).unwrap();
    assert_eq!(d.num_nodes(), 0);
    assert_eq!(d.num_edges(), 0);
}

#[test]
fn decode_single_node_with_holes_restores_its_handle() {
    let st: GraphState<i64, i64> = GraphState {
        nodes: vec![(3, 42)],
        edges: vec![Some((3, 3, 7))],
        nodes_removed: true,
    };
    let d = PyGraph::decode(&st, true, 0, 0).unwrap();
    assert_eq!(d.node_indices(), vec![3]);
    assert_eq!(d.get_node_data(3), Ok(42));
    assert_eq!(d.get_edge_data_by_index(0), Ok(7));
    assert_eq!(d.num_nodes(), 1);
}

#[test]
fn decode_rejects_unsorted_handles() {
    let st: GraphState<i64, i64> = GraphState {
        nodes: vec![(2, 0), (1, 1)],
        edges: vec![],
        nodes_removed: true,
    };
    assert!(matches!(
        PyGraph::decode(&st, true, 0, 0),
        Err(GraphError::CorruptState)
    ));
}

#[test]
fn decode_rejects_gapped_handles_without_removal_flag() {
    let st: GraphState<i64, i64> = GraphState {
        nodes: vec![(0, 0), (2, 2)],
        edges: vec![],
        nodes_removed: false,
    };
    assert!(matches!(
        PyGraph::decode(&st, true, 0, 0),
        Err(GraphError::CorruptState)
    ));
}

#[test]
fn decode_rejects_edges_to_missing_nodes() {
    let st: GraphState<i64, i64> = GraphState {
        nodes: vec![(0, 0), (1, 1)],
        edges: vec![Some((0, 5, 9))],
        nodes_removed: false,
    };
    assert!(matches!(
        PyGraph::decode(&st, true, 0, 0),
        Err(GraphError::CorruptState)
    ));
}

#[test]
fn decode_rejects_parallel_edges_on_non_multigraph() {
    let st: GraphState<i64, i64> = GraphState {
        nodes: vec![(0, 0), (1, 1)],
        edges: vec![Some((0, 1, 1)), Some((1, 0, 2))],
        nodes_removed: false,
    };
    assert!(matches!(
        PyGraph::decode(&st, false, 0, 0),
        Err(GraphError::CorruptState)
    ));
    assert!(PyGraph::decode(&st, true, 0, 0).is_ok());
}

#[test]
fn contraction_collapses_to_one_edge_without_combine() {
    let mut g: PyGraph<&str, &str> = PyGraph::new(false);
    g.add_nodes_from(vec!["a", "b", "c"]);
    g.add_edge(0, 2, "ac").unwrap();
    g.add_edge(1, 2, "bc").unwrap();
    let n = g
        .contract_nodes(
            vec![0, 1],
            "merged",
            None::<fn(&'static str, &'static str) -> Result<&'static str, GraphError>>,
        )
        .unwrap();
    assert_eq!(g.num_nodes(), 2);
    assert_eq!(g.num_edges(), 1);
    assert!(g.has_edge(n, 2));
    assert_eq!(g.get_node_data(n), Ok("merged"));
    assert_eq!(g.get_edge_data(n, 2), Ok("ac"));
}

#[test]
fn contraction_combines_weights_with_function() {
    let mut g: PyGraph<&str, i64> = PyGraph::new(false);
    g.add_nodes_from(vec!["a", "b", "c"]);
    g.add_edge(0, 2, 5).unwrap();
    g.add_edge(1, 2, 7).unwrap();
    let n = g
        .contract_nodes(vec![0, 1], "m", Some(|x: i64, y: i64| Ok::<i64, GraphError>(x + y)))
        .unwrap();
    assert_eq!(g.num_edges(), 1);
    assert_eq!(g.get_edge_data(n, 2), Ok(12));
}

#[test]
fn contraction_on_multigraph_keeps_parallel_edges() {
    let mut g: PyGraph<&str, i64> = PyGraph::new(true);
    g.add_nodes_from(vec!["a", "b", "c"]);
    g.add_edge(0, 2, 5).unwrap();
    g.add_edge(1, 2, 7).unwrap();
    let n = g
        .contract_nodes(vec![0, 1], "m", None::<fn(i64, i64) -> Result<i64, GraphError>>)
        .unwrap();
    assert_eq!(g.num_edges(), 2);
    assert_eq!(g.get_all_edge_data(n, 2), Ok(vec![5, 7]));
}

#[test]
fn contraction_turns_internal_edges_into_self_loops() {
    let mut g: PyGraph<&str, i64> = PyGraph::new(true);
    g.add_nodes_from(vec!["a", "b"]);
    g.add_edge(0, 1, 3).unwrap();
    let n = g
        .contract_nodes(vec![0, 1], "m", None::<fn(i64, i64) -> Result<i64, GraphError>>)
        .unwrap();
    assert_eq!(g.num_nodes(), 1);
    assert_eq!(g.num_edges(), 1);
    assert_eq!(g.degree(n), 2);
}

#[test]
fn subgraph_with_nodemap_maps_new_to_original() {
    let mut g: PyGraph<&str, &str> = PyGraph::new(true);
    g.add_nodes_from(vec!["n0", "n1", "n2", "n3"]);
    g.add_edge(1, 3, "e13").unwrap();
    g.add_edge(0, 1, "e01").unwrap();
    let (sub, nm) = g.subgraph_with_nodemap(vec![1, 3]);
    assert_eq!(nm, vec![(0, 1), (1, 3)]);
    assert_eq!(sub.num_nodes(), 2);
    assert_eq!(sub.nodes(), vec!["n1", "n3"]);
    assert_eq!(sub.num_edges(), 1);
    assert!(sub.has_edge(0, 1));
    assert_eq!(sub.get_edge_data(0, 1), Ok("e13"));
}

#[test]
fn subgraph_skips_absent_handles() {
    let mut g: PyGraph<&str, &str> = PyGraph::new(true);
    g.add_nodes_from(vec!["n0", "n1"]);
    let sub = g.subgraph(vec![1, 9, 1]);
    assert_eq!(sub.num_nodes(), 1);
    assert_eq!(sub.nodes(), vec!["n1"]);
}

#[test]
fn edge_subgraph_keeps_listed_pairs_and_their_endpoints() {
    let mut g: PyGraph<&str, &str> = PyGraph::new(true);
    g.add_nodes_from(vec!["n0", "n1", "n2", "n3"]);
    g.add_edge(0, 1, "e01").unwrap();
    g.add_edge(1, 2, "e12").unwrap();
    g.add_edge(2, 3, "e23").unwrap();
    let sub = g.edge_subgraph(vec![(0, 1), (1, 2), (7, 8)]);
    assert_eq!(sub.node_indices(), vec![0, 1, 2]);
    assert_eq!(sub.edge_indices(), vec![0, 1]);
    assert!(sub.has_edge(0, 1));
    assert!(sub.has_edge(1, 2));
    assert!(!sub.has_edge(2, 3));
    assert_eq!(sub.get_edge_data(0, 1), Ok("e01"));
}

#[test]
fn compose_copies_nodes_edges_and_attaches() {
    let mut g: PyGraph<&str, &str> = PyGraph::new(true);
    g.add_nodes_from(vec!["a", "b", "c"]);
    g.add_edges_from(vec![(0, 1, "a-b"), (1, 2, "b-c")]).unwrap();
    let mut other: PyGraph<&str, &str> = PyGraph::new(true);
    other.add_nodes_from(vec!["d", "e"]);
    other.add_edge(0, 1, "d-e").unwrap();
    let map = g.compose(
        &other,
        vec![(1, (0, "b-d"))],
        None::<fn(&str) -> &str>,
        None::<fn(&str) -> &str>,
    );
    assert_eq!(map, vec![(0, 3), (1, 4)]);
    assert_eq!(g.num_nodes(), 5);
    assert_eq!(g.num_edges(), 4);
    assert!(g.has_edge(3, 4));
    assert!(g.has_edge(1, 3));
    assert_eq!(g.get_edge_data(1, 3), Ok("b-d"));
    assert_eq!(g.get_node_data(3), Ok("d"));
}

#[test]
fn substitution_routes_incident_edges_to_the_image() {
    let mut g: PyGraph<&str, &str> = PyGraph::new(true);
    let a = g.add_node("a");
    let x = g.add_node("x");
    let b = g.add_node("b");
    g.add_edge(a, x, "a-x").unwrap();
    g.add_edge(x, b, "x-b").unwrap();
    let mut other: PyGraph<&str, &str> = PyGraph::new(true);
    let p = other.add_node("p");
    let q = other.add_node("q");
    other.add_edge(p, q, "p-q").unwrap();
    let map = g
        .substitute_node_with_subgraph(
            x,
            &other,
            |_s: usize, _t: usize, _w: &str| Ok::<Option<usize>, GraphError>(Some(0)),
            None::<fn(&str) -> Result<bool, GraphError>>,
            None::<fn(&str) -> Result<&str, GraphError>>,
        )
        .unwrap();
    assert!(!g.has_node(x));
    let p_img = map.iter().find(|kv| kv.0 == p).unwrap().1;
    let q_img = map.iter().find(|kv| kv.0 == q).unwrap().1;
    assert!(g.has_edge(a, p_img));
    assert!(g.has_edge(p_img, b));
    assert!(g.has_edge(p_img, q_img));
    assert_eq!(g.get_node_data(p_img), Ok("p"));
    assert_eq!(g.num_nodes(), 4);
}

#[test]
fn substitution_with_empty_filter_just_removes_the_node() {
    let mut g: PyGraph<&str, &str> = PyGraph::new(true);
    let a = g.add_node("a");
    let x = g.add_node("x");
    g.add_edge(a, x, "a-x").unwrap();
    let mut other: PyGraph<&str, &str> = PyGraph::new(true);
    other.add_node("p");
    let map = g
        .substitute_node_with_subgraph(
            x,
            &other,
            |_s: usize, _t: usize, _w: &str| Ok::<Option<usize>, GraphError>(Some(0)),
            Some(|_v: &str| Ok::<bool, GraphError>(false)),
            None::<fn(&str) -> Result<&str, GraphError>>,
        )
        .unwrap();
    assert!(map.is_empty());
    assert!(!g.has_node(x));
    assert_eq!(g.num_nodes(), 1);
    assert_eq!(g.num_edges(), 0);
}

#[test]
fn substitution_of_absent_node_fails() {
    let mut g: PyGraph<&str, &str> = PyGraph::new(true);
    g.add_node("a");
    let other: PyGraph<&str, &str> = PyGraph::new(true);
    let r = g.substitute_node_with_subgraph(
        9,
        &other,
        |_s: usize, _t: usize, _w: &str| Ok::<Option<usize>, GraphError>(None),
        None::<fn(&str) -> Result<bool, GraphError>>,
        None::<fn(&str) -> Result<&str, GraphError>>,
    );
    assert_eq!(r.unwrap_err(), GraphError::NotFound);
}

#[test]
fn to_directed_doubles_every_edge() {
    let mut g: PyGraph<&str, &str> = PyGraph::new(true);
    g.add_nodes_from(vec!["n0", "n1", "n2"]);
    g.remove_node(1);
    g.add_edge(0, 2, "e").unwrap();
    let dg = g.to_directed();
    assert_eq!(dg.num_nodes(), 2);
    assert_eq!(dg.num_edges(), 2);
    assert_eq!(dg.edge_list(), vec![(0, 1), (1, 0)]);
    assert_eq!(dg.get_node_data(1), Ok("n2"));
}

#[test]
fn adjacency_matrix_builds_upper_triangle_edges() {
    let matrix: Vec<Vec<Option<i64>>> = vec![
        vec![Some(9), Some(1), None],
        vec![Some(1), None, Some(2)],
        vec![None, Some(2), None],
    ];
    let g = PyGraph::from_adjacency_matrix(&matrix);
    assert!(g.multigraph);
    assert_eq!(g.num_nodes(), 3);
    assert_eq!(g.nodes(), vec![0, 1, 2]);
    assert_eq!(g.num_edges(), 3);
    assert_eq!(g.get_edge_data(0, 0), Ok(9));
    assert_eq!(g.get_edge_data(0, 1), Ok(1));
    assert_eq!(g.get_edge_data(1, 2), Ok(2));
    assert!(!g.has_edge(0, 2));
    assert_eq!(g.degree(0), 3);
}

#[test]
fn decode_without_holes_takes_sequential_handles() {
    let mut g: PyGraph<i64, i64> = PyGraph::new(true);
    g.add_nodes_from(vec![10, 11, 12]);
    g.add_edge(0, 1, 7).unwrap();
    g.remove_edge_from_index(0);
    g.add_edge(1, 2, 8).unwrap();
    let st = g.encode();
    assert!(!st.nodes_removed);
    let d = PyGraph::decode(&st, true, 0, 0).unwrap();
    assert_eq!(d.nodes(), vec![10, 11, 12]);
    assert_eq!(d.edge_indices(), vec![0]);
    assert_eq!(d.weighted_edge_list(), vec![(1, 2, 8)]);
}

#[test]
fn substitution_drops_edges_the_routing_declines() {
    let mut g: PyGraph<&str, &str> = PyGraph::new(true);
    let a = g.add_node("a");
    let x = g.add_node("x");
    g.add_edge(a, x, "a-x").unwrap();
    let mut other: PyGraph<&str, &str> = PyGraph::new(true);
    other.add_node("p");
    let map = g
        .substitute_node_with_subgraph(
            x,
            &other,
            |_s: usize, _t: usize, _w: &str| Ok::<Option<usize>, GraphError>(None),
            None::<fn(&str) -> Result<bool, GraphError>>,
            None::<fn(&str) -> Result<&str, GraphError>>,
        )
        .unwrap();
    assert_eq!(map.len(), 1);
    assert_eq!(g.num_edges(), 0);
    assert_eq!(g.num_nodes(), 2);
}

#[test]
fn substitution_transforms_copied_edge_weights() {
    let mut g: PyGraph<&str, i64> = PyGraph::new(true);
    let x = g.add_node("x");
    let mut other: PyGraph<&str, i64> = PyGraph::new(true);
    let p = other.add_node("p");
    let q = other.add_node("q");
    other.add_edge(p, q, 5).unwrap();
    let map = g
        .substitute_node_with_subgraph(
            x,
            &other,
            |_s: usize, _t: usize, _w: i64| Ok::<Option<usize>, GraphError>(None),
            None::<fn(&str) -> Result<bool, GraphError>>,
            Some(|w: i64| Ok::<i64, GraphError>(w * 10)),
        )
        .unwrap();
    let p_img = map.iter().find(|kv| kv.0 == p).unwrap().1;
    let q_img = map.iter().find(|kv| kv.0 == q).unwrap().1;
    assert_eq!(g.get_edge_data(p_img, q_img), Ok(50));
}

#[test]
fn compose_applies_payload_transforms() {
    let mut g: PyGraph<i64, i64> = PyGraph::new(true);
    g.add_node(100);
    let mut other: PyGraph<i64, i64> = PyGraph::new(true);
    other.add_nodes_from(vec![1, 2]);
    other.add_edge(0, 1, 5).unwrap();
    let map = g.compose(
        &other,
        vec![(0, (0, 77))],
        Some(|v: i64| v + 1000),
        Some(|w: i64| w * 2),
    );
    assert_eq!(map, vec![(0, 1), (1, 2)]);
    assert_eq!(g.get_node_data(1), Ok(1001));
    assert_eq!(g.get_node_data(2), Ok(1002));
    assert_eq!(g.get_edge_data(1, 2), Ok(10));
    assert_eq!(g.get_edge_data(0, 1), Ok(77));
}

#[test]
fn substitution_drops_a_self_loop_with_the_node() {
    let mut g: PyGraph<&str, &str> = PyGraph::new(true);
    let a = g.add_node("a");
    let x = g.add_node("x");
    g.add_edge(a, x, "a-x").unwrap();
    g.add_edge(x, x, "loop").unwrap();
    let mut other: PyGraph<&str, &str> = PyGraph::new(true);
    other.add_node("p");
    let map = g
        .substitute_node_with_subgraph(
            x,
            &other,
            |_s: usize, _t: usize, _w: &str| Ok::<Option<usize>, GraphError>(Some(0)),
            None::<fn(&str) -> Result<bool, GraphError>>,
            None::<fn(&str) -> Result<&str, GraphError>>,
        )
        .unwrap();
    let p_img = map[0].1;
    assert!(g.has_edge(a, p_img));
    assert_eq!(g.num_edges(), 1);
}

#[test]
fn substitution_fails_when_a_route_has_no_copy() {
    let mut g: PyGraph<&str, &str> = PyGraph::new(true);
    let a = g.add_node("a");
    let x = g.add_node("x");
    g.add_edge(a, x, "a-x").unwrap();
    let mut other: PyGraph<&str, &str> = PyGraph::new(true);
    other.add_node("p");
    let r = g.substitute_node_with_subgraph(
        x,
        &other,
        |_s: usize, _t: usize, _w: &str| Ok::<Option<usize>, GraphError>(Some(9)),
        None::<fn(&str) -> Result<bool, GraphError>>,
        None::<fn(&str) -> Result<&str, GraphError>>,
    );
    assert_eq!(r.unwrap_err(), GraphError::NotFound);
}

#[test]
fn remove_edges_from_takes_parallel_edges_in_turn() {
    let mut g: PyGraph<i64, &str> = PyGraph::new(true);
    g.add_nodes_from(vec![0, 1]);
    g.add_edge(0, 1, "first").unwrap();
    g.add_edge(0, 1, "second").unwrap();
    g.remove_edges_from(vec![(0, 1), (1, 0)]).unwrap();
    assert_eq!(g.num_edges(), 0);
}

#[test]
fn add_edges_from_last_entry_wins_on_non_multigraph() {
    let mut g: PyGraph<i64, &str> = PyGraph::new(false);
    g.add_nodes_from(vec![0, 1]);
    g.add_edges_from(vec![(0, 1, "first"), (1, 0, "second")]).unwrap();
    assert_eq!(g.num_edges(), 1);
    assert_eq!(g.get_edge_data(0, 1), Ok("second"));
}

#[test]
fn contraction_propagates_a_combine_failure() {
    let mut g: PyGraph<&str, i64> = PyGraph::new(false);
    g.add_nodes_from(vec!["a", "b", "c"]);
    g.add_edge(0, 2, 5).unwrap();
    g.add_edge(1, 2, 7).unwrap();
    let r = g.contract_nodes(
        vec![0, 1],
        "m",
        Some(|_x: i64, _y: i64| Err::<i64, GraphError>(GraphError::NotFound)),
    );
    assert_eq!(r.unwrap_err(), GraphError::NotFound);
}

#[test]
fn substitution_propagates_a_filter_failure() {
    let mut g: PyGraph<&str, &str> = PyGraph::new(true);
    let x = g.add_node("x");
    let mut other: PyGraph<&str, &str> = PyGraph::new(true);
    other.add_node("p");
    let r = g.substitute_node_with_subgraph(
        x,
        &other,
        |_s: usize, _t: usize, _w: &str| Ok::<Option<usize>, GraphError>(None),
        Some(|_v: &str| Err::<bool, GraphError>(GraphError::CorruptState)),
        None::<fn(&str) -> Result<&str, GraphError>>,
    );
    assert_eq!(r.unwrap_err(), GraphError::CorruptState);
}
