use sheaf_flow::graph::{Edge, Graph, UNIT_WEIGHT_BITS};

fn unit(u: usize, v: usize) -> Edge {
    Edge { u, v, weight_bits: 1.0f64.to_bits() }
}

#[test]
fn test_graph_path() {
    let g = Graph::path(5);
    assert_eq!(g.n, 5);
    assert_eq!(g.edges.len(), 4);
}

#[test]
fn test_graph_cycle() {
    let g = Graph::cycle(4);
    assert_eq!(g.n, 4);
    assert_eq!(g.edges.len(), 4);
}

#[test]
fn test_graph_complete() {
    let g = Graph::complete(4);
    assert_eq!(g.n, 4);
    assert_eq!(g.edges.len(), 6);
}

#[test]
fn test_graph_tree() {
    let edges = vec![unit(0, 1), unit(0, 2), unit(0, 3), unit(1, 4)];
    let g = Graph::tree(5, &edges);
    assert_eq!(g.n, 5);
    assert_eq!(g.edges.len(), 4);
}

#[test]
fn test_graph_single_vertex() {
    let g = Graph::path(1);
    assert_eq!(g.n, 1);
    assert_eq!(g.edges.len(), 0);
}

#[test]
fn test_adjacency_structure() {
    let g = Graph::cycle(4);
    for v in 0..4 {
        assert_eq!(g.adj[v].len(), 2, "vertex {} has 2 incident edges", v);
    }
}

#[test]
fn unit_weight_bits_encode_one() {
    assert_eq!(f64::from_bits(UNIT_WEIGHT_BITS), 1.0);
    let g = Graph::complete(3);
    for e in &g.edges {
        assert_eq!(f64::from_bits(e.weight_bits), 1.0);
    }
}

#[test]
fn new_builds_incidence_lists_in_edge_order() {
    let edges = vec![unit(0, 1), unit(2, 1), unit(1, 1), unit(0, 2)];
    let g = Graph::new(3, edges.clone());
    assert_eq!(g.edges, edges);
    assert_eq!(g.adj, vec![vec![0, 3], vec![0, 1, 2, 2], vec![1, 3]]);
}

#[test]
fn new_keeps_weights() {
    let edges = vec![Edge { u: 0, v: 1, weight_bits: 2.5f64.to_bits() }];
    let g = Graph::new(2, edges);
    assert_eq!(f64::from_bits(g.edges[0].weight_bits), 2.5);
}

#[test]
fn new_with_no_vertices() {
    let g = Graph::new(0, Vec::new());
    assert_eq!(g.n, 0);
    assert!(g.adj.is_empty());
}

#[test]
fn path_edges_are_consecutive() {
    let g = Graph::path(4);
    assert_eq!(g.edges, vec![unit(0, 1), unit(1, 2), unit(2, 3)]);
    assert_eq!(g.adj, vec![vec![0], vec![0, 1], vec![1, 2], vec![2]]);
}

#[test]
fn path_of_zero_and_two_vertices() {
    let g = Graph::path(0);
    assert_eq!(g.n, 0);
    assert!(g.edges.is_empty());
    let g = Graph::path(2);
    assert_eq!(g.edges, vec![unit(0, 1)]);
    assert_eq!(g.adj, vec![vec![0], vec![0]]);
}

#[test]
fn cycle_closes_the_path() {
    let g = Graph::cycle(4);
    assert_eq!(g.edges, vec![unit(0, 1), unit(1, 2), unit(2, 3), unit(3, 0)]);
    assert_eq!(g.adj, vec![vec![0, 3], vec![0, 1], vec![1, 2], vec![2, 3]]);
}

#[test]
fn cycle_on_one_vertex_is_a_loop() {
    let g = Graph::cycle(1);
    assert_eq!(g.n, 1);
    assert_eq!(g.edges, vec![unit(0, 0)]);
    assert_eq!(g.adj, vec![vec![0, 0]]);
}

#[test]
fn cycle_on_no_vertices_is_empty() {
    let g = Graph::cycle(0);
    assert_eq!(g.n, 0);
    assert!(g.edges.is_empty());
}

#[test]
fn cycle_of_two_vertices_doubles_the_edge() {
    let g = Graph::cycle(2);
    assert_eq!(g.edges, vec![unit(0, 1), unit(1, 0)]);
    assert_eq!(g.adj, vec![vec![0, 1], vec![0, 1]]);
}

#[test]
fn complete_lists_pairs_in_order() {
    let g = Graph::complete(4);
    assert_eq!(
        g.edges,
        vec![unit(0, 1), unit(0, 2), unit(0, 3), unit(1, 2), unit(1, 3), unit(2, 3)]
    );
    for v in 0..4 {
        assert_eq!(g.adj[v].len(), 3);
    }
}

#[test]
fn complete_on_one_vertex_has_no_edges() {
    let g = Graph::complete(1);
    assert_eq!(g.n, 1);
    assert!(g.edges.is_empty());
    assert_eq!(g.adj, vec![Vec::<usize>::new()]);
}

#[test]
fn complete_on_no_vertices_is_empty() {
    let g = Graph::complete(0);
    assert_eq!(g.n, 0);
    assert!(g.edges.is_empty());
    assert!(g.adj.is_empty());
}

#[test]
fn complete_edge_count_formula() {
    for n in 1..8usize {
        assert_eq!(Graph::complete(n).edges.len(), n * (n - 1) / 2);
    }
}

#[test]
fn tree_on_empty_vertex_set() {
    let g = Graph::tree(0, &[]);
    assert_eq!(g.n, 0);
    assert!(g.edges.is_empty());
}

#[test]
fn degrees_sum_to_twice_edges() {
    let edges = vec![unit(0, 1), unit(0, 2), unit(0, 3), unit(1, 4), unit(1, 5)];
    let g = Graph::tree(6, &edges);
    let total: usize = g.adj.iter().map(|a| a.len()).sum();
    assert_eq!(total, 2 * g.edges.len());
}
