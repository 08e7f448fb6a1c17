use sheaf_flow::graph::{Edge, Graph};
use sheaf_flow::laplacian::LaplacianTerm;

/// Assembles a sheaf Laplacian from the library's update list: each update adds
/// or subtracts `w_e * rtr(e, i, j)` at its entry.
fn assemble(g: &Graph, d: usize, rtr: &dyn Fn(usize, usize, usize) -> f64) -> Vec<Vec<f64>> {
    let size = g.n * d;
    let mut l = vec![vec![0.0; size]; size];
    for t in g.laplacian_terms(d) {
        let w = f64::from_bits(g.edges[t.edge].weight_bits);
        let val = w * rtr(t.edge, t.i, t.j);
        if t.positive {
            l[t.row][t.col] += val;
        } else {
            l[t.row][t.col] -= val;
        }
    }
    l
}

/// The Laplacian with identity restriction maps (R_eᵀ R_e = I).
fn assemble_identity(g: &Graph, d: usize) -> Vec<Vec<f64>> {
    assemble(g, d, &|_e, i, j| if i == j { 1.0 } else { 0.0 })
}

fn apply(l: &[Vec<f64>], x: &[f64]) -> Vec<f64> {
    l.iter().map(|row| row.iter().zip(x.iter()).map(|(a, b)| a * b).sum()).collect()
}

#[test]
fn test_sheaf_create() {
    let g = Graph::path(3);
    let d = 2;
    let l = assemble_identity(&g, d);
    assert_eq!(l.len(), 6);
    assert!(l.iter().all(|row| row.len() == 6));
}

#[test]
fn test_sheaf_laplacian_structure() {
    let g = Graph::path(3);
    let l = assemble_identity(&g, 1);
    assert!((l[0][0] - 1.0).abs() < 1e-12);
    assert!((l[0][1] + 1.0).abs() < 1e-12);
    assert!((l[1][1] - 2.0).abs() < 1e-12);
    assert!((l[2][2] - 1.0).abs() < 1e-12);
}

#[test]
fn test_sheaf_global_conservation() {
    let g = Graph::path(4);
    let l = assemble_identity(&g, 1);
    let ones = vec![1.0; 4];
    for v in apply(&l, &ones) {
        assert!(v.abs() <= 1e-9);
    }
}

#[test]
fn test_sheaf_vertex_conservation() {
    let g = Graph::cycle(4);
    let l = assemble_identity(&g, 1);
    let q = vec![1.0, 1.0, 1.0, 1.0];
    let lq = apply(&l, &q);
    assert!(lq[0].abs() < 1e-9);
    assert!(lq[2].abs() < 1e-9);
}

#[test]
fn test_sheaf_kernel_constant() {
    let g = Graph::cycle(5);
    let l = assemble_identity(&g, 1);
    let ones = vec![1.0; 5];
    let lx = apply(&l, &ones);
    let norm: f64 = lx.iter().map(|v| v * v).sum::<f64>().sqrt();
    assert!(norm < 1e-10, "constant in kernel");
}

#[test]
fn test_laplacian_psd() {
    let g = Graph::path(4);
    let l = assemble_identity(&g, 1);
    let x = vec![1.0, -2.0, 3.0, -1.0];
    let lx = apply(&l, &x);
    let xtlx: f64 = x.iter().zip(lx.iter()).map(|(&xi, &lxi)| xi * lxi).sum();
    assert!(xtlx >= -1e-10, "PSD");
    // (1 + 2)^2 + (-2 - 3)^2 + (3 + 1)^2
    assert_eq!(xtlx, 50.0);
}

#[test]
fn test_with_restrictions_non_identity() {
    let g = Graph::path(3);
    // R_e = [2] on every edge, so R_eᵀ R_e = [4]
    let l = assemble(&g, 1, &|_e, _i, _j| 4.0);
    assert!((l[0][0] - 4.0).abs() < 1e-12, "scaled L[0][0]=4");
}

#[test]
fn test_laplacian_symmetric() {
    let g = Graph::path(5);
    let l = assemble_identity(&g, 2);
    for i in 0..10 {
        for j in 0..10 {
            assert!((l[i][j] - l[j][i]).abs() < 1e-12, "L symmetric at ({},{})", i, j);
        }
    }
}

#[test]
fn test_laplacian_row_sums_zero() {
    let g = Graph::path(4);
    let l = assemble_identity(&g, 1);
    for i in 0..4 {
        let row_sum: f64 = (0..4).map(|j| l[i][j]).sum();
        assert!(row_sum.abs() < 1e-12, "row {} sums to zero", i);
    }
}

#[test]
fn test_laplacian_diagonal_nonnegative() {
    let g = Graph::path(4);
    let l = assemble_identity(&g, 2);
    for i in 0..8 {
        assert!(l[i][i] >= -1e-12, "diagonal entry {} non-negative", i);
    }
}

#[test]
fn terms_for_a_single_edge_in_order() {
    let g = Graph::path(2);
    let terms = g.laplacian_terms(1);
    assert_eq!(
        terms,
        vec![
            LaplacianTerm { row: 0, col: 0, edge: 0, i: 0, j: 0, positive: true },
            LaplacianTerm { row: 1, col: 1, edge: 0, i: 0, j: 0, positive: true },
            LaplacianTerm { row: 0, col: 1, edge: 0, i: 0, j: 0, positive: false },
            LaplacianTerm { row: 1, col: 0, edge: 0, i: 0, j: 0, positive: false },
        ]
    );
}

#[test]
fn terms_count_and_block_offsets() {
    let g = Graph::path(3);
    let d = 2;
    let terms = g.laplacian_terms(d);
    assert_eq!(terms.len(), g.edges.len() * d * d * 4);
    // edge 1 joins 1 -- 2; entry (i, j) = (1, 0), update 2 subtracts at block (1, 2)
    let p = ((1 * d + 1) * d + 0) * 4 + 2;
    assert_eq!(terms[p], LaplacianTerm { row: 3, col: 4, edge: 1, i: 1, j: 0, positive: false });
}

#[test]
fn terms_for_no_edges_or_empty_stalks() {
    assert!(Graph::path(1).laplacian_terms(3).is_empty());
    assert!(Graph::cycle(5).laplacian_terms(0).is_empty());
}

#[test]
fn single_vertex_laplacian_is_zero() {
    let l = assemble_identity(&Graph::path(1), 1);
    assert_eq!(l, vec![vec![0.0]]);
}

#[test]
fn constant_sections_lie_in_the_kernel() {
    let g = Graph::cycle(4);
    let d = 2;
    let l = assemble(&g, d, &|_e, i, j| (1 + i + j) as f64);
    // x[v * d + c] depends on c only
    let x: Vec<f64> = (0..g.n * d).map(|k| if k % d == 0 { 3.0 } else { -5.0 }).collect();
    for v in apply(&l, &x) {
        assert_eq!(v, 0.0);
    }
}

#[test]
fn cycle_laplacian_row_is_degree_and_neighbours() {
    let l = assemble_identity(&Graph::cycle(4), 1);
    assert_eq!(l[0], vec![2.0, -1.0, 0.0, -1.0]);
}

#[test]
fn weights_scale_the_blocks() {
    let edges = vec![Edge { u: 0, v: 1, weight_bits: 4.0f64.to_bits() }];
    let l = assemble_identity(&Graph::new(2, edges), 1);
    assert_eq!(l, vec![vec![4.0, -4.0], vec![-4.0, 4.0]]);
}

#[test]
fn laplacian_preserves_totals() {
    let edges = vec![
        Edge { u: 0, v: 1, weight_bits: 2.0f64.to_bits() },
        Edge { u: 1, v: 2, weight_bits: 0.5f64.to_bits() },
        Edge { u: 2, v: 2, weight_bits: 3.0f64.to_bits() },
    ];
    let g = Graph::new(3, edges);
    let l = assemble(&g, 2, &|e, i, j| if i == j { 1.0 + e as f64 } else { 0.5 });
    let x = [1.0, 2.0, -4.0, 8.0, 0.5, -1.0];
    let total: f64 = apply(&l, &x).iter().sum();
    assert_eq!(total, 0.0);
}

#[test]
fn symmetric_coefficients_give_symmetric_laplacian() {
    let g = Graph::complete(3);
    let l = assemble(&g, 3, &|e, i, j| (e + i * j + 1) as f64);
    for r in 0..9 {
        for c in 0..9 {
            assert_eq!(l[r][c], l[c][r]);
        }
    }
}

#[test]
fn each_stalk_component_total_is_preserved() {
    let g = Graph::complete(3);
    let d = 2;
    let l = assemble(&g, d, &|e, i, j| (2 + e + i + j) as f64);
    let x = [1.0, -3.0, 2.0, 0.5, -1.0, 4.0];
    let lx = apply(&l, &x);
    for c in 0..d {
        let total: f64 = (0..g.n).map(|v| lx[v * d + c]).sum();
        assert_eq!(total, 0.0);
    }
}

#[test]
fn block_form_of_the_laplacian() {
    // edges 0 -- 1, 1 -- 2, 2 -- 0, each with block [[1, 2], [2, 5]] scaled by (e + 1)
    let g = Graph::cycle(3);
    let d = 2;
    let block = [[1.0, 2.0], [2.0, 5.0]];
    let l = assemble(&g, d, &|e, i, j| (e + 1) as f64 * block[i][j]);
    // vertex 1 meets edges 0 and 1: diagonal block (1 + 2) * block
    assert_eq!(l[2][3], 3.0 * 2.0);
    assert_eq!(l[3][3], 3.0 * 5.0);
    // off-diagonal block (1, 2) comes from edge 1 alone: -(2) * block
    assert_eq!(l[2][4], -2.0 * 1.0);
    assert_eq!(l[3][5], -2.0 * 5.0);
    // block (0, 2) comes from edge 2 (2 -- 0): -(3) * block
    assert_eq!(l[1][4], -3.0 * 2.0);
}

#[test]
fn loop_adds_nothing() {
    let edges = vec![Edge { u: 0, v: 0, weight_bits: 7.0f64.to_bits() }];
    let l = assemble_identity(&Graph::new(1, edges), 2);
    assert_eq!(l, vec![vec![0.0, 0.0], vec![0.0, 0.0]]);
}
