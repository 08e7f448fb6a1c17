//! The assembly pattern of the block sheaf Laplacian.
//!
//! For a graph with stalk dimension `d`, the sheaf Laplacian is an `n·d × n·d`
//! matrix made of `d × d` blocks, one block row and column per vertex. An edge
//! `e = a -- b` with weight `w_e` and restriction map `R_e` adds
//! `w_e · (R_eᵀ R_e)[i][j]` to entries `(a·d+i, a·d+j)` and `(b·d+i, b·d+j)` and
//! subtracts it from `(a·d+i, b·d+j)` and `(b·d+i, a·d+j)`. The list of those
//! updates, in the order in which they are applied, is computed here; the
//! numeric values are supplied by the caller.

use vstd::prelude::*;
use vstd::arithmetic::div_mod::{lemma_fundamental_div_mod, lemma_fundamental_div_mod_converse, lemma_mod_bound};
use crate::graph::{Edge, Graph, edges_within};

verus! {

/// One update of the block Laplacian: `coefficient(edge, i, j)` is added to entry
/// `(row, col)` when `positive`, subtracted otherwise.
#[derive(Clone, Copy, Debug, PartialEq, Eq, Structural)]
pub struct LaplacianTerm {
    pub row: usize,
    pub col: usize,
    pub edge: usize,
    pub i: usize,
    pub j: usize,
    pub positive: bool,
}

/// Where the update number `k` (of four) for edge `e` and block entry `(i, j)`
/// stands in the assembly order: edges outermost, then `i`, then `j`, then `k`.
pub open spec fn term_position(d: int, e: int, i: int, j: int, k: int) -> int {
    ((e * d + i) * d + j) * 4 + k
}

/// The update number `k` for edge `e` and block entry `(i, j)`: with `e = a -- b`,
/// `k = 0` adds at `(a, a)`, `k = 1` adds at `(b, b)`, `k = 2` subtracts at
/// `(a, b)` and `k = 3` subtracts at `(b, a)` (block coordinates).
pub open spec fn term_of(edges: Seq<Edge>, d: int, e: int, i: int, j: int, k: int) -> LaplacianTerm {
    let a = edges[e].u as int;
    let b = edges[e].v as int;
    let row_vertex = if k == 0 || k == 2 { a } else { b };
    let col_vertex = if k == 0 || k == 3 { a } else { b };
    LaplacianTerm {
        row: (row_vertex * d + i) as usize,
        col: (col_vertex * d + j) as usize,
        edge: e as usize,
        i: i as usize,
        j: j as usize,
        positive: k < 2,
    }
}

/// The update at position `p` of the assembly order.
pub open spec fn term_at(edges: Seq<Edge>, d: int, p: int) -> LaplacianTerm {
    term_of(edges, d, p / 4 / d / d, p / 4 / d % d, p / 4 % d, p % 4)
}

/// Reading a position back gives the edge, block entry and update number it was
/// made from.
pub proof fn lemma_decode_position(d: int, e: int, i: int, j: int, k: int)
    requires
        d > 0,
        e >= 0,
        0 <= i < d,
        0 <= j < d,
        0 <= k < 4,
    ensures
        term_position(d, e, i, j, k) % 4 == k,
        term_position(d, e, i, j, k) / 4 == (e * d + i) * d + j,
        term_position(d, e, i, j, k) / 4 % d == j,
        term_position(d, e, i, j, k) / 4 / d == e * d + i,
        term_position(d, e, i, j, k) / 4 / d % d == i,
        term_position(d, e, i, j, k) / 4 / d / d == e,
{
    let p = term_position(d, e, i, j, k);
    lemma_fundamental_div_mod_converse(p, 4, (e * d + i) * d + j, k);
    lemma_fundamental_div_mod_converse((e * d + i) * d + j, d, e * d + i, j);
    lemma_fundamental_div_mod_converse(e * d + i, d, e, i);
}

/// Positions of in-range updates lie below `m·d·d·4`.
pub proof fn lemma_position_bound(d: int, m: int, e: int, i: int, j: int, k: int)
    requires
        0 <= e < m,
        0 <= i < d,
        0 <= j < d,
        0 <= k < 4,
    ensures
        0 <= term_position(d, e, i, j, k) < m * d * d * 4,
{
    assert(0 <= (e * d + i) * d + j) by (nonlinear_arith)
        requires
            0 <= e,
            0 <= i < d,
            0 <= j < d,
    ;
    assert((e * d + i) * d + j < m * d * d) by (nonlinear_arith)
        requires
            0 <= e < m,
            0 <= i < d,
            0 <= j < d,
    ;
}

/// A block index `x·d + i` with `x < n` and `i < d` lies below `n·d`.
pub(crate) proof fn lemma_block_index(x: int, n: int, d: int, i: int)
    requires
        0 <= x < n,
        0 <= i < d,
    ensures
        0 <= x * d + i < n * d,
{
    assert(0 <= x * d + i < n * d) by (nonlinear_arith)
        requires
            0 <= x < n,
            0 <= i < d,
    ;
}

impl Graph {
    /// The updates that assemble the sheaf Laplacian with stalk dimension
    /// `stalk_dim`, in the order in which they are applied.
    pub fn laplacian_terms(&self, stalk_dim: usize) -> (terms: Vec<LaplacianTerm>)
        requires
            edges_within(self.edges@, self.n as nat),
            self.n * stalk_dim <= usize::MAX,
        ensures
            terms.len() == self.edges.len() * stalk_dim * stalk_dim * 4,
            forall|p: int|
                0 <= p < terms.len() ==> #[trigger] terms@[p] == term_at(
                    self.edges@,
                    stalk_dim as int,
                    p,
                ),
            forall|e: int, i: int, j: int, k: int|
                0 <= e < self.edges.len() && 0 <= i < stalk_dim && 0 <= j < stalk_dim && 0 <= k < 4
                    ==> #[trigger] terms@[term_position(stalk_dim as int, e, i, j, k)] == term_of(
                    self.edges@,
                    stalk_dim as int,
                    e,
                    i,
                    j,
                    k,
                ),
            forall|e: int, i: int, j: int, k: int|
                0 <= e < self.edges.len() && 0 <= i < stalk_dim && 0 <= j < stalk_dim && 0 <= k < 4
                    ==> {
                    let t = #[trigger] terms@[((e * stalk_dim + i) * stalk_dim + j) * 4 + k];
                    let a = self.edges@[e].u as int;
                    let b = self.edges@[e].v as int;
                    &&& t.edge == e
                    &&& t.i == i
                    &&& t.j == j
                    &&& t.positive == (k < 2)
                    &&& t.row == (if k == 0 || k == 2 { a } else { b }) * stalk_dim + i
                    &&& t.col == (if k == 0 || k == 3 { a } else { b }) * stalk_dim + j
                },
            forall|p: int|
                0 <= p < terms.len() ==> (#[trigger] terms@[p]).row < self.n * stalk_dim
                    && terms@[p].col < self.n * stalk_dim && terms@[p].edge < self.edges.len()
                    && terms@[p].i < stalk_dim && terms@[p].j < stalk_dim,
    {
        let d = stalk_dim;
        let n = self.n;
        let m = self.edges.len();
        let ghost edges = self.edges@;
        let mut terms: Vec<LaplacianTerm> = Vec::new();
        let mut e: usize = 0;
        while e < m
            invariant
                edges_within(self.edges@, self.n as nat),
                n == self.n,
                edges == self.edges@,
                n * d <= usize::MAX,
                m == edges.len(),
                e <= m,
                terms.len() == term_position(d as int, e as int, 0, 0, 0),
                forall|p: int| 0 <= p < terms.len() ==> #[trigger] terms@[p] == term_at(edges, d as int, p),
            decreases m - e,
        {
            let a = self.edges[e].u;
            let b = self.edges[e].v;
            let mut i: usize = 0;
            while i < d
                invariant
                    edges_within(self.edges@, self.n as nat),
                    n == self.n,
                    edges == self.edges@,
                    n * d <= usize::MAX,
                    m == edges.len(),
                    e < m,
                    a == edges[e as int].u,
                    b == edges[e as int].v,
                    a < n,
                    b < n,
                    i <= d,
                    terms.len() == term_position(d as int, e as int, i as int, 0, 0),
                    forall|p: int| 0 <= p < terms.len() ==> #[trigger] terms@[p] == term_at(edges, d as int, p),
                decreases d - i,
            {
                let mut j: usize = 0;
                while j < d
                    invariant
                        n * d <= usize::MAX,
                        m == edges.len(),
                        e < m,
                        a == edges[e as int].u,
                        b == edges[e as int].v,
                        a < n,
                        b < n,
                        i < d,
                        j <= d,
                        terms.len() == term_position(d as int, e as int, i as int, j as int, 0),
                        forall|p: int| 0 <= p < terms.len() ==> #[trigger] terms@[p] == term_at(edges, d as int, p),
                    decreases d - j,
                {
                    proof {
                        lemma_block_index(a as int, n as int, d as int, i as int);
                        lemma_block_index(b as int, n as int, d as int, i as int);
                        lemma_block_index(a as int, n as int, d as int, j as int);
                        lemma_block_index(b as int, n as int, d as int, j as int);
                        lemma_decode_position(d as int, e as int, i as int, j as int, 0);
                        lemma_decode_position(d as int, e as int, i as int, j as int, 1);
                        lemma_decode_position(d as int, e as int, i as int, j as int, 2);
                        lemma_decode_position(d as int, e as int, i as int, j as int, 3);
                    }
                    let row_a = a * d + i;
                    let row_b = b * d + i;
                    let col_a = a * d + j;
                    let col_b = b * d + j;
                    terms.push(LaplacianTerm { row: row_a, col: col_a, edge: e, i, j, positive: true });
                    terms.push(LaplacianTerm { row: row_b, col: col_b, edge: e, i, j, positive: true });
                    terms.push(LaplacianTerm { row: row_a, col: col_b, edge: e, i, j, positive: false });
                    terms.push(LaplacianTerm { row: row_b, col: col_a, edge: e, i, j, positive: false });
                    proof {
                        let base = term_position(d as int, e as int, i as int, j as int, 0);
                        assert(term_position(d as int, e as int, i as int, j as int, 1) == base + 1);
                        assert(term_position(d as int, e as int, i as int, j as int, 2) == base + 2);
                        assert(term_position(d as int, e as int, i as int, j as int, 3) == base + 3);
                        assert(term_position(d as int, e as int, i as int, (j + 1) as int, 0) == base + 4) by (nonlinear_arith)
                            requires
                                base == term_position(d as int, e as int, i as int, j as int, 0),
                        ;
                        assert forall|p: int| 0 <= p < terms.len() implies #[trigger] terms@[p] == term_at(edges, d as int, p) by {
                            if p >= base {
                                let k = p - base;
                                assert(p == term_position(d as int, e as int, i as int, j as int, k));
                            }
                        }
                    }
                    j = j + 1;
                }
                assert(term_position(d as int, e as int, i as int, d as int, 0) == term_position(d as int, e as int, (i + 1) as int, 0, 0)) by (nonlinear_arith);
                i = i + 1;
            }
            assert(term_position(d as int, e as int, d as int, 0, 0) == term_position(d as int, (e + 1) as int, 0, 0, 0)) by (nonlinear_arith);
            e = e + 1;
        }
        proof {
            assert(term_position(d as int, m as int, 0, 0, 0) == m * d * d * 4) by (nonlinear_arith);
            assert forall|e: int, i: int, j: int, k: int|
                0 <= e < m && 0 <= i < d && 0 <= j < d && 0 <= k < 4 implies #[trigger] terms@[term_position(d as int, e, i, j, k)] == term_of(edges, d as int, e, i, j, k) by {
                lemma_position_bound(d as int, m as int, e, i, j, k);
                lemma_decode_position(d as int, e, i, j, k);
            }
            assert forall|e: int, i: int, j: int, k: int|
                0 <= e < m && 0 <= i < d && 0 <= j < d && 0 <= k < 4 implies {
                    let t = #[trigger] terms@[((e * d + i) * d + j) * 4 + k];
                    let a = edges[e].u as int;
                    let b = edges[e].v as int;
                    &&& t.edge == e
                    &&& t.i == i
                    &&& t.j == j
                    &&& t.positive == (k < 2)
                    &&& t.row == (if k == 0 || k == 2 { a } else { b }) * d + i
                    &&& t.col == (if k == 0 || k == 3 { a } else { b }) * d + j
                } by {
                assert(terms@[term_position(d as int, e, i, j, k)] == term_of(edges, d as int, e, i, j, k));
                assert(edges[e].u < n && edges[e].v < n);
                lemma_block_index(edges[e].u as int, n as int, d as int, i);
                lemma_block_index(edges[e].v as int, n as int, d as int, i);
                lemma_block_index(edges[e].u as int, n as int, d as int, j);
                lemma_block_index(edges[e].v as int, n as int, d as int, j);
            }
            assert forall|p: int| 0 <= p < terms.len() implies (#[trigger] terms@[p]).row < n * d
                && terms@[p].col < n * d && terms@[p].edge < m && terms@[p].i < d && terms@[p].j < d by {
                lemma_term_at_in_range(edges, n as int, d as int, p);
            }
        }
        terms
    }
}


/// Every position below `m·d·d·4` is the position of exactly one update: it
/// decomposes into an edge `e < m`, a block entry `(i, j)` with `i, j < d` and an
/// update number `k < 4`.
pub proof fn lemma_position_decomposes(d: int, m: int, p: int) -> (t: (int, int, int, int))
    requires
        0 <= d,
        0 <= p < m * d * d * 4,
    ensures
        0 <= t.0 < m,
        0 <= t.1 < d,
        0 <= t.2 < d,
        0 <= t.3 < 4,
        p == term_position(d, t.0, t.1, t.2, t.3),
{
    assert(d > 0 && m > 0) by (nonlinear_arith)
        requires
            0 <= d,
            0 <= p < m * d * d * 4,
    ;
    let q = p / 4;
    let k = p % 4;
    lemma_fundamental_div_mod(p, 4);
    lemma_mod_bound(p, 4);
    let r = q / d;
    let j = q % d;
    lemma_fundamental_div_mod(q, d);
    lemma_mod_bound(q, d);
    let e = r / d;
    let i = r % d;
    lemma_fundamental_div_mod(r, d);
    lemma_mod_bound(r, d);
    assert(q >= 0 && r >= 0 && e >= 0) by (nonlinear_arith)
        requires
            p >= 0,
            p == 4 * q + k,
            0 <= k < 4,
            q == d * r + j,
            0 <= j < d,
            r == d * e + i,
            0 <= i < d,
    ;
    assert(p == term_position(d, e, i, j, k)) by (nonlinear_arith)
        requires
            p == 4 * q + k,
            q == d * r + j,
            r == d * e + i,
    ;
    if e >= m {
        lemma_position_bound(d, e + 1, m, 0, 0, 0);
        assert(term_position(d, m, 0, 0, 0) <= term_position(d, e, i, j, k)) by (nonlinear_arith)
            requires
                e >= m,
                d > 0,
                0 <= i,
                0 <= j,
                0 <= k,
        ;
        assert(term_position(d, m, 0, 0, 0) == m * d * d * 4) by (nonlinear_arith);
    }
    (e, i, j, k)
}

/// The update at an in-range position touches in-range entries.
pub(crate) proof fn lemma_term_at_in_range(edges: Seq<Edge>, n: int, d: int, p: int)
    requires
        edges_within(edges, n as nat),
        0 <= n,
        edges.len() <= usize::MAX,
        0 <= d,
        n * d <= usize::MAX,
        0 <= p < edges.len() * d * d * 4,
    ensures
        term_at(edges, d, p) == term_of(edges, d, p / 4 / d / d, p / 4 / d % d, p / 4 % d, p % 4),
        term_at(edges, d, p).row < n * d,
        term_at(edges, d, p).col < n * d,
        term_at(edges, d, p).edge == p / 4 / d / d,
        term_at(edges, d, p).edge < edges.len(),
        term_at(edges, d, p).i < d,
        term_at(edges, d, p).j < d,
{
    let t = lemma_position_decomposes(d, edges.len() as int, p);
    let (e, i, j, k) = t;
    lemma_decode_position(d, e, i, j, k);
    let a = edges[e].u as int;
    let b = edges[e].v as int;
    assert(edges[e].u < n && edges[e].v < n);
    lemma_block_index(a, n, d, i);
    lemma_block_index(b, n, d, i);
    lemma_block_index(a, n, d, j);
    lemma_block_index(b, n, d, j);
}

} // verus!
