//! Undirected multigraphs with edge lists and incidence (adjacency) lists.

use vstd::prelude::*;

verus! {

/// The IEEE-754 binary64 encoding of the weight `1.0`, which the graph
/// constructors give to every edge they create.
pub const UNIT_WEIGHT_BITS: u64 = 0x3FF0_0000_0000_0000;

/// An edge of the graph between vertices `u` and `v`.
///
/// Its weight is carried as the bit pattern of an IEEE-754 binary64 number
/// (`f64::to_bits`); the graph logic never inspects it.
#[derive(Clone, Copy, Debug, PartialEq, Eq, Structural)]
pub struct Edge {
    pub u: usize,
    pub v: usize,
    pub weight_bits: u64,
}

/// An undirected graph on the vertices `0..n`, with adjacency lists:
/// `adj[v]` is the list of indices of the edges incident to `v`.
#[derive(Clone, Debug)]
pub struct Graph {
    pub n: usize,
    pub edges: Vec<Edge>,
    pub adj: Vec<Vec<usize>>,
}

/// Every edge of `edges` joins two vertices below `n`.
pub open spec fn edges_within(edges: Seq<Edge>, n: nat) -> bool {
    forall|k: int| 0 <= k < edges.len() ==> (#[trigger] edges[k]).u < n && edges[k].v < n
}

/// The incidence list of vertex `w`: the edge indices in increasing order,
/// an index appearing once for each endpoint of that edge equal to `w`
/// (so twice for a loop at `w`).
pub open spec fn incident(edges: Seq<Edge>, w: int) -> Seq<usize>
    decreases edges.len(),
{
    if edges.len() == 0 {
        Seq::empty()
    } else {
        let k = edges.len() - 1;
        let before = incident(edges.drop_last(), w);
        let with_u = if edges[k].u == w { before.push(k as usize) } else { before };
        if edges[k].v == w { with_u.push(k as usize) } else { with_u }
    }
}

/// The number of endpoints among `edges` equal to `w` (a loop at `w` counts twice):
/// the degree of `w`.
pub open spec fn endpoint_count(edges: Seq<Edge>, w: int) -> nat
    decreases edges.len(),
{
    if edges.len() == 0 {
        0
    } else {
        let e = edges.last();
        endpoint_count(edges.drop_last(), w) + (if e.u == w { 1nat } else { 0nat }) + (if e.v == w {
            1nat
        } else {
            0nat
        })
    }
}

/// The sum of the degrees of the vertices `0..n`.
pub open spec fn degree_sum(edges: Seq<Edge>, n: nat) -> nat
    decreases n,
{
    if n == 0 {
        0
    } else {
        degree_sum(edges, (n - 1) as nat) + endpoint_count(edges, n - 1)
    }
}

/// The incidence list of `w` lists, in increasing order, exactly the edges with an
/// endpoint at `w`, and its length is the degree of `w`.
pub proof fn lemma_incident(edges: Seq<Edge>, w: int)
    requires
        edges.len() <= usize::MAX,
    ensures
        incident(edges, w).len() == endpoint_count(edges, w),
        forall|i: int|
            0 <= i < incident(edges, w).len() ==> {
                let k = #[trigger] incident(edges, w)[i];
                &&& k < edges.len()
                &&& (edges[k as int].u == w || edges[k as int].v == w)
            },
        forall|k: int|
            0 <= k < edges.len() && (edges[k].u == w || edges[k].v == w) ==> #[trigger] incident(
                edges,
                w,
            ).contains(k as usize),
        forall|i: int, j: int|
            0 <= i <= j < incident(edges, w).len() ==> incident(edges, w)[i] <= incident(
                edges,
                w,
            )[j],
        forall|i: int, j: int|
            0 <= i < j < incident(edges, w).len() ==> incident(edges, w)[i] < incident(edges, w)[j]
                || (j == i + 1 && edges[incident(edges, w)[i] as int].u == w
                && edges[incident(edges, w)[i] as int].v == w),
        forall|k: int|
            0 <= k < edges.len() && edges[k].u == w && edges[k].v == w ==> exists|i: int|
                0 <= i && i + 1 < incident(edges, w).len() && #[trigger] incident(edges, w)[i] == k
                    && incident(edges, w)[i + 1] == k,
    decreases edges.len(),
{
    if edges.len() > 0 {
        let prev = edges.drop_last();
        lemma_incident(prev, w);
        let k = edges.len() - 1;
        let e = edges[k];
        assert(edges.last() == e);
        let before = incident(prev, w);
        let inc = incident(edges, w);
        let extra: Seq<usize> = if e.u == w && e.v == w {
            seq![k as usize, k as usize]
        } else if e.u == w || e.v == w {
            seq![k as usize]
        } else {
            Seq::empty()
        };
        assert(inc =~= before + extra);
        assert forall|i: int| 0 <= i < inc.len() implies {
            let x = #[trigger] inc[i];
            &&& x < edges.len()
            &&& (edges[x as int].u == w || edges[x as int].v == w)
        } by {
            if i < before.len() {
                let x = before[i];
                assert(inc[i] == x);
                assert(x < prev.len());
                assert(prev[x as int].u == w || prev[x as int].v == w);
                assert(prev[x as int] == edges[x as int]);
            } else {
                assert(inc[i] == k as usize);
                assert(e.u == w || e.v == w);
            }
        }
        assert forall|i: int, j: int| 0 <= i <= j < inc.len() implies inc[i] <= inc[j] by {
            if j < before.len() {
                assert(inc[i] == before[i]);
                assert(inc[j] == before[j]);
            } else if i < before.len() {
                assert(inc[i] == before[i]);
                assert(before[i] < prev.len());
                assert(inc[j] == k as usize);
            } else {
                assert(inc[i] == k as usize);
                assert(inc[j] == k as usize);
            }
        }
        assert forall|i: int, j: int| 0 <= i < j < inc.len() implies inc[i] < inc[j] || (j == i + 1
            && edges[inc[i] as int].u == w && edges[inc[i] as int].v == w) by {
            if j < before.len() {
                assert(inc[i] == before[i]);
                assert(inc[j] == before[j]);
                if !(before[i] < before[j]) {
                    assert(prev[before[i] as int] == edges[before[i] as int]);
                }
            } else if i < before.len() {
                assert(inc[i] == before[i]);
                assert(before[i] < prev.len());
                assert(inc[j] == k as usize);
            } else {
                assert(inc[i] == k as usize);
                assert(inc[j] == k as usize);
            }
        }
        assert forall|kk: int|
            0 <= kk < edges.len() && edges[kk].u == w && edges[kk].v == w implies exists|i: int|
            0 <= i && i + 1 < inc.len() && #[trigger] inc[i] == kk && inc[i + 1] == kk by {
            if kk < k {
                assert(prev[kk] == edges[kk]);
                let i = choose|i: int|
                    0 <= i && i + 1 < before.len() && #[trigger] before[i] == kk && before[i + 1] == kk;
                assert(inc[i] == kk && inc[i + 1] == kk);
            } else {
                let i = before.len() as int;
                assert(inc[i] == kk && inc[i + 1] == kk);
            }
        }
        assert forall|j: int|
            0 <= j < edges.len() && (edges[j].u == w || edges[j].v == w) implies #[trigger] inc.contains(
            j as usize,
        ) by {
            if j < k {
                assert(prev[j] == edges[j]);
                assert(before.contains(j as usize));
                let i = choose|i: int| 0 <= i < before.len() && before[i] == j as usize;
                assert(inc[i] == j as usize);
            } else {
                assert(inc[before.len() as int] == j as usize);
            }
        }
    }
}

/// Degrees add up over a concatenation of edge lists.
pub proof fn lemma_endpoint_count_concat(a: Seq<Edge>, b: Seq<Edge>, w: int)
    ensures
        endpoint_count(a + b, w) == endpoint_count(a, w) + endpoint_count(b, w),
    decreases b.len(),
{
    if b.len() == 0 {
        assert(a + b =~= a);
    } else {
        assert((a + b).drop_last() =~= a + b.drop_last());
        lemma_endpoint_count_concat(a, b.drop_last(), w);
    }
}

/// Handshake: over a list of edges inside `0..n`, the degrees add up to twice the
/// number of edges.
pub proof fn lemma_handshake(edges: Seq<Edge>, n: nat)
    requires
        edges_within(edges, n),
    ensures
        degree_sum(edges, n) == 2 * edges.len(),
    decreases edges.len(),
{
    if edges.len() == 0 {
        lemma_degree_sum_no_edges(edges, n);
    } else {
        let prev = edges.drop_last();
        assert(edges_within(prev, n)) by {
            assert forall|k: int| 0 <= k < prev.len() implies (#[trigger] prev[k]).u < n && prev[k].v
                < n by {
                assert(prev[k] == edges[k]);
            }
        }
        lemma_handshake(prev, n);
        let e = edges.last();
        assert(e == edges[edges.len() - 1]);
        lemma_degree_sum_step(edges, n);
        assert(degree_sum(edges, n) == degree_sum(prev, n) + 2);
        assert(prev.len() + 1 == edges.len());
    }
}

/// Without edges every degree is zero.
proof fn lemma_degree_sum_no_edges(edges: Seq<Edge>, n: nat)
    requires
        edges.len() == 0,
    ensures
        degree_sum(edges, n) == 0,
    decreases n,
{
    if n > 0 {
        lemma_degree_sum_no_edges(edges, (n - 1) as nat);
    }
}

/// Removing the last edge lowers the degree sum by two.
proof fn lemma_degree_sum_step(edges: Seq<Edge>, n: nat)
    requires
        edges.len() > 0,
        edges.last().u < n,
        edges.last().v < n,
    ensures
        degree_sum(edges, n) == degree_sum(edges.drop_last(), n) + 2,
{
    lemma_degree_sum_partial(edges, n);
}

/// Over the vertices `0..m`, removing the last edge lowers the degree sum by the
/// number of its endpoints below `m`.
proof fn lemma_degree_sum_partial(edges: Seq<Edge>, m: nat)
    requires
        edges.len() > 0,
    ensures
        degree_sum(edges, m) == degree_sum(edges.drop_last(), m) + (if edges.last().u < m {
            1nat
        } else {
            0nat
        }) + (if edges.last().v < m {
            1nat
        } else {
            0nat
        }),
    decreases m,
{
    if m > 0 {
        lemma_degree_sum_partial(edges, (m - 1) as nat);
    }
}

/// Some edge of `edges` goes from `x` to `y`.
pub open spec fn joins(edges: Seq<Edge>, x: int, y: int) -> bool {
    exists|p: int| 0 <= p < edges.len() && #[trigger] edges[p].u == x && edges[p].v == y
}

/// The edge `x -- y` of weight 1.0.
pub open spec fn unit_edge(x: int, y: int) -> Edge {
    Edge { u: x as usize, v: y as usize, weight_bits: UNIT_WEIGHT_BITS }
}

/// The edge `i -- i+1` of weight 1.0.
pub open spec fn path_edge(i: int) -> Edge {
    Edge { u: i as usize, v: (i + 1) as usize, weight_bits: UNIT_WEIGHT_BITS }
}

/// The edges `0 -- 1, 1 -- 2, ..., k-1 -- k`, all of weight 1.0.
pub open spec fn path_edges(k: nat) -> Seq<Edge> {
    Seq::new(k, |i: int| path_edge(i))
}

/// The edge list of the path on `n` vertices.
pub open spec fn path_graph_edges(n: nat) -> Seq<Edge> {
    if n <= 1 {
        Seq::empty()
    } else {
        path_edges((n - 1) as nat)
    }
}

/// The edge list of the cycle on `n` vertices: the path `0 -- 1 -- ... -- n-1`,
/// closed by `n-1 -- 0` (for `n == 1`, the loop `0 -- 0`); no edge when `n == 0`.
pub open spec fn cycle_graph_edges(n: nat) -> Seq<Edge> {
    if n == 0 {
        Seq::empty()
    } else {
        path_edges((n - 1) as nat).push(
            Edge { u: (n - 1) as usize, v: 0, weight_bits: UNIT_WEIGHT_BITS },
        )
    }
}

/// In the path `0 -- 1 -- ... -- k`, vertex `w` meets the edge to its left when
/// `1 <= w <= k` and the edge to its right when `w < k`.
pub proof fn lemma_path_endpoint_count(k: nat, w: int)
    requires
        0 <= w,
        k < usize::MAX,
    ensures
        endpoint_count(path_edges(k), w) == (if 1 <= w <= k {
            1nat
        } else {
            0nat
        }) + (if w < k {
            1nat
        } else {
            0nat
        }),
    decreases k,
{
    if k > 0 {
        assert(path_edges(k).drop_last() =~= path_edges((k - 1) as nat));
        lemma_path_endpoint_count((k - 1) as nat, w);
    }
}

/// The first `len` edges leaving vertex `r` upwards: `r -- r+1, ..., r -- r+len`.
pub open spec fn upward_edges(r: nat, len: nat) -> Seq<Edge> {
    Seq::new(len, |k: int| Edge { u: r as usize, v: (r + 1 + k) as usize, weight_bits: UNIT_WEIGHT_BITS })
}

/// The edges of the complete graph on `n` vertices whose lower endpoint is below `i`,
/// ordered by lower endpoint, then by upper endpoint.
pub open spec fn complete_rows(n: nat, i: nat) -> Seq<Edge>
    decreases i,
{
    if i == 0 {
        Seq::empty()
    } else {
        let r = (i - 1) as nat;
        complete_rows(n, r) + upward_edges(r, if r + 1 < n { (n - r - 1) as nat } else { 0 })
    }
}

/// The edge list of the complete graph `K_n`: every pair `i < j` once, in
/// lexicographic order.
pub open spec fn complete_graph_edges(n: nat) -> Seq<Edge> {
    complete_rows(n, n)
}

/// Twice the number of edges of `K_n` with lower endpoint below `i` is `i(2n - i - 1)`.
pub proof fn lemma_complete_rows_len(n: nat, i: nat)
    requires
        i <= n,
    ensures
        2 * complete_rows(n, i).len() == i * (2 * n - i - 1),
    decreases i,
{
    if i > 0 {
        lemma_complete_rows_len(n, (i - 1) as nat);
        let a = complete_rows(n, (i - 1) as nat).len();
        assert(2 * a == (i - 1) * (2 * n - (i - 1) - 1));
        assert(complete_rows(n, i).len() == a + (n - i));
        assert(2 * (a + (n - i)) == i * (2 * n - i - 1)) by (nonlinear_arith)
            requires
                2 * a == (i - 1) * (2 * n - (i - 1) - 1),
                i >= 1,
        ;
    } else {
        assert(i * (2 * n - i - 1) == 0) by (nonlinear_arith)
            requires
                i == 0,
        ;
    }
}

/// Vertex `w` meets `r -- r+1, ..., r -- r+len` `len` times when it is `r`,
/// once when it lies in `r+1 ..= r+len`.
pub proof fn lemma_upward_endpoint_count(r: nat, len: nat, w: int)
    requires
        r + len <= usize::MAX,
        0 <= w,
    ensures
        endpoint_count(upward_edges(r, len), w) == (if w == r {
            len
        } else {
            0nat
        }) + (if r < w <= r + len {
            1nat
        } else {
            0nat
        }),
    decreases len,
{
    if len > 0 {
        assert(upward_edges(r, len).drop_last() =~= upward_edges(r, (len - 1) as nat));
        lemma_upward_endpoint_count(r, (len - 1) as nat, w);
    }
}

/// In `K_n`, the edges with lower endpoint below `i` meet vertex `w < n` once from
/// each lower vertex below `min(i, w)`, and `n - w - 1` times more once `w < i`.
pub proof fn lemma_complete_rows_endpoint_count(n: nat, i: nat, w: int)
    requires
        i <= n,
        n <= usize::MAX,
        0 <= w < n,
    ensures
        endpoint_count(complete_rows(n, i), w) == (if w < i {
            (n - w - 1) as nat
        } else {
            0nat
        }) + (if w < i {
            w as nat
        } else {
            i
        }),
    decreases i,
{
    if i > 0 {
        let r = (i - 1) as nat;
        lemma_complete_rows_endpoint_count(n, r, w);
        let len: nat = if r + 1 < n { (n - r - 1) as nat } else { 0 };
        lemma_endpoint_count_concat(complete_rows(n, r), upward_edges(r, len), w);
        lemma_upward_endpoint_count(r, len, w);
    }
}

/// Every edge of `K_n` with lower endpoint below `i` joins `u < v < n`.
pub proof fn lemma_complete_edge_bounds(n: nat, i: nat, k: int)
    requires
        i <= n,
        n <= usize::MAX,
        0 <= k < complete_rows(n, i).len(),
    ensures
        complete_rows(n, i)[k].u < complete_rows(n, i)[k].v < n,
    decreases i,
{
    if i > 0 {
        let r = (i - 1) as nat;
        let a = complete_rows(n, r);
        if k < a.len() {
            lemma_complete_edge_bounds(n, r, k);
        }
    }
}

/// `a` comes strictly before `b` in the lexicographic order of endpoint pairs.
pub open spec fn endpoints_before(a: Edge, b: Edge) -> bool {
    a.u < b.u || (a.u == b.u && a.v < b.v)
}

/// The edges of `K_n` with lower endpoint below `i` are in strictly increasing
/// lexicographic order, and each has its lower endpoint below `i`.
pub proof fn lemma_complete_rows_sorted(n: nat, i: nat)
    requires
        i <= n,
        n <= usize::MAX,
    ensures
        forall|k: int| 0 <= k < complete_rows(n, i).len() ==> (#[trigger] complete_rows(n, i)[k]).u < i,
        forall|p: int, q: int|
            0 <= p < q < complete_rows(n, i).len() ==> endpoints_before(
                #[trigger] complete_rows(n, i)[p],
                #[trigger] complete_rows(n, i)[q],
            ),
    decreases i,
{
    if i > 0 {
        let r = (i - 1) as nat;
        lemma_complete_rows_sorted(n, r);
        let a = complete_rows(n, r);
        let all = complete_rows(n, i);
        assert forall|p: int, q: int| 0 <= p < q < all.len() implies endpoints_before(
            #[trigger] all[p],
            #[trigger] all[q],
        ) by {
            if q < a.len() {
                assert(all[p] == a[p] && all[q] == a[q]);
            } else if p < a.len() {
                assert(all[p] == a[p]);
            }
        }
        assert forall|k: int| 0 <= k < all.len() implies (#[trigger] all[k]).u < i by {
            if k < a.len() {
                assert(all[k] == a[k]);
            }
        }
    }
}

/// Every pair of vertices of `K_n` is joined: for
/// `x < i` and `x < y < n`, the pair `x -- y` is among the edges with lower endpoint
/// below `i`.
pub proof fn lemma_complete_rows_has_pair(n: nat, i: nat, x: nat, y: nat)
    requires
        i <= n,
        n <= usize::MAX,
        x < i,
        x < y < n,
    ensures
        complete_rows(n, i).contains(unit_edge(x as int, y as int)),
    decreases i,
{
    let r = (i - 1) as nat;
    let a = complete_rows(n, r);
    let all = complete_rows(n, i);
    let e = unit_edge(x as int, y as int);
    if x < r {
        lemma_complete_rows_has_pair(n, r, x, y);
        let p = choose|p: int| 0 <= p < a.len() && a[p] == e;
        assert(all[p] == e);
    } else {
        let p = a.len() + (y - x - 1);
        assert(all[p] == e);
    }
}

/// Every edge of `K_n` has weight 1.0.
proof fn lemma_complete_rows_unit(n: nat, i: nat, k: int)
    requires
        i <= n,
        0 <= k < complete_rows(n, i).len(),
    ensures
        complete_rows(n, i)[k].weight_bits == UNIT_WEIGHT_BITS,
    decreases i,
{
    if i > 0 {
        let r = (i - 1) as nat;
        if k < complete_rows(n, r).len() {
            lemma_complete_rows_unit(n, r, k);
        }
    }
}

/// The path on `n` vertices joins `i` to `i + 1` by its edge `i`, for every
/// `i < n - 1`, all with weight 1.0; it has `n - 1` edges (none when `n <= 1`).
pub proof fn lemma_path_graph_edges(n: nat)
    requires
        n <= usize::MAX,
    ensures
        path_graph_edges(n).len() == (if n <= 1 { 0 } else { n - 1 }),
        forall|i: int|
            0 <= i < path_graph_edges(n).len() ==> (#[trigger] path_graph_edges(n)[i]).u == i
                && path_graph_edges(n)[i].v == i + 1 && path_graph_edges(n)[i].weight_bits == 0x3FF0_0000_0000_0000u64,
{
}

/// The cycle on `n` vertices has `n` edges; edge `i` joins `i` to `(i + 1) mod n`,
/// with weight 1.0.
pub proof fn lemma_cycle_graph_edges(n: nat)
    requires
        n <= usize::MAX,
    ensures
        cycle_graph_edges(n).len() == n,
        forall|i: int|
            0 <= i < n ==> (#[trigger] cycle_graph_edges(n)[i]).u == i && cycle_graph_edges(n)[i].v == (
            if i + 1 < n {
                i + 1
            } else {
                0
            }) && cycle_graph_edges(n)[i].weight_bits == 0x3FF0_0000_0000_0000u64,
{
}

/// `K_n` has `n(n-1)/2` edges of weight 1.0, each joining `u < v < n`, in strictly
/// increasing lexicographic order, and every pair `x < y < n` is joined.
pub proof fn lemma_complete_graph_edges(n: nat)
    requires
        n <= usize::MAX,
    ensures
        2 * complete_graph_edges(n).len() == n * (n - 1),
        forall|p: int|
            0 <= p < complete_graph_edges(n).len() ==> (#[trigger] complete_graph_edges(n)[p]).u
                < complete_graph_edges(n)[p].v < n && complete_graph_edges(n)[p].weight_bits == 0x3FF0_0000_0000_0000u64,
        forall|p: int, q: int|
            0 <= p < q < complete_graph_edges(n).len() ==> (#[trigger] complete_graph_edges(n)[p]).u < (
            #[trigger] complete_graph_edges(n)[q]).u || (complete_graph_edges(n)[p].u
                == complete_graph_edges(n)[q].u && complete_graph_edges(n)[p].v < complete_graph_edges(
                n,
            )[q].v),
        forall|x: int, y: int| 0 <= x < y < n ==> #[trigger] joins(complete_graph_edges(n), x, y),
{
    let es = complete_graph_edges(n);
    lemma_complete_rows_len(n, n);
    assert(n * (2 * n - n - 1) == n * (n - 1));
    lemma_complete_rows_sorted(n, n);
    assert forall|p: int| 0 <= p < es.len() implies (#[trigger] es[p]).u < es[p].v < n && es[p].weight_bits
        == 0x3FF0_0000_0000_0000u64 by {
        lemma_complete_edge_bounds(n, n, p);
        lemma_complete_rows_unit(n, n, p);
    }
    assert forall|p: int, q: int| 0 <= p < q < es.len() implies (#[trigger] es[p]).u < (#[trigger] es[q]).u
        || (es[p].u == es[q].u && es[p].v < es[q].v) by {
        assert(endpoints_before(es[p], es[q]));
    }
    assert forall|x: int, y: int| 0 <= x < y < n implies #[trigger] joins(es, x, y) by {
        lemma_complete_rows_has_pair(n, n, x as nat, y as nat);
        let p = choose|p: int| 0 <= p < es.len() && es[p] == unit_edge(x, y);
        assert(es[p].u == x && es[p].v == y);
    }
}

impl Graph {
    /// The graph is well formed: its edges join vertices below `n`, and
    /// `adj` holds, for each vertex, exactly its incidence list.
    pub open spec fn wf(&self) -> bool {
        &&& edges_within(self.edges@, self.n as nat)
        &&& self.adj.len() == self.n
        &&& forall|w: int| 0 <= w < self.n ==> (#[trigger] self.adj[w])@ == incident(self.edges@, w)
    }

    /// Build a graph from an edge list. Takes ownership of the edges vector.
    pub fn new(n: usize, edges: Vec<Edge>) -> (g: Self)
        requires
            edges_within(edges@, n as nat),
        ensures
            g.n == n,
            g.edges@ == edges@,
            g.wf(),
            g.adj.len() == n,
            forall|w: int, i: int|
                0 <= w < n && 0 <= i < g.adj[w]@.len() ==> {
                    let k = #[trigger] g.adj[w]@[i];
                    &&& k < g.edges.len()
                    &&& (g.edges@[k as int].u == w || g.edges@[k as int].v == w)
                },
            forall|w: int, k: int|
                0 <= w < n && 0 <= k < g.edges.len() && (g.edges@[k].u == w || g.edges@[k].v == w)
                    ==> #[trigger] g.adj[w]@.contains(k as usize),
            forall|w: int, i: int, j: int|
                0 <= w < n && 0 <= i < j < g.adj[w]@.len() ==> #[trigger] g.adj[w]@[i] < #[trigger] g.adj[w]@[j]
                    || (j == i + 1 && g.edges@[g.adj[w]@[i] as int].u == w
                    && g.edges@[g.adj[w]@[i] as int].v == w),
            forall|w: int, i: int|
                0 <= w < n && 0 <= i < g.adj[w]@.len() && g.edges@[#[trigger] g.adj[w]@[i] as int].u == w
                    && g.edges@[g.adj[w]@[i] as int].v == w ==> (i + 1 < g.adj[w]@.len() && g.adj[w]@[i + 1]
                    == g.adj[w]@[i]) || (0 < i && g.adj[w]@[i - 1] == g.adj[w]@[i]),
    {
        let mut adj: Vec<Vec<usize>> = Vec::new();
        let mut w: usize = 0;
        while w < n
            invariant
                w <= n,
                adj.len() == w,
                forall|x: int| 0 <= x < w ==> (#[trigger] adj[x])@ == Seq::<usize>::empty(),
            decreases n - w,
        {
            adj.push(Vec::new());
            w = w + 1;
        }
        let m = edges.len();
        let mut eidx: usize = 0;
        while eidx < m
            invariant
                m == edges.len(),
                eidx <= m,
                edges_within(edges@, n as nat),
                adj.len() == n,
                forall|x: int| 0 <= x < n ==> (#[trigger] adj[x])@ == incident(edges@.take(eidx as int), x),
            decreases m - eidx,
        {
            let e = edges[eidx];
            assert(edges@.take(eidx + 1).drop_last() =~= edges@.take(eidx as int));
            adj[e.u].push(eidx);
            adj[e.v].push(eidx);
            eidx = eidx + 1;
        }
        assert(edges@.take(m as int) =~= edges@);
        let g = Graph { n, edges, adj };
        proof {
            assert(g.edges@.len() == g.edges.len());
            assert forall|w: int, i: int| 0 <= w < n && 0 <= i < g.adj[w]@.len() implies {
                let k = #[trigger] g.adj[w]@[i];
                &&& k < g.edges.len()
                &&& (g.edges@[k as int].u == w || g.edges@[k as int].v == w)
            } by {
                lemma_incident(g.edges@, w);
            }
            assert forall|w: int, k: int|
                0 <= w < n && 0 <= k < g.edges.len() && (g.edges@[k].u == w || g.edges@[k].v == w)
                implies #[trigger] g.adj[w]@.contains(k as usize) by {
                lemma_incident(g.edges@, w);
            }
            assert forall|w: int, i: int, j: int|
                0 <= w < n && 0 <= i < j < g.adj[w]@.len() implies #[trigger] g.adj[w]@[i] < #[trigger] g.adj[w]@[j]
                || (j == i + 1 && g.edges@[g.adj[w]@[i] as int].u == w
                && g.edges@[g.adj[w]@[i] as int].v == w) by {
                lemma_incident(g.edges@, w);
            }
            assert forall|w: int, i: int|
                0 <= w < n && 0 <= i < g.adj[w]@.len() && g.edges@[#[trigger] g.adj[w]@[i] as int].u == w
                    && g.edges@[g.adj[w]@[i] as int].v == w implies (i + 1 < g.adj[w]@.len() && g.adj[w]@[i + 1]
                    == g.adj[w]@[i]) || (0 < i && g.adj[w]@[i - 1] == g.adj[w]@[i]) by {
                lemma_incident(g.edges@, w);
                let inc = incident(g.edges@, w);
                let k = inc[i] as int;
                let i0 = choose|i0: int| 0 <= i0 && i0 + 1 < inc.len() && #[trigger] inc[i0] == k && inc[i0 + 1] == k;
                if i < i0 {
                    assert(!(inc[i] < inc[i0]));
                    assert(i0 == i + 1);
                } else if i > i0 + 1 {
                    assert(!(inc[i0] < inc[i]));
                }
            }
        }
        g
    }

    /// Create a path graph on n vertices (n-1 edges, all weight 1.0).
    pub fn path(n: usize) -> (g: Self)
        ensures
            g.wf(),
            g.n == n,
            g.edges@ == path_graph_edges(n as nat),
            g.edges.len() == (if n <= 1 { 0 } else { n - 1 }),
            forall|i: int|
                0 <= i < g.edges.len() ==> (#[trigger] g.edges@[i]).u == i && g.edges@[i].v == i + 1
                    && g.edges@[i].weight_bits == 0x3FF0_0000_0000_0000u64,
            forall|i: int| 0 <= i && i + 1 < n ==> #[trigger] joins(g.edges@, i, i + 1),
            n >= 2 ==> forall|w: int|
                0 <= w < n ==> #[trigger] g.degree(w) == (if w == 0 || w == n - 1 {
                    1nat
                } else {
                    2nat
                }),
    {
        if n <= 1 {
            let g = Self::new(n, Vec::new());
            assert(g.edges@ =~= path_graph_edges(n as nat));
            return g;
        }
        let mut edges: Vec<Edge> = Vec::with_capacity(n - 1);
        let mut i: usize = 0;
        while i < n - 1
            invariant
                n >= 2,
                i <= n - 1,
                edges@ =~= path_edges(i as nat),
            decreases n - 1 - i,
        {
            edges.push(Edge { u: i, v: i + 1, weight_bits: UNIT_WEIGHT_BITS });
            i = i + 1;
        }
        let g = Self::new(n, edges);
        proof {
            assert forall|i: int| 0 <= i && i + 1 < n implies #[trigger] joins(g.edges@, i, i + 1) by {
                assert(g.edges@[i].u == i && g.edges@[i].v == i + 1);
            }
            assert forall|w: int| 0 <= w < n implies #[trigger] g.degree(w) == (if w == 0 || w == n
                - 1 {
                1nat
            } else {
                2nat
            }) by {
                g.lemma_adjacency_is_incidence(w);
                lemma_path_endpoint_count((n - 1) as nat, w);
            }
        }
        g
    }

    /// Create a cycle graph on n vertices (n edges, all weight 1.0): edge `i` joins
    /// `i` and `(i + 1) mod n`, so the cycle on one vertex is a loop.
    pub fn cycle(n: usize) -> (g: Self)
        ensures
            g.wf(),
            g.n == n,
            g.edges@ == cycle_graph_edges(n as nat),
            g.edges.len() == n,
            forall|i: int|
                0 <= i < n ==> #[trigger] g.edges@[i] == unit_edge(i, if i + 1 < n { i + 1 } else { 0 }),
            forall|i: int|
                0 <= i < n ==> (#[trigger] g.edges@[i]).u == i && g.edges@[i].v == (if i + 1 < n {
                    i + 1
                } else {
                    0
                }) && g.edges@[i].weight_bits == 0x3FF0_0000_0000_0000u64,
            forall|w: int| 0 <= w < n ==> #[trigger] g.degree(w) == 2,
    {
        if n == 0 {
            let g = Self::new(0, Vec::new());
            assert(g.edges@ =~= cycle_graph_edges(0));
            return g;
        }
        let mut edges: Vec<Edge> = Vec::with_capacity(n);
        let mut i: usize = 0;
        while i < n - 1
            invariant
                n >= 1,
                i <= n - 1,
                edges@ =~= path_edges(i as nat),
            decreases n - 1 - i,
        {
            edges.push(Edge { u: i, v: i + 1, weight_bits: UNIT_WEIGHT_BITS });
            i = i + 1;
        }
        edges.push(Edge { u: n - 1, v: 0, weight_bits: UNIT_WEIGHT_BITS });
        let g = Self::new(n, edges);
        proof {
            assert forall|w: int| 0 <= w < n implies #[trigger] g.degree(w) == 2 by {
                g.lemma_adjacency_is_incidence(w);
                lemma_path_endpoint_count((n - 1) as nat, w);
                assert(g.edges@.drop_last() =~= path_edges((n - 1) as nat));
            }
        }
        g
    }

    /// Create a complete graph Kn on n vertices (K0 is the empty graph).
    pub fn complete(n: usize) -> (g: Self)
        requires
            n >= 1 ==> n * (n - 1) <= usize::MAX,
        ensures
            g.wf(),
            g.n == n,
            g.edges@ == complete_graph_edges(n as nat),
            g.edges.len() == n * (n - 1) / 2,
            forall|x: int, y: int|
                0 <= x < y < n ==> #[trigger] g.edges@.contains(unit_edge(x, y)),
            forall|p: int, q: int|
                0 <= p < q < g.edges.len() ==> endpoints_before(
                    #[trigger] g.edges@[p],
                    #[trigger] g.edges@[q],
                ),
            forall|w: int| 0 <= w < n ==> #[trigger] g.degree(w) == n - 1,
            forall|p: int|
                0 <= p < g.edges.len() ==> (#[trigger] g.edges@[p]).u < g.edges@[p].v < n
                    && g.edges@[p].weight_bits == 0x3FF0_0000_0000_0000u64,
            forall|p: int, q: int|
                0 <= p < q < g.edges.len() ==> (#[trigger] g.edges@[p]).u < (#[trigger] g.edges@[q]).u
                    || (g.edges@[p].u == g.edges@[q].u && g.edges@[p].v < g.edges@[q].v),
            forall|x: int, y: int| 0 <= x < y < n ==> #[trigger] joins(g.edges@, x, y),
    {
        let m = if n == 0 { 0 } else { n * (n - 1) / 2 };
        let mut edges: Vec<Edge> = Vec::with_capacity(m);
        let mut i: usize = 0;
        while i < n
            invariant
                i <= n,
                edges@ =~= complete_rows(n as nat, i as nat),
            decreases n - i,
        {
            let ghost before = edges@;
            let mut j: usize = i + 1;
            while j < n
                invariant
                    i < n,
                    i + 1 <= j <= n,
                    edges@ =~= before + upward_edges(i as nat, (j - i - 1) as nat),
                decreases n - j,
            {
                edges.push(Edge { u: i, v: j, weight_bits: UNIT_WEIGHT_BITS });
                j = j + 1;
            }
            i = i + 1;
        }
        proof {
            assert forall|k: int| 0 <= k < edges@.len() implies (#[trigger] edges@[k]).u < n
                && edges@[k].v < n by {
                lemma_complete_edge_bounds(n as nat, n as nat, k);
            }
        }
        let g = Self::new(n, edges);
        proof {
            lemma_complete_rows_len(n as nat, n as nat);
            assert(2 * g.edges.len() == n * (n - 1)) by (nonlinear_arith)
                requires
                    2 * g.edges.len() == n * (2 * n - n - 1),
            ;
            lemma_complete_rows_sorted(n as nat, n as nat);
            assert forall|p: int| 0 <= p < g.edges.len() implies (#[trigger] g.edges@[p]).u < g.edges@[p].v < n
                && g.edges@[p].weight_bits == 0x3FF0_0000_0000_0000u64 by {
                lemma_complete_edge_bounds(n as nat, n as nat, p);
                lemma_complete_rows_unit(n as nat, n as nat, p);
            }
            assert forall|x: int, y: int| 0 <= x < y < n implies #[trigger] g.edges@.contains(
                unit_edge(x, y),
            ) by {
                lemma_complete_rows_has_pair(n as nat, n as nat, x as nat, y as nat);
            }
            assert forall|x: int, y: int| 0 <= x < y < n implies #[trigger] joins(g.edges@, x, y) by {
                lemma_complete_rows_has_pair(n as nat, n as nat, x as nat, y as nat);
                let p = choose|p: int| 0 <= p < g.edges@.len() && g.edges@[p] == unit_edge(x, y);
                assert(g.edges@[p].u == x && g.edges@[p].v == y);
            }
            assert forall|w: int| 0 <= w < n implies #[trigger] g.degree(w) == n - 1 by {
                g.lemma_adjacency_is_incidence(w);
                lemma_complete_rows_endpoint_count(n as nat, n as nat, w);
            }
        }
        g
    }

    /// Create a tree from n-1 edges.
    pub fn tree(n: usize, tree_edges: &[Edge]) -> (g: Self)
        requires
            tree_edges@.len() == (if n == 0 { 0 } else { n - 1 }),
            edges_within(tree_edges@, n as nat),
        ensures
            g.wf(),
            g.n == n,
            g.edges@ == tree_edges@,
            g.edges.len() == (if n == 0 { 0 } else { n - 1 }),
    {
        let mut edges: Vec<Edge> = Vec::with_capacity(tree_edges.len());
        let mut i: usize = 0;
        while i < tree_edges.len()
            invariant
                i <= tree_edges@.len(),
                edges@ =~= tree_edges@.take(i as int),
            decreases tree_edges@.len() - i,
        {
            edges.push(tree_edges[i]);
            i = i + 1;
        }
        assert(tree_edges@.take(i as int) =~= tree_edges@);
        Self::new(n, edges)
    }

    /// The degree of vertex `w`: the length of its adjacency list.
    pub open spec fn degree(&self, w: int) -> nat {
        self.adj[w]@.len()
    }

    /// `adj[v]` is the list of indices of the edges incident to `v`: every index in
    /// it names an edge with an endpoint at `v`, every such edge is listed, the list
    /// is in increasing order, and its length is the number of endpoints at `v`.
    pub proof fn lemma_adjacency_is_incidence(&self, w: int)
        requires
            self.wf(),
            0 <= w < self.n,
        ensures
            self.degree(w) == endpoint_count(self.edges@, w),
            forall|i: int|
                0 <= i < self.adj[w].len() ==> {
                    let k = #[trigger] self.adj[w]@[i];
                    &&& k < self.edges.len()
                    &&& (self.edges[k as int].u == w || self.edges[k as int].v == w)
                },
            forall|k: int|
                0 <= k < self.edges.len() && (self.edges[k].u == w || self.edges[k].v == w)
                    ==> #[trigger] self.adj[w]@.contains(k as usize),
            forall|i: int, j: int|
                0 <= i <= j < self.adj[w].len() ==> self.adj[w]@[i] <= self.adj[w]@[j],
    {
        assert(self.edges@.len() == self.edges.len());
        lemma_incident(self.edges@, w);
    }

    /// Handshake lemma: the degrees of a well-formed graph add up to twice its
    /// number of edges.
    pub proof fn lemma_degrees_sum_to_twice_edges(&self)
        requires
            self.wf(),
        ensures
            degree_sum(self.edges@, self.n as nat) == 2 * self.edges.len(),
            forall|w: int| 0 <= w < self.n ==> #[trigger] self.degree(w) == endpoint_count(self.edges@, w),
    {
        lemma_handshake(self.edges@, self.n as nat);
        assert(self.edges@.len() == self.edges.len());
        assert forall|w: int| 0 <= w < self.n implies #[trigger] self.degree(w) == endpoint_count(self.edges@, w) by {
            lemma_incident(self.edges@, w);
        }
    }
}

} // verus!
