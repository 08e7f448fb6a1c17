//! Laws of the assembled sheaf Laplacian.
//!
//! Whatever the coefficients `coef(edge, i, j)` that the updates carry (for the
//! numeric Laplacian, `w_e · (R_eᵀ R_e)[i][j]`), the matrix that the update list
//! of `Graph::laplacian_terms` assembles has the block form `L_vv = Σ_{e ∋ v} coef_e`,
//! `L_vu = −coef_e` for `e = v -- u`; its rows sum to zero; it annihilates the
//! sections that are constant across the stalks; it maps every vector to one
//! whose entries add up to zero within every stalk component; and it is
//! symmetric, positive semidefinite and non-negative on the diagonal when the
//! per-edge coefficient blocks are. The laws are stated over exact integers.

use vstd::prelude::*;
use vstd::arithmetic::div_mod::lemma_fundamental_div_mod_converse;
use crate::graph::{Edge, Graph, edges_within};
use crate::laplacian::{
    LaplacianTerm, lemma_block_index, lemma_decode_position, lemma_position_bound,
    lemma_term_at_in_range, term_at, term_of, term_position,
};

verus! {

/// The signed value an update contributes, for the coefficients `coef(edge, i, j)`.
pub open spec fn signed_value(t: LaplacianTerm, coef: spec_fn(int, int, int) -> int) -> int {
    if t.positive {
        coef(t.edge as int, t.i as int, t.j as int)
    } else {
        -coef(t.edge as int, t.i as int, t.j as int)
    }
}

/// The value assembled at entry `(r, c)`, for the coefficients `coef(edge, i, j)`.
pub open spec fn entry_total(
    terms: Seq<LaplacianTerm>,
    r: int,
    c: int,
    coef: spec_fn(int, int, int) -> int,
) -> int {
    terms_sum(terms, |t: LaplacianTerm| entry_value(t, r, c, coef))
}

/// The sum of the entries of row `r`.
pub open spec fn row_total(terms: Seq<LaplacianTerm>, r: int, coef: spec_fn(int, int, int) -> int) -> int {
    terms_sum(
        terms,
        |t: LaplacianTerm|
            if t.row as int == r {
                signed_value(t, coef)
            } else {
                0
            },
    )
}

/// Row `r` of `L·x`.
pub open spec fn row_apply(
    terms: Seq<LaplacianTerm>,
    r: int,
    coef: spec_fn(int, int, int) -> int,
    x: spec_fn(int) -> int,
) -> int {
    terms_sum(
        terms,
        |t: LaplacianTerm|
            if t.row as int == r {
                signed_value(t, coef) * x(t.col as int)
            } else {
                0
            },
    )
}

/// The sum of all entries of `L·x`.
pub open spec fn total_apply(
    terms: Seq<LaplacianTerm>,
    coef: spec_fn(int, int, int) -> int,
    x: spec_fn(int) -> int,
) -> int {
    terms_sum(terms, |t: LaplacianTerm| signed_value(t, coef) * x(t.col as int))
}

/// The sum of the entries of `L·x` in stalk component `c`: the rows `v·d + c`.
pub open spec fn component_apply(
    terms: Seq<LaplacianTerm>,
    d: int,
    c: int,
    coef: spec_fn(int, int, int) -> int,
    x: spec_fn(int) -> int,
) -> int {
    terms_sum(
        terms,
        |t: LaplacianTerm|
            if (t.row as int) % d == c {
                signed_value(t, coef) * x(t.col as int)
            } else {
                0
            },
    )
}

/// The sum of the rows `0..rows` of `L·x`.
pub open spec fn sum_of_rows(
    terms: Seq<LaplacianTerm>,
    rows: nat,
    coef: spec_fn(int, int, int) -> int,
    x: spec_fn(int) -> int,
) -> int
    decreases rows,
{
    if rows == 0 {
        0
    } else {
        sum_of_rows(terms, (rows - 1) as nat, coef, x) + row_apply(terms, rows - 1, coef, x)
    }
}

/// `x` takes the same value at component `c` of every vertex's stalk: it is a
/// constant section of the sheaf with identity restrictions.
pub open spec fn constant_on_stalks(x: spec_fn(int) -> int, n: int, d: int) -> bool {
    forall|v: int, w: int, c: int|
        0 <= v < n && 0 <= w < n && 0 <= c < d ==> #[trigger] x(v * d + c) == #[trigger] x(w * d + c)
}

/// The coefficient `coef(e, r − x·d, c − y·d)` when `(r, c)` lies in block
/// `(x, y)`, zero otherwise.
pub open spec fn block_point(d: int, x: int, y: int, e: int, r: int, c: int, coef: spec_fn(int, int, int) -> int) -> int {
    if 0 <= r - x * d < d && 0 <= c - y * d < d {
        coef(e, r - x * d, c - y * d)
    } else {
        0
    }
}

/// What edge `e = a -- b` contributes to entry `(r, c)`: its coefficient block
/// added at blocks `(a, a)` and `(b, b)`, subtracted at `(a, b)` and `(b, a)`.
pub open spec fn edge_entry(
    edges: Seq<Edge>,
    d: int,
    r: int,
    c: int,
    coef: spec_fn(int, int, int) -> int,
) -> spec_fn(int) -> int {
    |e: int|
        block_point(d, edges[e].u as int, edges[e].u as int, e, r, c, coef) + block_point(
            d,
            edges[e].v as int,
            edges[e].v as int,
            e,
            r,
            c,
            coef,
        ) - block_point(d, edges[e].u as int, edges[e].v as int, e, r, c, coef) - block_point(
            d,
            edges[e].v as int,
            edges[e].u as int,
            e,
            r,
            c,
            coef,
        )
}

/// What the update `t` contributes to entry `(r, c)`.
pub open spec fn entry_value(t: LaplacianTerm, r: int, c: int, coef: spec_fn(int, int, int) -> int) -> int {
    if t.row == r && t.col == c {
        signed_value(t, coef)
    } else {
        0
    }
}

/// The sum of `val` over a list of updates.
pub open spec fn terms_sum(terms: Seq<LaplacianTerm>, val: spec_fn(LaplacianTerm) -> int) -> int
    decreases terms.len(),
{
    if terms.len() == 0 {
        0
    } else {
        terms_sum(terms.drop_last(), val) + val(terms.last())
    }
}

/// The sum of `val` over the four updates for edge `e` and block entry `(i, j)`.
pub open spec fn quad_value(
    edges: Seq<Edge>,
    d: int,
    e: int,
    i: int,
    j: int,
    val: spec_fn(LaplacianTerm) -> int,
) -> int {
    val(term_of(edges, d, e, i, j, 0)) + val(term_of(edges, d, e, i, j, 1)) + val(
        term_of(edges, d, e, i, j, 2),
    ) + val(term_of(edges, d, e, i, j, 3))
}

/// `f(i, 0) + ... + f(i, len - 1)`.
pub open spec fn line_sum(f: spec_fn(int, int) -> int, i: int, len: int) -> int
    decreases len,
{
    if len <= 0 {
        0
    } else {
        line_sum(f, i, len - 1) + f(i, len - 1)
    }
}

/// The sum of `f(i, j)` over `i < rows`, `j < cols`, row by row.
pub open spec fn grid_sum(f: spec_fn(int, int) -> int, rows: int, cols: int) -> int
    decreases rows,
{
    if rows <= 0 {
        0
    } else {
        grid_sum(f, rows - 1, cols) + line_sum(f, rows - 1, cols)
    }
}

/// `g(0) + ... + g(len - 1)`.
pub open spec fn seq_sum(g: spec_fn(int) -> int, len: int) -> int
    decreases len,
{
    if len <= 0 {
        0
    } else {
        seq_sum(g, len - 1) + g(len - 1)
    }
}

/// The `d × d` block of `val`-sums of edge `e`, indexed by block entry.
pub open spec fn edge_block(edges: Seq<Edge>, d: int, e: int, val: spec_fn(LaplacianTerm) -> int) -> spec_fn(
    int,
    int,
) -> int {
    |i: int, j: int| quad_value(edges, d, e, i, j, val)
}

/// The sum of `val` over all updates of edge `e`.
pub open spec fn edge_total(edges: Seq<Edge>, d: int, val: spec_fn(LaplacianTerm) -> int) -> spec_fn(
    int,
) -> int {
    |e: int| grid_sum(edge_block(edges, d, e, val), d, d)
}

/// Adding a column to a grid adds the sum of that column.
proof fn lemma_grid_sum_add_col(f: spec_fn(int, int) -> int, rows: int, cols: int)
    requires
        0 <= rows,
        0 <= cols,
    ensures
        grid_sum(f, rows, cols + 1) == grid_sum(f, rows, cols) + seq_sum(|i: int| f(i, cols), rows),
    decreases rows,
{
    if rows > 0 {
        lemma_grid_sum_add_col(f, rows - 1, cols);
    }
}

/// A finite double sum may be taken in either order.
proof fn lemma_grid_sum_transpose(f: spec_fn(int, int) -> int, rows: int, cols: int)
    requires
        0 <= rows,
        0 <= cols,
    ensures
        grid_sum(f, rows, cols) == grid_sum(|i: int, j: int| f(j, i), cols, rows),
    decreases rows,
{
    let g = |i: int, j: int| f(j, i);
    if rows > 0 {
        lemma_grid_sum_transpose(f, rows - 1, cols);
        lemma_grid_sum_add_col(g, cols, rows - 1);
        lemma_line_is_column(f, rows - 1, cols);
        assert(seq_sum(|i: int| g(i, rows - 1), cols) == seq_sum(|j: int| f(rows - 1, j), cols)) by {
            assert((|i: int| g(i, rows - 1)) =~= (|j: int| f(rows - 1, j)));
        }
    } else {
        lemma_grid_sum_no_cols(g, cols);
    }
}

proof fn lemma_line_is_column(f: spec_fn(int, int) -> int, i: int, len: int)
    requires
        0 <= len,
    ensures
        line_sum(f, i, len) == seq_sum(|j: int| f(i, j), len),
    decreases len,
{
    if len > 0 {
        lemma_line_is_column(f, i, len - 1);
    }
}

proof fn lemma_grid_sum_no_cols(f: spec_fn(int, int) -> int, rows: int)
    requires
        0 <= rows,
    ensures
        grid_sum(f, rows, 0) == 0,
    decreases rows,
{
    if rows > 0 {
        lemma_grid_sum_no_cols(f, rows - 1);
    }
}

/// Sums of termwise equal values are equal.
proof fn lemma_seq_sum_congruent(g: spec_fn(int) -> int, h: spec_fn(int) -> int, len: int)
    requires
        forall|k: int| 0 <= k < len ==> #[trigger] g(k) == h(k),
    ensures
        seq_sum(g, len) == seq_sum(h, len),
    decreases len,
{
    if len > 0 {
        lemma_seq_sum_congruent(g, h, len - 1);
    }
}

/// A sum of non-negative values is non-negative.
proof fn lemma_seq_sum_nonnegative(g: spec_fn(int) -> int, len: int)
    requires
        forall|k: int| 0 <= k < len ==> #[trigger] g(k) >= 0,
    ensures
        seq_sum(g, len) >= 0,
    decreases len,
{
    if len > 0 {
        lemma_seq_sum_nonnegative(g, len - 1);
    }
}

/// The updates up to edge `e`, block entry `(i, j)` sum, under `val`, to the
/// whole blocks of the edges before `e`, then the rows before `i` of edge `e`'s
/// block, then the entries before `j` of row `i`.
proof fn lemma_terms_sum_nested(
    edges: Seq<Edge>,
    d: int,
    terms: Seq<LaplacianTerm>,
    val: spec_fn(LaplacianTerm) -> int,
    e: int,
    i: int,
    j: int,
)
    requires
        0 <= e <= edges.len(),
        0 <= i <= d,
        0 <= j <= d,
        e == edges.len() ==> i == 0 && j == 0,
        i == d ==> j == 0,
        terms.len() == edges.len() * d * d * 4,
        forall|p: int| 0 <= p < terms.len() ==> #[trigger] terms[p] == term_at(edges, d, p),
    ensures
        terms_sum(terms.take(term_position(d, e, i, j, 0)), val) == seq_sum(
            edge_total(edges, d, val),
            e,
        ) + grid_sum(edge_block(edges, d, e, val), i, d) + line_sum(edge_block(edges, d, e, val), i, j),
    decreases e, i, j,
{
    let f = edge_block(edges, d, e, val);
    if j > 0 {
        lemma_terms_sum_nested(edges, d, terms, val, e, i, j - 1);
        let b = term_position(d, e, i, j - 1, 0);
        assert(i < d);
        assert(e < edges.len());
        lemma_decode_position(d, e, i, j - 1, 0);
        lemma_decode_position(d, e, i, j - 1, 1);
        lemma_decode_position(d, e, i, j - 1, 2);
        lemma_decode_position(d, e, i, j - 1, 3);
        lemma_position_bound(d, edges.len() as int, e, i, j - 1, 3);
        assert(term_position(d, e, i, j, 0) == b + 4) by (nonlinear_arith)
            requires
                b == term_position(d, e, i, j - 1, 0),
        ;
        let s4 = terms.take(b + 4);
        assert(s4.drop_last() =~= terms.take(b + 3));
        assert(terms.take(b + 3).drop_last() =~= terms.take(b + 2));
        assert(terms.take(b + 2).drop_last() =~= terms.take(b + 1));
        assert(terms.take(b + 1).drop_last() =~= terms.take(b));
        assert(terms[b] == term_at(edges, d, b));
        assert(terms[b + 1] == term_at(edges, d, b + 1));
        assert(terms[b + 2] == term_at(edges, d, b + 2));
        assert(terms[b + 3] == term_at(edges, d, b + 3));
        assert(s4.last() == terms[b + 3]);
        assert(terms.take(b + 3).last() == terms[b + 2]);
        assert(terms.take(b + 2).last() == terms[b + 1]);
        assert(terms.take(b + 1).last() == terms[b]);
        assert(f(i, j - 1) == quad_value(edges, d, e, i, j - 1, val));
        assert(terms[b] == term_of(edges, d, e, i, j - 1, 0));
        assert(terms[b + 1] == term_of(edges, d, e, i, j - 1, 1));
        assert(terms[b + 2] == term_of(edges, d, e, i, j - 1, 2));
        assert(terms[b + 3] == term_of(edges, d, e, i, j - 1, 3));
        assert(terms_sum(s4, val) == terms_sum(terms.take(b + 3), val) + val(terms[b + 3]));
        assert(terms_sum(terms.take(b + 3), val) == terms_sum(terms.take(b + 2), val) + val(terms[b + 2]));
        assert(terms_sum(terms.take(b + 2), val) == terms_sum(terms.take(b + 1), val) + val(terms[b + 1]));
        assert(terms_sum(terms.take(b + 1), val) == terms_sum(terms.take(b), val) + val(terms[b]));
        assert(line_sum(f, i, j) == line_sum(f, i, j - 1) + f(i, j - 1));
    } else if i > 0 {
        lemma_terms_sum_nested(edges, d, terms, val, e, i - 1, d);
        assert(term_position(d, e, i - 1, d, 0) == term_position(d, e, i, 0, 0)) by (nonlinear_arith);
    } else if e > 0 {
        lemma_terms_sum_nested(edges, d, terms, val, e - 1, d, 0);
        assert(term_position(d, e - 1, d, 0, 0) == term_position(d, e, 0, 0, 0)) by (nonlinear_arith);
        let g = edge_total(edges, d, val);
        assert(g(e - 1) == grid_sum(edge_block(edges, d, e - 1, val), d, d));
    } else {
        assert(term_position(d, 0, 0, 0, 0) == 0);
        assert(terms.take(0).len() == 0);
    }
}

/// The sum of `val` over all the updates is the sum over edges of each edge's
/// block total.
proof fn lemma_terms_sum_by_edges(
    edges: Seq<Edge>,
    d: int,
    terms: Seq<LaplacianTerm>,
    val: spec_fn(LaplacianTerm) -> int,
)
    requires
        0 <= d,
        terms.len() == edges.len() * d * d * 4,
        forall|p: int| 0 <= p < terms.len() ==> #[trigger] terms[p] == term_at(edges, d, p),
    ensures
        terms_sum(terms, val) == seq_sum(edge_total(edges, d, val), edges.len() as int),
{
    let m = edges.len() as int;
    lemma_terms_sum_nested(edges, d, terms, val, m, 0, 0);
    assert(term_position(d, m, 0, 0, 0) == terms.len()) by (nonlinear_arith)
        requires
            terms.len() == m * d * d * 4,
    ;
    assert(terms.take(terms.len() as int) =~= terms);
    lemma_grid_sum_no_rows(edge_block(edges, d, m, val), d);
}

proof fn lemma_line_sum_zero(f: spec_fn(int, int) -> int, i: int, len: int)
    requires
        forall|j: int| 0 <= j < len ==> #[trigger] f(i, j) == 0,
    ensures
        line_sum(f, i, len) == 0,
    decreases len,
{
    if len > 0 {
        lemma_line_sum_zero(f, i, len - 1);
    }
}

proof fn lemma_grid_sum_zero(f: spec_fn(int, int) -> int, rows: int, cols: int)
    requires
        forall|i: int, j: int| 0 <= i < rows && 0 <= j < cols ==> #[trigger] f(i, j) == 0,
    ensures
        grid_sum(f, rows, cols) == 0,
    decreases rows,
{
    if rows > 0 {
        lemma_grid_sum_zero(f, rows - 1, cols);
        lemma_line_sum_zero(f, rows - 1, cols);
    }
}

proof fn lemma_seq_sum_zero(g: spec_fn(int) -> int, len: int)
    requires
        forall|k: int| 0 <= k < len ==> #[trigger] g(k) == 0,
    ensures
        seq_sum(g, len) == 0,
    decreases len,
{
    if len > 0 {
        lemma_seq_sum_zero(g, len - 1);
    }
}

/// A row of a grid that is zero outside column `j0` sums to its value there.
proof fn lemma_line_sum_point(f: spec_fn(int, int) -> int, i: int, j0: int, v: int, len: int)
    requires
        forall|j: int| 0 <= j < len ==> #[trigger] f(i, j) == (if j == j0 { v } else { 0 }),
    ensures
        line_sum(f, i, len) == (if 0 <= j0 < len { v } else { 0 }),
    decreases len,
{
    if len > 0 {
        lemma_line_sum_point(f, i, j0, v, len - 1);
    }
}

/// A grid that is zero outside the single entry `(i0, j0)` sums to its value there.
proof fn lemma_grid_sum_point(f: spec_fn(int, int) -> int, i0: int, j0: int, v: int, rows: int, cols: int)
    requires
        forall|i: int, j: int|
            0 <= i < rows && 0 <= j < cols ==> #[trigger] f(i, j) == (if i == i0 && j == j0 { v } else { 0 }),
    ensures
        grid_sum(f, rows, cols) == (if 0 <= i0 < rows && 0 <= j0 < cols { v } else { 0 }),
    decreases rows,
{
    if rows > 0 {
        lemma_grid_sum_point(f, i0, j0, v, rows - 1, cols);
        if rows - 1 == i0 {
            lemma_line_sum_point(f, rows - 1, j0, v, cols);
        } else {
            lemma_line_sum_zero(f, rows - 1, cols);
        }
    }
}

/// The sum of an entrywise sum of grids is the sum of their sums.
proof fn lemma_grid_sum_add(
    f: spec_fn(int, int) -> int,
    g: spec_fn(int, int) -> int,
    h: spec_fn(int, int) -> int,
    rows: int,
    cols: int,
)
    requires
        forall|i: int, j: int| 0 <= i < rows && 0 <= j < cols ==> #[trigger] h(i, j) == f(i, j) + g(i, j),
    ensures
        grid_sum(h, rows, cols) == grid_sum(f, rows, cols) + grid_sum(g, rows, cols),
    decreases rows,
{
    if rows > 0 {
        lemma_grid_sum_add(f, g, h, rows - 1, cols);
        lemma_line_sum_add(f, g, h, rows - 1, cols);
    }
}

proof fn lemma_line_sum_add(
    f: spec_fn(int, int) -> int,
    g: spec_fn(int, int) -> int,
    h: spec_fn(int, int) -> int,
    i: int,
    len: int,
)
    requires
        forall|j: int| 0 <= j < len ==> #[trigger] h(i, j) == f(i, j) + g(i, j),
    ensures
        line_sum(h, i, len) == line_sum(f, i, len) + line_sum(g, i, len),
    decreases len,
{
    if len > 0 {
        lemma_line_sum_add(f, g, h, i, len - 1);
    }
}

/// When the updates of every edge and block entry cancel under `val`, the
/// updates sum to zero under `val`.
proof fn lemma_terms_sum_vanishes(
    edges: Seq<Edge>,
    d: int,
    terms: Seq<LaplacianTerm>,
    val: spec_fn(LaplacianTerm) -> int,
)
    requires
        0 <= d,
        terms.len() == edges.len() * d * d * 4,
        forall|p: int| 0 <= p < terms.len() ==> #[trigger] terms[p] == term_at(edges, d, p),
        forall|e: int, i: int, j: int|
            0 <= e < edges.len() && 0 <= i < d && 0 <= j < d ==> #[trigger] quad_value(edges, d, e, i, j, val) == 0,
    ensures
        terms_sum(terms, val) == 0,
{
    lemma_terms_sum_by_edges(edges, d, terms, val);
    let g = edge_total(edges, d, val);
    assert forall|e: int| 0 <= e < edges.len() implies #[trigger] g(e) == 0 by {
        let f = edge_block(edges, d, e, val);
        assert forall|i: int, j: int| 0 <= i < d && 0 <= j < d implies #[trigger] f(i, j) == 0 by {
            assert(f(i, j) == quad_value(edges, d, e, i, j, val));
        }
        lemma_grid_sum_zero(f, d, d);
    }
    lemma_seq_sum_zero(g, edges.len() as int);
}

/// Expanding one edge's contribution to the quadratic form.
proof fn lemma_edge_form(xai: int, xbi: int, xaj: int, xbj: int, c: int)
    ensures
        xai * c * xaj + xbi * c * xbj + xai * (-c) * xbj + xbi * (-c) * xaj == (xai - xbi) * c * (xaj - xbj),
{
    let u = xai - xbi;
    assert(u * c * (xaj - xbj) == u * c * xaj - u * c * xbj) by (nonlinear_arith);
    assert(u * c * xaj == xai * c * xaj - xbi * c * xaj) by (nonlinear_arith)
        requires
            u == xai - xbi,
    ;
    assert(u * c * xbj == xai * c * xbj - xbi * c * xbj) by (nonlinear_arith)
        requires
            u == xai - xbi,
    ;
    assert(xai * (-c) * xbj == -(xai * c * xbj)) by (nonlinear_arith);
    assert(xbi * (-c) * xaj == -(xbi * c * xaj)) by (nonlinear_arith);
}

/// Opposite signed values against the same two entries cancel.
proof fn lemma_cancel_pairs(s: int, x0: int, x1: int)
    ensures
        s * x0 + s * x1 + (-s) * x1 + (-s) * x0 == 0,
        s * x0 + (-s) * x1 == 0 <== x0 == x1,
{
    assert((-s) * x1 == -(s * x1)) by (nonlinear_arith);
    assert((-s) * x0 == -(s * x0)) by (nonlinear_arith);
}

/// When every update lands in a row below `rows`, the rows `0..rows` of `L·x`
/// add up to the sum of all entries of `L·x`.
proof fn lemma_sum_of_rows_is_total(
    terms: Seq<LaplacianTerm>,
    rows: nat,
    coef: spec_fn(int, int, int) -> int,
    x: spec_fn(int) -> int,
)
    requires
        forall|p: int| 0 <= p < terms.len() ==> (#[trigger] terms[p]).row < rows,
    ensures
        sum_of_rows(terms, rows, coef, x) == total_apply(terms, coef, x),
    decreases terms.len(),
{
    if terms.len() == 0 {
        lemma_sum_of_rows_empty(terms, rows, coef, x);
    } else {
        let prev = terms.drop_last();
        assert forall|p: int| 0 <= p < prev.len() implies (#[trigger] prev[p]).row < rows by {
            assert(prev[p] == terms[p]);
        }
        lemma_sum_of_rows_is_total(prev, rows, coef, x);
        lemma_sum_of_rows_step(terms, rows, coef, x);
        assert(terms.last() == terms[terms.len() - 1]);
    }
}

/// Removing the last update from the sum of the rows `0..rows` removes its
/// contribution when it lands in one of them.
proof fn lemma_sum_of_rows_step(
    terms: Seq<LaplacianTerm>,
    rows: nat,
    coef: spec_fn(int, int, int) -> int,
    x: spec_fn(int) -> int,
)
    requires
        terms.len() > 0,
    ensures
        sum_of_rows(terms, rows, coef, x) == sum_of_rows(terms.drop_last(), rows, coef, x) + (if terms.last().row < rows {
            signed_value(terms.last(), coef) * x(terms.last().col as int)
        } else {
            0
        }),
    decreases rows,
{
    if rows > 0 {
        lemma_sum_of_rows_step(terms, (rows - 1) as nat, coef, x);
    }
}

proof fn lemma_sum_of_rows_empty(
    terms: Seq<LaplacianTerm>,
    rows: nat,
    coef: spec_fn(int, int, int) -> int,
    x: spec_fn(int) -> int,
)
    requires
        terms.len() == 0,
    ensures
        sum_of_rows(terms, rows, coef, x) == 0,
    decreases rows,
{
    if rows > 0 {
        lemma_sum_of_rows_empty(terms, (rows - 1) as nat, coef, x);
    }
}

proof fn lemma_grid_sum_no_rows(f: spec_fn(int, int) -> int, cols: int)
    ensures
        grid_sum(f, 0, cols) == 0,
{
}

/// The updates of block entry `(i, j)` land at `(r, c)` exactly as those of
/// block entry `(j, i)` land at `(c, r)`, with coefficients that agree when the
/// coefficients are symmetric.
proof fn lemma_quad_entry_mirror(
    edges: Seq<Edge>,
    d: int,
    e: int,
    i: int,
    j: int,
    r: int,
    c: int,
    coef: spec_fn(int, int, int) -> int,
)
    requires
        forall|e: int, i: int, j: int| #[trigger] coef(e, i, j) == coef(e, j, i),
    ensures
        quad_value(edges, d, e, i, j, |t: LaplacianTerm| entry_value(t, r, c, coef)) == quad_value(
            edges,
            d,
            e,
            j,
            i,
            |t: LaplacianTerm| entry_value(t, c, r, coef),
        ),
{
    let ee = (e as usize) as int;
    let ii = (i as usize) as int;
    let jj = (j as usize) as int;
    assert(coef(ee, ii, jj) == coef(ee, jj, ii));
}

/// Grids that agree entrywise have the same sum.
proof fn lemma_grid_sum_congruent(f: spec_fn(int, int) -> int, g: spec_fn(int, int) -> int, rows: int, cols: int)
    requires
        forall|i: int, j: int| 0 <= i < rows && 0 <= j < cols ==> #[trigger] f(i, j) == g(i, j),
    ensures
        grid_sum(f, rows, cols) == grid_sum(g, rows, cols),
    decreases rows,
{
    if rows > 0 {
        lemma_grid_sum_congruent(f, g, rows - 1, cols);
        lemma_line_sum_congruent(f, g, rows - 1, cols);
    }
}

proof fn lemma_line_sum_congruent(f: spec_fn(int, int) -> int, g: spec_fn(int, int) -> int, i: int, len: int)
    requires
        forall|j: int| 0 <= j < len ==> #[trigger] f(i, j) == g(i, j),
    ensures
        line_sum(f, i, len) == line_sum(g, i, len),
    decreases len,
{
    if len > 0 {
        lemma_line_sum_congruent(f, g, i, len - 1);
    }
}

/// Edge `e`'s updates, summed over its block entries, put its coefficient block
/// at blocks `(a, a)` and `(b, b)` and subtract it at `(a, b)` and `(b, a)`.
proof fn lemma_edge_block_form(
    edges: Seq<Edge>,
    n: int,
    d: int,
    e: int,
    r: int,
    c: int,
    coef: spec_fn(int, int, int) -> int,
)
    requires
        edges_within(edges, n as nat),
        0 <= n,
        0 <= d,
        n * d <= usize::MAX,
        0 <= e < edges.len(),
        edges.len() <= usize::MAX,
    ensures
        grid_sum(edge_block(edges, d, e, |t: LaplacianTerm| entry_value(t, r, c, coef)), d, d) == edge_entry(
            edges,
            d,
            r,
            c,
            coef,
        )(e),
{
    let val = |t: LaplacianTerm| entry_value(t, r, c, coef);
    let f = edge_block(edges, d, e, val);
    let a = edges[e].u as int;
    let b = edges[e].v as int;
    assert(edges[e].u < n && edges[e].v < n);
    let p0 = |i: int, j: int| if i == r - a * d && j == c - a * d { coef(e, r - a * d, c - a * d) } else { 0 };
    let p1 = |i: int, j: int| if i == r - b * d && j == c - b * d { coef(e, r - b * d, c - b * d) } else { 0 };
    let p2 = |i: int, j: int| if i == r - a * d && j == c - b * d { -coef(e, r - a * d, c - b * d) } else { 0 };
    let p3 = |i: int, j: int| if i == r - b * d && j == c - a * d { -coef(e, r - b * d, c - a * d) } else { 0 };
    let q01 = |i: int, j: int| p0(i, j) + p1(i, j);
    let q23 = |i: int, j: int| p2(i, j) + p3(i, j);
    assert forall|i: int, j: int| 0 <= i < d && 0 <= j < d implies #[trigger] f(i, j) == q01(i, j) + q23(i, j) by {
        lemma_block_index(a, n, d, i);
        lemma_block_index(b, n, d, i);
        lemma_block_index(a, n, d, j);
        lemma_block_index(b, n, d, j);
        assert(((e as usize) as int) == e && ((i as usize) as int) == i && ((j as usize) as int) == j);
        assert(f(i, j) == quad_value(edges, d, e, i, j, val));
    }
    lemma_grid_sum_add(q01, q23, f, d, d);
    lemma_grid_sum_add(p0, p1, q01, d, d);
    lemma_grid_sum_add(p2, p3, q23, d, d);
    lemma_grid_sum_point(p0, r - a * d, c - a * d, coef(e, r - a * d, c - a * d), d, d);
    lemma_grid_sum_point(p1, r - b * d, c - b * d, coef(e, r - b * d, c - b * d), d, d);
    lemma_grid_sum_point(p2, r - a * d, c - b * d, -coef(e, r - a * d, c - b * d), d, d);
    lemma_grid_sum_point(p3, r - b * d, c - a * d, -coef(e, r - b * d, c - a * d), d, d);
}

/// The quadratic form `xᵀ L x` of the assembled matrix: every update contributes
/// its signed coefficient times the entries of `x` at its row and its column.
pub open spec fn quadratic_form(
    terms: Seq<LaplacianTerm>,
    coef: spec_fn(int, int, int) -> int,
    x: spec_fn(int) -> int,
) -> int {
    terms_sum(terms, |t: LaplacianTerm| x(t.row as int) * signed_value(t, coef) * x(t.col as int))
}

/// The quadratic form of edge `e`'s coefficient block on the stalk vector `y`,
/// entry by entry: `y(i) · coef(e, i, j) · y(j)`.
pub open spec fn block_form(coef: spec_fn(int, int, int) -> int, e: int, y: spec_fn(int) -> int) -> spec_fn(
    int,
    int,
) -> int {
    |i: int, j: int| y(i) * coef(e, i, j) * y(j)
}

/// The difference across edge `e = a -- b` of `x` on the stalks: component `i`
/// at `a` minus component `i` at `b`.
pub open spec fn stalk_difference(edges: Seq<Edge>, d: int, e: int, x: spec_fn(int) -> int) -> spec_fn(int) -> int {
    |i: int|
        x((((edges[e].u as int) * d + i) as usize) as int) - x(
            (((edges[e].v as int) * d + i) as usize) as int,
        )
}

impl Graph {
    /// Each row of the assembled Laplacian sums to zero: whatever the coefficients,
    /// every update that adds a coefficient to a row is matched by one that
    /// subtracts it from the same row.
    pub proof fn lemma_laplacian_rows_sum_to_zero(
        &self,
        stalk_dim: int,
        terms: Seq<LaplacianTerm>,
        r: int,
        coef: spec_fn(int, int, int) -> int,
    )
        requires
            0 <= stalk_dim,
            terms.len() == self.edges.len() * stalk_dim * stalk_dim * 4,
            forall|p: int|
                0 <= p < terms.len() ==> #[trigger] terms[p] == term_at(self.edges@, stalk_dim, p),
        ensures
            row_total(terms, r, coef) == 0,
    {
        let val = |t: LaplacianTerm|
            if t.row as int == r {
                signed_value(t, coef)
            } else {
                0
            };
        assert forall|e: int, i: int, j: int|
            0 <= e < self.edges.len() && 0 <= i < stalk_dim && 0 <= j < stalk_dim implies #[trigger] quad_value(
            self.edges@,
            stalk_dim,
            e,
            i,
            j,
            val,
        ) == 0 by {}
        lemma_terms_sum_vanishes(self.edges@, stalk_dim, terms, val);
    }

    /// Conservation: the assembled Laplacian annihilates every section that is
    /// constant across the vertices' stalks. Whatever the coefficients, applying
    /// any row `r` to a vector `x` with `x[v·d + c] == x[w·d + c]` for all vertices
    /// `v, w` gives zero: the flux an edge carries into one endpoint is the flux it
    /// takes out of the other.
    pub proof fn lemma_laplacian_annihilates_constant_sections(
        &self,
        stalk_dim: int,
        terms: Seq<LaplacianTerm>,
        r: int,
        coef: spec_fn(int, int, int) -> int,
        x: spec_fn(int) -> int,
    )
        requires
            edges_within(self.edges@, self.n as nat),
            0 <= stalk_dim,
            self.n * stalk_dim <= usize::MAX,
            terms.len() == self.edges.len() * stalk_dim * stalk_dim * 4,
            forall|p: int|
                0 <= p < terms.len() ==> #[trigger] terms[p] == term_at(self.edges@, stalk_dim, p),
            constant_on_stalks(x, self.n as int, stalk_dim),
        ensures
            row_apply(terms, r, coef, x) == 0,
    {
        let edges = self.edges@;
        let n = self.n as int;
        let d = stalk_dim;
        let val = |t: LaplacianTerm|
            if t.row as int == r {
                signed_value(t, coef) * x(t.col as int)
            } else {
                0
            };
        assert forall|e: int, i: int, j: int|
            0 <= e < edges.len() && 0 <= i < d && 0 <= j < d implies #[trigger] quad_value(edges, d, e, i, j, val) == 0 by {
            let a = edges[e].u as int;
            let b = edges[e].v as int;
            assert(edges[e].u < n && edges[e].v < n);
            lemma_block_index(a, n, d, j);
            lemma_block_index(b, n, d, j);
            assert(x(a * d + j) == x(b * d + j));
            let sv = signed_value(term_of(edges, d, e, i, j, 0), coef);
            assert(signed_value(term_of(edges, d, e, i, j, 2), coef) == -sv);
            assert(signed_value(term_of(edges, d, e, i, j, 3), coef) == -sv);
            lemma_cancel_pairs(sv, x(a * d + j), x(b * d + j));
        }
        lemma_terms_sum_vanishes(edges, d, terms, val);
    }

    /// Conservation of the total: for every vector `x` and whatever the
    /// coefficients, the entries of `L·x` add up to zero, so a heat-flow step
    /// `q ← q − dt·L·q` leaves the total `Σ q` unchanged (in exact arithmetic).
    pub proof fn lemma_laplacian_preserves_total(
        &self,
        stalk_dim: int,
        terms: Seq<LaplacianTerm>,
        coef: spec_fn(int, int, int) -> int,
        x: spec_fn(int) -> int,
    )
        requires
            edges_within(self.edges@, self.n as nat),
            0 <= stalk_dim,
            self.n * stalk_dim <= usize::MAX,
            terms.len() == self.edges.len() * stalk_dim * stalk_dim * 4,
            forall|p: int|
                0 <= p < terms.len() ==> #[trigger] terms[p] == term_at(self.edges@, stalk_dim, p),
        ensures
            total_apply(terms, coef, x) == 0,
            sum_of_rows(terms, (self.n * stalk_dim) as nat, coef, x) == 0,
    {
        let val = |t: LaplacianTerm| signed_value(t, coef) * x(t.col as int);
        assert forall|e: int, i: int, j: int|
            0 <= e < self.edges.len() && 0 <= i < stalk_dim && 0 <= j < stalk_dim implies #[trigger] quad_value(
            self.edges@,
            stalk_dim,
            e,
            i,
            j,
            val,
        ) == 0 by {
            let t0 = term_of(self.edges@, stalk_dim, e, i, j, 0);
            let t1 = term_of(self.edges@, stalk_dim, e, i, j, 1);
            let sv = signed_value(t0, coef);
            assert(signed_value(t1, coef) == sv);
            lemma_cancel_pairs(sv, x(t0.col as int), x(t1.col as int));
        }
        lemma_terms_sum_vanishes(self.edges@, stalk_dim, terms, val);
        assert(self.edges@.len() == self.edges.len());
        assert forall|p: int| 0 <= p < terms.len() implies (#[trigger] terms[p]).row < (self.n * stalk_dim) as nat by {
            lemma_term_at_in_range(self.edges@, self.n as int, stalk_dim, p);
        }
        lemma_sum_of_rows_is_total(terms, (self.n * stalk_dim) as nat, coef, x);
    }

    /// Conservation of every stalk component: for every vector `x` and whatever the
    /// coefficients, the entries of `L·x` in the rows `v·d + c` of one component
    /// `c` add up to zero, so the heat flow preserves the total of each conserved
    /// quantity separately (in exact arithmetic).
    pub proof fn lemma_laplacian_preserves_each_component(
        &self,
        stalk_dim: int,
        terms: Seq<LaplacianTerm>,
        c: int,
        coef: spec_fn(int, int, int) -> int,
        x: spec_fn(int) -> int,
    )
        requires
            edges_within(self.edges@, self.n as nat),
            0 <= stalk_dim,
            self.n * stalk_dim <= usize::MAX,
            terms.len() == self.edges.len() * stalk_dim * stalk_dim * 4,
            forall|p: int|
                0 <= p < terms.len() ==> #[trigger] terms[p] == term_at(self.edges@, stalk_dim, p),
        ensures
            component_apply(terms, stalk_dim, c, coef, x) == 0,
    {
        let edges = self.edges@;
        let n = self.n as int;
        let d = stalk_dim;
        let val = |t: LaplacianTerm|
            if (t.row as int) % d == c {
                signed_value(t, coef) * x(t.col as int)
            } else {
                0
            };
        assert forall|e: int, i: int, j: int|
            0 <= e < edges.len() && 0 <= i < d && 0 <= j < d implies #[trigger] quad_value(edges, d, e, i, j, val) == 0 by {
            let a = edges[e].u as int;
            let b = edges[e].v as int;
            assert(edges[e].u < n && edges[e].v < n);
            lemma_block_index(a, n, d, i);
            lemma_block_index(b, n, d, i);
            lemma_fundamental_div_mod_converse(a * d + i, d, a, i);
            lemma_fundamental_div_mod_converse(b * d + i, d, b, i);
            let t0 = term_of(edges, d, e, i, j, 0);
            let t1 = term_of(edges, d, e, i, j, 1);
            let sv = signed_value(t0, coef);
            assert(signed_value(t1, coef) == sv);
            lemma_cancel_pairs(sv, x(t0.col as int), x(t1.col as int));
        }
        lemma_terms_sum_vanishes(edges, d, terms, val);
    }

    /// The block form of the sheaf Laplacian: the value assembled at `(r, c)` is
    /// the sum over edges `e = a -- b` of `coef_e` at the position of `(r, c)`
    /// within block `(a, a)` and within block `(b, b)`, minus `coef_e` within
    /// blocks `(a, b)` and `(b, a)`. So `L_vv = Σ_{e ∋ v} coef_e` (a loop adding
    /// nothing) and `L_vu = −Σ_{e = v -- u} coef_e`.
    pub proof fn lemma_laplacian_block_form(
        &self,
        stalk_dim: int,
        terms: Seq<LaplacianTerm>,
        r: int,
        c: int,
        coef: spec_fn(int, int, int) -> int,
    )
        requires
            edges_within(self.edges@, self.n as nat),
            0 <= stalk_dim,
            self.n * stalk_dim <= usize::MAX,
            terms.len() == self.edges.len() * stalk_dim * stalk_dim * 4,
            forall|p: int|
                0 <= p < terms.len() ==> #[trigger] terms[p] == term_at(self.edges@, stalk_dim, p),
        ensures
            entry_total(terms, r, c, coef) == seq_sum(
                edge_entry(self.edges@, stalk_dim, r, c, coef),
                self.edges.len() as int,
            ),
    {
        let edges = self.edges@;
        let n = self.n as int;
        let d = stalk_dim;
        let m = edges.len() as int;
        assert(m == self.edges.len());
        let val = |t: LaplacianTerm| entry_value(t, r, c, coef);
        lemma_terms_sum_by_edges(edges, d, terms, val);
        let g = edge_total(edges, d, val);
        let h = edge_entry(edges, d, r, c, coef);
        assert forall|e: int| 0 <= e < m implies #[trigger] g(e) == h(e) by {
            lemma_edge_block_form(edges, n, d, e, r, c, coef);
        }
        lemma_seq_sum_congruent(g, h, m);
    }

    /// The assembled Laplacian has a non-negative diagonal when the coefficient
    /// block of every edge is positive semidefinite (as `w_e · R_eᵀ R_e` is for
    /// `w_e >= 0`).
    pub proof fn lemma_laplacian_diagonal_nonnegative(
        &self,
        stalk_dim: int,
        terms: Seq<LaplacianTerm>,
        r: int,
        coef: spec_fn(int, int, int) -> int,
    )
        requires
            0 <= stalk_dim <= usize::MAX,
            terms.len() == self.edges.len() * stalk_dim * stalk_dim * 4,
            forall|p: int|
                0 <= p < terms.len() ==> #[trigger] terms[p] == term_at(self.edges@, stalk_dim, p),
            forall|e: int, y: spec_fn(int) -> int|
                0 <= e < self.edges.len() ==> grid_sum(#[trigger] block_form(coef, e, y), stalk_dim, stalk_dim) >= 0,
        ensures
            entry_total(terms, r, r, coef) >= 0,
    {
        let x = |k: int|
            if k == r {
                1int
            } else {
                0int
            };
        self.lemma_laplacian_is_positive_semidefinite(stalk_dim, terms, coef, x);
        let v1 = |t: LaplacianTerm| x(t.row as int) * signed_value(t, coef) * x(t.col as int);
        let v2 = |t: LaplacianTerm| entry_value(t, r, r, coef);
        assert(v1 =~= v2);
    }

    /// The assembled Laplacian is positive semidefinite: when the coefficient
    /// block of every edge is itself positive semidefinite (as `w_e · R_eᵀ R_e`
    /// is for `w_e >= 0`), `xᵀ L x >= 0` for every vector `x`. Indeed `xᵀ L x`
    /// is the sum over edges `a -- b` of the block's form on `x_a − x_b`.
    pub proof fn lemma_laplacian_is_positive_semidefinite(
        &self,
        stalk_dim: int,
        terms: Seq<LaplacianTerm>,
        coef: spec_fn(int, int, int) -> int,
        x: spec_fn(int) -> int,
    )
        requires
            0 <= stalk_dim <= usize::MAX,
            terms.len() == self.edges.len() * stalk_dim * stalk_dim * 4,
            forall|p: int|
                0 <= p < terms.len() ==> #[trigger] terms[p] == term_at(self.edges@, stalk_dim, p),
            forall|e: int, y: spec_fn(int) -> int|
                0 <= e < self.edges.len() ==> grid_sum(#[trigger] block_form(coef, e, y), stalk_dim, stalk_dim) >= 0,
        ensures
            quadratic_form(terms, coef, x) >= 0,
            quadratic_form(terms, coef, x) == seq_sum(
                |e: int| grid_sum(block_form(coef, e, stalk_difference(self.edges@, stalk_dim, e, x)), stalk_dim, stalk_dim),
                self.edges.len() as int,
            ),
    {
        let edges = self.edges@;
        let d = stalk_dim;
        let m = edges.len() as int;
        assert(m == self.edges.len());
        let val = |t: LaplacianTerm| x(t.row as int) * signed_value(t, coef) * x(t.col as int);
        lemma_terms_sum_by_edges(edges, d, terms, val);
        let g = edge_total(edges, d, val);
        let h = |e: int| grid_sum(block_form(coef, e, stalk_difference(edges, d, e, x)), d, d);
        assert forall|e: int| 0 <= e < m implies #[trigger] g(e) == h(e) by {
            let y = stalk_difference(edges, d, e, x);
            let f1 = edge_block(edges, d, e, val);
            let f2 = block_form(coef, e, y);
            assert forall|i: int, j: int| 0 <= i < d && 0 <= j < d implies #[trigger] f1(i, j) == f2(i, j) by {
                let cc = coef(e, i, j);
                let a = edges[e].u as int;
                let b = edges[e].v as int;
                let xai = x(((a * d + i) as usize) as int);
                let xbi = x(((b * d + i) as usize) as int);
                let xaj = x(((a * d + j) as usize) as int);
                let xbj = x(((b * d + j) as usize) as int);
                assert(((e as usize) as int) == e && ((i as usize) as int) == i && ((j as usize) as int) == j);
                lemma_edge_form(xai, xbi, xaj, xbj, cc);
            }
            lemma_grid_sum_congruent(f1, f2, d, d);
        }
        lemma_seq_sum_congruent(g, h, m);
        lemma_seq_sum_nonnegative(h, m);
    }

    /// The assembled Laplacian is symmetric: when the coefficients of every edge
    /// are symmetric in the block entry (`coef(e, i, j) == coef(e, j, i)`, as for
    /// `w_e · R_eᵀ R_e`), the value assembled at `(r, c)` equals the value
    /// assembled at `(c, r)`.
    pub proof fn lemma_laplacian_is_symmetric(
        &self,
        stalk_dim: int,
        terms: Seq<LaplacianTerm>,
        r: int,
        c: int,
        coef: spec_fn(int, int, int) -> int,
    )
        requires
            0 <= stalk_dim,
            terms.len() == self.edges.len() * stalk_dim * stalk_dim * 4,
            forall|p: int|
                0 <= p < terms.len() ==> #[trigger] terms[p] == term_at(self.edges@, stalk_dim, p),
            forall|e: int, i: int, j: int| #[trigger] coef(e, i, j) == coef(e, j, i),
        ensures
            entry_total(terms, r, c, coef) == entry_total(terms, c, r, coef),
    {
        let edges = self.edges@;
        let d = stalk_dim;
        let m = edges.len() as int;
        let v_rc = |t: LaplacianTerm| entry_value(t, r, c, coef);
        let v_cr = |t: LaplacianTerm| entry_value(t, c, r, coef);
        lemma_terms_sum_by_edges(edges, d, terms, v_rc);
        lemma_terms_sum_by_edges(edges, d, terms, v_cr);
        let g_rc = edge_total(edges, d, v_rc);
        let g_cr = edge_total(edges, d, v_cr);
        assert forall|e: int| 0 <= e < m implies #[trigger] g_rc(e) == g_cr(e) by {
            let f = edge_block(edges, d, e, v_rc);
            let h = edge_block(edges, d, e, v_cr);
            lemma_grid_sum_transpose(f, d, d);
            assert((|i: int, j: int| f(j, i)) =~= h) by {
                assert forall|i: int, j: int| #[trigger] f(j, i) == h(i, j) by {
                    lemma_quad_entry_mirror(edges, d, e, j, i, r, c, coef);
                }
            }
        }
        lemma_seq_sum_congruent(g_rc, g_cr, m);
    }
}

} // verus!
