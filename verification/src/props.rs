//! Laws of the squared Euclidean distance transform, proved against the
//! specification functions that the transform's contracts are stated over.

use vstd::prelude::*;

use crate::dt::INF;
use crate::dt::MAX_DIM;
use crate::dt::at2;
use crate::dt::bool_cost;
use crate::dt::cell_cost;
use crate::dt::cost_seq;
use crate::dt::col_best;
use crate::dt::dt1d_spec;
use crate::dt::dt2d_spec;
use crate::dt::env_min;
use crate::dt::grid_best;
use crate::dt::lemma_env_min_achieved;
use crate::dt::lemma_env_min_le;
use crate::dt::lemma_grid_best_achieved;
use crate::dt::lemma_cost_seq_at2;
use crate::dt::lemma_grid_best_le;
use crate::dt::lemma_sq_nonneg;
use crate::dt::min_int;
use crate::dt::pcost;
use crate::dt::sq;

verus! {

/// A square depends only on the magnitude of its argument.
pub proof fn lemma_sq_sym(a: int)
    ensures
        sq(a) == sq(-a),
{
    assert(a * a == (-a) * (-a)) by (nonlinear_arith);
}

/// A square is bounded by the square of any bound on the magnitude.
pub proof fn lemma_sq_abs_le(a: int, b: int)
    requires
        -b <= a <= b,
        0 <= b,
    ensures
        sq(a) <= b * b,
{
    assert(a * a <= b * b) by (nonlinear_arith)
        requires
            -b <= a <= b,
            0 <= b,
    ;
}

/// Symmetry: the transform of a reversed sample sequence is the reversed
/// transform, position by position.
pub proof fn lemma_dt1d_reverse(f: Seq<u64>, q: int)
    requires
        1 <= f.len(),
        0 <= q < f.len(),
    ensures
        dt1d_spec(f.reverse(), q) == dt1d_spec(f, f.len() - 1 - q),
{
    let n = f.len() as int;
    let fr = f.reverse();
    assert(fr.len() == n);
    let pb = lemma_env_min_achieved(f, n - 1 - q, n);
    assert(fr[n - 1 - pb] == f[pb]);
    lemma_sq_sym(q - (n - 1 - pb));
    assert(pcost(fr, n - 1 - pb, q) == pcost(f, pb, n - 1 - q));
    lemma_env_min_le(fr, q, n, n - 1 - pb);
    let pb2 = lemma_env_min_achieved(fr, q, n);
    assert(fr[pb2] == f[n - 1 - pb2]);
    lemma_sq_sym((n - 1 - q) - (n - 1 - pb2));
    assert(pcost(f, n - 1 - pb2, n - 1 - q) == pcost(fr, pb2, q));
    lemma_env_min_le(f, n - 1 - q, n, n - 1 - pb2);
}

/// Shift invariance: over binary costs (every sample either a feature at
/// cost zero or background at cost `INF`), shifting every feature position
/// right by `t` shifts the transform right by `t`, at every position whose
/// shifted image stays in bounds.
pub proof fn lemma_dt1d_shift(f: Seq<u64>, g: Seq<u64>, t: int, q: int)
    requires
        f.len() == g.len(),
        1 <= f.len() <= MAX_DIM,
        0 <= t,
        0 <= q,
        q + t < f.len(),
        forall|p: int| 0 <= p < f.len() ==> f[p] == 0 || #[trigger] f[p] == INF,
        forall|p: int| 0 <= p < f.len() && #[trigger] f[p] == 0 ==> p + t < f.len(),
        forall|p: int|
            0 <= p < g.len() ==> #[trigger] g[p] == (if 0 <= p - t && f[p - t] == 0 {
                0u64
            } else {
                INF
            }),
    ensures
        dt1d_spec(g, q + t) == dt1d_spec(f, q),
{
    let n = f.len() as int;
    let pb = lemma_env_min_achieved(f, q, n);
    if f[pb] == 0 {
        assert(g[pb + t] == 0);
        lemma_sq_sym(q - pb);
        assert(pcost(g, pb + t, q + t) == pcost(f, pb, q));
        lemma_env_min_le(g, q + t, n, pb + t);
    } else {
        lemma_sq_nonneg(q - pb);
        assert(pcost(f, pb, q) >= INF);
        assert(g[q + t] <= INF);
        assert(pcost(g, q + t, q + t) <= INF);
        lemma_env_min_le(g, q + t, n, q + t);
    }
    let pb2 = lemma_env_min_achieved(g, q + t, n);
    if g[pb2] == 0 {
        assert(0 <= pb2 - t && f[pb2 - t] == 0);
        lemma_sq_sym((q + t) - pb2);
        assert(pcost(f, pb2 - t, q) == pcost(g, pb2, q + t));
        lemma_env_min_le(f, q, n, pb2 - t);
    } else {
        lemma_sq_nonneg((q + t) - pb2);
        assert(pcost(g, pb2, q + t) >= INF);
        assert(pcost(f, q, q) <= INF);
        lemma_env_min_le(f, q, n, q);
    }
}

/// Exactness with a single feature cell: every output cell of the
/// two-dimensional transform is exactly the squared Euclidean distance to
/// that one feature cell.
pub proof fn lemma_single_feature(c: Seq<u64>, w: int, h: int, fx: int, fy: int, xq: int, yq: int)
    requires
        1 <= w <= MAX_DIM,
        1 <= h <= MAX_DIM,
        c.len() == w * h,
        0 <= fx < w,
        0 <= fy < h,
        at2(c, w, fx, fy) == 0,
        forall|x: int, y: int|
            0 <= x < w && 0 <= y < h && !(x == fx && y == fy) ==> #[trigger] at2(c, w, x, y)
                == INF,
        0 <= xq < w,
        0 <= yq < h,
    ensures
        dt2d_spec(c, w, h, xq, yq) == sq(xq - fx) + sq(yq - fy),
{
    lemma_grid_best_le(c, w, h, xq, yq, fx, fy);
    assert(cell_cost(c, w, xq, yq, fx, fy) == sq(xq - fx) + sq(yq - fy));
    lemma_sq_abs_le(xq - fx, 65534);
    lemma_sq_abs_le(yq - fy, 65534);
    let cellb = lemma_grid_best_achieved(c, w, h, xq, yq);
    let ax = cellb.0;
    let ay = cellb.1;
    if !(ax == fx && ay == fy) {
        assert(at2(c, w, ax, ay) == INF);
        lemma_sq_nonneg(xq - ax);
        lemma_sq_nonneg(yq - ay);
    }
}

/// A grid without any feature cell transforms to the sentinel everywhere:
/// with every cost at `INF`, every output cell is exactly `INF`.
pub proof fn lemma_no_feature(c: Seq<u64>, w: int, h: int, xq: int, yq: int)
    requires
        1 <= w,
        1 <= h,
        c.len() == w * h,
        forall|x: int, y: int|
            0 <= x < w && 0 <= y < h ==> #[trigger] at2(c, w, x, y) == INF,
        0 <= xq < w,
        0 <= yq < h,
    ensures
        dt2d_spec(c, w, h, xq, yq) == INF,
{
    lemma_grid_best_le(c, w, h, xq, yq, xq, yq);
    assert(cell_cost(c, w, xq, yq, xq, yq) == INF);
    let cellb = lemma_grid_best_achieved(c, w, h, xq, yq);
    let ax = cellb.0;
    let ay = cellb.1;
    assert(at2(c, w, ax, ay) == INF);
    lemma_sq_nonneg(xq - ax);
    lemma_sq_nonneg(yq - ay);
}

/// The no-feature law in the vocabulary of the binary transform: a binary
/// grid without any `true` cell transforms to the sentinel everywhere.
pub proof fn lemma_no_feature_binary(b: Seq<bool>, w: int, h: int, xq: int, yq: int)
    requires
        1 <= w,
        1 <= h,
        b.len() == w * h,
        forall|i: int| 0 <= i < b.len() ==> !b[i],
        0 <= xq < w,
        0 <= yq < h,
    ensures
        dt2d_spec(cost_seq(b), w, h, xq, yq) == INF,
{
    let c = cost_seq(b);
    assert forall|x: int, y: int| 0 <= x < w && 0 <= y < h implies #[trigger] at2(c, w, x, y)
        == INF by {
        lemma_cost_seq_at2(b, w, h, x, y);
        crate::grid::lemma_grid_index_bound(w, h, x, y);
        assert(!b[y * w + x]);
        assert(bool_cost(b[y * w + x]) == INF);
    }
    lemma_no_feature(c, w, h, xq, yq);
}

/// With exactly two feature cells, every output cell is the smaller of the
/// two squared distances to them.
pub proof fn lemma_two_features(
    c: Seq<u64>,
    w: int,
    h: int,
    ax: int,
    ay: int,
    bx: int,
    by: int,
    xq: int,
    yq: int,
)
    requires
        1 <= w <= MAX_DIM,
        1 <= h <= MAX_DIM,
        c.len() == w * h,
        0 <= ax < w,
        0 <= ay < h,
        0 <= bx < w,
        0 <= by < h,
        !(ax == bx && ay == by),
        at2(c, w, ax, ay) == 0,
        at2(c, w, bx, by) == 0,
        forall|x: int, y: int|
            0 <= x < w && 0 <= y < h && !(x == ax && y == ay) && !(x == bx && y == by)
                ==> #[trigger] at2(c, w, x, y) == INF,
        0 <= xq < w,
        0 <= yq < h,
    ensures
        dt2d_spec(c, w, h, xq, yq) == min_int(
            sq(xq - ax) + sq(yq - ay),
            sq(xq - bx) + sq(yq - by),
        ),
{
    lemma_grid_best_le(c, w, h, xq, yq, ax, ay);
    lemma_grid_best_le(c, w, h, xq, yq, bx, by);
    assert(cell_cost(c, w, xq, yq, ax, ay) == sq(xq - ax) + sq(yq - ay));
    assert(cell_cost(c, w, xq, yq, bx, by) == sq(xq - bx) + sq(yq - by));
    lemma_sq_abs_le(xq - ax, 65534);
    lemma_sq_abs_le(yq - ay, 65534);
    lemma_sq_abs_le(xq - bx, 65534);
    lemma_sq_abs_le(yq - by, 65534);
    let cellb = lemma_grid_best_achieved(c, w, h, xq, yq);
    let gx = cellb.0;
    let gy = cellb.1;
    if !(gx == ax && gy == ay) && !(gx == bx && gy == by) {
        assert(at2(c, w, gx, gy) == INF);
        lemma_sq_nonneg(xq - gx);
        lemma_sq_nonneg(yq - gy);
    }
}

/// A single-row grid reduces exactly to the one-dimensional transform of
/// its row.
pub proof fn lemma_single_row(c: Seq<u64>, w: int, xq: int)
    requires
        1 <= w,
        c.len() == w,
    ensures
        dt2d_spec(c, w, 1, xq, 0) == dt1d_spec(c, xq),
{
    lemma_single_row_m(c, w, xq, w);
}

proof fn lemma_single_row_m(c: Seq<u64>, w: int, xq: int, m: int)
    requires
        1 <= m <= w,
        c.len() == w,
    ensures
        grid_best(c, w, 1, xq, 0, m) == env_min(c, xq, m),
    decreases m,
{
    if m <= 1 {
        assert(at2(c, w, 0, 0) == c[0]);
    } else {
        lemma_single_row_m(c, w, xq, m - 1);
        assert(at2(c, w, m - 1, 0) == c[m - 1]);
    }
}

/// A single-column grid reduces exactly to the one-dimensional transform of
/// its column.
pub proof fn lemma_single_column(c: Seq<u64>, h: int, yq: int)
    requires
        1 <= h,
        c.len() == h,
    ensures
        dt2d_spec(c, 1, h, 0, yq) == dt1d_spec(c, yq),
{
    lemma_single_col_m(c, h, yq, h);
}

proof fn lemma_single_col_m(c: Seq<u64>, h: int, yq: int, m: int)
    requires
        1 <= m <= h,
        c.len() == h,
    ensures
        col_best(c, 1, 0, yq, 0, m) == env_min(c, yq, m),
    decreases m,
{
    if m <= 1 {
        assert(at2(c, 1, 0, 0) == c[0]);
    } else {
        lemma_single_col_m(c, h, yq, m - 1);
        assert(at2(c, 1, 0, m - 1) == c[m - 1]);
    }
}


} // verus!
