//! Squared Euclidean distance transform of one-dimensional sample sequences
//! and of two-dimensional binary grids.
//!
//! The core is the one-dimensional lower-envelope transform: given a sequence
//! of costs `f`, it computes for every position `q` the minimum over all
//! positions `p` of `(q - p)^2 + f[p]`, in linear time with a monotone stack
//! of candidate parabolas.  The two-dimensional transform applies the
//! one-dimensional pass along every column and then along every row, which is
//! exact because squared Euclidean distance decomposes additively along the
//! two axes.

use vstd::prelude::*;

use crate::grid::BoolGrid;
use crate::grid::DistGrid;
use crate::grid::lemma_grid_index_bound;
use crate::grid::lemma_grid_index_injective;

verus! {

/// Sentinel cost standing for "no feature reachable": 2^33, strictly greater
/// than any achievable squared distance inside a grid whose extents are at
/// most `MAX_DIM`, and small enough that no sum of the sentinel with such a
/// squared distance overflows a `u64`.
pub const INF: u64 = 8589934592;

/// Largest supported extent of a sample sequence or of a grid axis.  Keeps
/// every intermediate product of the envelope computation inside `i64`, and
/// the cell count of a grid inside a 32-bit `usize`.
pub const MAX_DIM: usize = 65535;

/// The square of an integer.
pub open spec fn sq(a: int) -> int {
    a * a
}

pub open spec fn min_int(a: int, b: int) -> int {
    if a <= b {
        a
    } else {
        b
    }
}

/// Cost contributed at query position `q` by the parabola rooted at sample
/// position `p`: the squared horizontal distance plus the sample cost.
pub open spec fn pcost(f: Seq<u64>, p: int, q: int) -> int {
    sq(q - p) + f[p] as int
}

/// Minimum of `pcost` over root positions `p` in `[0, n)`; meaningful for
/// `n >= 1`.
pub open spec fn env_min(f: Seq<u64>, q: int, n: int) -> int
    decreases n,
{
    if n <= 1 {
        pcost(f, 0, q)
    } else {
        min_int(env_min(f, q, n - 1), pcost(f, n - 1, q))
    }
}

/// The one-dimensional squared-distance transform of `f` at position `q`:
/// the least `(q - p)^2 + f[p]` over all sample positions `p`.
pub open spec fn dt1d_spec(f: Seq<u64>, q: int) -> int {
    env_min(f, q, f.len() as int)
}

/// The envelope minimum is a lower bound of every parabola it ranges over.
pub proof fn lemma_env_min_le(f: Seq<u64>, q: int, n: int, p: int)
    requires
        0 <= p < n,
        n <= f.len(),
    ensures
        env_min(f, q, n) <= pcost(f, p, q),
    decreases n,
{
    if n > 1 && p < n - 1 {
        lemma_env_min_le(f, q, n - 1, p);
    }
}

/// The envelope minimum is attained by some parabola.
pub proof fn lemma_env_min_achieved(f: Seq<u64>, q: int, n: int) -> (p: int)
    requires
        1 <= n <= f.len(),
    ensures
        0 <= p < n,
        env_min(f, q, n) == pcost(f, p, q),
    decreases n,
{
    if n == 1 {
        0
    } else {
        if env_min(f, q, n - 1) <= pcost(f, n - 1, q) {
            lemma_env_min_achieved(f, q, n - 1)
        } else {
            n - 1
        }
    }
}

/// Squares are never negative.
pub proof fn lemma_sq_nonneg(a: int)
    ensures
        sq(a) >= 0,
{
    assert(a * a >= 0) by (nonlinear_arith);
}

/// A square grows with the magnitude of its argument.
pub proof fn lemma_sq_le(a: int, b: int)
    requires
        0 <= a <= b,
    ensures
        sq(a) <= b * b,
{
    assert(a * a <= b * b) by (nonlinear_arith)
        requires
            0 <= a <= b,
    ;
}

/// Numerator of the intersection abscissa of the parabolas rooted at `a` and
/// at `b`; the denominator is `sep_den`.  For `a < b`, the parabola rooted at
/// `b` is the lower of the two exactly at and to the right of this abscissa.
pub open spec fn sep_num(f: Seq<u64>, a: int, b: int) -> int {
    f[b] as int + b * b - f[a] as int - a * a
}

pub open spec fn sep_den(a: int, b: int) -> int {
    2 * (b - a)
}

/// How the two parabolas rooted at `a` and `b` compare at any abscissa `x`:
/// their difference is a linear function of `x` whose root is the
/// intersection `sep_num / sep_den`.
pub proof fn lemma_parab_diff(f: Seq<u64>, a: int, b: int, x: int)
    requires
        0 <= a < f.len(),
        0 <= b < f.len(),
    ensures
        pcost(f, a, x) - pcost(f, b, x) == x * sep_den(a, b) - sep_num(f, a, b),
{
    let fa = f[a] as int;
    let fb = f[b] as int;
    assert((x - a) * (x - a) + fa - ((x - b) * (x - b) + fb) == x * (2 * (b - a)) - (fb + b * b
        - fa - a * a)) by (nonlinear_arith);
}

/// Transitivity of `<=` on fractions with positive denominators, in
/// cross-multiplied form.
pub proof fn lemma_rat_le_le(an: int, ad: int, bn: int, bd: int, cn: int, cd: int)
    requires
        ad > 0,
        bd > 0,
        cd > 0,
        an * bd <= bn * ad,
        bn * cd <= cn * bd,
    ensures
        an * cd <= cn * ad,
{
    assert((an * cd) * bd <= (cn * ad) * bd) by (nonlinear_arith)
        requires
            ad > 0,
            bd > 0,
            cd > 0,
            an * bd <= bn * ad,
            bn * cd <= cn * bd,
    ;
    assert(an * cd <= cn * ad) by (nonlinear_arith)
        requires
            bd > 0,
            (an * cd) * bd <= (cn * ad) * bd,
    ;
}

/// Transitivity of `<` followed by `<=` on fractions with positive
/// denominators, in cross-multiplied form.
pub proof fn lemma_rat_lt_le(an: int, ad: int, bn: int, bd: int, cn: int, cd: int)
    requires
        ad > 0,
        bd > 0,
        cd > 0,
        an * bd < bn * ad,
        bn * cd <= cn * bd,
    ensures
        an * cd < cn * ad,
{
    assert((an * cd) * bd < (cn * ad) * bd) by (nonlinear_arith)
        requires
            ad > 0,
            bd > 0,
            cd > 0,
            an * bd < bn * ad,
            bn * cd <= cn * bd,
    ;
    assert(an * cd < cn * ad) by (nonlinear_arith)
        requires
            bd > 0,
            (an * cd) * bd < (cn * ad) * bd,
    ;
}

/// Transitivity of `<=` followed by `<` on fractions with positive
/// denominators, in cross-multiplied form.
pub proof fn lemma_rat_le_lt(an: int, ad: int, bn: int, bd: int, cn: int, cd: int)
    requires
        ad > 0,
        bd > 0,
        cd > 0,
        an * bd <= bn * ad,
        bn * cd < cn * bd,
    ensures
        an * cd < cn * ad,
{
    assert((an * cd) * bd < (cn * ad) * bd) by (nonlinear_arith)
        requires
            ad > 0,
            bd > 0,
            cd > 0,
            an * bd <= bn * ad,
            bn * cd < cn * bd,
    ;
    assert(an * cd < cn * ad) by (nonlinear_arith)
        requires
            bd > 0,
            (an * cd) * bd < (cn * ad) * bd,
    ;
}

/// The mediant of two fractions that both lie at or below a third fraction
/// lies at or below it as well (denominators positive, cross-multiplied
/// form).
pub proof fn lemma_mediant_le(an: int, ad: int, bn: int, bd: int, cn: int, cd: int)
    requires
        ad > 0,
        bd > 0,
        cd > 0,
        an * cd <= cn * ad,
        bn * cd <= cn * bd,
    ensures
        (an + bn) * cd <= cn * (ad + bd),
{
    assert((an + bn) * cd <= cn * (ad + bd)) by (nonlinear_arith)
        requires
            an * cd <= cn * ad,
            bn * cd <= cn * bd,
    ;
}

/// The mediant of two fractions that both lie at or above a third fraction
/// lies at or above it as well.
pub proof fn lemma_mediant_ge(an: int, ad: int, bn: int, bd: int, cn: int, cd: int)
    requires
        ad > 0,
        bd > 0,
        cd > 0,
        an * cd >= cn * ad,
        bn * cd >= cn * bd,
    ensures
        (an + bn) * cd >= cn * (ad + bd),
{
    assert((an + bn) * cd >= cn * (ad + bd)) by (nonlinear_arith)
        requires
            an * cd >= cn * ad,
            bn * cd >= cn * bd,
    ;
}

/// Shape of the candidate stack while the envelope of the first `j`
/// parabolas of `f` is being built: candidate root positions `v` are strictly
/// increasing and below `j`, the boundary fractions `zn[i] / zd[i]` are the
/// intersections of adjacent candidates, and those boundaries are strictly
/// increasing.
pub open spec fn stack_ok(f: Seq<u64>, v: Seq<usize>, zn: Seq<i64>, zd: Seq<i64>, j: int) -> bool {
    &&& 1 <= v.len()
    &&& zn.len() == v.len()
    &&& zd.len() == v.len()
    &&& forall|i: int| 0 <= i < v.len() ==> 0 <= #[trigger] v[i] < j
    &&& forall|i: int| 0 <= i < v.len() - 1 ==> #[trigger] v[i] < v[i + 1]
    &&& forall|i: int|
        1 <= i < v.len() ==> #[trigger] zn[i] as int == sep_num(f, v[i - 1] as int, v[i] as int)
    &&& forall|i: int|
        1 <= i < v.len() ==> #[trigger] zd[i] as int == sep_den(v[i - 1] as int, v[i] as int)
    &&& forall|i: int|
        #![trigger zn[i]]
        1 <= i < v.len() - 1 ==> (zn[i] as int) * (zd[i + 1] as int) < (zn[i + 1] as int) * (zd[i] as int)
}

/// Some candidate on the stack does at least as well at abscissa `x` as the
/// parabola rooted at `p` does.
pub open spec fn covered_by(f: Seq<u64>, v: Seq<usize>, p: int, x: int) -> bool {
    exists|i: int| 0 <= i < v.len() && pcost(f, #[trigger] v[i] as int, x) <= pcost(f, p, x)
}

/// Every parabola with root below `j` is covered by the stack everywhere.
pub open spec fn dominated(f: Seq<u64>, v: Seq<usize>, j: int) -> bool {
    forall|p: int, x: int| 0 <= p < j ==> #[trigger] covered_by(f, v, p, x)
}

/// As `dominated`, with one extra candidate root `e` counted as if it were on
/// the stack.
pub open spec fn covered_with(f: Seq<u64>, v: Seq<usize>, e: int, p: int, x: int) -> bool {
    covered_by(f, v, p, x) || pcost(f, e, x) <= pcost(f, p, x)
}

pub open spec fn dominated_with(f: Seq<u64>, v: Seq<usize>, e: int, j: int) -> bool {
    forall|p: int, x: int| 0 <= p < j ==> #[trigger] covered_with(f, v, e, p, x)
}

/// Stack roots grow along the stack.
pub proof fn lemma_v_increasing(v: Seq<usize>, i: int, l: int)
    requires
        forall|k: int| 0 <= k < v.len() - 1 ==> #[trigger] v[k] < v[k + 1],
        0 <= i < l < v.len(),
    ensures
        v[i] < v[l],
    decreases l - i,
{
    if i < l - 1 {
        lemma_v_increasing(v, i, l - 1);
    }
}

/// Boundary fractions grow along the stack (non-strictly, cross-multiplied).
pub proof fn lemma_z_mono(f: Seq<u64>, v: Seq<usize>, zn: Seq<i64>, zd: Seq<i64>, j: int, i1: int, i2: int)
    requires
        stack_ok(f, v, zn, zd, j),
        1 <= i1 <= i2 < v.len(),
    ensures
        (zn[i1] as int) * (zd[i2] as int) <= (zn[i2] as int) * (zd[i1] as int),
        zd[i1] > 0,
        zd[i2] > 0,
    decreases i2 - i1,
{
    assert(v[i1 - 1] < v[i1]);
    assert(v[i2 - 1] < v[i2]);
    if i1 < i2 {
        lemma_z_mono(f, v, zn, zd, j, i1 + 1, i2);
        lemma_rat_le_le(
            zn[i1] as int,
            zd[i1] as int,
            zn[i1 + 1] as int,
            zd[i1 + 1] as int,
            zn[i2] as int,
            zd[i2] as int,
        );
    }
}

/// The intersection of a stack candidate with any earlier stack candidate
/// lies at or below the candidate's own left boundary.
pub proof fn lemma_sep_left(f: Seq<u64>, v: Seq<usize>, zn: Seq<i64>, zd: Seq<i64>, j: int, l: int, i: int)
    requires
        stack_ok(f, v, zn, zd, j),
        j <= f.len(),
        0 <= l < i < v.len(),
    ensures
        sep_den(v[l] as int, v[i] as int) > 0,
        sep_num(f, v[l] as int, v[i] as int) * (zd[i] as int) <= (zn[i] as int) * sep_den(
            v[l] as int,
            v[i] as int,
        ),
    decreases i - l,
{
    lemma_v_increasing(v, l, i);
    assert(v[i - 1] < v[i]);
    if l == i - 1 {
    } else {
        lemma_v_increasing(v, l, i - 1);
        lemma_sep_left(f, v, zn, zd, j, l, i - 1);
        // the intersection with the previous candidate sits at or below the
        // previous boundary, which sits strictly below this one
        lemma_z_mono(f, v, zn, zd, j, i - 1, i - 1);
        assert((zn[i - 1] as int) * (zd[i] as int) < (zn[i] as int) * (zd[i - 1] as int));
        let an = sep_num(f, v[l] as int, v[i - 1] as int);
        let ad = sep_den(v[l] as int, v[i - 1] as int);
        lemma_rat_le_lt(
            an,
            ad,
            zn[i - 1] as int,
            zd[i - 1] as int,
            zn[i] as int,
            zd[i] as int,
        );
        // the full intersection is the mediant of the two partial ones
        lemma_mediant_le(
            an,
            ad,
            zn[i] as int,
            zd[i] as int,
            zn[i] as int,
            zd[i] as int,
        );
        assert(sep_num(f, v[l] as int, v[i] as int) == an + zn[i] as int);
        assert(sep_den(v[l] as int, v[i] as int) == ad + zd[i] as int);
    }
}

/// The intersection of a stack candidate with any later stack candidate lies
/// at or above the candidate's own right boundary.
pub proof fn lemma_sep_right(f: Seq<u64>, v: Seq<usize>, zn: Seq<i64>, zd: Seq<i64>, j: int, i: int, l: int)
    requires
        stack_ok(f, v, zn, zd, j),
        j <= f.len(),
        0 <= i < l < v.len(),
    ensures
        sep_den(v[i] as int, v[l] as int) > 0,
        (zn[i + 1] as int) * sep_den(v[i] as int, v[l] as int) <= sep_num(f, v[i] as int, v[l] as int)
            * (zd[i + 1] as int),
    decreases l - i,
{
    lemma_v_increasing(v, i, l);
    assert(v[i] < v[i + 1]);
    if l == i + 1 {
    } else {
        lemma_v_increasing(v, i, l - 1);
        lemma_sep_right(f, v, zn, zd, j, i, l - 1);
        let an = sep_num(f, v[i] as int, v[l - 1] as int);
        let ad = sep_den(v[i] as int, v[l - 1] as int);
        // the boundary at l sits at or above the boundary at i + 1
        lemma_z_mono(f, v, zn, zd, j, i + 1, l);
        lemma_rat_le_le(
            zn[i + 1] as int,
            zd[i + 1] as int,
            zn[l] as int,
            zd[l] as int,
            zn[l] as int,
            zd[l] as int,
        );
        lemma_mediant_ge(
            an,
            ad,
            zn[l] as int,
            zd[l] as int,
            zn[i + 1] as int,
            zd[i + 1] as int,
        );
        assert(sep_num(f, v[i] as int, v[l] as int) == an + zn[l] as int);
        assert(sep_den(v[i] as int, v[l] as int) == ad + zd[l] as int);
    }
}

/// Inside its validity interval, a stack candidate beats every other stack
/// candidate: the envelope property of the monotone stack.
pub proof fn lemma_envelope_best(f: Seq<u64>, v: Seq<usize>, zn: Seq<i64>, zd: Seq<i64>, j: int, kk: int, x: int)
    requires
        stack_ok(f, v, zn, zd, j),
        j <= f.len(),
        0 <= kk < v.len(),
        kk == 0 || zn[kk] as int <= x * (zd[kk] as int),
        kk == v.len() - 1 || x * (zd[kk + 1] as int) < zn[kk + 1] as int,
    ensures
        forall|i: int|
            0 <= i < v.len() ==> pcost(f, v[kk] as int, x) <= pcost(f, #[trigger] v[i] as int, x),
{
    assert forall|i: int|
        0 <= i < v.len() implies pcost(f, v[kk] as int, x) <= pcost(f, #[trigger] v[i] as int, x) by {
        if i < kk {
            lemma_sep_left(f, v, zn, zd, j, i, kk);
            lemma_z_mono(f, v, zn, zd, j, kk, kk);
            let an = sep_num(f, v[i] as int, v[kk] as int);
            let ad = sep_den(v[i] as int, v[kk] as int);
            lemma_rat_le_le(an, ad, zn[kk] as int, zd[kk] as int, x, 1);
            lemma_parab_diff(f, v[i] as int, v[kk] as int, x);
        } else if i > kk {
            lemma_sep_right(f, v, zn, zd, j, kk, i);
            lemma_z_mono(f, v, zn, zd, j, kk + 1, kk + 1);
            let bn = sep_num(f, v[kk] as int, v[i] as int);
            let bd = sep_den(v[kk] as int, v[i] as int);
            lemma_rat_lt_le(x, 1, zn[kk + 1] as int, zd[kk + 1] as int, bn, bd);
            lemma_parab_diff(f, v[kk] as int, v[i] as int, x);
        }
    }
}


/// Dropping the top of a well-formed stack keeps it well formed.
pub proof fn lemma_stack_pop(f: Seq<u64>, v: Seq<usize>, zn: Seq<i64>, zd: Seq<i64>, j: int)
    requires
        stack_ok(f, v, zn, zd, j),
        v.len() >= 2,
    ensures
        stack_ok(
            f,
            v.subrange(0, v.len() - 1),
            zn.subrange(0, zn.len() - 1),
            zd.subrange(0, zd.len() - 1),
            j,
        ),
{
    let m = v.len() - 1;
    let v2 = v.subrange(0, m as int);
    let zn2 = zn.subrange(0, m as int);
    let zd2 = zd.subrange(0, m as int);
    assert forall|i: int| 0 <= i < v2.len() implies 0 <= #[trigger] v2[i] < j by {
        assert(v2[i] == v[i]);
    }
    assert forall|i: int| 0 <= i < v2.len() - 1 implies #[trigger] v2[i] < v2[i + 1] by {
        assert(v2[i] == v[i] && v2[i + 1] == v[i + 1]);
    }
    assert forall|i: int|
        1 <= i < v2.len() implies #[trigger] zn2[i] as int == sep_num(
        f,
        v2[i - 1] as int,
        v2[i] as int,
    ) by {
        assert(zn2[i] == zn[i] && v2[i - 1] == v[i - 1] && v2[i] == v[i]);
    }
    assert forall|i: int|
        1 <= i < v2.len() implies #[trigger] zd2[i] as int == sep_den(
        v2[i - 1] as int,
        v2[i] as int,
    ) by {
        assert(zd2[i] == zd[i] && v2[i - 1] == v[i - 1] && v2[i] == v[i]);
    }
    assert forall|i: int|
        #![trigger zn2[i]]
        1 <= i < v2.len() - 1 implies (zn2[i] as int) * (zd2[i + 1] as int) < (zn2[i + 1] as int)
        * (zd2[i] as int) by {
        assert(zn2[i] == zn[i] && zn2[i + 1] == zn[i + 1]);
        assert(zd2[i] == zd[i] && zd2[i + 1] == zd[i + 1]);
        assert((zn[i] as int) * (zd[i + 1] as int) < (zn[i + 1] as int) * (zd[i] as int));
    }
}

/// Pushing a new candidate whose left boundary lies strictly right of the
/// top boundary keeps the stack well formed, now for one more parabola.
pub proof fn lemma_stack_push(
    f: Seq<u64>,
    v: Seq<usize>,
    zn: Seq<i64>,
    zd: Seq<i64>,
    q: int,
    sn: i64,
    sd: i64,
)
    requires
        stack_ok(f, v, zn, zd, q),
        0 <= q < f.len(),
        q <= usize::MAX,
        sn as int == sep_num(f, v[v.len() - 1] as int, q),
        sd as int == sep_den(v[v.len() - 1] as int, q),
        v.len() == 1 || (zn[v.len() - 1] as int) * (sd as int) < (sn as int) * (zd[v.len()
            - 1] as int),
    ensures
        stack_ok(f, v.push(q as usize), zn.push(sn), zd.push(sd), q + 1),
{
    let v2 = v.push(q as usize);
    let zn2 = zn.push(sn);
    let zd2 = zd.push(sd);
    let m = v.len() as int;
    assert forall|i: int| 0 <= i < v2.len() implies 0 <= #[trigger] v2[i] < q + 1 by {
        if i < m {
            assert(v2[i] == v[i]);
        } else {
            assert(v2[i] == q as usize);
        }
    }
    assert forall|i: int| 0 <= i < v2.len() - 1 implies #[trigger] v2[i] < v2[i + 1] by {
        if i + 1 < m {
            assert(v2[i] == v[i] && v2[i + 1] == v[i + 1]);
        } else {
            assert(v2[i] == v[m - 1] && v2[i + 1] == q as usize);
        }
    }
    assert forall|i: int|
        1 <= i < v2.len() implies #[trigger] zn2[i] as int == sep_num(
        f,
        v2[i - 1] as int,
        v2[i] as int,
    ) by {
        if i < m {
            assert(zn2[i] == zn[i] && v2[i - 1] == v[i - 1] && v2[i] == v[i]);
        } else {
            assert(zn2[i] == sn && v2[i - 1] == v[m - 1] && v2[i] == q as usize);
        }
    }
    assert forall|i: int|
        1 <= i < v2.len() implies #[trigger] zd2[i] as int == sep_den(
        v2[i - 1] as int,
        v2[i] as int,
    ) by {
        if i < m {
            assert(zd2[i] == zd[i] && v2[i - 1] == v[i - 1] && v2[i] == v[i]);
        } else {
            assert(zd2[i] == sd && v2[i - 1] == v[m - 1] && v2[i] == q as usize);
        }
    }
    assert forall|i: int|
        #![trigger zn2[i]]
        1 <= i < v2.len() - 1 implies (zn2[i] as int) * (zd2[i + 1] as int) < (zn2[i + 1] as int)
        * (zd2[i] as int) by {
        if i + 1 < m {
            assert(zn2[i] == zn[i] && zn2[i + 1] == zn[i + 1]);
            assert(zd2[i] == zd[i] && zd2[i + 1] == zd[i + 1]);
            assert((zn[i] as int) * (zd[i + 1] as int) < (zn[i + 1] as int) * (zd[i] as int));
        } else {
            assert(i == m - 1 && m >= 2);
            assert(zn2[i] == zn[m - 1] && zn2[i + 1] == sn);
            assert(zd2[i] == zd[m - 1] && zd2[i + 1] == sd);
        }
    }
}

/// Any product of two values in `i64` range stays inside `i128` range.
pub proof fn lemma_i64_mul_fits(a: int, b: int)
    requires
        -9223372036854775808 <= a <= 9223372036854775807,
        -9223372036854775808 <= b <= 9223372036854775807,
    ensures
        -85070591730234615865843651857942052864 <= a * b
            <= 85070591730234615865843651857942052864,
{
    assert(-85070591730234615865843651857942052864 <= a * b
        <= 85070591730234615865843651857942052864) by (nonlinear_arith)
        requires
            -9223372036854775808 <= a <= 9223372036854775807,
            -9223372036854775808 <= b <= 9223372036854775807,
    ;
}

/// Decides `an / ad <= bn / bd` for fractions with positive denominators by
/// cross multiplication in `i128`.
fn rat_le(an: i64, ad: i64, bn: i64, bd: i64) -> (r: bool)
    requires
        ad > 0,
        bd > 0,
    ensures
        r <==> (an as int) * (bd as int) <= (bn as int) * (ad as int),
{
    proof {
        lemma_i64_mul_fits(an as int, bd as int);
        lemma_i64_mul_fits(bn as int, ad as int);
    }
    (an as i128) * (bd as i128) <= (bn as i128) * (ad as i128)
}

/// The one-dimensional squared-distance transform over explicit costs:
/// `d[q]` is the least `(q - p)^2 + f[p]` over all positions `p`.  Linear
/// time, by the lower envelope of parabolas held on a monotone stack.
#[verifier::loop_isolation(false)]
pub fn dt1d_costs(f: &Vec<u64>) -> (d: Vec<u64>)
    requires
        1 <= f@.len() <= MAX_DIM,
        forall|p: int| 0 <= p < f@.len() ==> #[trigger] f@[p] <= INF,
    ensures
        d@.len() == f@.len(),
        forall|q: int| 0 <= q < f@.len() ==> #[trigger] d@[q] as int == dt1d_spec(f@, q),
        forall|q: int| 0 <= q < f@.len() ==> #[trigger] d@[q] <= f@[q],
{
    let n = f.len();
    let mut v: Vec<usize> = Vec::new();
    let mut zn: Vec<i64> = Vec::new();
    let mut zd: Vec<i64> = Vec::new();
    v.push(0);
    zn.push(0);
    zd.push(1);
    proof {
        assert forall|p: int, x: int| 0 <= p < 1 implies #[trigger] covered_by(f@, v@, p, x) by {
            assert(v@[0] as int == 0);
            assert(0 <= 0 < v@.len() && pcost(f@, v@[0] as int, x) <= pcost(f@, p, x));
        }
    }
    let mut q: usize = 1;
    while q < n
        invariant
            1 <= q <= n,
            stack_ok(f@, v@, zn@, zd@, q as int),
            dominated(f@, v@, q as int),
        decreases n - q,
    {
        proof {
            lemma_sq_le(q as int, 65534);
        }
        let qq: i64 = (q as i64) * (q as i64);
        let mut t: usize = v[v.len() - 1];
        proof {
            lemma_sq_le(t as int, 65534);
        }
        let mut sn: i64 = f[q] as i64 + qq - (f[t] as i64) - ((t as i64) * (t as i64));
        let mut sd: i64 = 2 * ((q as i64) - (t as i64));
        proof {
            assert forall|p: int, x: int|
                0 <= p < q as int + 1 implies #[trigger] covered_with(f@, v@, q as int, p, x) by {
                if p < q as int {
                    assert(covered_by(f@, v@, p, x));
                } else {
                    assert(pcost(f@, q as int, x) <= pcost(f@, p, x));
                }
            }
        }
        while v.len() > 1 && rat_le(sn, sd, zn[v.len() - 1], zd[v.len() - 1])
            invariant
                stack_ok(f@, v@, zn@, zd@, q as int),
                dominated_with(f@, v@, q as int, q as int + 1),
                t == v@[v@.len() - 1],
                sn as int == sep_num(f@, t as int, q as int),
                sd as int == sep_den(t as int, q as int),
                sd > 0,
            decreases v@.len(),
        {
            let ghost v0 = v@;
            let ghost zn0 = zn@;
            let ghost zd0 = zd@;
            let ghost kt = v@.len() - 1;
            proof {
                lemma_stack_pop(f@, v@, zn@, zd@, q as int);
            }
            v.pop();
            zn.pop();
            zd.pop();
            let t2 = v[v.len() - 1];
            proof {
                lemma_sq_le(t2 as int, 65534);
            }
            let sn2: i64 = f[q] as i64 + qq - (f[t2] as i64) - ((t2 as i64) * (t2 as i64));
            let sd2: i64 = 2 * ((q as i64) - (t2 as i64));
            proof {
                assert(v@ == v0.subrange(0, kt as int));
                assert forall|p: int, x: int|
                    0 <= p < q as int + 1 implies #[trigger] covered_with(
                    f@,
                    v@,
                    q as int,
                    p,
                    x,
                ) by {
                    assert(covered_with(f@, v0, q as int, p, x));
                    if pcost(f@, q as int, x) <= pcost(f@, p, x) {
                    } else {
                        let i = choose|i: int|
                            0 <= i < v0.len() && pcost(f@, v0[i] as int, x) <= pcost(f@, p, x);
                        if i < kt as int {
                            assert(v@[i] == v0[i]);
                            assert(0 <= i < v@.len() && pcost(f@, v@[i] as int, x) <= pcost(
                                f@,
                                p,
                                x,
                            ));
                        } else {
                            // the popped candidate: it is beaten everywhere by
                            // the new candidate or by the new top of the stack
                            assert(v0[kt as int] == t);
                            if x * (sd as int) >= sn as int {
                                lemma_parab_diff(f@, t as int, q as int, x);
                                assert(pcost(f@, q as int, x) <= pcost(f@, t as int, x));
                            } else {
                                lemma_rat_lt_le(
                                    x,
                                    1,
                                    sn as int,
                                    sd as int,
                                    zn0[kt as int] as int,
                                    zd0[kt as int] as int,
                                );
                                lemma_parab_diff(f@, v0[kt as int - 1] as int, t as int, x);
                                assert(pcost(f@, v0[kt as int - 1] as int, x) <= pcost(
                                    f@,
                                    t as int,
                                    x,
                                ));
                                assert(v@[kt as int - 1] == v0[kt as int - 1]);
                                assert(0 <= kt as int - 1 < v@.len() && pcost(
                                    f@,
                                    v@[kt as int - 1] as int,
                                    x,
                                ) <= pcost(f@, p, x));
                            }
                        }
                    }
                }
            }
            t = t2;
            sn = sn2;
            sd = sd2;
        }
        proof {
            lemma_stack_push(f@, v@, zn@, zd@, q as int, sn, sd);
        }
        let ghost v1 = v@;
        v.push(q);
        zn.push(sn);
        zd.push(sd);
        proof {
            assert forall|p: int, x: int|
                0 <= p < q as int + 1 implies #[trigger] covered_by(f@, v@, p, x) by {
                assert(covered_with(f@, v1, q as int, p, x));
                if covered_by(f@, v1, p, x) {
                    let i = choose|i: int|
                        0 <= i < v1.len() && pcost(f@, v1[i] as int, x) <= pcost(f@, p, x);
                    assert(v@[i] == v1[i]);
                    assert(0 <= i < v@.len() && pcost(f@, v@[i] as int, x) <= pcost(f@, p, x));
                } else {
                    let i = v1.len() as int;
                    assert(v@[i] == q);
                    assert(0 <= i < v@.len() && pcost(f@, v@[i] as int, x) <= pcost(f@, p, x));
                }
            }
        }
        q += 1;
    }
    let mut d: Vec<u64> = Vec::new();
    let mut kk: usize = 0;
    let mut q2: usize = 0;
    while q2 < n
        invariant
            q2 <= n,
            d@.len() == q2,
            kk < v@.len(),
            kk == 0 || zn@[kk as int] as int <= (q2 as int) * (zd@[kk as int] as int),
            forall|qq2: int|
                0 <= qq2 < q2 ==> #[trigger] d@[qq2] as int == dt1d_spec(f@, qq2),
            forall|qq2: int| 0 <= qq2 < q2 ==> #[trigger] d@[qq2] <= f@[qq2],
        decreases n - q2,
    {
        while kk + 1 < v.len() && rat_le(zn[kk + 1], zd[kk + 1], q2 as i64, 1)
            invariant
                kk < v@.len(),
                kk == 0 || zn@[kk as int] as int <= (q2 as int) * (zd@[kk as int] as int),
            decreases v@.len() - kk,
        {
            kk += 1;
        }
        let t = v[kk];
        let diff: u64 = if q2 >= t {
            (q2 - t) as u64
        } else {
            (t - q2) as u64
        };
        proof {
            lemma_sq_le(diff as int, 65534);
            assert(sq(q2 as int - t as int) == (diff as int) * (diff as int)) by (nonlinear_arith)
                requires
                    diff as int == q2 as int - t as int || diff as int == t as int - q2 as int,
            ;
        }
        let val: u64 = diff * diff + f[t];
        proof {
            lemma_envelope_best(f@, v@, zn@, zd@, n as int, kk as int, q2 as int);
            lemma_env_min_le(f@, q2 as int, n as int, t as int);
            lemma_env_min_le(f@, q2 as int, n as int, q2 as int);
            let pb = lemma_env_min_achieved(f@, q2 as int, n as int);
            assert(covered_by(f@, v@, pb, q2 as int));
            let i = choose|i: int|
                0 <= i < v@.len() && pcost(f@, v@[i] as int, q2 as int) <= pcost(f@, pb, q2 as int);
            assert(pcost(f@, v@[kk as int] as int, q2 as int) <= pcost(f@, v@[i] as int, q2 as int));
            assert(val as int == pcost(f@, t as int, q2 as int));
            assert(val as int == env_min(f@, q2 as int, n as int));
            if kk > 0 {
                assert((q2 as int) * (zd@[kk as int] as int) <= (q2 as int + 1) * (zd@[
                    kk as int] as int)) by (nonlinear_arith)
                    requires
                        zd@[kk as int] > 0,
                ;
            }
        }
        d.push(val);
        q2 += 1;
    }
    d
}


/// The cost stored at cell `(x, y)` of a grid of width `w`, laid out row
/// major as the grid type stores it.
pub open spec fn at2(c: Seq<u64>, w: int, x: int, y: int) -> u64 {
    c[y * w + x]
}

/// Squared Euclidean distance from `(xq, yq)` to `(xc, yc)` plus the cost
/// stored at `(xc, yc)`.
pub open spec fn cell_cost(c: Seq<u64>, w: int, xq: int, yq: int, xc: int, yc: int) -> int {
    sq(xq - xc) + sq(yq - yc) + at2(c, w, xc, yc) as int
}

/// Minimum of `cell_cost` over `yc` in `[0, m)` at fixed column `xc`;
/// meaningful for `m >= 1`.
pub open spec fn col_best(c: Seq<u64>, w: int, xq: int, yq: int, xc: int, m: int) -> int
    decreases m,
{
    if m <= 1 {
        cell_cost(c, w, xq, yq, xc, 0)
    } else {
        min_int(col_best(c, w, xq, yq, xc, m - 1), cell_cost(c, w, xq, yq, xc, m - 1))
    }
}

/// Minimum of `col_best` over columns `xc` in `[0, m)`; meaningful for
/// `m >= 1` and a grid of height at least one.
pub open spec fn grid_best(c: Seq<u64>, w: int, h: int, xq: int, yq: int, m: int) -> int
    decreases m,
{
    if m <= 1 {
        col_best(c, w, xq, yq, 0, h)
    } else {
        min_int(grid_best(c, w, h, xq, yq, m - 1), col_best(c, w, xq, yq, m - 1, h))
    }
}

/// The two-dimensional squared-distance transform of the cost grid `c` at
/// cell `(xq, yq)`: the least squared Euclidean distance to any cell plus
/// that cell's cost.
pub open spec fn dt2d_spec(c: Seq<u64>, w: int, h: int, xq: int, yq: int) -> int {
    grid_best(c, w, h, xq, yq, w)
}

/// Column `x` of the cost grid, as a sample sequence of length `h`.
pub open spec fn col_seq(c: Seq<u64>, w: int, h: int, x: int) -> Seq<u64> {
    Seq::new(h as nat, |y: int| at2(c, w, x, y))
}

/// Row `y` of the cost grid, as a sample sequence of length `w`.
pub open spec fn row_seq(c: Seq<u64>, w: int, y: int) -> Seq<u64> {
    Seq::new(w as nat, |x: int| at2(c, w, x, y))
}

/// `grid_best` is a lower bound of the cost reachable through every cell.
pub proof fn lemma_grid_best_le(c: Seq<u64>, w: int, h: int, xq: int, yq: int, xc: int, yc: int)
    requires
        0 <= xc < w,
        0 <= yc < h,
    ensures
        dt2d_spec(c, w, h, xq, yq) <= cell_cost(c, w, xq, yq, xc, yc),
{
    lemma_col_best_le(c, w, xq, yq, xc, h, yc);
    lemma_grid_best_le_col(c, w, h, xq, yq, w, xc);
}

pub proof fn lemma_col_best_le(c: Seq<u64>, w: int, xq: int, yq: int, xc: int, m: int, yc: int)
    requires
        0 <= yc < m,
    ensures
        col_best(c, w, xq, yq, xc, m) <= cell_cost(c, w, xq, yq, xc, yc),
    decreases m,
{
    if m > 1 && yc < m - 1 {
        lemma_col_best_le(c, w, xq, yq, xc, m - 1, yc);
    }
}

pub proof fn lemma_grid_best_le_col(c: Seq<u64>, w: int, h: int, xq: int, yq: int, m: int, xc: int)
    requires
        0 <= xc < m,
    ensures
        grid_best(c, w, h, xq, yq, m) <= col_best(c, w, xq, yq, xc, h),
    decreases m,
{
    if m > 1 && xc < m - 1 {
        lemma_grid_best_le_col(c, w, h, xq, yq, m - 1, xc);
    }
}

/// `grid_best` is attained through some cell.
pub proof fn lemma_grid_best_achieved(c: Seq<u64>, w: int, h: int, xq: int, yq: int) -> (cell: (
    int,
    int,
))
    requires
        1 <= w,
        1 <= h,
    ensures
        0 <= cell.0 < w,
        0 <= cell.1 < h,
        dt2d_spec(c, w, h, xq, yq) == cell_cost(c, w, xq, yq, cell.0, cell.1),
{
    let xc = lemma_grid_best_achieved_col(c, w, h, xq, yq, w);
    let yc = lemma_col_best_achieved(c, w, xq, yq, xc, h);
    (xc, yc)
}

pub proof fn lemma_col_best_achieved(c: Seq<u64>, w: int, xq: int, yq: int, xc: int, m: int) -> (yc: int)
    requires
        1 <= m,
    ensures
        0 <= yc < m,
        col_best(c, w, xq, yq, xc, m) == cell_cost(c, w, xq, yq, xc, yc),
    decreases m,
{
    if m == 1 {
        0
    } else {
        if col_best(c, w, xq, yq, xc, m - 1) <= cell_cost(c, w, xq, yq, xc, m - 1) {
            lemma_col_best_achieved(c, w, xq, yq, xc, m - 1)
        } else {
            m - 1
        }
    }
}

pub proof fn lemma_grid_best_achieved_col(c: Seq<u64>, w: int, h: int, xq: int, yq: int, m: int) -> (xc: int)
    requires
        1 <= m,
        1 <= h,
    ensures
        0 <= xc < m,
        grid_best(c, w, h, xq, yq, m) == col_best(c, w, xq, yq, xc, h),
    decreases m,
{
    if m == 1 {
        0
    } else {
        if grid_best(c, w, h, xq, yq, m - 1) <= col_best(c, w, xq, yq, m - 1, h) {
            lemma_grid_best_achieved_col(c, w, h, xq, yq, m - 1)
        } else {
            m - 1
        }
    }
}

/// Separability, vertical step: the envelope minimum of a column, shifted by
/// the fixed horizontal term, is the best cost through that column.
pub proof fn lemma_env_min_col(c: Seq<u64>, w: int, h: int, xq: int, yq: int, xc: int, m: int)
    requires
        1 <= m <= h,
    ensures
        sq(xq - xc) + env_min(col_seq(c, w, h, xc), yq, m) == col_best(c, w, xq, yq, xc, m),
    decreases m,
{
    let fc = col_seq(c, w, h, xc);
    if m <= 1 {
        assert(fc[0] == at2(c, w, xc, 0));
    } else {
        lemma_env_min_col(c, w, h, xq, yq, xc, m - 1);
        assert(fc[m - 1] == at2(c, w, xc, m - 1));
    }
}

/// Separability, horizontal step: the envelope minimum of a row of
/// column-transformed values is the full two-dimensional minimum.
pub proof fn lemma_env_min_row(c: Seq<u64>, mid: Seq<u64>, w: int, h: int, xq: int, yq: int, m: int)
    requires
        1 <= m <= w,
        1 <= h,
        0 <= yq < h,
        forall|x: int, y: int|
            0 <= x < w && 0 <= y < h ==> #[trigger] at2(mid, w, x, y) as int == dt1d_spec(
                col_seq(c, w, h, x),
                y,
            ),
    ensures
        env_min(row_seq(mid, w, yq), xq, m) == grid_best(c, w, h, xq, yq, m),
    decreases m,
{
    let fr = row_seq(mid, w, yq);
    if m <= 1 {
        assert(fr[0] == at2(mid, w, 0, yq));
        assert(col_seq(c, w, h, 0).len() == h);
        lemma_env_min_col(c, w, h, xq, yq, 0, h);
    } else {
        lemma_env_min_row(c, mid, w, h, xq, yq, m - 1);
        assert(fr[m - 1] == at2(mid, w, m - 1, yq));
        assert(col_seq(c, w, h, m - 1).len() == h);
        lemma_env_min_col(c, w, h, xq, yq, m - 1, h);
    }
}

/// The two-dimensional squared-distance transform over explicit costs:
/// every output cell holds the least squared Euclidean distance to any cell
/// plus that cell's cost.  One one-dimensional envelope pass along every
/// column, then one along every row of the intermediate result.
#[verifier::loop_isolation(false)]
pub fn dt2d_costs(im: &DistGrid) -> (r: DistGrid)
    requires
        im.wf(),
        im.spec_width() <= MAX_DIM,
        im.spec_height() <= MAX_DIM,
        forall|i: int| 0 <= i < im@.len() ==> #[trigger] im@[i] <= INF,
    ensures
        r.wf(),
        r.spec_width() == im.spec_width(),
        r.spec_height() == im.spec_height(),
        forall|x: int, y: int|
            0 <= x < im.spec_width() && 0 <= y < im.spec_height() ==> #[trigger] r.cell(x, y) as int
                == dt2d_spec(
                im@,
                im.spec_width() as int,
                im.spec_height() as int,
                x,
                y,
            ),
        forall|i: int| 0 <= i < r@.len() ==> #[trigger] r@[i] <= INF,
{
    let w = im.width();
    let h = im.height();
    proof {
        im.lemma_size_bound();
    }
    let mut mid = DistGrid::new(w, h);
    if w == 0 || h == 0 {
        return mid;
    }
    let ghost wi = w as int;
    let ghost hi = h as int;
    let mut x: usize = 0;
    while x < w
        invariant
            x <= w,
            mid.wf(),
            mid.spec_width() == w,
            mid.spec_height() == h,
            forall|i: int| 0 <= i < mid@.len() ==> #[trigger] mid@[i] <= INF,
            forall|xc: int, yy: int|
                0 <= xc < x && 0 <= yy < hi ==> #[trigger] mid.cell(xc, yy) as int == dt1d_spec(
                    col_seq(im@, wi, hi, xc),
                    yy,
                ),
        decreases w - x,
    {
        let mut fcol: Vec<u64> = Vec::new();
        let mut y: usize = 0;
        while y < h
            invariant
                y <= h,
                fcol@.len() == y,
                forall|yy: int| 0 <= yy < y ==> #[trigger] fcol@[yy] == im.cell(x as int, yy),
            decreases h - y,
        {
            fcol.push(*im.get_unchecked(x, y));
            y += 1;
        }
        proof {
            assert forall|yy: int| 0 <= yy < hi implies #[trigger] fcol@[yy] == at2(
                im@,
                wi,
                x as int,
                yy,
            ) by {}
            assert(fcol@ =~= col_seq(im@, wi, hi, x as int));
            assert forall|p: int| 0 <= p < fcol@.len() implies #[trigger] fcol@[p] <= INF by {
                lemma_grid_index_bound(wi, hi, x as int, p);
                assert(im@[p * wi + x as int] <= INF);
            }
        }
        let dcol = dt1d_costs(&fcol);
        let mut y2: usize = 0;
        while y2 < h
            invariant
                y2 <= h,
                mid.wf(),
                mid.spec_width() == w,
                mid.spec_height() == h,
                forall|i: int| 0 <= i < mid@.len() ==> #[trigger] mid@[i] <= INF,
                forall|xc: int, yy: int|
                    0 <= xc < x && 0 <= yy < hi ==> #[trigger] mid.cell(xc, yy) as int
                        == dt1d_spec(col_seq(im@, wi, hi, xc), yy),
                forall|yy: int|
                    0 <= yy < y2 ==> #[trigger] mid.cell(x as int, yy) as int == dt1d_spec(
                        col_seq(im@, wi, hi, x as int),
                        yy,
                    ),
            decreases h - y2,
        {
            let ghost m0 = mid;
            mid.set(x, y2, dcol[y2]);
            proof {
                lemma_grid_index_bound(wi, hi, x as int, y2 as int);
                assert forall|a: int, b: int|
                    0 <= a < wi && 0 <= b < hi && !(a == x as int && b == y2 as int) implies
                    #[trigger] mid.cell(a, b) == m0.cell(a, b) by {
                    lemma_grid_index_bound(wi, hi, a, b);
                    lemma_grid_index_injective(wi, a, b, x as int, y2 as int);
                }
                assert(mid.cell(x as int, y2 as int) == dcol@[y2 as int]);
            }
            y2 += 1;
        }
        proof {
            assert forall|xc: int, yy: int|
                0 <= xc < x + 1 && 0 <= yy < hi implies #[trigger] mid.cell(xc, yy) as int
                == dt1d_spec(col_seq(im@, wi, hi, xc), yy) by {}
        }
        x += 1;
    }
    let ghost midc = mid;
    let mut y: usize = 0;
    while y < h
        invariant
            y <= h,
            mid.wf(),
            mid.spec_width() == w,
            mid.spec_height() == h,
            forall|i: int| 0 <= i < mid@.len() ==> #[trigger] mid@[i] <= INF,
            forall|x2: int, yy: int|
                0 <= x2 < wi && y <= yy < hi ==> #[trigger] mid.cell(x2, yy) == midc.cell(x2, yy),
            forall|x2: int, yy: int|
                0 <= x2 < wi && 0 <= yy < y ==> #[trigger] mid.cell(x2, yy) as int == env_min(
                    row_seq(midc@, wi, yy),
                    x2,
                    wi,
                ),
        decreases h - y,
    {
        let mut frow: Vec<u64> = Vec::new();
        let mut x2: usize = 0;
        while x2 < w
            invariant
                x2 <= w,
                frow@.len() == x2,
                forall|xx: int| 0 <= xx < x2 ==> #[trigger] frow@[xx] == mid.cell(xx, y as int),
            decreases w - x2,
        {
            frow.push(*mid.get_unchecked(x2, y));
            x2 += 1;
        }
        proof {
            assert forall|xx: int| 0 <= xx < wi implies #[trigger] frow@[xx] == at2(
                midc@,
                wi,
                xx,
                y as int,
            ) by {
                assert(mid.cell(xx, y as int) == midc.cell(xx, y as int));
            }
            assert(frow@ =~= row_seq(midc@, wi, y as int));
            assert forall|p: int| 0 <= p < frow@.len() implies #[trigger] frow@[p] <= INF by {
                lemma_grid_index_bound(wi, hi, p, y as int);
            }
        }
        let drow = dt1d_costs(&frow);
        let mut x3: usize = 0;
        while x3 < w
            invariant
                x3 <= w,
                mid.wf(),
                mid.spec_width() == w,
                mid.spec_height() == h,
                forall|i: int| 0 <= i < mid@.len() ==> #[trigger] mid@[i] <= INF,
                forall|x2: int, yy: int|
                    0 <= x2 < wi && y < yy < hi ==> #[trigger] mid.cell(x2, yy) == midc.cell(
                        x2,
                        yy,
                    ),
                forall|x2: int, yy: int|
                    0 <= x2 < wi && 0 <= yy < y ==> #[trigger] mid.cell(x2, yy) as int == env_min(
                        row_seq(midc@, wi, yy),
                        x2,
                        wi,
                    ),
                forall|xx: int|
                    0 <= xx < x3 ==> #[trigger] mid.cell(xx, y as int) as int == env_min(
                        row_seq(midc@, wi, y as int),
                        xx,
                        wi,
                    ),
            decreases w - x3,
        {
            let ghost m1 = mid;
            mid.set(x3, y, drow[x3]);
            proof {
                lemma_grid_index_bound(wi, hi, x3 as int, y as int);
                assert forall|a: int, b: int|
                    0 <= a < wi && 0 <= b < hi && !(a == x3 as int && b == y as int) implies
                    #[trigger] mid.cell(a, b) == m1.cell(a, b) by {
                    lemma_grid_index_bound(wi, hi, a, b);
                    lemma_grid_index_injective(wi, a, b, x3 as int, y as int);
                }
                assert(mid.cell(x3 as int, y as int) == drow@[x3 as int]);
                assert(drow@[x3 as int] as int == dt1d_spec(frow@, x3 as int));
            }
            x3 += 1;
        }
        proof {
            assert forall|x2: int, yy: int|
                0 <= x2 < wi && 0 <= yy < y + 1 implies #[trigger] mid.cell(x2, yy) as int
                == env_min(row_seq(midc@, wi, yy), x2, wi) by {}
        }
        y += 1;
    }
    proof {
        assert forall|x4: int, y4: int|
            0 <= x4 < wi && 0 <= y4 < hi implies #[trigger] mid.cell(x4, y4) as int == dt2d_spec(
            im@,
            wi,
            hi,
            x4,
            y4,
        ) by {
            assert forall|a: int, b: int|
                0 <= a < wi && 0 <= b < hi implies #[trigger] at2(midc@, wi, a, b) as int
                == dt1d_spec(col_seq(im@, wi, hi, a), b) by {
                lemma_grid_index_bound(wi, hi, a, b);
                assert(midc.cell(a, b) == at2(midc@, wi, a, b));
            }
            assert(col_seq(im@, wi, hi, x4).len() == hi);
            lemma_env_min_row(im@, midc@, wi, hi, x4, y4, wi);
            assert(row_seq(midc@, wi, y4).len() == wi);
        }
    }
    mid
}

/// The cost a binary cell contributes to the transform: a feature cell costs
/// nothing, a background cell costs the sentinel.
pub open spec fn bool_cost(b: bool) -> u64 {
    if b {
        0
    } else {
        INF
    }
}

/// The cost sequence of a binary sequence, cell by cell.
pub open spec fn cost_seq(b: Seq<bool>) -> Seq<u64> {
    Seq::new(b.len(), |i: int| bool_cost(b[i]))
}

/// What the cost sequence of a binary grid holds at cell `(x, y)`: the cost
/// of that grid cell.  Connects the two-dimensional laws, stated over cost
/// grids, to the contract of the transform of a binary grid.
pub proof fn lemma_cost_seq_at2(b: Seq<bool>, w: int, h: int, x: int, y: int)
    requires
        b.len() == w * h,
        0 <= x < w,
        0 <= y < h,
    ensures
        at2(cost_seq(b), w, x, y) == bool_cost(b[y * w + x]),
{
    lemma_grid_index_bound(w, h, x, y);
}

/// Distance transform of a boolean vector using squared Euclidean distance:
/// `d[q]` is the least `(q - p)^2` over feature positions `p`, or
/// `(q - p)^2 + INF` over background positions where no feature is present.
#[verifier::loop_isolation(false)]
pub fn dt1d(im: &Vec<bool>) -> (d: Vec<u64>)
    requires
        im@.len() <= MAX_DIM,
    ensures
        d@.len() == im@.len(),
        forall|q: int|
            0 <= q < im@.len() ==> #[trigger] d@[q] as int == dt1d_spec(cost_seq(im@), q),
{
    let n = im.len();
    let mut out: Vec<u64> = Vec::new();
    let mut i: usize = 0;
    while i < n
        invariant
            i <= n,
            out@.len() == i,
            forall|k: int| 0 <= k < i ==> #[trigger] out@[k] == bool_cost(im@[k]),
        decreases n - i,
    {
        let b = im[i];
        out.push(if b {
            0
        } else {
            INF
        });
        i += 1;
    }
    if n == 0 {
        return out;
    }
    proof {
        assert(out@ =~= cost_seq(im@));
    }
    dt1d_costs(&out)
}

/// Distance transform of a binary grid using squared Euclidean distance:
/// every output cell holds the squared distance to the nearest feature cell,
/// or the sentinel-dominated minimum when the grid holds no feature at all.
#[verifier::loop_isolation(false)]
pub fn dt2d(im: &BoolGrid) -> (r: DistGrid)
    requires
        im.wf(),
        im.spec_width() <= MAX_DIM,
        im.spec_height() <= MAX_DIM,
    ensures
        r.wf(),
        r.spec_width() == im.spec_width(),
        r.spec_height() == im.spec_height(),
        forall|x: int, y: int|
            0 <= x < im.spec_width() && 0 <= y < im.spec_height() ==> #[trigger] r.cell(x, y) as int
                == dt2d_spec(
                cost_seq(im@),
                im.spec_width() as int,
                im.spec_height() as int,
                x,
                y,
            ),
{
    let w = im.width();
    let h = im.height();
    proof {
        im.lemma_size_bound();
    }
    let ghost wi = w as int;
    let ghost hi = h as int;
    let mut out = DistGrid::new(w, h);
    let mut y: usize = 0;
    while y < h
        invariant
            y <= h,
            out.wf(),
            out.spec_width() == w,
            out.spec_height() == h,
            forall|i: int|
                0 <= i < y * wi ==> #[trigger] out@[i] == bool_cost(im@[i]),
        decreases h - y,
    {
        let mut x: usize = 0;
        while x < w
            invariant
                x <= w,
                out.wf(),
                out.spec_width() == w,
                out.spec_height() == h,
                forall|i: int|
                    0 <= i < y * wi + x ==> #[trigger] out@[i] == bool_cost(im@[i]),
            decreases w - x,
        {
            let b = *im.get_unchecked(x, y);
            out.set(x, y, if b {
                0
            } else {
                INF
            });
            proof {
                lemma_grid_index_bound(wi, hi, x as int, y as int);
            }
            x += 1;
        }
        proof {
            assert((y + 1) * wi == y * wi + wi) by (nonlinear_arith);
        }
        y += 1;
    }
    proof {
        assert(out@.len() == hi * wi);
        assert(hi * wi == wi * hi) by (nonlinear_arith);
        assert(out@ =~= cost_seq(im@));
    }
    dt2d_costs(&out)
}

} // verus!
