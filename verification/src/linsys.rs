//! Linear systems over the rationals whose unknowns stand for linear
//! expressions: the mathematics behind the solver.
//!
//! A row of coefficients and an assignment of linear expressions to the
//! columns have a dot product, itself a linear expression. A system is a
//! list of rows with a constant for each; an assignment satisfies it when
//! every dot product is the constant of its row. Exchanging two rows, and
//! subtracting a multiple of one row from another, do not change the set of
//! satisfying assignments.
use crate::linexp::{lv_add, lv_const, lv_scale, lv_zero, LinVal};
use crate::ring::Par;
use vstd::prelude::*;

verus! {

/// An assignment of a linear expression to every column.
pub type Assign = spec_fn(int) -> LinVal;

/// The sum over the columns from `lo` up to, not including, `hi` of the
/// assigned expressions, each multiplied by the entry of its column.
pub open spec fn dot_range(row: Seq<real>, x: Assign, lo: int, hi: int) -> LinVal
    decreases hi - lo,
{
    if hi <= lo {
        lv_zero()
    } else {
        lv_add(dot_range(row, x, lo, hi - 1), lv_scale(x(hi - 1), row[hi - 1]))
    }
}

/// The dot product of a row and an assignment over the first `n` columns.
pub open spec fn dot(row: Seq<real>, x: Assign, n: int) -> LinVal {
    dot_range(row, x, 0, n)
}

/// The assignment satisfies every row of the system.
pub open spec fn sys_sat(m: Seq<Seq<real>>, b: Seq<real>, x: Assign, n: int) -> bool {
    forall|i: int| 0 <= i < m.len() ==> #[trigger] dot(m[i], x, n) == lv_const(b[i])
}

/// The assignment `x` with `v` for the column `t`.
pub open spec fn assign_update(x: Assign, t: int, v: LinVal) -> Assign {
    |j: int|
        if j == t {
            v
        } else {
            x(j)
        }
}

/// A dot product over a range is the sum of the dot products over its two
/// parts.
pub proof fn lemma_dot_split(row: Seq<real>, x: Assign, lo: int, mid: int, hi: int)
    requires
        lo <= mid <= hi,
    ensures
        dot_range(row, x, lo, hi) == lv_add(dot_range(row, x, lo, mid), dot_range(row, x, mid, hi)),
    decreases hi - mid,
{
    if hi == mid {
        assert(lv_add(dot_range(row, x, lo, mid), lv_zero()) =~= dot_range(row, x, lo, mid));
    } else {
        lemma_dot_split(row, x, lo, mid, hi - 1);
        let a = dot_range(row, x, lo, mid);
        let b = dot_range(row, x, mid, hi - 1);
        let c = lv_scale(x(hi - 1), row[hi - 1]);
        assert(lv_add(lv_add(a, b), c) =~= lv_add(a, lv_add(b, c)));
    }
}

/// Two rows and two assignments that agree on a range have the same dot
/// product over it.
pub proof fn lemma_dot_same(
    r1: Seq<real>,
    r2: Seq<real>,
    x: Assign,
    y: Assign,
    lo: int,
    hi: int,
)
    requires
        forall|j: int| lo <= j < hi ==> r1[j] == r2[j],
        forall|j: int| lo <= j < hi ==> #[trigger] x(j) == y(j),
    ensures
        dot_range(r1, x, lo, hi) == dot_range(r2, y, lo, hi),
    decreases hi - lo,
{
    if hi > lo {
        lemma_dot_same(r1, r2, x, y, lo, hi - 1);
        assert(x(hi - 1) == y(hi - 1));
    }
}

/// A row of zeros has dot product zero.
pub proof fn lemma_dot_zero(row: Seq<real>, x: Assign, lo: int, hi: int)
    requires
        forall|j: int| lo <= j < hi ==> row[j] == 0 as real,
    ensures
        dot_range(row, x, lo, hi) == lv_zero(),
    decreases hi - lo,
{
    if hi > lo {
        lemma_dot_zero(row, x, lo, hi - 1);
        let v = x(hi - 1);
        assert forall|k: Option<Par>| #[trigger] lv_scale(v, row[hi - 1])(k) == lv_zero()(k) by {
            let a = v(k);
            assert(a * (0 as real) == 0 as real) by (nonlinear_arith);
        }
        assert(lv_scale(v, row[hi - 1]) =~= lv_zero());
        assert(lv_add(lv_zero(), lv_zero()) =~= lv_zero());
    }
}

/// The dot product of a row minus a multiple of another row is the dot
/// product of the first minus the multiple of the dot product of the
/// other.
pub proof fn lemma_dot_combine(
    r1: Seq<real>,
    r2: Seq<real>,
    r3: Seq<real>,
    m: real,
    x: Assign,
    lo: int,
    hi: int,
)
    requires
        forall|j: int| lo <= j < hi ==> r3[j] == r1[j] - m * r2[j],
    ensures
        dot_range(r3, x, lo, hi) == lv_add(
            dot_range(r1, x, lo, hi),
            lv_scale(dot_range(r2, x, lo, hi), -m),
        ),
    decreases hi - lo,
{
    let d1 = dot_range(r1, x, lo, hi);
    let d2 = dot_range(r2, x, lo, hi);
    let d3 = dot_range(r3, x, lo, hi);
    if hi <= lo {
        assert forall|k: Option<Par>| #[trigger] d3(k) == lv_add(d1, lv_scale(d2, -m))(k) by {
            assert((0 as real) * (-m) == 0 as real) by (nonlinear_arith);
        }
        assert(d3 =~= lv_add(d1, lv_scale(d2, -m)));
    } else {
        lemma_dot_combine(r1, r2, r3, m, x, lo, hi - 1);
        let e1 = dot_range(r1, x, lo, hi - 1);
        let e2 = dot_range(r2, x, lo, hi - 1);
        let e3 = dot_range(r3, x, lo, hi - 1);
        let v = x(hi - 1);
        let a1 = r1[hi - 1];
        let a2 = r2[hi - 1];
        let a3 = r3[hi - 1];
        assert forall|k: Option<Par>| #[trigger] d3(k) == lv_add(d1, lv_scale(d2, -m))(k) by {
            let p1 = e1(k);
            let p2 = e2(k);
            let p3 = e3(k);
            let w = v(k);
            assert(e3(k) == lv_add(e1, lv_scale(e2, -m))(k));
            assert(p3 == p1 + p2 * (-m));
            assert(p3 + w * a3 == (p1 + w * a1) + (p2 + w * a2) * (-m)) by (nonlinear_arith)
                requires
                    p3 == p1 + p2 * (-m),
                    a3 == a1 - m * a2,
            ;
        }
        assert(d3 =~= lv_add(d1, lv_scale(d2, -m)));
    }
}

/// Changing the assignment of a column in which the row has a zero does not
/// change the dot product.
pub proof fn lemma_dot_update_zero(row: Seq<real>, x: Assign, t: int, v: LinVal, lo: int, hi: int)
    requires
        lo <= t < hi ==> row[t] == 0 as real,
    ensures
        dot_range(row, assign_update(x, t, v), lo, hi) == dot_range(row, x, lo, hi),
    decreases hi - lo,
{
    let y = assign_update(x, t, v);
    if hi > lo {
        lemma_dot_update_zero(row, x, t, v, lo, hi - 1);
        if hi - 1 == t {
            let a = x(t);
            assert forall|k: Option<Par>| #[trigger]
                lv_scale(v, row[t])(k) == lv_scale(a, row[t])(k) by {
                let p = v(k);
                let q = a(k);
                assert(p * (0 as real) == q * (0 as real)) by (nonlinear_arith);
            }
            assert(lv_scale(v, row[t]) =~= lv_scale(a, row[t]));
            assert(y(t) == v);
        } else {
            assert(y(hi - 1) == x(hi - 1));
        }
    }
}

/// Exchanging two rows of a system keeps its satisfying assignments.
pub proof fn lemma_swap_sat(
    m: Seq<Seq<real>>,
    b: Seq<real>,
    m2: Seq<Seq<real>>,
    b2: Seq<real>,
    p: int,
    q: int,
    x: Assign,
    n: int,
)
    requires
        0 <= p < m.len(),
        0 <= q < m.len(),
        m.len() == b.len(),
        m2 == m.update(p, m[q]).update(q, m[p]),
        b2 == b.update(p, b[q]).update(q, b[p]),
    ensures
        sys_sat(m2, b2, x, n) <==> sys_sat(m, b, x, n),
{
    if sys_sat(m, b, x, n) {
        assert forall|i: int| 0 <= i < m2.len() implies #[trigger] dot(m2[i], x, n) == lv_const(
            b2[i],
        ) by {
            if i == p {
                assert(dot(m[q], x, n) == lv_const(b[q]));
            } else if i == q {
                assert(dot(m[p], x, n) == lv_const(b[p]));
            } else {
                assert(dot(m[i], x, n) == lv_const(b[i]));
            }
        }
    }
    if sys_sat(m2, b2, x, n) {
        assert forall|i: int| 0 <= i < m.len() implies #[trigger] dot(m[i], x, n) == lv_const(
            b[i],
        ) by {
            if i == p {
                assert(dot(m2[q], x, n) == lv_const(b2[q]));
            } else if i == q {
                assert(dot(m2[p], x, n) == lv_const(b2[p]));
            } else {
                assert(dot(m2[i], x, n) == lv_const(b2[i]));
            }
        }
    }
}

/// Subtracting a multiple of one row from another row keeps the satisfying
/// assignments of a system.
pub proof fn lemma_eliminate_sat(
    m: Seq<Seq<real>>,
    b: Seq<real>,
    m2: Seq<Seq<real>>,
    b2: Seq<real>,
    c: int,
    i: int,
    f: real,
    x: Assign,
    n: int,
)
    requires
        0 <= c < m.len(),
        0 <= i < m.len(),
        c != i,
        m.len() == b.len(),
        m2.len() == m.len(),
        b2.len() == b.len(),
        forall|r: int| 0 <= r < m.len() && r != i ==> m2[r] == m[r] && b2[r] == b[r],
        forall|j: int| 0 <= j < n ==> m2[i][j] == m[i][j] - f * m[c][j],
        b2[i] == b[i] - f * b[c],
    ensures
        sys_sat(m2, b2, x, n) <==> sys_sat(m, b, x, n),
{
    lemma_dot_combine(m[i], m[c], m2[i], f, x, 0, n);
    let di = dot(m[i], x, n);
    let dc = dot(m[c], x, n);
    let d2 = dot(m2[i], x, n);
    assert(d2 == lv_add(di, lv_scale(dc, -f)));
    if sys_sat(m, b, x, n) {
        assert(di == lv_const(b[i]));
        assert(dc == lv_const(b[c]));
        assert forall|k: Option<Par>| #[trigger] d2(k) == lv_const(b2[i])(k) by {
            let u = b[c];
            assert(d2(k) == di(k) + dc(k) * (-f));
            assert(b[i] + u * (-f) == b[i] - f * u) by (nonlinear_arith);
            assert((0 as real) * (-f) == 0 as real) by (nonlinear_arith);
        }
        assert(d2 =~= lv_const(b2[i]));
        assert forall|r: int| 0 <= r < m2.len() implies #[trigger] dot(m2[r], x, n) == lv_const(
            b2[r],
        ) by {
            if r != i {
                assert(dot(m[r], x, n) == lv_const(b[r]));
            }
        }
    }
    if sys_sat(m2, b2, x, n) {
        assert(d2 == lv_const(b2[i]));
        assert(dot(m2[c], x, n) == lv_const(b2[c]));
        assert(dc == lv_const(b[c]));
        assert forall|k: Option<Par>| #[trigger] di(k) == lv_const(b[i])(k) by {
            let u = b[c];
            assert(d2(k) == di(k) + dc(k) * (-f));
            assert(d2(k) == lv_const(b2[i])(k));
            assert(b[i] - f * u + u * f == b[i]) by (nonlinear_arith);
            assert((0 as real) * (-f) == 0 as real) by (nonlinear_arith);
            let w = dc(k);
            assert(w * (-f) == -(w * f)) by (nonlinear_arith);
        }
        assert(di =~= lv_const(b[i]));
        assert forall|r: int| 0 <= r < m.len() implies #[trigger] dot(m[r], x, n) == lv_const(
            b[r],
        ) by {
            if r != i {
                assert(dot(m2[r], x, n) == lv_const(b2[r]));
            }
        }
    }
}

/// The coefficients of a linear expression for the first `n` parameters.
pub open spec fn dense_v(v: LinVal, n: int) -> Seq<real> {
    Seq::new(n as nat, |q: int| v(Some(Par { id: q as usize })))
}

/// The expression `v` with the assigned expression in place of each of the
/// first `n` parameters: its constant plus the dot product of its
/// coefficients and the assignment.
pub open spec fn expands(v: LinVal, x: Assign, n: int) -> LinVal {
    lv_add(lv_const(v(None)), dot(dense_v(v, n), x, n))
}

/// The assignment that expands each expression of the assignment `y`.
pub open spec fn expanded(y: Assign, x: Assign, n: int) -> Assign {
    |i: int| expands(y(i), x, n)
}

/// To expand a sum is to sum the expansions.
pub proof fn lemma_expands_add(v: LinVal, w: LinVal, x: Assign, n: int)
    requires
        0 <= n,
    ensures
        expands(lv_add(v, w), x, n) == lv_add(expands(v, x, n), expands(w, x, n)),
{
    let r1 = dense_v(v, n);
    let r2 = dense_v(w, n);
    let r3 = dense_v(lv_add(v, w), n);
    let m = -(1 as real);
    assert forall|j: int| 0 <= j < n implies r3[j] == r1[j] - m * r2[j] by {
        let b = r2[j];
        assert(m * b == -b) by (nonlinear_arith)
            requires
                m == -(1 as real),
        ;
    }
    lemma_dot_combine(r1, r2, r3, m, x, 0, n);
    let d1 = dot(r1, x, n);
    let d2 = dot(r2, x, n);
    let left = expands(lv_add(v, w), x, n);
    let right = lv_add(expands(v, x, n), expands(w, x, n));
    assert forall|k: Option<Par>| #[trigger] left(k) == right(k) by {
        let b = d2(k);
        assert(dot(r3, x, n)(k) == d1(k) + b * (-m));
        assert(b * (-m) == b) by (nonlinear_arith)
            requires
                m == -(1 as real),
        ;
    }
    assert(left =~= right);
}

/// To expand a multiple is to multiply the expansion.
pub proof fn lemma_expands_scale(v: LinVal, r: real, x: Assign, n: int)
    requires
        0 <= n,
    ensures
        expands(lv_scale(v, r), x, n) == lv_scale(expands(v, x, n), r),
{
    let r1 = dense_v(lv_zero(), n);
    let r2 = dense_v(v, n);
    let r3 = dense_v(lv_scale(v, r), n);
    let m = -r;
    assert forall|j: int| 0 <= j < n implies r3[j] == r1[j] - m * r2[j] by {
        let b = r2[j];
        assert(b * r == (0 as real) - (-r) * b) by (nonlinear_arith);
    }
    lemma_dot_combine(r1, r2, r3, m, x, 0, n);
    lemma_dot_zero(r1, x, 0, n);
    let d2 = dot(r2, x, n);
    let left = expands(lv_scale(v, r), x, n);
    let right = lv_scale(expands(v, x, n), r);
    assert forall|k: Option<Par>| #[trigger] left(k) == right(k) by {
        let b = d2(k);
        let c = v(None);
        assert(dot(r3, x, n)(k) == (0 as real) + b * (-m));
        assert(c * r + b * r == (c + b) * r) by (nonlinear_arith);
        assert((0 as real + b) * r == b * r) by (nonlinear_arith);
    }
    assert(left =~= right);
}

/// A constant expands to itself.
pub proof fn lemma_expands_const(c: real, x: Assign, n: int)
    requires
        0 <= n,
    ensures
        expands(lv_const(c), x, n) == lv_const(c),
        expands(lv_zero(), x, n) == lv_zero(),
{
    lemma_dot_zero(dense_v(lv_const(c), n), x, 0, n);
    lemma_dot_zero(dense_v(lv_zero(), n), x, 0, n);
    assert(expands(lv_const(c), x, n) =~= lv_const(c));
    assert(expands(lv_zero(), x, n) =~= lv_zero());
}

/// A parameter expands to the expression assigned to it.
pub proof fn lemma_expands_par(j: int, x: Assign, n: int)
    requires
        0 <= j < n <= usize::MAX + 1,
    ensures
        expands(crate::linexp::lv_par(Par { id: j as usize }), x, n) == x(j),
{
    let v = crate::linexp::lv_par(Par { id: j as usize });
    let row = dense_v(v, n);
    lemma_dot_split(row, x, 0, j, n);
    lemma_dot_split(row, x, j, j + 1, n);
    assert forall|q: int| 0 <= q < j implies row[q] == 0 as real by {}
    assert forall|q: int| j + 1 <= q < n implies row[q] == 0 as real by {}
    lemma_dot_zero(row, x, 0, j);
    lemma_dot_zero(row, x, j + 1, n);
    assert(dot_range(row, x, j, j) == lv_zero());
    assert(row[j] == 1 as real);
    let xj = x(j);
    let e = expands(v, x, n);
    assert forall|k: Option<Par>| #[trigger] e(k) == xj(k) by {
        let a = xj(k);
        assert(a * (1 as real) == a) by (nonlinear_arith);
    }
    assert(e =~= xj);
}

/// To expand a dot product is to take the dot product with the expanded
/// assignment.
pub proof fn lemma_expands_dot(row: Seq<real>, y: Assign, x: Assign, n: int, lo: int, hi: int)
    requires
        0 <= n,
    ensures
        expands(dot_range(row, y, lo, hi), x, n) == dot_range(row, expanded(y, x, n), lo, hi),
    decreases hi - lo,
{
    if hi <= lo {
        lemma_expands_const(0 as real, x, n);
    } else {
        lemma_expands_dot(row, y, x, n, lo, hi - 1);
        lemma_expands_add(dot_range(row, y, lo, hi - 1), lv_scale(y(hi - 1), row[hi - 1]), x, n);
        lemma_expands_scale(y(hi - 1), row[hi - 1], x, n);
        assert(expanded(y, x, n)(hi - 1) == expands(y(hi - 1), x, n));
    }
}

} // verus!
