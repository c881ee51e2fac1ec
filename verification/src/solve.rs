//! Systems of linear equations in the parameters, and their exact solution
//! by Gaussian elimination.
use crate::failure::Failure;
use crate::linexp::{
    binding, bindings_wf, bview, image, key_rank, lemma_lin_absent, lemma_lin_at, lemma_solution_binding,
    lin_apply, lin_at, lin_canonical, lin_proper, lv_add, lv_const, lv_par, lv_scale, lv_zero,
    solution_wf, zero_term, LinExp, LinVal, ParTerm,
};
use crate::linsys::{
    assign_update, dot, dot_range, expanded, expands, lemma_dot_same, lemma_dot_split,
    lemma_dot_update_zero, lemma_dot_zero, lemma_eliminate_sat, lemma_expands_add,
    lemma_expands_const, lemma_expands_dot, lemma_expands_par, lemma_expands_scale, lemma_swap_sat,
    sys_sat, Assign,
};
use crate::gauss::{
    back_acc, back_row, back_rows, clear_column, column, echelon_form, factor, first_nonzero,
    own_values, pivot_choice, row_fits, row_minus_val, solution, step_fits, step_val, swap_val,
    zeros, Mat,
};
use crate::rat::{fits, Rat};
use crate::ring::Par;
use vstd::prelude::*;

verus! {

/// A system of equations `le = c`, each between a linear expression without
/// constant term and a rational, in the parameters with ordinals below
/// `parsize`.
///
/// The derived `==` compares the equations in the order held, so two
/// systems with the same equations in another order are not `==`.
#[derive(Clone, PartialEq, Eq, Debug)]
pub struct LinearEquations {
    pub parsize: usize,
    pub eqs: Vec<(LinExp, Rat)>,
}

/// The coefficients of a list of terms for the first `n` parameters.
pub open spec fn dense(s: Seq<ParTerm>, n: int) -> Seq<real> {
    Seq::new(n as nat, |j: int| lin_at(s, Some(Par { id: j as usize })))
}

/// The assignment that a list of bindings stands for: the expression at
/// each ordinal.
pub open spec fn assign_of(sol: Seq<(Par, LinExp)>) -> Assign {
    |j: int|
        if 0 <= j < sol.len() {
            sol[j].1@
        } else {
            lv_zero()
        }
}

/// Every parameter of the list of terms has an ordinal below `n`.
pub open spec fn pars_below(s: Seq<ParTerm>, n: int) -> bool {
    forall|j: int| 0 <= j < s.len() ==> key_rank((#[trigger] s[j]).par) < n
}

/// The exact value of an expression without constant term under a list of
/// bindings is the dot product of its coefficients and the assignment of
/// the list.
pub proof fn lemma_dense_dot(s: Seq<ParTerm>, sol: Seq<(Par, LinExp)>, n: int, m: int)
    requires
        lin_canonical(s),
        lin_at(s, None) == 0 as real,
        solution_wf(sol),
        sol.len() == n,
        0 <= m <= n <= usize::MAX + 1,
        pars_below(s, m),
    ensures
        dot_range(dense(s, n), assign_of(sol), 0, m) == lin_apply(s, bview(sol)),
    decreases s.len() + m,
{
    let x = assign_of(sol);
    let d = dense(s, n);
    let z = seq![zero_term()];
    assert(zero_term().coef@ == 0 as real) by (nonlinear_arith)
        requires
            zero_term().coef@ == 0 as real / 1 as real,
    ;
    if s == z {
        assert(s[0] == zero_term());
        assert(s.drop_last() =~= Seq::empty());
        assert forall|j: int| 0 <= j < m implies d[j] == 0 as real by {
            lemma_lin_absent(s, Some(Par { id: j as usize }));
        }
        lemma_dot_zero(d, x, 0, m);
        let one = image(None, bview(sol));
        assert(s.last() == zero_term());
        assert(lin_apply(s.drop_last(), bview(sol)) == lv_zero());
        assert(lin_apply(s, bview(sol)) == lv_add(lv_zero(), lv_scale(one, 0 as real)));
        assert forall|k: Option<Par>| #[trigger] lin_apply(s, bview(sol))(k) == lv_zero()(k) by {
            let a = one(k);
            assert(a * (0 as real) == 0 as real) by (nonlinear_arith);
        }
        assert(lin_apply(s, bview(sol)) =~= lv_zero());
    } else {
        // a proper list without a constant term
        assert(s[0].par.is_some()) by {
            if s[0].par.is_none() {
                lemma_lin_at(s, 0);
            }
        }
        assert forall|j: int| 0 <= j < s.len() implies (#[trigger] s[j]).par.is_some() by {
            if j > 0 {
                assert(key_rank(s[0].par) < key_rank(s[j].par));
            }
        }
        if m == 0 {
            assert(key_rank(s[0].par) < 0);
        } else {
            let col = m - 1;
            let pc = Par { id: col as usize };
            let last = s.last();
            assert(s[s.len() - 1] == last);
            if last.par == Some(pc) {
                let s0 = s.drop_last();
                lemma_lin_at(s, s.len() - 1);
                lemma_solution_binding(sol, col);
                assert(sol[col].0 == pc);
                assert(image(last.par, bview(sol)) == x(col));
                assert(d[col] == last.coef@);
                if s0.len() == 0 {
                    // the dot product below the column is zero
                    assert forall|j: int| 0 <= j < col implies d[j] == 0 as real by {
                        let pj = Par { id: j as usize };
                        assert forall|i: int| 0 <= i < s.len() implies (#[trigger] s[i]).par
                            != Some(pj) by {
                            assert(key_rank(s[i].par) == col);
                        }
                        lemma_lin_absent(s, Some(pj));
                    }
                    lemma_dot_zero(d, x, 0, col);
                    assert(lin_apply(s0, bview(sol)) == lv_zero());
                } else {
                    assert(lin_proper(s0)) by {
                        assert forall|a: int| 0 <= a < s0.len() implies Rat::wf(
                            (#[trigger] s0[a]).coef,
                        ) && s0[a].coef@ != 0 as real by {
                            assert(s0[a] == s[a]);
                        }
                        assert forall|a: int, b: int| 0 <= a < b < s0.len() implies key_rank(
                            (#[trigger] s0[a]).par,
                        ) < key_rank((#[trigger] s0[b]).par) by {
                            assert(s0[a] == s[a] && s0[b] == s[b]);
                        }
                    }
                    assert(pars_below(s0, col)) by {
                        assert forall|j: int| 0 <= j < s0.len() implies key_rank(
                            (#[trigger] s0[j]).par,
                        ) < col by {
                            assert(s0[j] == s[j]);
                            assert(key_rank(s[j].par) < key_rank(s[s.len() - 1].par));
                        }
                    }
                    assert(lin_at(s0, None) == 0 as real);
                    lemma_dense_dot(s0, sol, n, col);
                    let d0 = dense(s0, n);
                    assert forall|j: int| 0 <= j < col implies d[j] == d0[j] by {}
                    lemma_dot_same(d, d0, x, x, 0, col);
                }
            } else {
                assert(pars_below(s, col)) by {
                    assert forall|j: int| 0 <= j < s.len() implies key_rank((#[trigger] s[j]).par)
                        < col by {
                        if key_rank(s[j].par) == col {
                            if j < s.len() - 1 {
                                assert(key_rank(s[j].par) < key_rank(s[s.len() - 1].par));
                            } else {
                                assert(s[j].par == Some(pc));
                            }
                        }
                    }
                }
                lemma_dense_dot(s, sol, n, col);
                assert forall|i: int| 0 <= i < s.len() implies (#[trigger] s[i]).par != Some(
                    pc,
                ) by {}
                lemma_lin_absent(s, Some(pc));
                assert(d[col] == 0 as real);
                let v = x(col);
                assert forall|k: Option<Par>| #[trigger] lv_scale(v, d[col])(k) == lv_zero()(k) by {
                    let a = v(k);
                    assert(a * (0 as real) == 0 as real) by (nonlinear_arith);
                }
                assert(lv_scale(v, d[col]) =~= lv_zero());
                assert(lv_add(dot_range(d, x, 0, col), lv_zero()) =~= dot_range(d, x, 0, col));
            }
        }
    }
}

/// The numbers that a row of rationals denotes.
pub open spec fn row_view(r: Seq<Rat>) -> Seq<real> {
    Seq::new(r.len(), |j: int| r[j]@)
}

/// The rows of numbers that a matrix denotes.
pub open spec fn mat_view(m: Seq<Vec<Rat>>) -> Seq<Seq<real>> {
    Seq::new(m.len(), |i: int| row_view(m[i]@))
}

/// Every number of the row is well formed.
pub open spec fn row_wf(r: Seq<Rat>) -> bool {
    forall|j: int| 0 <= j < r.len() ==> Rat::wf(#[trigger] r[j])
}

/// Every row has `n` well-formed entries.
pub open spec fn mat_wf(m: Seq<Vec<Rat>>, n: int) -> bool {
    forall|i: int| 0 <= i < m.len() ==> (#[trigger] m[i])@.len() == n && row_wf(m[i]@)
}

/// The choice of a pivot lies among the rows searched; its entry is zero
/// only if every entry searched is zero, and no entry searched that is not
/// zero exceeds it.
pub proof fn lemma_pivot_choice(col: Seq<real>, cur: int, l: int)
    requires
        cur < l,
    ensures
        cur <= pivot_choice(col, cur, l) < l,
        col[pivot_choice(col, cur, l)] == 0 as real ==> forall|i: int|
            cur <= i < l ==> #[trigger] col[i] == 0 as real,
        forall|i: int|
            cur <= i < l && #[trigger] col[i] != 0 as real ==> col[i] <= col[pivot_choice(
                col,
                cur,
                l,
            )],
    decreases l - cur,
{
    if l > cur + 1 {
        lemma_pivot_choice(col, cur, l - 1);
    }
}

/// A row of `n` zeros.
fn zero_row(n: usize) -> (r: Vec<Rat>)
    ensures
        r@.len() == n,
        row_wf(r@),
        row_view(r@) == zeros(n as int),
{
    let mut r: Vec<Rat> = Vec::new();
    let mut j: usize = 0;
    while j < n
        invariant
            j <= n,
            r@.len() == j,
            row_wf(r@),
            forall|i: int| 0 <= i < j ==> (#[trigger] r@[i])@ == 0 as real,
        decreases n - j,
    {
        r.push(Rat::zero());
        j += 1;
    }
    assert(row_view(r@) =~= zeros(n as int));
    r
}

/// A copy of a row.
fn dup_row(a: &Vec<Rat>) -> (r: Vec<Rat>)
    ensures
        r@ == a@,
{
    let mut r: Vec<Rat> = Vec::new();
    let mut i: usize = 0;
    while i < a.len()
        invariant
            i <= a@.len(),
            r@ == a@.take(i as int),
        decreases a@.len() - i,
    {
        r.push(a[i]);
        assert(a@.take(i + 1) == a@.take(i as int).push(a@[i as int]));
        i += 1;
    }
    assert(a@.take(a@.len() as int) == a@);
    r
}

/// The coefficients of an expression for the first `n` parameters.
fn dense_row(le: &LinExp, n: usize) -> (r: Vec<Rat>)
    requires
        le.wf(),
    ensures
        r@.len() == n,
        row_wf(r@),
        row_view(r@) == dense(le.terms@, n as int),
{
    let mut r: Vec<Rat> = Vec::new();
    let mut j: usize = 0;
    while j < n
        invariant
            j <= n,
            le.wf(),
            r@.len() == j,
            row_wf(r@),
            forall|i: int|
                0 <= i < j ==> (#[trigger] r@[i])@ == lin_at(le.terms@, Some(Par { id: i as usize })),
        decreases n - j,
    {
        let c = le.coef_of(Par { id: j });
        assert(c@ == le@(Some(Par { id: j })));
        r.push(c);
        j += 1;
    }
    assert(row_view(r@) =~= dense(le.terms@, n as int));
    r
}

/// The row `target` minus `f` times the row `src`; `None` when a number
/// does not fit in 64 bits.
fn row_minus(target: &Vec<Rat>, src: &Vec<Rat>, f: &Rat) -> (out: Option<Vec<Rat>>)
    requires
        row_wf(target@),
        row_wf(src@),
        target@.len() == src@.len(),
        Rat::wf(*f),
    ensures
        out.is_some() <==> row_fits(row_view(target@), row_view(src@), f@),
        out matches Some(r) ==> r@.len() == target@.len() && row_wf(r@) && row_view(r@)
            == row_minus_val(row_view(target@), row_view(src@), f@) && forall|j: int|
            0 <= j < r@.len() ==> (#[trigger] r@[j])@ == target@[j]@ - f@ * src@[j]@,
{
    let ghost tv = row_view(target@);
    let ghost sv = row_view(src@);
    let mut r: Vec<Rat> = Vec::new();
    let mut j: usize = 0;
    while j < target.len()
        invariant
            j <= target@.len(),
            row_wf(target@),
            row_wf(src@),
            target@.len() == src@.len(),
            Rat::wf(*f),
            tv == row_view(target@),
            sv == row_view(src@),
            r@.len() == j,
            row_wf(r@),
            forall|i: int| 0 <= i < j ==> (#[trigger] r@[i])@ == target@[i]@ - f@ * src@[i]@,
            forall|i: int| 0 <= i < j ==> fits(f@ * #[trigger] sv[i]) && fits(tv[i] - f@ * sv[i]),
        decreases target@.len() - j,
    {
        assert(Rat::wf(target@[j as int]) && Rat::wf(src@[j as int]));
        assert(sv[j as int] == src@[j as int]@ && tv[j as int] == target@[j as int]@);
        let t = match f.mul(&src[j]) {
            None => {
                return None;
            },
            Some(t) => t,
        };
        let v = match target[j].sub(&t) {
            None => {
                return None;
            },
            Some(v) => v,
        };
        r.push(v);
        j += 1;
    }
    proof {
        assert(row_view(r@) =~= row_minus_val(tv, sv, f@));
    }
    Some(r)
}

/// The row among those from `cur` on whose entry in the column `k` is the
/// largest one that is not zero, the first such row; `cur` where every
/// entry is zero.
pub fn pivot_row(mat: &Vec<Vec<Rat>>, cur: usize, k: usize) -> (p: usize)
    requires
        cur < mat@.len(),
        mat_wf(mat@, mat@[0]@.len() as int),
        k < mat@[0]@.len(),
    ensures
        p == pivot_choice(column(mat_view(mat@), k as int), cur as int, mat@.len() as int),
        cur <= p < mat@.len(),
{
    let ghost n = mat@[0]@.len() as int;
    let ghost col = column(mat_view(mat@), k as int);
    let rows = mat.len();
    let mut best: usize = cur;
    let mut l: usize = cur + 1;
    while l < rows
        invariant
            cur < l <= mat@.len(),
            rows == mat@.len(),
            mat_wf(mat@, n),
            k < n,
            col == column(mat_view(mat@), k as int),
            cur <= best < l,
            best == pivot_choice(col, cur as int, l as int),
        decreases mat@.len() - l,
    {
        assert(mat@[l as int]@.len() == n && row_wf(mat@[l as int]@));
        assert(mat@[best as int]@.len() == n && row_wf(mat@[best as int]@));
        let v = mat[l][k];
        let mv = mat[best][k];
        assert(Rat::wf(mat@[l as int]@[k as int]) && Rat::wf(mat@[best as int]@[k as int]));
        proof {
            assert(col[l as int] == v@);
            assert(col[best as int] == mv@);
        }
        if !v.is_zero() && (mv.lt(&v) || mv.is_zero()) {
            best = l;
        }
        l += 1;
    }
    best
}

/// The first `cur` rows of the matrix are pivot rows: each has its first
/// entry that is not zero in the column that `piv` names, and these
/// columns increase strictly. From the row `cur` on, every entry left of
/// the column `k` is zero.
pub open spec fn echelon(m: Seq<Seq<real>>, cur: int, piv: Seq<int>, k: int) -> bool {
    &&& 0 <= cur <= m.len()
    &&& piv.len() == cur
    &&& forall|r: int|
        0 <= r < cur ==> 0 <= #[trigger] piv[r] < k && m[r][piv[r]] != 0 as real
    &&& forall|r: int, j: int| 0 <= r < cur && 0 <= j < piv[r] ==> #[trigger] m[r][j] == 0 as real
    &&& forall|r: int, s: int| 0 <= r < s < cur ==> #[trigger] piv[r] < #[trigger] piv[s]
    &&& forall|r: int, j: int| cur <= r < m.len() && 0 <= j < k ==> #[trigger] m[r][j] == 0 as real
}

/// The two systems have the same satisfying assignments.
pub open spec fn same_solutions(
    m: Seq<Seq<real>>,
    b: Seq<real>,
    m0: Seq<Seq<real>>,
    b0: Seq<real>,
    n: int,
) -> bool {
    forall|x: Assign| #[trigger] sys_sat(m, b, x, n) <==> sys_sat(m0, b0, x, n)
}

/// Exchanges the rows `p` and `q` of a system.
fn swap_rows(mat: &mut Vec<Vec<Rat>>, b: &mut Vec<Rat>, p: usize, q: usize, Ghost(n): Ghost<int>)
    requires
        p < old(mat)@.len(),
        q < old(mat)@.len(),
        old(mat)@.len() == old(b)@.len(),
        mat_wf(old(mat)@, n),
        row_wf(old(b)@),
    ensures
        final(mat)@.len() == old(mat)@.len(),
        final(b)@.len() == old(b)@.len(),
        mat_wf(final(mat)@, n),
        row_wf(final(b)@),
        mat_view(final(mat)@) == mat_view(old(mat)@).update(
            p as int,
            mat_view(old(mat)@)[q as int],
        ).update(q as int, mat_view(old(mat)@)[p as int]),
        row_view(final(b)@) == row_view(old(b)@).update(p as int, row_view(old(b)@)[q as int]).update(
            q as int,
            row_view(old(b)@)[p as int],
        ),
{
    let ghost m0 = mat@;
    let ghost b0 = b@;
    assert(mat@[p as int]@.len() == n && row_wf(mat@[p as int]@));
    assert(mat@[q as int]@.len() == n && row_wf(mat@[q as int]@));
    let rp = dup_row(&mat[p]);
    let rq = dup_row(&mat[q]);
    mat.set(p, rq);
    mat.set(q, rp);
    let bp = b[p];
    let bq = b[q];
    b.set(p, bq);
    b.set(q, bp);
    proof {
        assert forall|i: int| 0 <= i < mat@.len() implies (#[trigger] mat@[i])@.len() == n
            && row_wf(mat@[i]@) by {
            if i != p && i != q {
                assert(mat@[i] == m0[i]);
            }
        }
        assert forall|i: int| 0 <= i < b@.len() implies Rat::wf(#[trigger] b@[i]) by {
            if i != p && i != q {
                assert(b@[i] == b0[i]);
            } else {
                assert(Rat::wf(b0[p as int]) && Rat::wf(b0[q as int]));
            }
        }
        assert(mat_view(mat@) =~= mat_view(m0).update(p as int, mat_view(m0)[q as int]).update(
            q as int,
            mat_view(m0)[p as int],
        ));
        assert(row_view(b@) =~= row_view(b0).update(p as int, row_view(b0)[q as int]).update(
            q as int,
            row_view(b0)[p as int],
        ));
    }
}

/// Subtracts from the row `i` the multiple of the pivot row `cur` that
/// makes its entry in the column `k` zero. Returns `false` when a number
/// does not fit in 64 bits.
fn eliminate_row(
    mat: &mut Vec<Vec<Rat>>,
    b: &mut Vec<Rat>,
    prow: &Vec<Rat>,
    cur: usize,
    i: usize,
    k: usize,
    Ghost(n): Ghost<int>,
) -> (ok: bool)
    requires
        cur < i < old(mat)@.len(),
        old(mat)@.len() == old(b)@.len(),
        mat_wf(old(mat)@, n),
        row_wf(old(b)@),
        k < n,
        prow@ == old(mat)@[cur as int]@,
        prow@[k as int]@ != 0 as real,
    ensures
        final(mat)@.len() == old(mat)@.len(),
        final(b)@.len() == old(b)@.len(),
        mat_wf(final(mat)@, n),
        row_wf(final(b)@),
        forall|r: int|
            0 <= r < old(mat)@.len() && r != i ==> #[trigger] final(mat)@[r] == old(mat)@[r],
        ok <==> step_fits(
            mat_view(old(mat)@),
            row_view(old(b)@),
            cur as int,
            i as int,
            k as int,
        ),
        ok ==> (mat_view(final(mat)@), row_view(final(b)@)) == step_val(
            mat_view(old(mat)@),
            row_view(old(b)@),
            cur as int,
            i as int,
            k as int,
        ),
        ok ==> ({
            let m = mat_view(old(mat)@);
            let m2 = mat_view(final(mat)@);
            let f = m[i as int][k as int] / m[cur as int][k as int];
            &&& forall|r: int| 0 <= r < m.len() && r != i ==> #[trigger] m2[r] == m[r]
            &&& forall|r: int|
                0 <= r < m.len() && r != i ==> #[trigger] row_view(final(b)@)[r] == row_view(
                    old(b)@,
                )[r]
            &&& forall|j: int|
                0 <= j < n ==> #[trigger] m2[i as int][j] == m[i as int][j] - f * m[cur as int][j]
            &&& row_view(final(b)@)[i as int] == row_view(old(b)@)[i as int] - f * row_view(
                old(b)@,
            )[cur as int]
        }),
{
    let ghost m0 = mat@;
    let ghost b0 = b@;
    assert(mat@[i as int]@.len() == n && row_wf(mat@[i as int]@));
    assert(mat@[cur as int]@.len() == n && row_wf(mat@[cur as int]@));
    assert(Rat::wf(mat@[i as int]@[k as int]) && Rat::wf(prow@[k as int]));
    assert(Rat::wf(b@[i as int]) && Rat::wf(b@[cur as int]));
    let f = match mat[i][k].div(&prow[k]) {
        None => {
            return false;
        },
        Some(f) => f,
    };
    assert(f@ == factor(mat_view(m0), cur as int, i as int, k as int));
    assert(mat_view(m0)[i as int] == row_view(m0[i as int]@));
    assert(mat_view(m0)[cur as int] == row_view(prow@));
    assert(row_view(b0)[cur as int] == b0[cur as int]@ && row_view(b0)[i as int] == b0[i as int]@);
    let nrow = match row_minus(&mat[i], prow, &f) {
        None => {
            return false;
        },
        Some(r) => r,
    };
    let t = match f.mul(&b[cur]) {
        None => {
            return false;
        },
        Some(t) => t,
    };
    let nb = match b[i].sub(&t) {
        None => {
            return false;
        },
        Some(v) => v,
    };
    mat.set(i, nrow);
    b.set(i, nb);
    proof {
        assert forall|r: int| 0 <= r < mat@.len() implies (#[trigger] mat@[r])@.len() == n
            && row_wf(mat@[r]@) by {
            if r != i {
                assert(mat@[r] == m0[r]);
            }
        }
        assert forall|r: int| 0 <= r < b@.len() implies Rat::wf(#[trigger] b@[r]) by {
            if r != i {
                assert(b@[r] == b0[r]);
            }
        }
        let m = mat_view(m0);
        let m2 = mat_view(mat@);
        assert forall|r: int| 0 <= r < m.len() && r != i implies #[trigger] m2[r] == m[r] by {
            assert(mat@[r] == m0[r]);
        }
        assert forall|r: int| 0 <= r < m.len() && r != i implies #[trigger] row_view(b@)[r]
            == row_view(b0)[r] by {
            assert(b@[r] == b0[r]);
        }
        let sv = step_val(m, row_view(b0), cur as int, i as int, k as int);
        assert(m2 =~= sv.0);
        assert(row_view(b@) =~= sv.1);
    }
    true
}

/// Brings the system into row echelon form by Gaussian elimination with a
/// search for the pivot in each column. Returns the number of pivot rows
/// and their columns.
fn eliminate(mat: &mut Vec<Vec<Rat>>, b: &mut Vec<Rat>, n: usize) -> (out: Option<
    (usize, Ghost<Seq<int>>),
>)
    requires
        old(mat)@.len() == old(b)@.len(),
        n <= old(mat)@.len(),
        mat_wf(old(mat)@, n as int),
        row_wf(old(b)@),
    ensures
        final(mat)@.len() == old(mat)@.len(),
        final(b)@.len() == old(b)@.len(),
        mat_wf(final(mat)@, n as int),
        row_wf(final(b)@),
        out matches Some((cur, piv)) ==> echelon(mat_view(final(mat)@), cur as int, piv@, n as int)
            && same_solutions(
            mat_view(final(mat)@),
            row_view(final(b)@),
            mat_view(old(mat)@),
            row_view(old(b)@),
            n as int,
        ),
        out matches Some((cur, piv)) ==> echelon_form(
            mat_view(old(mat)@),
            row_view(old(b)@),
            0,
            0,
            n as int,
        ) == Some((mat_view(final(mat)@), row_view(final(b)@), cur as int)),
        out is None ==> echelon_form(mat_view(old(mat)@), row_view(old(b)@), 0, 0, n as int)
            is None,
{
    let ghost m0 = mat_view(mat@);
    let ghost b0 = row_view(b@);
    let rows = mat.len();
    let mut cur: usize = 0;
    let ghost mut piv: Seq<int> = Seq::empty();
    let mut k: usize = 0;
    while k < n
        invariant
            k <= n,
            cur <= k,
            rows == mat@.len(),
            mat@.len() == b@.len(),
            mat@.len() == old(mat)@.len(),
            b@.len() == old(b)@.len(),
            n <= rows,
            mat_wf(mat@, n as int),
            row_wf(b@),
            echelon(mat_view(mat@), cur as int, piv, k as int),
            same_solutions(mat_view(mat@), row_view(b@), m0, b0, n as int),
            m0 == mat_view(old(mat)@),
            b0 == row_view(old(b)@),
            echelon_form(m0, b0, 0, 0, n as int) == echelon_form(
                mat_view(mat@),
                row_view(b@),
                cur as int,
                k as int,
                n as int,
            ),
        decreases n - k,
    {
        assert(mat@[0]@.len() == n);
        let p = pivot_row(mat, cur, k);
        let ghost m1 = mat_view(mat@);
        let ghost b1 = row_view(b@);
        proof {
            lemma_pivot_choice(column(m1, k as int), cur as int, rows as int);
        }
        swap_rows(mat, b, cur, p, Ghost(n as int));
        let ghost m2 = mat_view(mat@);
        let ghost b2 = row_view(b@);
        proof {
            assert((m2, b2) == swap_val(m1, b1, cur as int, p as int));
            assert(m1.len() == rows);
            assert forall|x: Assign| #[trigger]
                sys_sat(m2, b2, x, n as int) <==> sys_sat(m0, b0, x, n as int) by {
                lemma_swap_sat(m1, b1, m2, b2, cur as int, p as int, x, n as int);
                assert(sys_sat(m1, b1, x, n as int) <==> sys_sat(m0, b0, x, n as int));
            }
            assert(echelon(m2, cur as int, piv, k as int)) by {
                assert forall|r: int| 0 <= r < cur implies m2[r] == m1[r] by {}
                assert forall|r: int, j: int|
                    cur <= r < m2.len() && 0 <= j < k implies #[trigger] m2[r][j] == 0 as real by {
                    if r == cur {
                        assert(m2[r] == m1[p as int]);
                        assert(m1[p as int][j] == 0 as real);
                    } else if r == p {
                        assert(m2[r] == m1[cur as int]);
                        assert(m1[cur as int][j] == 0 as real);
                    } else {
                        assert(m2[r] == m1[r]);
                        assert(m1[r][j] == 0 as real);
                    }
                }
                assert forall|r: int, j: int|
                    0 <= r < cur && 0 <= j < piv[r] implies #[trigger] m2[r][j] == 0 as real by {
                    assert(m2[r] == m1[r]);
                    assert(m1[r][j] == 0 as real);
                }
                assert forall|r: int| 0 <= r < cur implies 0 <= #[trigger] piv[r] < k && m2[r][piv[r]]
                    != 0 as real by {
                    assert(m2[r] == m1[r]);
                }
            }
            assert(m2[cur as int][k as int] == column(m1, k as int)[p as int]);
            assert(forall|r: int|
                cur <= r < rows ==> #[trigger] column(m1, k as int)[r] == m1[r][k as int]);
        }
        assert(mat@[cur as int]@.len() == n && row_wf(mat@[cur as int]@));
        assert(Rat::wf(mat@[cur as int]@[k as int]));
        if mat[cur][k].is_zero() {
            proof {
                // the whole column is zero from the row `cur` on
                assert forall|r: int, j: int|
                    cur <= r < m2.len() && 0 <= j < k + 1 implies #[trigger] m2[r][j]
                    == 0 as real by {
                    if j == k {
                        if r == cur {
                        } else if r == p {
                            assert(m2[r] == m1[cur as int]);
                            assert(column(m1, k as int)[cur as int] == 0 as real);
                        } else {
                            assert(m2[r] == m1[r]);
                            assert(column(m1, k as int)[r] == 0 as real);
                        }
                    }
                }
            }
        } else {
            let prow = dup_row(&mat[cur]);
            let mut i: usize = cur + 1;
            while i < rows
                invariant
                    cur < i <= rows,
                    cur <= k < n,
                    rows == mat@.len(),
                    mat@.len() == b@.len(),
                    mat@.len() == old(mat)@.len(),
                    b@.len() == old(b)@.len(),
                    n <= rows,
                    mat_wf(mat@, n as int),
                    row_wf(b@),
                    prow@ == mat@[cur as int]@,
                    prow@[k as int]@ != 0 as real,
                    echelon(mat_view(mat@), cur as int, piv, k as int),
                    same_solutions(mat_view(mat@), row_view(b@), m0, b0, n as int),
                    forall|r: int|
                        cur < r < i ==> #[trigger] mat_view(mat@)[r][k as int] == 0 as real,
                    m0 == mat_view(old(mat)@),
                    b0 == row_view(old(b)@),
                    echelon_form(m0, b0, 0, 0, n as int) == (match clear_column(
                        mat_view(mat@),
                        row_view(b@),
                        cur as int,
                        k as int,
                        i as int,
                    ) {
                        None => None::<(Seq<Seq<real>>, Seq<real>, int)>,
                        Some((mc, bc)) => echelon_form(mc, bc, cur + 1, k + 1, n as int),
                    }),
                decreases rows - i,
            {
                let ghost m3 = mat_view(mat@);
                let ghost b3 = row_view(b@);
                let ok = eliminate_row(mat, b, &prow, cur, i, k, Ghost(n as int));
                if !ok {
                    return None;
                }
                let ghost m4 = mat_view(mat@);
                let ghost b4 = row_view(b@);
                proof {
                    let f = m3[i as int][k as int] / m3[cur as int][k as int];
                    assert forall|x: Assign| #[trigger]
                        sys_sat(m4, b4, x, n as int) <==> sys_sat(m0, b0, x, n as int) by {
                        lemma_eliminate_sat(m3, b3, m4, b4, cur as int, i as int, f, x, n as int);
                        assert(sys_sat(m3, b3, x, n as int) <==> sys_sat(m0, b0, x, n as int));
                    }
                    assert(m4[cur as int] == m3[cur as int]);
                    assert(echelon(m4, cur as int, piv, k as int)) by {
                        assert forall|r: int, j: int|
                            cur <= r < m4.len() && 0 <= j < k implies #[trigger] m4[r][j]
                            == 0 as real by {
                            if r == i {
                                assert(m3[i as int][j] == 0 as real);
                                assert(m3[cur as int][j] == 0 as real);
                                assert(m4[i as int][j] == m3[i as int][j] - f * m3[cur as int][j]);
                                assert(f * (0 as real) == 0 as real) by (nonlinear_arith);
                            } else {
                                assert(m4[r] == m3[r]);
                                assert(m3[r][j] == 0 as real);
                            }
                        }
                        assert forall|r: int, j: int|
                            0 <= r < cur && 0 <= j < piv[r] implies #[trigger] m4[r][j]
                            == 0 as real by {
                            assert(m4[r] == m3[r]);
                            assert(m3[r][j] == 0 as real);
                        }
                        assert forall|r: int|
                            0 <= r < cur implies 0 <= #[trigger] piv[r] < k && m4[r][piv[r]]
                            != 0 as real by {
                            assert(m4[r] == m3[r]);
                        }
                    }
                    assert forall|r: int| cur < r < i + 1 implies #[trigger] m4[r][k as int]
                        == 0 as real by {
                        if r == i {
                            let a = m3[i as int][k as int];
                            let pv = m3[cur as int][k as int];
                            assert(m4[i as int][k as int] == a - f * pv);
                            assert(a - (a / pv) * pv == 0 as real) by (nonlinear_arith)
                                requires
                                    pv != 0 as real,
                            ;
                        } else {
                            assert(m4[r] == m3[r]);
                            assert(m3[r][k as int] == 0 as real);
                        }
                    }
                }
                i += 1;
            }
            proof {
                let m5 = mat_view(mat@);
                let piv2 = piv.push(k as int);
                assert(echelon(m5, cur + 1, piv2, k + 1)) by {
                    assert forall|r: int|
                        0 <= r < cur + 1 implies 0 <= #[trigger] piv2[r] < k + 1 && m5[r][piv2[r]]
                        != 0 as real by {
                        if r < cur {
                            assert(piv2[r] == piv[r]);
                        } else {
                            assert(m5[cur as int][k as int] == prow@[k as int]@);
                        }
                    }
                    assert forall|r: int, j: int|
                        0 <= r < cur + 1 && 0 <= j < piv2[r] implies #[trigger] m5[r][j]
                        == 0 as real by {
                        if r < cur {
                            assert(piv2[r] == piv[r]);
                        }
                    }
                    assert forall|r: int, s: int| 0 <= r < s < cur + 1 implies #[trigger] piv2[r]
                        < #[trigger] piv2[s] by {
                        assert(piv2[r] == piv[r]);
                        if s < cur {
                            assert(piv2[s] == piv[s]);
                        }
                    }
                }
                piv = piv2;
            }
            cur += 1;
        }
        k += 1;
    }
    Some((cur, Ghost(piv)))
}

/// The column `j` is not the column of a pivot row.
pub open spec fn free_column(piv: Seq<int>, lo: int, j: int) -> bool {
    forall|r: int| lo <= r < piv.len() ==> #[trigger] piv[r] != j
}

/// Strictly increasing columns that are not negative lie at or right of
/// the diagonal.
proof fn lemma_piv_diag(piv: Seq<int>, r: int)
    requires
        0 <= r < piv.len(),
        forall|a: int| 0 <= a < piv.len() ==> 0 <= #[trigger] piv[a],
        forall|a: int, b: int| 0 <= a < b < piv.len() ==> #[trigger] piv[a] < #[trigger] piv[b],
    ensures
        piv[r] >= r,
    decreases r,
{
    if r > 0 {
        lemma_piv_diag(piv, r - 1);
        assert(piv[r - 1] < piv[r]);
    }
}

/// A dot product has a parameter only if an assigned expression has it.
proof fn lemma_dot_support(row: Seq<real>, x: Assign, lo: int, hi: int, p: Option<Par>)
    requires
        dot_range(row, x, lo, hi)(p) != 0 as real,
    ensures
        exists|j: int| lo <= j < hi && #[trigger] x(j)(p) != 0 as real,
    decreases hi - lo,
{
    if hi > lo {
        let v = x(hi - 1);
        if v(p) != 0 as real {
            assert(lo <= hi - 1 < hi && x(hi - 1)(p) != 0 as real);
        } else {
            let a = v(p);
            assert(a * row[hi - 1] == 0 as real) by (nonlinear_arith)
                requires
                    a == 0 as real,
            ;
            lemma_dot_support(row, x, lo, hi - 1, p);
            let j = choose|j: int| lo <= j < hi - 1 && #[trigger] x(j)(p) != 0 as real;
            assert(lo <= j < hi && x(j)(p) != 0 as real);
        }
    }
}

/// The column `j` is not the column of a pivot row before the row `k`.
pub open spec fn not_pending(piv: Seq<int>, k: int, j: int) -> bool {
    forall|r: int| 0 <= r < k && r < piv.len() ==> #[trigger] piv[r] != j
}

/// Under the assignment `x`, every column that is not pending has the
/// value to which its expression in `sol` expands.
pub open spec fn general(sol: Seq<(Par, LinExp)>, piv: Seq<int>, k: int, x: Assign, n: int) -> bool {
    forall|j: int|
        0 <= j < n && not_pending(piv, k, j) ==> #[trigger] x(j) == expands(sol[j].1@, x, n)
}

/// The assignment `x` is an instance of the solution `sol`: each of its
/// expressions is what the expression of `sol` for its column expands to,
/// with the expressions of `x` in place of the parameters.
pub open spec fn instance(sol: Seq<(Par, LinExp)>, x: Assign, n: int) -> bool {
    forall|j: int| 0 <= j < n ==> #[trigger] x(j) == expands(sol[j].1@, x, n)
}

/// Every parameter of an expression of the list is one that the list binds
/// to itself, with an ordinal outside the pivot columns.
pub open spec fn over_free(sol: Seq<(Par, LinExp)>, piv: Seq<int>, lo: int) -> bool {
    forall|j: int, p: Par|
        0 <= j < sol.len() && #[trigger] (sol[j].1@)(Some(p)) != 0 as real ==> p.id < sol.len()
            && free_column(piv, 0, p.id as int) && sol[p.id as int].1@ == lv_par(p)
}

/// The expressions of a solution, by the ordinals of their parameters.
pub open spec fn values(sol: Seq<(Par, LinExp)>) -> Seq<LinVal> {
    Seq::new(sol.len(), |j: int| sol[j].1@)
}

/// The solution of a system in row echelon form whose rows without pivot
/// have the constant zero: the parameter of each column without pivot
/// stands for itself, and the parameter of each pivot column is expressed
/// by those, from the last pivot row to the first.
#[verifier::rlimit(60)]
fn back_substitute(
    mat: &Vec<Vec<Rat>>,
    b: &Vec<Rat>,
    n: usize,
    cur: usize,
    Ghost(piv): Ghost<Seq<int>>,
) -> (out: Option<Vec<(Par, LinExp)>>)
    requires
        mat@.len() == b@.len(),
        n <= mat@.len(),
        mat_wf(mat@, n as int),
        row_wf(b@),
        echelon(mat_view(mat@), cur as int, piv, n as int),
        forall|r: int| cur <= r < b@.len() ==> (#[trigger] b@[r])@ == 0 as real,
    ensures
        out matches Some(res) ==> res@.len() == n && solution_wf(res@) && sys_sat(
            mat_view(mat@),
            row_view(b@),
            assign_of(res@),
            n as int,
        ) && over_free(res@, piv, 0) && (forall|j: int|
            0 <= j < n && free_column(piv, 0, j) ==> (#[trigger] res@[j]).1@ == lv_par(
                Par { id: j as usize },
            )) && forall|x: Assign| #[trigger]
            sys_sat(mat_view(mat@), row_view(b@), x, n as int) ==> instance(res@, x, n as int),
        out matches Some(res) ==> back_rows(
            mat_view(mat@),
            row_view(b@),
            own_values(n as int),
            cur as int,
            n as int,
        ) == Some(values(res@)),
        out is None ==> back_rows(
            mat_view(mat@),
            row_view(b@),
            own_values(n as int),
            cur as int,
            n as int,
        ) is None,
{
    let ghost mv = mat_view(mat@);
    let ghost bv = row_view(b@);
    let ghost goal = back_rows(mv, bv, own_values(n as int), cur as int, n as int);
    let mut res: Vec<(Par, LinExp)> = Vec::new();
    let mut j: usize = 0;
    while j < n
        invariant
            j <= n,
            res@.len() == j,
            solution_wf(res@),
            forall|i: int| 0 <= i < j ==> (#[trigger] res@[i]).1@ == lv_par(Par { id: i as usize }),
        decreases n - j,
    {
        res.push((Par { id: j }, LinExp::from_par(Par { id: j })));
        j += 1;
    }
    let mut k: usize = cur;
    proof {
        assert(values(res@) =~= own_values(n as int));
        assert forall|i: int, p: Par|
            0 <= i < res@.len() && not_pending(piv, cur as int, i) && #[trigger] (res@[i].1@)(
                Some(p),
            ) != 0 as real implies p.id < res@.len() && free_column(piv, 0, p.id as int) by {
            assert(res@[i].1@ == lv_par(Par { id: i as usize }));
            assert(p == Par { id: i as usize });
        }
        assert forall|xs: Assign| #[trigger] sys_sat(mv, bv, xs, n as int) implies general(
            res@,
            piv,
            cur as int,
            xs,
            n as int,
        ) by {
            assert forall|j: int| 0 <= j < n && not_pending(piv, cur as int, j) implies #[trigger] xs(
                j,
            ) == expands(res@[j].1@, xs, n as int) by {
                assert(res@[j].1@ == lv_par(Par { id: j as usize }));
                lemma_expands_par(j, xs, n as int);
            }
        }
    }
    while k > 0
        invariant
            k <= cur,
            mat@.len() == b@.len(),
            n <= mat@.len(),
            mat_wf(mat@, n as int),
            row_wf(b@),
            mv == mat_view(mat@),
            bv == row_view(b@),
            echelon(mv, cur as int, piv, n as int),
            res@.len() == n,
            solution_wf(res@),
            forall|r: int|
                k <= r < cur ==> #[trigger] dot(mv[r], assign_of(res@), n as int) == lv_const(bv[r]),
            forall|j: int|
                0 <= j < n && free_column(piv, k as int, j) ==> (#[trigger] res@[j]).1@ == lv_par(
                    Par { id: j as usize },
                ),
            forall|j: int, p: Par|
                0 <= j < res@.len() && not_pending(piv, k as int, j) && #[trigger] (res@[j].1@)(
                    Some(p),
                ) != 0 as real ==> p.id < res@.len() && free_column(piv, 0, p.id as int),
            forall|xs: Assign| #[trigger]
                sys_sat(mv, bv, xs, n as int) ==> general(res@, piv, k as int, xs, n as int),
            cur <= mat@.len(),
            goal == back_rows(mv, bv, own_values(n as int), cur as int, n as int),
            goal == back_rows(mv, bv, values(res@), k as int, n as int),
        decreases k,
    {
        k -= 1;
        let ghost row = mv[k as int];
        let ghost x = assign_of(res@);
        let ghost res0 = res@;
        let ghost vals = values(res@);
        assert(goal == (match back_row(row, bv[k as int], vals, k as int, n as int) {
            None => None::<Seq<LinVal>>,
            Some(r2) => back_rows(mv, bv, r2, k as int, n as int),
        }));
        proof {
            lemma_piv_diag(piv, k as int);
            assert(mat@[k as int]@.len() == n && row_wf(mat@[k as int]@));
            assert(Rat::wf(b@[k as int]));
        }
        let mut tar: usize = k;
        while tar < n && mat[k][tar].is_zero()
            invariant
                k <= tar <= n,
                k < cur <= mat@.len(),
                piv.len() == cur,
                tar <= piv[k as int] < n,
                mat@[k as int]@.len() == n,
                row_wf(mat@[k as int]@),
                mv == mat_view(mat@),
                row == mv[k as int],
                row[piv[k as int]] != 0 as real,
                first_nonzero(row, k as int, n as int) == first_nonzero(row, tar as int, n as int),
            decreases n - tar,
        {
            assert(row[tar as int] == mat@[k as int]@[tar as int]@);
            tar += 1;
        }
        proof {
            assert(row[tar as int] == mat@[k as int]@[tar as int]@);
            if tar < piv[k as int] {
                assert(mv[k as int][tar as int] == 0 as real);
            }
            assert(tar == piv[k as int]);
            assert(first_nonzero(row, k as int, n as int) == tar);
        }
        let c = mat[k][tar];
        assert(Rat::wf(mat@[k as int]@[tar as int]));
        assert(c@ == row[tar as int]);
        assert(b@[k as int]@ == bv[k as int]);
        let q0 = match b[k].div(&c) {
            None => {
                assert(back_row(row, bv[k as int], vals, k as int, n as int) is None);
                return None;
            },
            Some(q) => q,
        };
        let mut a = LinExp::from_const(q0);
        assert(goal == (match back_acc(row, c@, vals, a@, tar + 1, n as int) {
            None => None::<Seq<LinVal>>,
            Some(av) => back_rows(mv, bv, vals.update(tar as int, av), k as int, n as int),
        }));
        let mut i: usize = tar + 1;
        while i < n
            invariant
                tar < i <= n,
                k < cur <= mat@.len(),
                mat@[k as int]@.len() == n,
                row_wf(mat@[k as int]@),
                mv == mat_view(mat@),
                row == mv[k as int],
                c == mat@[k as int]@[tar as int],
                Rat::wf(c),
                c@ != 0 as real,
                res@ == res0,
                res@.len() == n,
                solution_wf(res@),
                x == assign_of(res@),
                a.wf(),
                a@ == lv_add(
                    lv_const(bv[k as int] / c@),
                    lv_scale(dot_range(row, x, tar + 1, i as int), -(1 as real) / c@),
                ),
                vals == values(res0),
                bv == row_view(b@),
                goal == back_rows(mv, bv, own_values(n as int), cur as int, n as int),
                goal == (match back_acc(row, c@, vals, a@, i as int, n as int) {
                    None => None::<Seq<LinVal>>,
                    Some(av) => back_rows(mv, bv, vals.update(tar as int, av), k as int, n as int),
                }),
            decreases n - i,
        {
            assert(Rat::wf(mat@[k as int]@[i as int]));
            assert(res@[i as int].1.wf());
            assert(vals[i as int] == res@[i as int].1@);
            assert(row[i as int] == mat@[k as int]@[i as int]@);
            let ghost a0 = a@;
            let ghost step = back_acc(row, c@, vals, a0, i as int, n as int);
            let q = match mat[k][i].div(&c) {
                None => {
                    assert(step is None);
                    return None;
                },
                Some(q) => q,
            };
            let nr = match res[i].1.neg() {
                None => {
                    assert(step is None);
                    return None;
                },
                Some(nr) => nr,
            };
            let t = match nr.scale(&q) {
                None => {
                    assert(step is None);
                    return None;
                },
                Some(t) => t,
            };
            match a.add(&t) {
                None => {
                    assert(step is None);
                    return None;
                },
                Some(s) => {
                    a = s;
                },
            }
            assert(step == back_acc(row, c@, vals, a@, i + 1, n as int));
            proof {
                let d0 = dot_range(row, x, tar + 1, i as int);
                let d1 = dot_range(row, x, tar + 1, i + 1);
                let xi = x(i as int);
                let mki = row[i as int];
                let cc = c@;
                let bk = bv[k as int];
                assert(xi == res@[i as int].1@);
                assert(d1 == lv_add(d0, lv_scale(xi, mki)));
                let target = lv_add(lv_const(bk / cc), lv_scale(d1, -(1 as real) / cc));
                assert forall|key: Option<Par>| #[trigger] a@(key) == target(key) by {
                    let u = xi(key);
                    let w = d0(key);
                    assert(q@ == mki / cc);
                    assert(nr@(key) == u * (-(1 as real)));
                    assert(t@(key) == nr@(key) * q@);
                    assert(a@(key) == a0(key) + t@(key));
                    assert(a@(key) == a0(key) + (u * (-(1 as real))) * (mki / cc));
                    assert(a0(key) == lv_const(bk / cc)(key) + w * (-(1 as real) / cc));
                    assert((u * (-(1 as real))) * (mki / cc) + w * (-(1 as real) / cc) == (w + u
                        * mki) * (-(1 as real) / cc)) by (nonlinear_arith)
                        requires
                            cc != 0 as real,
                    ;
                }
                assert(a@ =~= target);
            }
            i += 1;
        }
        let ghost av = a@;
        res.set(tar, (Par { id: tar }, a));
        proof {
            assert(values(res@) =~= vals.update(tar as int, av));
            let x2 = assign_of(res@);
            let upd = assign_update(x, tar as int, av);
            assert(res@ == res0.update(tar as int, (Par { id: tar }, res@[tar as int].1)));
            assert forall|j: int| #![trigger x2(j)] x2(j) == upd(j) by {
                if 0 <= j < n && j != tar {
                    assert(res@[j] == res0[j]);
                }
            }
            assert(x2 =~= upd);
            assert forall|j: int| 0 <= j < res@.len() implies (#[trigger] res@[j]).0.id == j
                && res@[j].1.wf() by {
                if j != tar {
                    assert(res@[j] == res0[j]);
                }
            }
            // the row `k`
            let cc = c@;
            let bk = bv[k as int];
            let big = dot_range(row, x, tar + 1, n as int);
            lemma_dot_split(row, x2, 0, tar as int, n as int);
            lemma_dot_split(row, x2, tar as int, tar + 1, n as int);
            assert forall|j: int| 0 <= j < tar implies row[j] == 0 as real by {
                assert(mv[k as int][j] == 0 as real);
            }
            lemma_dot_zero(row, x2, 0, tar as int);
            assert forall|j: int| tar + 1 <= j < n implies #[trigger] x2(j) == x(j) by {}
            lemma_dot_same(row, row, x2, x, tar + 1, n as int);
            assert(dot_range(row, x2, tar as int, tar as int) == lv_zero());
            let mid = dot_range(row, x2, tar as int, tar + 1);
            assert(mid == lv_add(lv_zero(), lv_scale(x2(tar as int), row[tar as int])));
            assert(x2(tar as int) == av);
            let total = dot(row, x2, n as int);
            assert forall|key: Option<Par>| #[trigger] total(key) == lv_const(bk)(key) by {
                let w = big(key);
                let kc = lv_const(bk / cc)(key);
                assert(av(key) == kc + w * (-(1 as real) / cc));
                assert(total(key) == 0 as real + ((0 as real + av(key) * cc) + w));
                if key.is_none() {
                    assert((bk / cc + w * (-(1 as real) / cc)) * cc + w == bk) by (nonlinear_arith)
                        requires
                            cc != 0 as real,
                    ;
                } else {
                    assert((0 as real + w * (-(1 as real) / cc)) * cc + w == 0 as real)
                        by (nonlinear_arith)
                        requires
                            cc != 0 as real,
                    ;
                }
            }
            assert(total =~= lv_const(bk));
            // the rows below
            assert forall|r: int| k <= r < cur implies #[trigger] dot(mv[r], x2, n as int)
                == lv_const(bv[r]) by {
                if r > k {
                    assert(piv[k as int] < piv[r]);
                    assert(mv[r][tar as int] == 0 as real);
                    lemma_dot_update_zero(mv[r], x, tar as int, av, 0, n as int);
                    assert(dot(mv[r], x, n as int) == lv_const(bv[r]));
                }
            }
            // every satisfying assignment is an instance in the new column
            assert forall|xs: Assign| #[trigger] sys_sat(mv, bv, xs, n as int) implies general(
                res@,
                piv,
                k as int,
                xs,
                n as int,
            ) by {
                assert(general(res0, piv, k + 1, xs, n as int));
                assert forall|j: int| 0 <= j < n && not_pending(piv, k as int, j) implies #[trigger] xs(
                    j,
                ) == expands(res@[j].1@, xs, n as int) by {
                    if j != tar {
                        assert(res@[j] == res0[j]);
                        assert(not_pending(piv, k + 1, j));
                    } else {
                        let nn = n as int;
                        let inv = -(1 as real) / cc;
                        lemma_expands_add(lv_const(bk / cc), lv_scale(big, inv), xs, nn);
                        lemma_expands_const(bk / cc, xs, nn);
                        lemma_expands_scale(big, inv, xs, nn);
                        lemma_expands_dot(row, x, xs, nn, tar + 1, nn);
                        let ex = expanded(x, xs, nn);
                        assert forall|i2: int| tar + 1 <= i2 < n implies #[trigger] ex(i2) == xs(
                            i2,
                        ) by {
                            assert(not_pending(piv, k + 1, i2)) by {
                                assert forall|r: int|
                                    0 <= r < k + 1 && r < piv.len() implies #[trigger] piv[r]
                                    != i2 by {
                                    if r < k {
                                        assert(piv[r] < piv[k as int]);
                                    }
                                }
                            }
                            assert(x(i2) == res0[i2].1@);
                        }
                        lemma_dot_same(row, row, ex, xs, tar + 1, nn);
                        let dx = dot_range(row, xs, tar + 1, nn);
                        assert(expands(big, xs, nn) == dx);
                        // the row `k` under `xs`
                        assert(dot(mv[k as int], xs, nn) == lv_const(bv[k as int]));
                        lemma_dot_split(row, xs, 0, tar as int, nn);
                        lemma_dot_split(row, xs, tar as int, tar + 1, nn);
                        lemma_dot_zero(row, xs, 0, tar as int);
                        assert(dot_range(row, xs, tar as int, tar as int) == lv_zero());
                        let xt = xs(tar as int);
                        let target = expands(av, xs, nn);
                        let whole = dot(row, xs, nn);
                        assert forall|key: Option<Par>| #[trigger] xt(key) == target(key) by {
                            let u = xt(key);
                            let w = dx(key);
                            let kb = lv_const(bk)(key);
                            let kc = lv_const(bk / cc)(key);
                            assert(whole(key) == kb);
                            assert(whole(key) == 0 as real + ((0 as real + u * cc) + w));
                            assert(target(key) == kc + w * inv);
                            if key.is_none() {
                                assert(u == bk / cc + w * (-(1 as real) / cc)) by (nonlinear_arith)
                                    requires
                                        cc != 0 as real,
                                        u * cc + w == bk,
                                ;
                            } else {
                                assert(u == 0 as real + w * (-(1 as real) / cc))
                                    by (nonlinear_arith)
                                    requires
                                        cc != 0 as real,
                                        u * cc + w == 0 as real,
                                ;
                            }
                        }
                        assert(xt =~= target);
                    }
                }
            }
            // the columns without pivot
            assert forall|j: int| 0 <= j < n && free_column(piv, k as int, j) implies (
            #[trigger] res@[j]).1@ == lv_par(Par { id: j as usize }) by {
                assert(piv[k as int] != j);
                assert(res@[j] == res0[j]);
                assert(free_column(piv, k + 1, j));
            }
            // the parameters of the new expression
            assert forall|j: int, p: Par|
                0 <= j < res@.len() && not_pending(piv, k as int, j) && #[trigger] (res@[j].1@)(
                    Some(p),
                ) != 0 as real implies p.id < res@.len() && free_column(piv, 0, p.id as int) by {
                if j != tar {
                    assert(res@[j] == res0[j]);
                    assert((res0[j].1@)(Some(p)) != 0 as real);
                    assert(not_pending(piv, k + 1, j));
                } else {
                    let w = big(Some(p));
                    assert(av(Some(p)) == 0 as real + w * (-(1 as real) / cc));
                    if w == 0 as real {
                        assert(w * (-(1 as real) / cc) == 0 as real) by (nonlinear_arith)
                            requires
                                w == 0 as real,
                        ;
                    }
                    lemma_dot_support(row, x, tar + 1, n as int, Some(p));
                    let i2 = choose|i2: int| tar + 1 <= i2 < n && #[trigger] x(i2)(Some(p))
                        != 0 as real;
                    assert((res0[i2].1@)(Some(p)) != 0 as real);
                    assert(not_pending(piv, k + 1, i2)) by {
                        assert forall|r: int| 0 <= r < k + 1 && r < piv.len() implies #[trigger] piv[r]
                            != i2 by {
                            if r < k {
                                assert(piv[r] < piv[k as int]);
                            }
                        }
                    }
                }
            }
        }
    }
    proof {
        assert forall|xs: Assign| #[trigger] sys_sat(mv, bv, xs, n as int) implies instance(
            res@,
            xs,
            n as int,
        ) by {
            assert(general(res@, piv, 0, xs, n as int));
            assert forall|j: int| 0 <= j < n implies #[trigger] xs(j) == expands(
                res@[j].1@,
                xs,
                n as int,
            ) by {
                assert(not_pending(piv, 0, j));
            }
        }
        let x = assign_of(res@);
        assert forall|j: int, p: Par|
            0 <= j < res@.len() && #[trigger] (res@[j].1@)(Some(p)) != 0 as real implies p.id
            < res@.len() && free_column(piv, 0, p.id as int) && res@[p.id as int].1@ == lv_par(
            p,
        ) by {
            assert(not_pending(piv, 0, j));
        }
        assert forall|r: int| 0 <= r < mv.len() implies #[trigger] dot(mv[r], x, n as int)
            == lv_const(bv[r]) by {
            if r >= cur {
                assert forall|j: int| 0 <= j < n implies mv[r][j] == 0 as real by {}
                lemma_dot_zero(mv[r], x, 0, n as int);
                assert(b@[r]@ == 0 as real);
                assert(lv_zero() =~= lv_const(0 as real));
            }
        }
    }
    Some(res)
}

impl LinearEquations {
    /// Every equation has a well-formed expression without constant term,
    /// in parameters with ordinals below `parsize`, and a well-formed
    /// constant.
    pub open spec fn wf(&self) -> bool {
        forall|i: int|
            0 <= i < self.eqs@.len() ==> {
                &&& (#[trigger] self.eqs@[i]).0.wf()
                &&& Rat::wf(self.eqs@[i].1)
                &&& lin_at(self.eqs@[i].0.terms@, None) == 0 as real
                &&& pars_below(self.eqs@[i].0.terms@, self.parsize as int)
            }
    }

    /// The bindings satisfy every equation: the exact value of each
    /// expression under them is the constant of its equation.
    pub open spec fn satisfied_by(&self, sol: Seq<(Par, LinExp)>) -> bool {
        forall|i: int|
            0 <= i < self.eqs@.len() ==> lin_apply(
                (#[trigger] self.eqs@[i]).0.terms@,
                bview(sol),
            ) == lv_const(self.eqs@[i].1@)
    }

    /// The assignment satisfies every equation: the dot product of the
    /// coefficients of each expression and the assignment is the constant
    /// of its equation.
    pub open spec fn solved_by(&self, x: Assign) -> bool {
        forall|i: int|
            0 <= i < self.eqs@.len() ==> dot(
                dense((#[trigger] self.eqs@[i]).0.terms@, self.parsize as int),
                x,
                self.parsize as int,
            ) == lv_const(self.eqs@[i].1@)
    }

    /// The number of rows of the dense system: one for each equation, and
    /// at least as many as there are parameters.
    pub open spec fn height(&self) -> int {
        if self.eqs@.len() < self.parsize {
            self.parsize as int
        } else {
            self.eqs@.len() as int
        }
    }

    /// The first `k` rows of the dense system: the coefficients of the
    /// expression of each equation, and rows of zeros after the last
    /// equation.
    pub open spec fn rows_upto(&self, k: int) -> Mat {
        Seq::new(
            k as nat,
            |r: int|
                if r < self.eqs@.len() {
                    dense(self.eqs@[r].0.terms@, self.parsize as int)
                } else {
                    zeros(self.parsize as int)
                },
        )
    }

    /// The first `k` constants of the dense system: the constant of each
    /// equation, and zeros after the last equation.
    pub open spec fn consts_upto(&self, k: int) -> Seq<real> {
        Seq::new(
            k as nat,
            |r: int|
                if r < self.eqs@.len() {
                    self.eqs@[r].1@
                } else {
                    0 as real
                },
        )
    }

    /// What the solver gives on these equations.
    pub open spec fn outcome(&self) -> Result<Seq<LinVal>, Failure> {
        solution(
            self.rows_upto(self.height()),
            self.consts_upto(self.height()),
            self.parsize as int,
        )
    }

    /// The dense system of the equations: one row for each equation, and
    /// rows of zeros up to the number of parameters where the equations are
    /// fewer.
    fn dense_system(&self) -> (out: (Vec<Vec<Rat>>, Vec<Rat>))
        requires
            self.wf(),
        ensures
            out.0@.len() == out.1@.len(),
            self.parsize <= out.0@.len(),
            mat_wf(out.0@, self.parsize as int),
            row_wf(out.1@),
            mat_view(out.0@) == self.rows_upto(self.height()),
            row_view(out.1@) == self.consts_upto(self.height()),
            forall|x: Assign|
                #![trigger self.solved_by(x)]
                sys_sat(mat_view(out.0@), row_view(out.1@), x, self.parsize as int)
                    <==> self.solved_by(x),
    {
        let n = self.parsize;
        let mut mat: Vec<Vec<Rat>> = Vec::new();
        let mut b: Vec<Rat> = Vec::new();
        let mut i: usize = 0;
        assert(mat_view(mat@) =~= self.rows_upto(0));
        assert(row_view(b@) =~= self.consts_upto(0));
        while i < self.eqs.len() || i < n
            invariant
                i <= self.height(),
                n == self.parsize,
                self.wf(),
                mat@.len() == i,
                b@.len() == i,
                mat_wf(mat@, n as int),
                row_wf(b@),
                mat_view(mat@) == self.rows_upto(i as int),
                row_view(b@) == self.consts_upto(i as int),
            decreases self.height() - i,
        {
            let ghost m0 = mat@;
            let ghost b0 = b@;
            if i < self.eqs.len() {
                assert(self.eqs@[i as int].0.wf() && Rat::wf(self.eqs@[i as int].1));
                let row = dense_row(&self.eqs[i].0, n);
                mat.push(row);
                b.push(self.eqs[i].1);
            } else {
                mat.push(zero_row(n));
                b.push(Rat::zero());
            }
            proof {
                assert forall|r: int| 0 <= r < mat@.len() implies (#[trigger] mat@[r])@.len() == n
                    && row_wf(mat@[r]@) by {
                    if r < i {
                        assert(mat@[r] == m0[r]);
                    }
                }
                let want = self.rows_upto(i + 1);
                assert forall|r: int| 0 <= r < i + 1 implies #[trigger] mat_view(mat@)[r]
                    == want[r] by {
                    if r < i {
                        assert(mat@[r] == m0[r]);
                        assert(mat_view(m0)[r] == self.rows_upto(i as int)[r]);
                    }
                }
                assert(mat_view(mat@) =~= want);
                let wantb = self.consts_upto(i + 1);
                assert forall|r: int| 0 <= r < i + 1 implies #[trigger] row_view(b@)[r]
                    == wantb[r] by {
                    if r < i {
                        assert(b@[r] == b0[r]);
                        assert(row_view(b0)[r] == self.consts_upto(i as int)[r]);
                    }
                }
                assert(row_view(b@) =~= wantb);
            }
            i += 1;
        }
        proof {
            let mv = mat_view(mat@);
            let bv = row_view(b@);
            let filled = self.eqs@.len();
            assert(i == self.height());
            assert forall|x: Assign|
                #![trigger self.solved_by(x)]
                sys_sat(mv, bv, x, n as int) <==> self.solved_by(x) by {
                if sys_sat(mv, bv, x, n as int) {
                    assert forall|r: int| 0 <= r < self.eqs@.len() implies dot(
                        dense((#[trigger] self.eqs@[r]).0.terms@, n as int),
                        x,
                        n as int,
                    ) == lv_const(self.eqs@[r].1@) by {
                        assert(dot(mv[r], x, n as int) == lv_const(bv[r]));
                    }
                }
                if self.solved_by(x) {
                    assert forall|r: int| 0 <= r < mv.len() implies #[trigger] dot(
                        mv[r],
                        x,
                        n as int,
                    ) == lv_const(bv[r]) by {
                        if r < filled {
                            assert(self.eqs@[r].0.wf());
                        } else {
                            assert forall|j: int| 0 <= j < n implies mv[r][j] == 0 as real by {}
                            lemma_dot_zero(mv[r], x, 0, n as int);
                            assert(lv_zero() =~= lv_const(0 as real));
                        }
                    }
                }
            }
        }
        (mat, b)
    }

    /// The general solution of the system by exact Gaussian elimination:
    /// for each parameter below `parsize`, in order, an expression in the
    /// parameters that stay free, each free parameter standing for itself.
    /// The bindings satisfy every equation, and every assignment that
    /// satisfies the equations is an instance of them. `Unsatisfiable` is
    /// returned only where no assignment of linear expressions to the
    /// parameters satisfies every equation, and `Overflow` where a number
    /// of the elimination does not fit in 64 bits: which of the three it
    /// is, and the expressions returned, are those of `outcome`. The
    /// bindings returned can be handed to `check`, which finds every
    /// equation satisfied.
    pub fn solve(&self) -> (out: Result<Vec<(Par, LinExp)>, Failure>)
        requires
            self.wf(),
        ensures
            out matches Ok(sol) ==> sol@.len() == self.parsize && solution_wf(sol@)
                && self.satisfied_by(sol@) && self.solved_by(assign_of(sol@)) && forall|
                j: int,
                p: Par,
            |
                0 <= j < sol@.len() && #[trigger] (sol@[j].1@)(Some(p)) != 0 as real ==> p.id
                    < sol@.len() && sol@[p.id as int].1@ == lv_par(p),
            out matches Ok(sol) ==> forall|x: Assign| #[trigger]
                self.solved_by(x) ==> instance(sol@, x, self.parsize as int),
            out == Err::<Vec<(Par, LinExp)>, Failure>(Failure::Unsatisfiable) ==> forall|
                x: Assign,
            |
                !#[trigger] self.solved_by(x),
            out is Err ==> out == Err::<Vec<(Par, LinExp)>, Failure>(Failure::Unsatisfiable)
                || out == Err::<Vec<(Par, LinExp)>, Failure>(Failure::Overflow),
            out matches Ok(sol) ==> self.outcome() == Ok::<Seq<LinVal>, Failure>(values(sol@)),
            out matches Err(f) ==> self.outcome() == Err::<Seq<LinVal>, Failure>(f),
            out matches Ok(sol) ==> bindings_wf(sol@) && self.bound_by(sol@),
    {
        let n = self.parsize;
        let (mut mat, mut b) = self.dense_system();
        let ghost m0 = mat_view(mat@);
        let ghost b0 = row_view(b@);
        let (cur, piv) = match eliminate(&mut mat, &mut b, n) {
            None => {
                return Err(Failure::Overflow);
            },
            Some(r) => r,
        };
        let ghost mv = mat_view(mat@);
        let ghost bv = row_view(b@);
        let mut r: usize = cur;
        while r < b.len()
            invariant
                cur <= r <= b@.len(),
                mat@.len() == b@.len(),
                row_wf(b@),
                mv == mat_view(mat@),
                bv == row_view(b@),
                echelon(mv, cur as int, piv@, n as int),
                same_solutions(mv, bv, m0, b0, n as int),
                forall|x: Assign|
                    #![trigger self.solved_by(x)]
                    sys_sat(m0, b0, x, n as int) <==> self.solved_by(x),
                forall|i: int| cur <= i < r ==> (#[trigger] b@[i])@ == 0 as real,
                echelon_form(m0, b0, 0, 0, n as int) == Some((mv, bv, cur as int)),
                m0 == self.rows_upto(self.height()),
                b0 == self.consts_upto(self.height()),
                n == self.parsize,
            decreases b@.len() - r,
        {
            assert(Rat::wf(b@[r as int]));
            if !b[r].is_zero() {
                proof {
                    assert(cur <= r < bv.len() && bv[r as int] != 0 as real);
                    assert forall|x: Assign| !#[trigger] self.solved_by(x) by {
                        if self.solved_by(x) {
                            assert(sys_sat(m0, b0, x, n as int));
                            assert(sys_sat(mv, bv, x, n as int) <==> sys_sat(m0, b0, x, n as int));
                            assert(dot(mv[r as int], x, n as int) == lv_const(bv[r as int]));
                            assert forall|j: int| 0 <= j < n implies mv[r as int][j]
                                == 0 as real by {}
                            lemma_dot_zero(mv[r as int], x, 0, n as int);
                            assert(lv_zero()(None) != lv_const(bv[r as int])(None));
                        }
                    }
                }
                return Err(Failure::Unsatisfiable);
            }
            r += 1;
        }
        proof {
            assert forall|i: int| cur <= i < bv.len() implies #[trigger] bv[i] == 0 as real by {
                assert(b@[i]@ == 0 as real);
            }
        }
        match back_substitute(&mat, &b, n, cur, piv) {
            None => Err(Failure::Overflow),
            Some(sol) => {
                proof {
                    assert forall|xs: Assign| #[trigger] self.solved_by(xs) implies instance(
                        sol@,
                        xs,
                        n as int,
                    ) by {
                        assert(sys_sat(m0, b0, xs, n as int));
                        assert(sys_sat(mv, bv, xs, n as int) <==> sys_sat(m0, b0, xs, n as int));
                    }
                    let x = assign_of(sol@);
                    assert(sys_sat(mv, bv, x, n as int) <==> sys_sat(m0, b0, x, n as int));
                    assert(self.solved_by(x));
                    assert forall|i: int| 0 <= i < self.eqs@.len() implies lin_apply(
                        (#[trigger] self.eqs@[i]).0.terms@,
                        bview(sol@),
                    ) == lv_const(self.eqs@[i].1@) by {
                        lemma_dense_dot(self.eqs@[i].0.terms@, sol@, n as int, n as int);
                    }
                    assert forall|i: int| 0 <= i < self.eqs@.len() implies crate::linexp::all_bound(
                        (#[trigger] self.eqs@[i]).0.terms@,
                        bview(sol@),
                    ) by {
                        lemma_solution_binds(self.eqs@[i].0.terms@, sol@, n as int);
                    }
                    assert(bindings_wf(sol@));
                }
                Ok(sol)
            },
        }
    }
}

/// A well-formed solution of the length `n` binds every parameter of a list
/// of terms with ordinals below `n`.
pub proof fn lemma_solution_binds(s: Seq<ParTerm>, sol: Seq<(Par, LinExp)>, n: int)
    requires
        solution_wf(sol),
        sol.len() == n,
        pars_below(s, n),
    ensures
        crate::linexp::all_bound(s, bview(sol)),
        bindings_wf(sol),
{
    assert forall|j: int| 0 <= j < s.len() && (#[trigger] s[j]).par.is_some() implies binding(
        bview(sol),
        s[j].par.unwrap(),
    ).is_some() by {
        let p = s[j].par.unwrap();
        assert(key_rank(s[j].par) < n);
        lemma_solution_binding(sol, p.id as int);
        assert(sol[p.id as int].0 == p);
    }
}

impl LinearEquations {
    /// Every parameter of every equation is bound.
    pub open spec fn bound_by(&self, sol: Seq<(Par, LinExp)>) -> bool {
        forall|i: int|
            0 <= i < self.eqs@.len() ==> crate::linexp::all_bound(
                (#[trigger] self.eqs@[i]).0.terms@,
                bview(sol),
            )
    }

    /// Tests a list of bindings against the equations: each expression is
    /// evaluated under the bindings and compared with the constant of its
    /// equation. `None` exactly when the value of some expression cannot
    /// be computed in 64 bits.
    pub fn check(&self, sol: &Vec<(Par, LinExp)>) -> (out: Option<bool>)
        requires
            self.wf(),
            bindings_wf(sol@),
            self.bound_by(sol@),
        ensures
            out.is_none() <==> exists|i: int|
                0 <= i < self.eqs@.len() && crate::linexp::lin_subst(
                    (#[trigger] self.eqs@[i]).0.terms@,
                    bview(sol@),
                ).is_none(),
            out matches Some(b) ==> b == self.satisfied_by(sol@),
    {
        let mut good = true;
        let mut i: usize = 0;
        while i < self.eqs.len()
            invariant
                i <= self.eqs@.len(),
                self.wf(),
                bindings_wf(sol@),
                self.bound_by(sol@),
                forall|r: int|
                    0 <= r < i ==> crate::linexp::lin_subst(
                        (#[trigger] self.eqs@[r]).0.terms@,
                        bview(sol@),
                    ).is_some(),
                good <==> forall|r: int|
                    0 <= r < i ==> lin_apply((#[trigger] self.eqs@[r]).0.terms@, bview(sol@))
                        == lv_const(self.eqs@[r].1@),
            decreases self.eqs@.len() - i,
        {
            assert(self.eqs@[i as int].0.wf() && Rat::wf(self.eqs@[i as int].1));
            assert(crate::linexp::all_bound(self.eqs@[i as int].0.terms@, bview(sol@)));
            let v = match self.eqs[i].0.subst(sol) {
                None => {
                    return None;
                },
                Some(v) => v,
            };
            let c = LinExp::from_const(self.eqs[i].1);
            let same = v.equals(&c);
            proof {
                crate::linexp::lemma_lin_subst_exact(self.eqs@[i as int].0.terms@, bview(sol@));
            }
            if !same {
                good = false;
            }
            i += 1;
        }
        Some(good)
    }
}

} // verus!
