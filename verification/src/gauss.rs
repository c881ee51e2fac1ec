//! Gaussian elimination, step by step, on the numbers themselves.
//!
//! The steps say which numbers the elimination computes and which of them
//! have to fit in 64 bits: they determine when the solver succeeds.
use crate::failure::Failure;
use crate::linexp::{lv_add, lv_const, lv_fits, lv_par, lv_scale, LinVal};
use crate::rat::{fits, frac};
use crate::ring::Par;
use vstd::prelude::*;

verus! {

/// A matrix of numbers, by rows.
pub type Mat = Seq<Seq<real>>;

/// The column `k` of a matrix.
pub open spec fn column(m: Mat, k: int) -> Seq<real> {
    Seq::new(m.len(), |i: int| m[i][k])
}

/// The row that the search for a pivot picks among the rows from `cur` up
/// to, not including, `l`: the first row with the largest entry that is not
/// zero, or `cur` where every entry is zero.
pub open spec fn pivot_choice(col: Seq<real>, cur: int, l: int) -> int
    decreases l - cur,
{
    if l <= cur + 1 {
        cur
    } else {
        let prev = pivot_choice(col, cur, l - 1);
        let v = col[l - 1];
        if v != 0 as real && (col[prev] < v || col[prev] == 0 as real) {
            l - 1
        } else {
            prev
        }
    }
}

/// The numbers of the row `t` minus `f` times the row `s`, and the
/// products on the way, fit in 64 bits.
pub open spec fn row_fits(t: Seq<real>, s: Seq<real>, f: real) -> bool {
    forall|j: int| 0 <= j < t.len() ==> fits(f * #[trigger] s[j]) && fits(t[j] - f * s[j])
}

/// The row `t` minus `f` times the row `s`.
pub open spec fn row_minus_val(t: Seq<real>, s: Seq<real>, f: real) -> Seq<real> {
    Seq::new(t.len(), |j: int| t[j] - f * s[j])
}

/// The multiple of the pivot row `cur` that clears the column `k` of the
/// row `i`.
pub open spec fn factor(m: Mat, cur: int, i: int, k: int) -> real {
    m[i][k] / m[cur][k]
}

/// The numbers of one step of the elimination fit in 64 bits: the factor,
/// the new row and the new constant of the row `i`.
pub open spec fn step_fits(m: Mat, b: Seq<real>, cur: int, i: int, k: int) -> bool {
    let f = factor(m, cur, i, k);
    fits(f) && row_fits(m[i], m[cur], f) && fits(f * b[cur]) && fits(b[i] - f * b[cur])
}

/// The system after one step of the elimination: the row `i` minus the
/// multiple of the pivot row `cur` that clears its column `k`.
pub open spec fn step_val(m: Mat, b: Seq<real>, cur: int, i: int, k: int) -> (Mat, Seq<real>) {
    let f = factor(m, cur, i, k);
    (m.update(i, row_minus_val(m[i], m[cur], f)), b.update(i, b[i] - f * b[cur]))
}

/// The system after the column `k` has been cleared in the rows from `i`
/// on; `None` where a number does not fit in 64 bits.
pub open spec fn clear_column(m: Mat, b: Seq<real>, cur: int, k: int, i: int) -> Option<
    (Mat, Seq<real>),
>
    decreases m.len() - i,
{
    if i < 0 || i >= m.len() {
        Some((m, b))
    } else if step_fits(m, b, cur, i, k) {
        clear_column(step_val(m, b, cur, i, k).0, step_val(m, b, cur, i, k).1, cur, k, i + 1)
    } else {
        None
    }
}

/// The system with the rows `p` and `q` exchanged.
pub open spec fn swap_val(m: Mat, b: Seq<real>, p: int, q: int) -> (Mat, Seq<real>) {
    (m.update(p, m[q]).update(q, m[p]), b.update(p, b[q]).update(q, b[p]))
}

/// The row echelon form that the elimination gives from the column `k` on,
/// with `cur` pivot rows found so far, and the number of pivot rows in the
/// end; `None` where a number does not fit in 64 bits. In each column the
/// pivot is searched among the rows from `cur` on and brought to the row
/// `cur`; unless it is zero, the column is cleared below it.
pub open spec fn echelon_form(m: Mat, b: Seq<real>, cur: int, k: int, n: int) -> Option<
    (Mat, Seq<real>, int),
>
    decreases n - k,
{
    if k >= n || cur < 0 || cur >= m.len() {
        Some((m, b, cur))
    } else {
        let p = pivot_choice(column(m, k), cur, m.len() as int);
        let (m1, b1) = swap_val(m, b, cur, p);
        if m1[cur][k] == 0 as real {
            echelon_form(m1, b1, cur, k + 1, n)
        } else {
            match clear_column(m1, b1, cur, k, cur + 1) {
                None => None,
                Some((m2, b2)) => echelon_form(m2, b2, cur + 1, k + 1, n),
            }
        }
    }
}

/// The first column from `k` on in which the row has an entry that is not
/// zero; `n` where it has none.
pub open spec fn first_nonzero(row: Seq<real>, k: int, n: int) -> int
    decreases n - k,
{
    if k >= n {
        n
    } else if row[k] != 0 as real {
        k
    } else {
        first_nonzero(row, k + 1, n)
    }
}

/// The expression of a pivot column, gathered from the column `i` on: to
/// `a` is added, for each column, the negated expression of the column
/// times the quotient of the entry of the row and the pivot `c`. `None`
/// where a number does not fit in 64 bits.
pub open spec fn back_acc(row: Seq<real>, c: real, res: Seq<LinVal>, a: LinVal, i: int, n: int)
    -> Option<LinVal>
    decreases n - i,
{
    if i >= n {
        Some(a)
    } else {
        let q = row[i] / c;
        let nr = lv_scale(res[i], -(1 as real));
        let t = lv_scale(nr, q);
        if fits(q) && lv_fits(nr) && lv_fits(t) && lv_fits(lv_add(a, t)) {
            back_acc(row, c, res, lv_add(a, t), i + 1, n)
        } else {
            None
        }
    }
}

/// The expressions after the pivot row `k` has been solved for its pivot
/// column.
pub open spec fn back_row(row: Seq<real>, bk: real, res: Seq<LinVal>, k: int, n: int) -> Option<
    Seq<LinVal>,
> {
    let tar = first_nonzero(row, k, n);
    if tar < 0 || tar >= n {
        Some(res)
    } else if !fits(bk / row[tar]) {
        None
    } else {
        match back_acc(row, row[tar], res, lv_const(bk / row[tar]), tar + 1, n) {
            None => None,
            Some(a) => Some(res.update(tar, a)),
        }
    }
}

/// The expressions after the pivot rows below `k` have been solved, the
/// last of them first.
pub open spec fn back_rows(m: Mat, b: Seq<real>, res: Seq<LinVal>, k: int, n: int) -> Option<
    Seq<LinVal>,
>
    decreases k,
{
    if k <= 0 || k > m.len() {
        Some(res)
    } else {
        match back_row(m[k - 1], b[k - 1], res, k - 1, n) {
            None => None,
            Some(r2) => back_rows(m, b, r2, k - 1, n),
        }
    }
}

/// Each of the first `n` parameters standing for itself.
pub open spec fn own_values(n: int) -> Seq<LinVal> {
    Seq::new(n as nat, |j: int| lv_par(Par { id: j as usize }))
}

/// A row of `n` zeros.
pub open spec fn zeros(n: int) -> Seq<real> {
    Seq::new(n as nat, |j: int| 0 as real)
}

/// What the solver gives on a system of `n` columns: the expressions of the
/// parameters, by their ordinals, where the elimination and the back
/// substitution go through; `Overflow` where one of their numbers does not
/// fit in 64 bits; `Unsatisfiable` where the elimination goes through and
/// leaves a row without pivot whose constant is not zero.
pub open spec fn solution(m: Mat, b: Seq<real>, n: int) -> Result<Seq<LinVal>, Failure> {
    match echelon_form(m, b, 0, 0, n) {
        None => Err(Failure::Overflow),
        Some((m1, b1, cur)) => {
            if exists|r: int| cur <= r < b1.len() && #[trigger] b1[r] != 0 as real {
                Err(Failure::Unsatisfiable)
            } else {
                match back_rows(m1, b1, own_values(n), cur, n) {
                    None => Err(Failure::Overflow),
                    Some(v) => Ok(v),
                }
            }
        },
    }
}

/// A whole number of 64 bits fits.
pub proof fn lemma_whole_fits(n: i64)
    ensures
        fits(n as real),
{
    assert(n as real == frac(n as int, 1i64 as int)) by (nonlinear_arith);
}

/// The rows of the system `-2 c = 0`, `c - b = 0` in the parameters `a`,
/// `b`, `c`, with a row of zeros to make three.
pub open spec fn two_of_three() -> Mat {
    seq![
        seq![0 as real, 0 as real, -(2 as real)],
        seq![0 as real, -(1 as real), 1 as real],
        seq![0 as real, 0 as real, 0 as real],
    ]
}

/// The rows of that system in echelon form.
pub open spec fn two_of_three_echelon() -> Mat {
    seq![
        seq![0 as real, -(1 as real), 1 as real],
        seq![0 as real, 0 as real, -(2 as real)],
        seq![0 as real, 0 as real, 0 as real],
    ]
}

/// A step of the elimination on a row that has a zero in the pivot column
/// already leaves the system as it is.
proof fn lemma_step_cleared(m: Mat, b: Seq<real>, cur: int, i: int, k: int)
    requires
        0 <= cur < m.len(),
        0 <= i < m.len(),
        m.len() == b.len(),
        m[i].len() == m[cur].len(),
        0 <= k < m[i].len(),
        m[i][k] == 0 as real,
        m[cur][k] != 0 as real,
        forall|j: int| 0 <= j < m[i].len() ==> fits(#[trigger] m[i][j]),
        fits(b[i]),
    ensures
        step_fits(m, b, cur, i, k),
        step_val(m, b, cur, i, k) == (m, b),
{
    let f = factor(m, cur, i, k);
    assert(f == 0 as real) by (nonlinear_arith)
        requires
            f == m[i][k] / m[cur][k],
            m[i][k] == 0 as real,
            m[cur][k] != 0 as real,
    ;
    lemma_whole_fits(0i64);
    assert forall|j: int| 0 <= j < m[i].len() implies fits(f * #[trigger] m[cur][j]) && fits(
        m[i][j] - f * m[cur][j],
    ) by {
        assert(f * m[cur][j] == 0 as real) by (nonlinear_arith)
            requires
                f == 0 as real,
        ;
    }
    assert(f * b[cur] == 0 as real) by (nonlinear_arith)
        requires
            f == 0 as real,
    ;
    let r = row_minus_val(m[i], m[cur], f);
    assert forall|j: int| 0 <= j < m[i].len() implies r[j] == m[i][j] by {
        assert(f * m[cur][j] == 0 as real) by (nonlinear_arith)
            requires
                f == 0 as real,
        ;
    }
    assert(r =~= m[i]);
    assert(m.update(i, r) =~= m);
    assert(b.update(i, b[i] - f * b[cur]) =~= b);
}

/// The system that a loop counting a variable down gives for a template
/// of degree two, `-2 c = 0` and `c - b = 0` in the parameters `a`, `b`,
/// `c`: the solver leaves `a` free and gives zero for `b` and `c`, a
/// family of solutions in one parameter.
pub proof fn lemma_two_of_three()
    ensures
        solution(two_of_three(), zeros(3), 3) == Ok::<Seq<LinVal>, Failure>(
            seq![lv_par(Par { id: 0 }), lv_const(0 as real), lv_const(0 as real)],
        ),
{
    let m0 = two_of_three();
    let m1 = two_of_three_echelon();
    let b = zeros(3);
    lemma_whole_fits(0i64);
    lemma_whole_fits(1i64);
    lemma_whole_fits(-1i64);
    lemma_whole_fits(-2i64);
    assert(fits(0 as real) && fits(1 as real) && fits(-(1 as real)) && fits(-(2 as real)));
    // the column 0 holds no pivot
    let c0 = column(m0, 0);
    assert(pivot_choice(c0, 0, 1) == 0);
    assert(pivot_choice(c0, 0, 2) == 0);
    assert(pivot_choice(c0, 0, 3) == 0);
    assert(swap_val(m0, b, 0, 0).0 =~= m0);
    assert(swap_val(m0, b, 0, 0).1 =~= b);
    assert(echelon_form(m0, b, 0, 0, 3) == echelon_form(m0, b, 0, 1, 3));
    // the column 1 has its pivot in the row 1
    let c1 = column(m0, 1);
    assert(pivot_choice(c1, 0, 1) == 0);
    assert(pivot_choice(c1, 0, 2) == 1);
    assert(pivot_choice(c1, 0, 3) == 1);
    assert(swap_val(m0, b, 0, 1).0 =~= m1);
    assert(swap_val(m0, b, 0, 1).1 =~= b);
    lemma_step_cleared(m1, b, 0, 1, 1);
    lemma_step_cleared(m1, b, 0, 2, 1);
    assert(clear_column(m1, b, 0, 1, 3) == Some((m1, b)));
    assert(clear_column(m1, b, 0, 1, 2) == Some((m1, b)));
    assert(clear_column(m1, b, 0, 1, 1) == Some((m1, b)));
    assert(echelon_form(m0, b, 0, 1, 3) == echelon_form(m1, b, 1, 2, 3));
    // the column 2 has its pivot in the row 1
    let c2 = column(m1, 2);
    assert(pivot_choice(c2, 1, 2) == 1);
    assert(pivot_choice(c2, 1, 3) == 1);
    assert(swap_val(m1, b, 1, 1).0 =~= m1);
    assert(swap_val(m1, b, 1, 1).1 =~= b);
    lemma_step_cleared(m1, b, 1, 2, 2);
    assert(clear_column(m1, b, 1, 2, 3) == Some((m1, b)));
    assert(clear_column(m1, b, 1, 2, 2) == Some((m1, b)));
    assert(echelon_form(m1, b, 2, 3, 3) == Some((m1, b, 2int)));
    assert(echelon_form(m1, b, 1, 2, 3) == Some((m1, b, 2int)));
    assert(echelon_form(m0, b, 0, 0, 3) == Some((m1, b, 2int)));
    // the row 1 gives c, the row 0 gives b
    let r0 = own_values(3);
    let z = lv_const(0 as real);
    let row1 = m1[1];
    assert(first_nonzero(row1, 3, 3) == 3);
    assert(first_nonzero(row1, 2, 3) == 2);
    assert(first_nonzero(row1, 1, 3) == 2);
    assert(b[1] / row1[2] == 0 as real);
    assert(back_acc(row1, row1[2], r0, z, 3, 3) == Some(z));
    let r1 = r0.update(2, z);
    assert(back_row(row1, b[1], r0, 1, 3) == Some(r1));
    let row0 = m1[0];
    assert(first_nonzero(row0, 1, 3) == 1);
    assert(first_nonzero(row0, 0, 3) == 1);
    assert(b[0] / row0[1] == 0 as real);
    let q = row0[2] / row0[1];
    assert(q == -(1 as real));
    let nr = lv_scale(r1[2], -(1 as real));
    let t = lv_scale(nr, q);
    let a = lv_add(z, t);
    assert(nr =~= z);
    assert(t =~= z);
    assert(a =~= z);
    assert(lv_fits(z));
    assert(back_acc(row0, row0[1], r1, a, 3, 3) == Some(a));
    assert(back_acc(row0, row0[1], r1, z, 2, 3) == Some(z));
    let r2 = r1.update(1, z);
    assert(back_row(row0, b[0], r1, 0, 3) == Some(r2));
    assert(back_rows(m1, b, r2, 0, 3) == Some(r2));
    assert(back_rows(m1, b, r1, 1, 3) == Some(r2));
    assert(back_rows(m1, b, r0, 2, 3) == Some(r2));
    assert(r2 =~= seq![lv_par(Par { id: 0 }), z, z]);
    assert(!exists|r: int| 2 <= r < b.len() && #[trigger] b[r] != 0 as real);
}

} // verus!
