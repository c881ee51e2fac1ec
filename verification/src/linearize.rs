//! Linearization: from constraints between ideals to linear equations in
//! the parameters, by matching coefficients.
//!
//! For each constraint and each pair of a generator of its second ideal
//! and a generator of its first, the difference of the two templates has
//! to vanish: each of its coefficients gives one equation.
use crate::constraints::{Cs, CsView};
use crate::exps::Exps;
use crate::failure::Failure;
use crate::ideal::IdealView;
use crate::linexp::{key_rank, lin_at, LinExp, LinVal};
use crate::mon::Term;
use crate::rat::{fits, Rat};
use crate::ring::{Par, Ring};
use crate::solve::{pars_below, LinearEquations};
use crate::temp::{Temp, TempView};
use crate::terms::sub_spec;
use vstd::prelude::*;

verus! {

/// What an equation denotes: the coefficients of its parameters, and its
/// constant.
pub type EqView = (LinVal, real);

/// The expression without its constant.
pub open spec fn lv_drop_const(v: LinVal) -> LinVal {
    |k: Option<Par>|
        if k.is_none() {
            0 as real
        } else {
            v(k)
        }
}

/// The expression has no parameter.
pub open spec fn lv_is_const(v: LinVal) -> bool {
    forall|p: Par| v(Some(p)) == 0 as real
}

/// The list `s` with the equation `e`, unless it holds `e` already.
pub open spec fn add_eq(s: Seq<EqView>, e: EqView) -> Seq<EqView> {
    if s.contains(e) {
        s
    } else {
        s.push(e)
    }
}

/// The equations of the first `m` terms of the template `d`, added to
/// `acc`: the coefficient of each term without its constant equals the
/// negated constant. `None` when a negated constant does not fit in 64
/// bits.
pub open spec fn terms_eqs(acc: Seq<EqView>, d: TempView, m: int) -> Option<Seq<EqView>>
    decreases m,
{
    if m <= 0 || m > d.len() {
        Some(acc)
    } else {
        match terms_eqs(acc, d, m - 1) {
            None => None,
            Some(a) => {
                let c = d[m - 1].coef;
                if fits(-c(None)) {
                    Some(add_eq(a, (lv_drop_const(c), -c(None))))
                } else {
                    None
                }
            },
        }
    }
}

/// The equations of the pair of templates `t1` and `t2`, added to `acc`:
/// those of the terms of `t1 - t2`. The pair is unsatisfiable where the
/// coefficient of the leading term of the difference has no parameter.
pub open spec fn pair_eqs(acc: Seq<EqView>, t1: TempView, t2: TempView) -> Result<
    Seq<EqView>,
    Failure,
> {
    match sub_spec::<LinExp>(t1, t2) {
        None => Err(Failure::Overflow),
        Some(d) => if lv_is_const(d[0].coef) {
            Err(Failure::Unsatisfiable)
        } else {
            match terms_eqs(acc, d, d.len() as int) {
                None => Err(Failure::Overflow),
                Some(a) => Ok(a),
            }
        },
    }
}

/// The equations of `t1` paired with each of the first `j` templates of
/// `left`, added to `acc`.
pub open spec fn left_eqs(acc: Seq<EqView>, t1: TempView, left: IdealView, j: int) -> Result<
    Seq<EqView>,
    Failure,
>
    decreases j,
{
    if j <= 0 || j > left.len() {
        Ok(acc)
    } else {
        match left_eqs(acc, t1, left, j - 1) {
            Err(f) => Err(f),
            Ok(a) => pair_eqs(a, t1, left[j - 1]),
        }
    }
}

/// The equations of each of the first `i` templates of `right` paired with
/// each template of `left`, added to `acc`.
pub open spec fn right_eqs(acc: Seq<EqView>, right: IdealView, left: IdealView, i: int) -> Result<
    Seq<EqView>,
    Failure,
>
    decreases i,
{
    if i <= 0 || i > right.len() {
        Ok(acc)
    } else {
        match right_eqs(acc, right, left, i - 1) {
            Err(f) => Err(f),
            Ok(a) => left_eqs(a, right[i - 1], left, left.len() as int),
        }
    }
}

/// The equations of the first `k` constraints.
pub open spec fn cs_eqs(cs: CsView, k: int) -> Result<Seq<EqView>, Failure>
    decreases k,
{
    if k <= 0 || k > cs.len() {
        Ok(Seq::empty())
    } else {
        match cs_eqs(cs, k - 1) {
            Err(f) => Err(f),
            Ok(a) => right_eqs(a, cs[k - 1].1, cs[k - 1].0, cs[k - 1].1.len() as int),
        }
    }
}

/// The parameters in use and those of the equations leave no ordinal for
/// the number of columns: the bound of the parameters in use is no ordinal,
/// or an equation has the parameter with the highest ordinal.
pub open spec fn columns_exceed(eqv: Seq<EqView>, bound: int) -> bool {
    bound > usize::MAX || exists|i: int|
        0 <= i < eqv.len() && ((#[trigger] eqv[i]).0)(Some(Par { id: usize::MAX })) != 0 as real
}

/// What a list of equations denotes.
pub open spec fn eqs_view(eqs: Seq<(LinExp, Rat)>) -> Seq<EqView> {
    Seq::new(eqs.len(), |i: int| (eqs[i].0@, eqs[i].1@))
}

/// The equations are well formed, without constant and without
/// repetition.
pub open spec fn eqs_ok(eqs: Seq<(LinExp, Rat)>) -> bool {
    forall|i: int|
        0 <= i < eqs.len() ==> (#[trigger] eqs[i]).0.wf() && Rat::wf(eqs[i].1) && lin_at(
            eqs[i].0.terms@,
            None,
        ) == 0 as real
}

/// Takes the equation `le = c` into the list, unless it is there.
fn push_eq(eqs: &mut Vec<(LinExp, Rat)>, le: LinExp, c: Rat)
    requires
        eqs_ok(old(eqs)@),
        le.wf(),
        Rat::wf(c),
        lin_at(le.terms@, None) == 0 as real,
    ensures
        eqs_ok(final(eqs)@),
        eqs_view(final(eqs)@) == add_eq(eqs_view(old(eqs)@), (le@, c@)),
{
    let ghost s = eqs_view(eqs@);
    let ghost g = eqs@;
    let mut i: usize = 0;
    while i < eqs.len()
        invariant
            i <= eqs@.len(),
            eqs@ == g,
            eqs_ok(g),
            s == eqs_view(g),
            le.wf(),
            Rat::wf(c),
            forall|j: int| 0 <= j < i ==> s[j] != (le@, c@),
        decreases eqs@.len() - i,
    {
        assert(g[i as int].0.wf() && Rat::wf(g[i as int].1));
        if eqs[i].0.equals(&le) && eqs[i].1.equals(&c) {
            assert(s[i as int] == (le@, c@));
            return ;
        }
        i += 1;
    }
    let ghost ev = (le@, c@);
    eqs.push((le, c));
    proof {
        assert(eqs_view(eqs@) =~= s.push(ev));
        assert forall|j: int| 0 <= j < eqs@.len() implies (#[trigger] eqs@[j]).0.wf() && Rat::wf(
            eqs@[j].1,
        ) && lin_at(eqs@[j].0.terms@, None) == 0 as real by {
            if j < g.len() {
                assert(eqs@[j] == g[j]);
            }
        }
    }
}

/// Adds the equations of the pair of templates `t1` and `t2`.
fn pair_equations(eqs: &mut Vec<(LinExp, Rat)>, t1: &Temp, t2: &Temp) -> (out: Result<(), Failure>)
    requires
        eqs_ok(old(eqs)@),
        t1.wf(),
        t2.wf(),
    ensures
        eqs_ok(final(eqs)@),
        out is Ok ==> pair_eqs(eqs_view(old(eqs)@), t1@, t2@) == Ok::<Seq<EqView>, Failure>(
            eqs_view(final(eqs)@),
        ),
        out matches Err(f) ==> pair_eqs(eqs_view(old(eqs)@), t1@, t2@) == Err::<
            Seq<EqView>,
            Failure,
        >(f),
{
    let ghost acc0 = eqs_view(eqs@);
    let n2 = match t2.neg() {
        None => {
            return Err(Failure::Overflow);
        },
        Some(n) => n,
    };
    let d = match t1.add(&n2) {
        None => {
            return Err(Failure::Overflow);
        },
        Some(d) => d,
    };
    let ghost dv = d@;
    assert(dv.len() == d.mons@.len());
    assert(d.mons@[0].wf());
    if d.mons[0].coef.is_cnst() {
        return Err(Failure::Unsatisfiable);
    }
    let mut m: usize = 0;
    while m < d.mons.len()
        invariant
            m <= d.mons@.len(),
            d.wf(),
            dv == d@,
            dv.len() == d.mons@.len(),
            eqs_ok(eqs@),
            acc0 == eqs_view(old(eqs)@),
            pair_eqs(acc0, t1@, t2@) == (match terms_eqs(acc0, dv, dv.len() as int) {
                None => Err::<Seq<EqView>, Failure>(Failure::Overflow),
                Some(a) => Ok::<Seq<EqView>, Failure>(a),
            }),
            terms_eqs(acc0, dv, m as int) == Some(eqs_view(eqs@)),
        decreases d.mons@.len() - m,
    {
        assert(d.mons@[m as int].wf());
        assert(dv[m as int] == d.mons@[m as int]@);
        let coef = &d.mons[m].coef;
        let le = coef.without_constant();
        let c = match coef.constant().neg() {
            None => {
                proof {
                    lemma_terms_eqs_prefix(acc0, dv, m + 1);
                }
                return Err(Failure::Overflow);
            },
            Some(c) => c,
        };
        proof {
            let want = lv_drop_const(coef@);
            assert forall|key: Option<Par>| #[trigger] le@(key) == want(key) by {
                match key {
                    None => {},
                    Some(p) => {
                        assert(le@(Some(p)) == coef@(Some(p)));
                    },
                }
            }
            assert(le@ =~= want);
        }
        push_eq(eqs, le, c);
        m += 1;
    }
    Ok(())
}

/// A failure on the first terms is a failure on all.
pub proof fn lemma_terms_eqs_prefix(acc: Seq<EqView>, d: TempView, m: int)
    requires
        0 <= m <= d.len(),
        terms_eqs(acc, d, m).is_none(),
    ensures
        terms_eqs(acc, d, d.len() as int).is_none(),
    decreases d.len() - m,
{
    if m < d.len() {
        lemma_terms_eqs_prefix(acc, d, m + 1);
    }
}

/// A failure on the first templates is the failure on all.
pub proof fn lemma_left_eqs_prefix(acc: Seq<EqView>, t1: TempView, left: IdealView, j: int)
    requires
        0 <= j <= left.len(),
        left_eqs(acc, t1, left, j) is Err,
    ensures
        left_eqs(acc, t1, left, left.len() as int) == left_eqs(acc, t1, left, j),
    decreases left.len() - j,
{
    if j < left.len() {
        lemma_left_eqs_prefix(acc, t1, left, j + 1);
    }
}

/// A failure on the first templates is the failure on all.
pub proof fn lemma_right_eqs_prefix(acc: Seq<EqView>, right: IdealView, left: IdealView, i: int)
    requires
        0 <= i <= right.len(),
        right_eqs(acc, right, left, i) is Err,
    ensures
        right_eqs(acc, right, left, right.len() as int) == right_eqs(acc, right, left, i),
    decreases right.len() - i,
{
    if i < right.len() {
        lemma_right_eqs_prefix(acc, right, left, i + 1);
    }
}

/// A failure on the first constraints is the failure on all.
pub proof fn lemma_cs_eqs_prefix(cs: CsView, k: int)
    requires
        0 <= k <= cs.len(),
        cs_eqs(cs, k) is Err,
    ensures
        cs_eqs(cs, cs.len() as int) == cs_eqs(cs, k),
    decreases cs.len() - k,
{
    if k < cs.len() {
        lemma_cs_eqs_prefix(cs, k + 1);
    }
}

/// The least bound above the ordinals of the parameters of the equations
/// that is at least `lo`; `None` when it is not an ordinal.
fn par_bound_of(eqs: &Vec<(LinExp, Rat)>, lo: usize) -> (out: Option<usize>)
    ensures
        out matches Some(b) ==> b >= lo && (forall|i: int|
            0 <= i < eqs@.len() ==> pars_below((#[trigger] eqs@[i]).0.terms@, b as int)) && (b
            == lo || exists|i: int, j: int|
            0 <= i < eqs@.len() && 0 <= j < eqs@[i].0.terms@.len() && key_rank(
                (#[trigger] eqs@[i].0.terms@[j]).par,
            ) == b - 1),
        out.is_none() ==> exists|i: int, j: int|
            0 <= i < eqs@.len() && 0 <= j < eqs@[i].0.terms@.len() && key_rank(
                (#[trigger] eqs@[i].0.terms@[j]).par,
            ) == usize::MAX,
{
    let mut b: usize = lo;
    let mut i: usize = 0;
    while i < eqs.len()
        invariant
            i <= eqs@.len(),
            b >= lo,
            forall|r: int| 0 <= r < i ==> pars_below((#[trigger] eqs@[r]).0.terms@, b as int),
            b == lo || exists|r: int, j: int|
                0 <= r < eqs@.len() && 0 <= j < eqs@[r].0.terms@.len() && key_rank(
                    (#[trigger] eqs@[r].0.terms@[j]).par,
                ) == b - 1,
        decreases eqs@.len() - i,
    {
        let le = &eqs[i].0;
        let mut j: usize = 0;
        let ghost b0 = b;
        while j < le.terms.len()
            invariant
                i < eqs@.len(),
                le == &eqs@[i as int].0,
                j <= le.terms@.len(),
                b >= b0,
                b0 >= lo,
                forall|t: int| 0 <= t < j ==> key_rank((#[trigger] le.terms@[t]).par) < b,
                b == lo || exists|r: int, t: int|
                    0 <= r < eqs@.len() && 0 <= t < eqs@[r].0.terms@.len() && key_rank(
                        (#[trigger] eqs@[r].0.terms@[t]).par,
                    ) == b - 1,
            decreases le.terms@.len() - j,
        {
            match le.terms[j].par {
                None => {},
                Some(p) => {
                    if p.id >= b {
                        if p.id == usize::MAX {
                            assert(key_rank(eqs@[i as int].0.terms@[j as int].par) == usize::MAX);
                            return None;
                        }
                        b = p.id + 1;
                        assert(key_rank(eqs@[i as int].0.terms@[j as int].par) == b - 1);
                    }
                },
            }
            j += 1;
        }
        i += 1;
    }
    Some(b)
}

impl LinearEquations {
    /// What the equations denote.
    pub open spec fn view(&self) -> Seq<EqView> {
        eqs_view(self.eqs@)
    }

    /// The linear equations of a set of constraints. For each constraint
    /// and each pair of a generator of its second ideal and a generator of
    /// its first, each coefficient of the difference of the two has to
    /// vanish. A pair whose difference has a leading coefficient without
    /// parameter makes the constraints unsatisfiable. The number of columns
    /// is the least bound above the parameters in use in `ring` and those
    /// of the equations; where that is no ordinal, the failure is
    /// `Overflow`.
    pub fn from_constraints(cs: &Cs, ring: &Ring) -> (out: Result<LinearEquations, Failure>)
        requires
            cs.wf(),
            ring.wf(),
        ensures
            out matches Ok(le) ==> le.wf() && cs_eqs(cs@, cs@.len() as int) == Ok::<
                Seq<EqView>,
                Failure,
            >(le@) && le.parsize >= ring.par_bound() && (le.parsize == ring.par_bound()
                || exists|i: int, j: int|
                0 <= i < le.eqs@.len() && 0 <= j < le.eqs@[i].0.terms@.len() && key_rank(
                    (#[trigger] le.eqs@[i].0.terms@[j]).par,
                ) == le.parsize - 1),
            out matches Ok(le) ==> !columns_exceed(le@, ring.par_bound()),
            out matches Err(f) ==> cs_eqs(cs@, cs@.len() as int) == Err::<Seq<EqView>, Failure>(f)
                || (f == Failure::Overflow && cs_eqs(cs@, cs@.len() as int) is Ok
                && columns_exceed(cs_eqs(cs@, cs@.len() as int).unwrap(), ring.par_bound())),
    {
        let ghost csv = cs@;
        let mut eqs: Vec<(LinExp, Rat)> = Vec::new();
        let mut k: usize = 0;
        proof {
            assert(eqs_view(eqs@) =~= Seq::empty());
        }
        while k < cs.items.len()
            invariant
                k <= cs.items@.len(),
                cs.wf(),
                csv == cs@,
                csv.len() == cs.items@.len(),
                eqs_ok(eqs@),
                cs_eqs(csv, k as int) == Ok::<Seq<EqView>, Failure>(eqs_view(eqs@)),
            decreases cs.items@.len() - k,
        {
            let con = &cs.items[k];
            assert(cs.items@[k as int].wf());
            let ghost right = con.1@;
            let ghost left = con.0@;
            let ghost acc_k = eqs_view(eqs@);
            assert(csv[k as int] == (left, right));
            let mut i: usize = 0;
            while i < con.1.gens.len()
                invariant
                    k < cs.items@.len(),
                    i <= con.1.gens@.len(),
                    con.wf(),
                    right == con.1@,
                    left == con.0@,
                    right.len() == con.1.gens@.len(),
                    csv == cs@,
                    csv[k as int] == (left, right),
                    eqs_ok(eqs@),
                    cs_eqs(csv, k as int) == Ok::<Seq<EqView>, Failure>(acc_k),
                    right_eqs(acc_k, right, left, i as int) == Ok::<Seq<EqView>, Failure>(
                        eqs_view(eqs@),
                    ),
                decreases con.1.gens@.len() - i,
            {
                let t1 = &con.1.gens[i];
                assert(con.1.gens@[i as int].wf());
                assert(right[i as int] == t1@);
                let ghost acc_i = eqs_view(eqs@);
                let mut j: usize = 0;
                while j < con.0.gens.len()
                    invariant
                        i < con.1.gens@.len(),
                        j <= con.0.gens@.len(),
                        con.wf(),
                        t1.wf(),
                        right == con.1@,
                        left == con.0@,
                        left.len() == con.0.gens@.len(),
                        right[i as int] == t1@,
                        eqs_ok(eqs@),
                        right_eqs(acc_k, right, left, i as int) == Ok::<Seq<EqView>, Failure>(
                            acc_i,
                        ),
                        left_eqs(acc_i, t1@, left, j as int) == Ok::<Seq<EqView>, Failure>(
                            eqs_view(eqs@),
                        ),
                        csv == cs@,
                        k < csv.len(),
                        csv[k as int] == (left, right),
                        cs_eqs(csv, k as int) == Ok::<Seq<EqView>, Failure>(acc_k),
                    decreases con.0.gens@.len() - j,
                {
                    let t2 = &con.0.gens[j];
                    assert(con.0.gens@[j as int].wf());
                    assert(left[j as int] == t2@);
                    match pair_equations(&mut eqs, t1, t2) {
                        Err(f) => {
                            proof {
                                assert(left_eqs(acc_i, t1@, left, j + 1) == Err::<
                                    Seq<EqView>,
                                    Failure,
                                >(f));
                                lemma_left_eqs_prefix(acc_i, t1@, left, j + 1);
                                assert(right_eqs(acc_k, right, left, i + 1) == Err::<
                                    Seq<EqView>,
                                    Failure,
                                >(f));
                                lemma_right_eqs_prefix(acc_k, right, left, i + 1);
                                assert(cs_eqs(csv, k + 1) == Err::<Seq<EqView>, Failure>(f));
                                lemma_cs_eqs_prefix(csv, k + 1);
                            }
                            return Err(f);
                        },
                        Ok(()) => {},
                    }
                    j += 1;
                }
                i += 1;
            }
            k += 1;
        }
        let lo = match ring.next_par() {
            None => {
                return Err(Failure::Overflow);
            },
            Some(lo) => lo,
        };
        match par_bound_of(&eqs, lo) {
            None => {
                proof {
                    let g = eqs@;
                    let (i, j) = choose|i: int, j: int|
                        0 <= i < g.len() && 0 <= j < g[i].0.terms@.len() && key_rank(
                            (#[trigger] g[i].0.terms@[j]).par,
                        ) == usize::MAX;
                    let ts = g[i].0.terms@;
                    assert(g[i].0.wf());
                    assert(ts[j].par == Some(Par { id: usize::MAX }));
                    if ts == seq![crate::linexp::zero_term()] {
                        assert(ts[0] == crate::linexp::zero_term());
                    }
                    crate::linexp::lemma_lin_at(ts, j);
                    assert((eqs_view(g)[i].0)(Some(Par { id: usize::MAX })) == ts[j].coef@);
                }
                Err(Failure::Overflow)
            },
            Some(parsize) => {
                let ghost g = eqs@;
                let le = LinearEquations { parsize, eqs };
                proof {
                    assert forall|i: int| 0 <= i < g.len() implies ((#[trigger] eqs_view(g)[i]).0)(
                        Some(Par { id: usize::MAX }),
                    ) == 0 as real by {
                        let ts = g[i].0.terms@;
                        assert(pars_below(ts, parsize as int));
                        assert forall|j: int| 0 <= j < ts.len() implies (#[trigger] ts[j]).par
                            != Some(Par { id: usize::MAX }) by {
                            assert(key_rank(ts[j].par) < parsize);
                        }
                        crate::linexp::lemma_lin_absent(ts, Some(Par { id: usize::MAX }));
                    }
                    assert(le.eqs@ == g);
                    if parsize != lo {
                        let (i, j) = choose|i: int, j: int|
                            0 <= i < g.len() && 0 <= j < g[i].0.terms@.len() && key_rank(
                                (#[trigger] g[i].0.terms@[j]).par,
                            ) == parsize - 1;
                        assert(0 <= i < le.eqs@.len() && 0 <= j < le.eqs@[i].0.terms@.len()
                            && key_rank(le.eqs@[i].0.terms@[j].par) == le.parsize - 1);
                    }
                }
                Ok(le)
            },
        }
    }
}

} // verus!
