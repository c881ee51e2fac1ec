//! Templates: polynomials whose coefficients are linear expressions in the
//! parameters.
//!
//! A template is the ansatz of an invariant: a canonical list of monomials,
//! as a polynomial is, with an unknown linear expression in place of each
//! rational coefficient.
use crate::coef::Coef;
use crate::failure::Failure;
use crate::exps::{
    degree, descending, exp_at, exps_get, exps_of_pairs, exps_set, exps_up_to, exps_wf,
    exps_without, lemma_exps_remove, monomials, vec_views, Exps,
};
use crate::exps::{grevlex, Order};
use crate::linexp::{
    all_bound, bindings_wf, bview, lin_subst, lv_zero, Bindings, LinExp, LinVal,
};
use crate::terms::{finish, finish_terms, proper, strip};
use crate::mon::{term_one, term_order, term_zero, Mon, Term};
use crate::poly::{pow_spec, Poly, PolyView};
use crate::rat::Rat;
use crate::ring::{fresh_pars, Par, Ring, Var};
use crate::terms::{
    add_spec, canonical, coeff, degree_terms, dup_terms, is_zero_terms, leading_degree, mons_wf,
    mul_spec, mul_terms, neg_spec, neg_terms, normal_spec, normalize_terms, products, same_terms,
    sum_terms, views,
};
use vstd::prelude::*;

verus! {

/// A polynomial whose coefficients are linear expressions in the
/// parameters.
#[derive(Clone, PartialEq, Eq, Debug)]
pub struct Temp {
    pub mons: Vec<Mon<LinExp>>,
}

/// What a template denotes: its terms, the leading term first.
pub type TempView = Seq<Term<LinVal>>;

/// Whether the parameter `p` occurs in a monomial of the list.
pub open spec fn par_in_mons(list: Seq<Mon<LinExp>>, p: Par) -> bool {
    exists|i: int| 0 <= i < list.len() && (#[trigger] list[i]).coef.has_par(p)
}

impl Mon<LinExp> {
    /// The product of the powers that `pairs` lists, with the parameter `p`
    /// as its coefficient. `None` when the total degree exceeds a machine
    /// word.
    pub fn from_par(p: Par, pairs: &Vec<(Var, usize)>) -> (out: Option<Mon<LinExp>>)
        ensures
            out.is_some() <==> degree(exps_of_pairs(pairs@)) <= usize::MAX,
            out matches Some(m) ==> m.wf() && m@ == (Term::<LinVal> {
                exps: exps_of_pairs(pairs@),
                coef: crate::linexp::lv_par(p),
            }),
    {
        match crate::exps::exps_from_pairs(pairs) {
            None => None,
            Some(vars) => {
                let coef = LinExp::from_par(p);
                proof {
                    assert(coef@(Some(p)) == 1 as real);
                    assert(LinExp::zero_val()(Some(p)) == 0 as real);
                }
                Some(Mon { vars, coef })
            },
        }
    }
}

impl View for Temp {
    type V = TempView;

    open spec fn view(&self) -> TempView {
        views(self.mons@)
    }
}

impl Temp {
    /// The representation invariant: a canonical list of well-formed
    /// monomials.
    pub open spec fn wf(&self) -> bool {
        &&& mons_wf(self.mons@)
        &&& canonical::<LinExp>(self@)
    }

    /// The coefficient of the exponent vector `e`.
    pub open spec fn coeff(&self, e: Exps) -> LinVal {
        coeff::<LinExp>(self@, e)
    }

    /// Whether the parameter `p` occurs in the template.
    pub open spec fn has_par(&self, p: Par) -> bool {
        par_in_mons(self.mons@, p)
    }

    /// The zero template.
    pub fn zero() -> (t: Temp)
        ensures
            t.wf(),
            t@ == seq![term_zero::<LinExp>()],
    {
        let mut mons: Vec<Mon<LinExp>> = Vec::new();
        mons.push(Mon::zero());
        let t = Temp { mons };
        proof {
            assert(t@ =~= seq![term_zero::<LinExp>()]);
        }
        t
    }

    /// The constant one.
    pub fn one() -> (t: Temp)
        ensures
            t.wf(),
            t@ == seq![term_one::<LinExp>()],
    {
        let mut mons: Vec<Mon<LinExp>> = Vec::new();
        mons.push(Mon::one());
        let t = Temp { mons };
        proof {
            assert(t@ =~= seq![term_one::<LinExp>()]);
            assert(degree(t@[0].exps) == 0);
        }
        t
    }

    /// The sum of the monomials of a list, in canonical form; every
    /// parameter that occurs in the list is taken into use in `ring`.
    /// `None` exactly when, summing from first to last, a coefficient does
    /// not fit.
    pub fn from_mons(list: &Vec<Mon<LinExp>>, ring: &mut Ring) -> (out: Option<Temp>)
        requires
            mons_wf(list@),
            old(ring).wf(),
        ensures
            final(ring).wf(),
            final(ring).vars@ == old(ring).vars@,
            forall|q: Par|
                #![trigger final(ring).has_par(q)]
                final(ring).has_par(q) <==> (old(ring).has_par(q) || par_in_mons(list@, q)),
            out.is_some() == normal_spec::<LinExp>(views(list@)).is_some(),
            out matches Some(t) ==> t.wf() && Some(t@) == normal_spec::<LinExp>(views(list@))
                && forall|e: Exps| #[trigger] t.coeff(e) == coeff::<LinExp>(views(list@), e),
    {
        register_mons(list, ring);
        match normalize_terms(list) {
            None => None,
            Some(mons) => Some(Temp { mons }),
        }
    }

    /// Whether the template is zero.
    pub fn is_zero(&self) -> (b: bool)
        requires
            self.wf(),
        ensures
            b == (self@ == seq![term_zero::<LinExp>()]),
    {
        is_zero_terms(&self.mons)
    }

    /// The total degree: the degree of the leading term.
    pub fn tdeg(&self) -> (d: usize)
        requires
            self.wf(),
        ensures
            d == leading_degree(self@),
    {
        degree_terms(&self.mons)
    }

    /// A copy.
    pub fn dup(&self) -> (t: Temp)
        requires
            self.wf(),
        ensures
            t.wf(),
            t@ == self@,
    {
        Temp { mons: dup_terms(&self.mons) }
    }

    /// Whether two templates have the same terms.
    pub fn equals(&self, other: &Temp) -> (b: bool)
        requires
            self.wf(),
            other.wf(),
        ensures
            b == (self@ == other@),
    {
        same_terms(&self.mons, &other.mons)
    }

    /// The order of two templates: that of their leading terms.
    pub fn compare(&self, other: &Temp) -> (r: Order)
        requires
            self.wf(),
            other.wf(),
        ensures
            r == term_order::<LinExp>(self@[0], other@[0]),
    {
        assert(self.mons@[0].wf() && other.mons@[0].wf());
        assert(self@[0] == self.mons@[0]@ && other@[0] == other.mons@[0]@);
        self.mons[0].compare(&other.mons[0])
    }

    /// The additive inverse.
    pub fn neg(&self) -> (out: Option<Temp>)
        requires
            self.wf(),
        ensures
            out.is_some() == neg_spec::<LinExp>(self@).is_some(),
            out matches Some(t) ==> t.wf() && Some(t@) == neg_spec::<LinExp>(self@)
                && forall|e: Exps| #[trigger]
                t.coeff(e) == crate::linexp::lv_scale(self.coeff(e), -(1 as real)),
    {
        match neg_terms(&self.mons) {
            None => None,
            Some(mons) => Some(Temp { mons }),
        }
    }

    /// The sum.
    pub fn add(&self, rhs: &Temp) -> (out: Option<Temp>)
        requires
            self.wf(),
            rhs.wf(),
        ensures
            out.is_some() == add_spec::<LinExp>(self@, rhs@).is_some(),
            out matches Some(t) ==> t.wf() && Some(t@) == add_spec::<LinExp>(self@, rhs@)
                && forall|e: Exps| #[trigger]
                t.coeff(e) == crate::linexp::lv_add(self.coeff(e), rhs.coeff(e)),
    {
        match sum_terms(&self.mons, &rhs.mons) {
            None => None,
            Some(mons) => Some(Temp { mons }),
        }
    }

    /// The product with a polynomial: the canonical sum of all products of
    /// a term of `self` and a term of `other`.
    pub fn mul(&self, other: &Poly) -> (out: Option<Temp>)
        requires
            self.wf(),
            other.wf(),
        ensures
            out.is_some() == mul_spec::<LinExp>(self@, other@).is_some(),
            out matches Some(t) ==> t.wf() && Some(t@) == mul_spec::<LinExp>(self@, other@)
                && forall|e: Exps| #[trigger]
                t.coeff(e) == coeff::<LinExp>(products::<LinExp>(self@, other@), e),
    {
        match mul_terms(&self.mons, &other.mons) {
            None => None,
            Some(mons) => Some(Temp { mons }),
        }
    }
}

/// The template with the exponent vectors `ms` whose least term has the
/// parameter with ordinal `base` as its coefficient, the next one the
/// parameter after it, and so on up to the leading term.
pub open spec fn ansatz(ms: Seq<Exps>, base: int) -> TempView {
    Seq::new(
        ms.len(),
        |i: int|
            Term::<LinVal> {
                exps: ms[i],
                coef: crate::linexp::lv_par(Par { id: (base + ms.len() - 1 - i) as usize }),
            },
    )
}

/// The most general template of total degree `d` in `n` variables, with the
/// parameters from the ordinal `base` on. `None` exactly when the ordinals
/// do not suffice.
fn ansatz_terms(list: &Vec<Vec<(Var, usize)>>, base: usize) -> (out: Option<Temp>)
    requires
        descending(vec_views(list@)),
        list@.len() > 0,
    ensures
        out.is_some() <==> base + list@.len() <= usize::MAX + 1,
        out matches Some(t) ==> t.wf() && t@ == ansatz(vec_views(list@), base as int),
{
    let len = list.len();
    let ghost ms = vec_views(list@);
    if len - 1 > usize::MAX - base {
        return None;
    }
    let mut mons: Vec<Mon<LinExp>> = Vec::new();
    let mut i: usize = 0;
    while i < len
        invariant
            i <= len,
            len == list@.len(),
            ms == vec_views(list@),
            descending(ms),
            base + len <= usize::MAX + 1,
            mons@.len() == i,
            forall|j: int|
                0 <= j < i ==> (#[trigger] mons@[j]).wf() && mons@[j]@ == ansatz(ms, base as int)[j],
        decreases len - i,
    {
        let p = Par { id: base + (len - 1 - i) };
        let coef = LinExp::from_par(p);
        proof {
            assert(ms[i as int] == list@[i as int]@);
            assert(exps_wf(ms[i as int]));
            assert(coef@(Some(p)) == 1 as real);
            assert(LinExp::zero_val()(Some(p)) == 0 as real);
        }
        mons.push(Mon { vars: crate::exps::exps_dup(&list[i]), coef });
        i += 1;
    }
    let t = Temp { mons };
    proof {
        let a = ansatz(ms, base as int);
        assert(t@ =~= a);
        assert forall|j: int| 0 <= j < a.len() implies crate::mon::term_wf::<LinExp>(
            #[trigger] a[j],
        ) && a[j].coef != LinExp::zero_val() by {
            assert(t.mons@[j].wf());
            let p = Par { id: (base + ms.len() - 1 - j) as usize };
            assert((a[j].coef)(Some(p)) == 1 as real);
            assert(LinExp::zero_val()(Some(p)) == 0 as real);
        }
        assert forall|j: int, k: int| 0 <= j < k < a.len() implies crate::exps::grevlex(
            (#[trigger] a[j]).exps,
            (#[trigger] a[k]).exps,
        ) == crate::exps::Order::Greater by {
            assert(a[j].exps == ms[j] && a[k].exps == ms[k]);
        }
    }
    Some(t)
}

impl Temp {
    /// The most general template of total degree `d`: one term for every
    /// monomial of total degree at most `d` in the variables of `ring`,
    /// each with a parameter of its own as coefficient. The parameters are
    /// new ones, taken into use in `ring`, and the least monomial gets the
    /// one with the lowest ordinal. `None`, and no change to `ring`,
    /// exactly when the ordinals do not suffice.
    pub fn most_gen(d: usize, ring: &mut Ring) -> (out: Option<Temp>)
        requires
            old(ring).wf(),
        ensures
            final(ring).wf(),
            final(ring).vars@ == old(ring).vars@,
            out.is_some() <==> old(ring).par_bound() + monomials(
                old(ring).vars@.len() as int,
                d as int,
            ).len() <= usize::MAX + 1,
            out.is_none() ==> final(ring).pars@ == old(ring).pars@,
            out matches Some(t) ==> t.wf() && t@ == ansatz(
                monomials(old(ring).vars@.len() as int, d as int),
                old(ring).par_bound(),
            ) && final(ring).pars@ == old(ring).pars@ + fresh_pars(
                old(ring).par_bound(),
                t@.len() as int,
            ),
    {
        let list = exps_up_to(ring.vars.len(), d);
        let base = match ring.next_par() {
            None => {
                return None;
            },
            Some(b) => b,
        };
        match ansatz_terms(&list, base) {
            None => None,
            Some(t) => {
                assert(t@.len() == t.mons@.len());
                assert(t@.len() == vec_views(list@).len());
                ring.mint_many(t.mons.len());
                Some(t)
            },
        }
    }
}

/// The template `t` minus the product of the template `q` and the
/// polynomial `p`, computed as `q` times the inverse of `p`, plus `t`.
pub open spec fn rem_spec(t: TempView, p: Seq<Term<real>>, q: TempView) -> Option<TempView> {
    match neg_spec::<Rat>(p) {
        None => None,
        Some(np) => match mul_spec::<LinExp>(q, np) {
            None => None,
            Some(m) => add_spec::<LinExp>(m, t),
        },
    }
}

impl Temp {
    /// The remainder of the template modulo an arbitrary multiple of
    /// `other`: the template minus the product of `other` and a new most
    /// general template of total degree `deg(self) - deg(other)`, whose
    /// parameters are taken into use in `ring`. A divisor of larger total
    /// degree than the template is rejected. On failure `ring` stays as it
    /// was.
    pub fn rem_par(&self, other: &Poly, ring: &mut Ring) -> (out: Result<Temp, Failure>)
        requires
            self.wf(),
            other.wf(),
            old(ring).wf(),
        ensures
            final(ring).wf(),
            final(ring).vars@ == old(ring).vars@,
            old(ring).par_bound() <= final(ring).par_bound(),
            out matches Ok(r) ==> crate::ideal::rem_one(
                self@,
                other@,
                old(ring).vars@.len() as int,
                old(ring).par_bound(),
            ) == Ok::<(TempView, int), Failure>((r@, final(ring).par_bound())),
            out matches Err(e) ==> crate::ideal::rem_one(
                self@,
                other@,
                old(ring).vars@.len() as int,
                old(ring).par_bound(),
            ) == Err::<(TempView, int), Failure>(e),
            out == Err::<Temp, Failure>(Failure::DegreeMismatch) <==> leading_degree(self@)
                < leading_degree(other@),
            out is Err ==> final(ring).pars@ == old(ring).pars@ && (out == Err::<Temp, Failure>(
                Failure::DegreeMismatch,
            ) || out == Err::<Temp, Failure>(Failure::Overflow)),
            leading_degree(self@) >= leading_degree(other@) ==> ({
                let ms = monomials(
                    old(ring).vars@.len() as int,
                    leading_degree(self@) - leading_degree(other@),
                );
                let q = ansatz(ms, old(ring).par_bound());
                &&& out is Ok <==> old(ring).par_bound() + ms.len() <= usize::MAX + 1 && rem_spec(
                    self@,
                    other@,
                    q,
                ).is_some()
                &&& out matches Ok(r) ==> r.wf() && Some(r@) == rem_spec(self@, other@, q)
                    && final(ring).pars@ == old(ring).pars@ + fresh_pars(
                    old(ring).par_bound(),
                    ms.len() as int,
                )
            }),
    {
        let ds = self.tdeg();
        let dp = other.tdeg();
        if ds < dp {
            return Err(Failure::DegreeMismatch);
        }
        let list = exps_up_to(ring.vars.len(), ds - dp);
        let base = match ring.next_par() {
            None => {
                return Err(Failure::Overflow);
            },
            Some(b) => b,
        };
        let q = match ansatz_terms(&list, base) {
            None => {
                return Err(Failure::Overflow);
            },
            Some(q) => q,
        };
        let np = match other.neg() {
            None => {
                return Err(Failure::Overflow);
            },
            Some(np) => np,
        };
        let m = match q.mul(&np) {
            None => {
                return Err(Failure::Overflow);
            },
            Some(m) => m,
        };
        match m.add(self) {
            None => Err(Failure::Overflow),
            Some(r) => {
                assert(q@.len() == q.mons@.len());
                assert(q@.len() == vec_views(list@).len());
                ring.mint_many(q.mons.len());
                Ok(r)
            },
        }
    }
}

/// The term without the variable `v`.
pub open spec fn strip_var(t: Term<LinVal>, v: Var) -> Term<LinVal> {
    Term { exps: exps_set(t.exps, v, 0), coef: t.coef }
}

/// One round of a substitution: to `res` is added, for each term from the
/// index `i` on in which `v` has the exponent `cur`, the product of the
/// term without `v` and `base`.
pub open spec fn subs_level(
    t: TempView,
    v: Var,
    cur: int,
    base: PolyView,
    res: TempView,
    i: int,
) -> Option<TempView>
    decreases t.len() - i,
{
    if i < 0 || i >= t.len() {
        Some(res)
    } else if exp_at(t[i].exps, v) != cur {
        subs_level(t, v, cur, base, res, i + 1)
    } else {
        match mul_spec::<LinExp>(seq![strip_var(t[i], v)], base) {
            None => None,
            Some(m) => match add_spec::<LinExp>(res, m) {
                None => None,
                Some(r) => subs_level(t, v, cur, base, r, i + 1),
            },
        }
    }
}

/// The least exponent above `cur` that `v` has in a term from the index `i`
/// on.
pub open spec fn next_exp(t: TempView, v: Var, cur: int, i: int) -> Option<int>
    decreases t.len() - i,
{
    if i < 0 || i >= t.len() {
        None
    } else {
        let r = next_exp(t, v, cur, i + 1);
        let x = exp_at(t[i].exps, v);
        if x > cur && (r.is_none() || x < r.unwrap()) {
            Some(x)
        } else {
            r
        }
    }
}

/// A substitution from the exponent `cur` on: the round of `cur` with the
/// power of `p` with exponent `cur`, then the same from the next exponent
/// on.
pub open spec fn subs_from(t: TempView, v: Var, p: PolyView, cur: int, res: TempView) -> Option<
    TempView,
>
    decreases usize::MAX - cur,
{
    if cur < 0 {
        None
    } else {
        match pow_spec(p, cur as nat) {
            None => None,
            Some(base) => match subs_level(t, v, cur, base, res, 0) {
                None => None,
                Some(r) => match next_exp(t, v, cur, 0) {
                    None => Some(r),
                    Some(nx) => if nx <= cur || nx > usize::MAX {
                        None
                    } else {
                        subs_from(t, v, p, nx, r)
                    },
                },
            },
        }
    }
}

/// The template with the polynomial `p` in place of the variable `v`: the
/// terms are taken in ascending order of the exponent of `v`, each
/// multiplied without `v` by the power of `p` for its exponent, and summed.
pub open spec fn subs_spec(t: TempView, v: Var, p: PolyView) -> Option<TempView> {
    subs_from(t, v, p, 0, seq![term_zero::<LinExp>()])
}

impl Temp {
    /// The least exponent above `cur` that `v` has in a term.
    fn next_exponent(&self, v: Var, cur: usize) -> (out: Option<usize>)
        requires
            self.wf(),
        ensures
            out.is_some() == next_exp(self@, v, cur as int, 0).is_some(),
            out matches Some(x) ==> next_exp(self@, v, cur as int, 0) == Some(x as int) && x
                > cur,
    {
        let mut best: Option<usize> = None;
        let mut i: usize = self.mons.len();
        let ghost t = self@;
        while i > 0
            invariant
                i <= self.mons@.len(),
                t == self@,
                t.len() == self.mons@.len(),
                best.is_some() == next_exp(t, v, cur as int, i as int).is_some(),
                best matches Some(x) ==> next_exp(t, v, cur as int, i as int) == Some(x as int)
                    && x > cur,
            decreases i,
        {
            i -= 1;
            let x = exps_get(&self.mons[i].vars, v);
            assert(t[i as int].exps == self.mons@[i as int].vars@);
            let better = match best {
                None => true,
                Some(b) => x < b,
            };
            if x > cur && better {
                best = Some(x);
            }
        }
        best
    }

    /// The template with the polynomial `other` in place of the variable
    /// `v`. The terms are taken by the exponent that `v` has in them, the
    /// least exponent first; the power of `other` for an exponent is
    /// computed once and serves every term with that exponent.
    pub fn subs(&self, v: Var, other: &Poly) -> (out: Option<Temp>)
        requires
            self.wf(),
            other.wf(),
        ensures
            out.is_some() == subs_spec(self@, v, other@).is_some(),
            out matches Some(r) ==> r.wf() && Some(r@) == subs_spec(self@, v, other@),
    {
        let ghost t = self@;
        let mut res = Temp::zero();
        let mut cur: usize = 0;
        loop
            invariant
                self.wf(),
                other.wf(),
                t == self@,
                res.wf(),
                subs_spec(t, v, other@) == subs_from(t, v, other@, cur as int, res@),
            decreases usize::MAX - cur,
        {
            let base = match other.pow(cur) {
                None => {
                    return None;
                },
                Some(b) => b,
            };
            let ghost res0 = res@;
            let mut i: usize = 0;
            while i < self.mons.len()
                invariant
                    i <= self.mons@.len(),
                    self.wf(),
                    t == self@,
                    t.len() == self.mons@.len(),
                    res.wf(),
                    base.wf(),
                    pow_spec(other@, cur as nat) == Some(base@),
                    subs_level(t, v, cur as int, base@, res0, 0) == subs_level(
                        t,
                        v,
                        cur as int,
                        base@,
                        res@,
                        i as int,
                    ),
                    subs_spec(t, v, other@) == subs_from(t, v, other@, cur as int, res0),
                decreases self.mons@.len() - i,
            {
                let m = &self.mons[i];
                proof {
                    assert(m.wf());
                    assert(t[i as int] == m@);
                }
                if exps_get(&m.vars, v) == cur {
                    let mut single: Vec<Mon<LinExp>> = Vec::new();
                    let sm = Mon { vars: exps_without(&m.vars, v), coef: m.coef.dup() };
                    proof {
                        lemma_exps_remove(m.vars@, v);
                        assert(sm@ == strip_var(t[i as int], v));
                    }
                    single.push(sm);
                    proof {
                        assert(views(single@) =~= seq![strip_var(t[i as int], v)]);
                    }
                    let prod = match mul_terms(&single, &base.mons) {
                        None => {
                            return None;
                        },
                        Some(mons) => Temp { mons },
                    };
                    match res.add(&prod) {
                        None => {
                            return None;
                        },
                        Some(r) => {
                            res = r;
                        },
                    }
                }
                i += 1;
            }
            match self.next_exponent(v, cur) {
                None => {
                    return Some(res);
                },
                Some(nx) => {
                    cur = nx;
                },
            }
        }
    }
}

/// Every parameter of every monomial of the list is bound.
pub open spec fn mons_bound(mons: Seq<Mon<LinExp>>, sol: Bindings) -> bool {
    forall|i: int| 0 <= i < mons.len() ==> all_bound((#[trigger] mons[i]).coef.terms@, sol)
}

/// The monomials of the list with the parameters of each coefficient
/// replaced by their bindings, without those whose coefficient becomes
/// zero; `None` when a coefficient cannot be represented.
pub open spec fn subs_pars_list(mons: Seq<Mon<LinExp>>, sol: Bindings) -> Option<
    TempView,
>
    decreases mons.len(),
{
    if mons.len() == 0 {
        Some(Seq::empty())
    } else {
        match subs_pars_list(mons.drop_last(), sol) {
            None => None,
            Some(acc) => match lin_subst(mons.last().coef.terms@, sol) {
                None => None,
                Some(c) => Some(
                    if c == lv_zero() {
                        acc
                    } else {
                        acc.push(Term { exps: mons.last().vars@, coef: c })
                    },
                ),
            },
        }
    }
}

/// A replacement that fails on the first monomials of a list fails on the
/// list.
pub proof fn lemma_subs_pars_prefix(mons: Seq<Mon<LinExp>>, sol: Bindings, k: int)
    requires
        0 <= k <= mons.len(),
        subs_pars_list(mons.take(k), sol).is_none(),
    ensures
        subs_pars_list(mons, sol).is_none(),
    decreases mons.len() - k,
{
    if k == mons.len() {
        assert(mons.take(k) == mons);
    } else {
        assert(mons.drop_last().take(k) == mons.take(k));
        lemma_subs_pars_prefix(mons.drop_last(), sol, k);
    }
}

impl Temp {
    /// The template with every parameter replaced by its binding in `sol`.
    /// Every parameter of the template has to be bound. The parameters of
    /// the result are taken into use in `ring`.
    pub fn subs_pars(&self, sol: &Vec<(Par, LinExp)>, ring: &mut Ring) -> (out: Option<Temp>)
        requires
            self.wf(),
            bindings_wf(sol@),
            mons_bound(self.mons@, bview(sol@)),
            old(ring).wf(),
        ensures
            final(ring).wf(),
            final(ring).vars@ == old(ring).vars@,
            out.is_some() == subs_pars_list(self.mons@, bview(sol@)).is_some(),
            out.is_none() ==> final(ring).pars@ == old(ring).pars@,
            out matches Some(r) ==> r.wf() && Some(r@) == match subs_pars_list(self.mons@, bview(sol@)) {
                Some(l) => Some(finish::<LinExp>(l)),
                None => None,
            } && forall|q: Par|
                #![trigger final(ring).has_par(q)]
                final(ring).has_par(q) <==> (old(ring).has_par(q) || r.has_par(q)),
    {
        let ghost ms = self.mons@;
        let ghost t = self@;
        let mut acc: Vec<Mon<LinExp>> = Vec::new();
        let mut i: usize = 0;
        proof {
            assert(ms.take(0) =~= Seq::empty());
            assert(views(acc@) =~= Seq::empty());
        }
        while i < self.mons.len()
            invariant
                i <= ms.len(),
                ms == self.mons@,
                t == self@,
                t.len() == ms.len(),
                self.wf(),
                ring.wf(),
                ring.vars@ == old(ring).vars@,
                ring.pars@ == old(ring).pars@,
                bindings_wf(sol@),
                mons_bound(ms, bview(sol@)),
                mons_wf(acc@),
                proper::<LinExp>(views(acc@)),
                subs_pars_list(ms.take(i as int), bview(sol@)) == Some(views(acc@)),
                forall|k: int, i2: int|
                    0 <= k < acc@.len() && i <= i2 < ms.len() ==> grevlex(
                        (#[trigger] views(acc@)[k]).exps,
                        (#[trigger] t[i2]).exps,
                    ) == Order::Greater,
            decreases ms.len() - i,
        {
            let m = &self.mons[i];
            let ghost before = views(acc@);
            let ghost before_mons = acc@;
            proof {
                assert(ms.take(i + 1).drop_last() == ms.take(i as int));
                assert(ms.take(i + 1).last() == ms[i as int]);
                assert(m.wf());
                assert(all_bound(ms[i as int].coef.terms@, bview(sol@)));
                assert(t[i as int] == m@);
            }
            match m.coef.subst(sol) {
                None => {
                    proof {
                        assert(subs_pars_list(ms.take(i + 1), bview(sol@)).is_none());
                        lemma_subs_pars_prefix(ms, bview(sol@), i + 1);
                    }
                    return None;
                },
                Some(c) => {
                    if !c.is_zero() {
                        let nm = Mon { vars: crate::exps::exps_dup(&m.vars), coef: c };
                        acc.push(nm);
                        proof {
                            let now = views(acc@);
                            assert(now =~= before.push(nm@));
                            assert forall|k: int| 0 <= k < acc@.len() implies (
                            #[trigger] acc@[k]).wf() by {
                                if k < before.len() {
                                    assert(acc@[k] == before_mons[k]);
                                }
                            }
                            assert forall|k: int|
                                0 <= k < now.len() implies crate::mon::term_wf::<LinExp>(
                                #[trigger] now[k],
                            ) && now[k].coef != LinExp::zero_val() by {
                                if k < before.len() {
                                    assert(now[k] == before[k]);
                                }
                            }
                            assert forall|k: int, j: int| 0 <= k < j < now.len() implies grevlex(
                                (#[trigger] now[k]).exps,
                                (#[trigger] now[j]).exps,
                            ) == Order::Greater by {
                                if j < before.len() {
                                    assert(now[k] == before[k] && now[j] == before[j]);
                                } else {
                                    assert(now[k] == before[k]);
                                    assert(now[j].exps == t[i as int].exps);
                                }
                            }
                            assert forall|k: int, i2: int|
                                0 <= k < acc@.len() && i + 1 <= i2 < ms.len() implies grevlex(
                                (#[trigger] now[k]).exps,
                                (#[trigger] t[i2]).exps,
                            ) == Order::Greater by {
                                if k < before.len() {
                                    assert(now[k] == before[k]);
                                } else {
                                    assert(now[k].exps == t[i as int].exps);
                                    if t == seq![term_zero::<LinExp>()] {
                                    } else {
                                        assert(grevlex(t[i as int].exps, t[i2].exps)
                                            == Order::Greater);
                                    }
                                }
                            }
                        }
                    }
                },
            }
            i += 1;
        }
        proof {
            assert(ms.take(ms.len() as int) == ms);
        }
        let mons = finish_terms(acc);
        let r = Temp { mons };
        r.register_pars(ring);
        Some(r)
    }

    /// Takes every parameter of the template into use in `ring`.
    pub fn register_pars(&self, ring: &mut Ring)
        requires
            old(ring).wf(),
        ensures
            final(ring).wf(),
            final(ring).vars@ == old(ring).vars@,
            forall|q: Par|
                #![trigger final(ring).has_par(q)]
                final(ring).has_par(q) <==> (old(ring).has_par(q) || self.has_par(q)),
    {
        register_mons(&self.mons, ring);
    }
}

/// Takes every parameter of the monomials into use in `ring`.
pub fn register_mons(mons: &Vec<Mon<LinExp>>, ring: &mut Ring)
    requires
        old(ring).wf(),
    ensures
        final(ring).wf(),
        final(ring).vars@ == old(ring).vars@,
        forall|q: Par|
            #![trigger final(ring).has_par(q)]
            final(ring).has_par(q) <==> (old(ring).has_par(q) || par_in_mons(mons@, q)),
{
    let mut i: usize = 0;
    let ghost list = mons@;
    while i < mons.len()
        invariant
            i <= list.len(),
            list == mons@,
            ring.wf(),
            ring.vars@ == old(ring).vars@,
            forall|q: Par|
                #![trigger ring.has_par(q)]
                #![trigger par_in_mons(list.take(i as int), q)]
                ring.has_par(q) <==> (old(ring).has_par(q) || par_in_mons(
                    list.take(i as int),
                    q,
                )),
        decreases list.len() - i,
    {
        let ghost before = *ring;
        mons[i].coef.register_pars(ring);
        proof {
            let l0 = list.take(i as int);
            let l1 = list.take(i + 1);
            assert forall|q: Par|
                #![trigger ring.has_par(q)]
                #![trigger par_in_mons(l1, q)]
                ring.has_par(q) <==> (old(ring).has_par(q) || par_in_mons(l1, q)) by {
                if par_in_mons(l1, q) {
                    let a = choose|a: int|
                        0 <= a < l1.len() && (#[trigger] l1[a]).coef.has_par(q);
                    if a < i {
                        assert(l0[a] == l1[a]);
                        assert(par_in_mons(l0, q));
                    }
                }
                if par_in_mons(l0, q) {
                    let a = choose|a: int|
                        0 <= a < l0.len() && (#[trigger] l0[a]).coef.has_par(q);
                    assert(l1[a] == l0[a]);
                }
                if list[i as int].coef.has_par(q) {
                    assert(l1[i as int] == list[i as int]);
                }
            }
        }
        i += 1;
    }
    proof {
        assert(list.take(list.len() as int) == list);
    }
}

/// The bindings that set the parameter at the index `i` of `pars` to one
/// and every other parameter of `pars` to zero.
pub open spec fn unit_sol(pars: Seq<Par>, i: int) -> Bindings {
    Seq::new(
        pars.len(),
        |j: int|
            (
                pars[j],
                if j == i {
                    crate::linexp::lv_one()
                } else {
                    lv_zero()
                },
            ),
    )
}

/// A parameter that a list of bindings names is bound.
pub proof fn lemma_named_is_bound(b: Bindings, j: int)
    requires
        0 <= j < b.len(),
    ensures
        crate::linexp::binding(b, b[j].0).is_some(),
    decreases b.len(),
{
    if j < b.len() - 1 && b.last().0 != b[j].0 {
        assert(b.drop_last()[j] == b[j]);
        lemma_named_is_bound(b.drop_last(), j);
    }
}

impl Temp {
    /// The parameters of the template, in the order of their ordinals.
    pub fn pars(&self) -> (r: Vec<Par>)
        ensures
            forall|p: Par| #[trigger] r@.contains(p) <==> self.has_par(p),
            forall|i: int, j: int| 0 <= i < j < r@.len() ==> r@[i].id < r@[j].id,
    {
        let mut ring = Ring::new();
        self.register_pars(&mut ring);
        proof {
            assert forall|p: Par| #[trigger] ring.pars@.contains(p) <==> self.has_par(p) by {
                assert(ring.has_par(p) <==> ring.pars@.contains(p));
            }
        }
        ring.pars
    }

    /// The basis of the family of templates that the parameters `pars`
    /// span: for each of them the template with that parameter set to one
    /// and the others set to zero. Every parameter of the template has to
    /// be among `pars`.
    pub fn basis(&self, pars: &Vec<Par>, ring: &mut Ring) -> (out: Option<Vec<Temp>>)
        requires
            self.wf(),
            old(ring).wf(),
            forall|p: Par| self.has_par(p) ==> pars@.contains(p),
        ensures
            final(ring).wf(),
            final(ring).vars@ == old(ring).vars@,
            out matches Some(v) ==> v@.len() == pars@.len() && forall|i: int|
                0 <= i < v@.len() ==> (#[trigger] v@[i]).wf() && subs_pars_list(
                    self.mons@,
                    unit_sol(pars@, i),
                ) == Some(strip::<LinExp>(v@[i]@)),
            out.is_none() ==> exists|i: int|
                0 <= i < pars@.len() && #[trigger] subs_pars_list(
                    self.mons@,
                    unit_sol(pars@, i),
                ).is_none(),
    {
        let mut v: Vec<Temp> = Vec::new();
        let mut i: usize = 0;
        while i < pars.len()
            invariant
                i <= pars@.len(),
                self.wf(),
                ring.wf(),
                ring.vars@ == old(ring).vars@,
                forall|p: Par| self.has_par(p) ==> pars@.contains(p),
                v@.len() == i,
                forall|k: int|
                    0 <= k < i ==> (#[trigger] v@[k]).wf() && subs_pars_list(
                        self.mons@,
                        unit_sol(pars@, k),
                    ) == Some(strip::<LinExp>(v@[k]@)),
            decreases pars@.len() - i,
        {
            let mut e: Vec<(Par, LinExp)> = Vec::new();
            let mut j: usize = 0;
            while j < pars.len()
                invariant
                    j <= pars@.len(),
                    i < pars@.len(),
                    e@.len() == j,
                    bindings_wf(e@),
                    forall|k: int|
                        0 <= k < j ==> (#[trigger] bview(e@)[k]) == unit_sol(pars@, i as int)[k],
                decreases pars@.len() - j,
            {
                let le = if j == i {
                    LinExp::one()
                } else {
                    LinExp::zero()
                };
                let ghost before = e@;
                e.push((pars[j], le));
                proof {
                    assert forall|k: int| 0 <= k < j + 1 implies (#[trigger] bview(e@)[k])
                        == unit_sol(pars@, i as int)[k] by {
                        if k < j {
                            assert(e@[k] == before[k]);
                            assert(bview(before)[k] == unit_sol(pars@, i as int)[k]);
                        }
                    }
                    assert forall|k: int| 0 <= k < e@.len() implies (#[trigger] e@[k]).1.wf() by {
                        if k < j {
                            assert(e@[k] == before[k]);
                        }
                    }
                }
                j += 1;
            }
            let ghost b = unit_sol(pars@, i as int);
            proof {
                assert(bview(e@) =~= b);
                assert forall|m: int| 0 <= m < self.mons@.len() implies all_bound(
                    (#[trigger] self.mons@[m]).coef.terms@,
                    b,
                ) by {
                    let ts = self.mons@[m].coef.terms@;
                    assert forall|t: int| 0 <= t < ts.len() && (#[trigger] ts[t]).par.is_some() implies
                        crate::linexp::binding(b, ts[t].par.unwrap()).is_some() by {
                        let p = ts[t].par.unwrap();
                        assert(self.mons@[m].coef.has_par(p));
                        assert(self.has_par(p));
                        assert(pars@.contains(p));
                        let k = choose|k: int| 0 <= k < pars@.len() && pars@[k] == p;
                        assert(b[k].0 == p);
                        lemma_named_is_bound(b, k);
                    }
                }
            }
            let ghost before = v@;
            match self.subs_pars(&e, ring) {
                None => {
                    return None;
                },
                Some(t) => {
                    proof {
                        let l = subs_pars_list(self.mons@, b).unwrap();
                        assert(t@ == finish::<LinExp>(l));
                        lemma_subs_pars_proper(self.mons@, b);
                        if l.len() > 0 {
                            assert(l[0].coef != lv_zero());
                            let z = seq![term_zero::<LinExp>()];
                            assert(z[0].coef == lv_zero());
                            assert(l != z);
                        }
                        assert(strip::<LinExp>(finish::<LinExp>(l)) =~= l);
                    }
                    v.push(t);
                },
            }
            proof {
                assert forall|k: int| 0 <= k < i + 1 implies (#[trigger] v@[k]).wf()
                    && subs_pars_list(self.mons@, unit_sol(pars@, k)) == Some(
                    strip::<LinExp>(v@[k]@),
                ) by {
                    if k < i {
                        assert(v@[k] == before[k]);
                    }
                }
            }
            i += 1;
        }
        Some(v)
    }
}

/// No monomial that a replacement of parameters keeps is zero.
pub proof fn lemma_subs_pars_proper(mons: Seq<Mon<LinExp>>, sol: Bindings)
    requires
        subs_pars_list(mons, sol).is_some(),
    ensures
        forall|i: int|
            0 <= i < subs_pars_list(mons, sol).unwrap().len() ==> (#[trigger] subs_pars_list(
                mons,
                sol,
            ).unwrap()[i]).coef != lv_zero(),
    decreases mons.len(),
{
    if mons.len() > 0 {
        lemma_subs_pars_proper(mons.drop_last(), sol);
        let acc = subs_pars_list(mons.drop_last(), sol).unwrap();
        let l = subs_pars_list(mons, sol).unwrap();
        assert forall|i: int| 0 <= i < l.len() implies (#[trigger] l[i]).coef != lv_zero() by {
            if i < acc.len() {
                assert(l[i] == acc[i]);
            }
        }
    }
}

} // verus!
