//! Polynomials in several variables with rational coefficients.
//!
//! A polynomial is a canonical list of monomials: summed by exponent vector,
//! free of zero terms and sorted with the leading term first; the zero
//! polynomial is the single zero sentinel. Every operation returns `None`
//! exactly when a coefficient or a total degree that it needs cannot be
//! represented.
use crate::coef::Coef;
use crate::exps::{degree, Exps};
use crate::mon::{term_one, term_zero, Mon, Term};
use crate::rat::{fits, Rat};
use crate::ring::Var;
use crate::terms::{
    add_spec, canonical, coeff, degree_terms, dup_terms, is_zero_terms, leading_degree,
    lemma_finish_coeff, lemma_scaled_coeff, mons_wf, mul_spec, mul_terms, neg_spec, neg_terms,
    normal_spec, normalize_terms, products, same_terms, sub_spec, sum_terms, views,
};
use vstd::prelude::*;

verus! {

/// A polynomial with rational coefficients.
#[derive(Clone, PartialEq, Eq, Debug)]
pub struct Poly {
    pub mons: Vec<Mon<Rat>>,
}

/// What a polynomial denotes: its terms, the leading term first.
pub type PolyView = Seq<Term<real>>;

/// The square-and-multiply loop: `res` times `base` to the power `e`, the
/// binary digits of `e` taken from the lowest.
pub open spec fn pow_loop(res: PolyView, base: PolyView, e: nat) -> Option<PolyView>
    decreases e,
{
    if e == 0 {
        Some(res)
    } else {
        let next = if e % 2 == 1 {
            mul_spec::<Rat>(res, base)
        } else {
            Some(res)
        };
        match next {
            None => None,
            Some(r) => if e / 2 == 0 {
                Some(r)
            } else {
                match mul_spec::<Rat>(base, base) {
                    None => None,
                    Some(b) => pow_loop(r, b, e / 2),
                }
            },
        }
    }
}

/// The power `p` to the `e` by binary exponentiation.
pub open spec fn pow_spec(p: PolyView, e: nat) -> Option<PolyView> {
    pow_loop(seq![term_one::<Rat>()], p, e)
}

impl View for Poly {
    type V = PolyView;

    open spec fn view(&self) -> PolyView {
        views(self.mons@)
    }
}

impl Poly {
    /// The representation invariant: a canonical list of well-formed
    /// monomials.
    pub open spec fn wf(&self) -> bool {
        &&& mons_wf(self.mons@)
        &&& canonical::<Rat>(self@)
    }

    /// The coefficient of the exponent vector `e`.
    pub open spec fn coeff(&self, e: Exps) -> real {
        coeff::<Rat>(self@, e)
    }

    /// The constant one.
    pub fn one() -> (p: Poly)
        ensures
            p.wf(),
            p@ == seq![term_one::<Rat>()],
    {
        let mut mons: Vec<Mon<Rat>> = Vec::new();
        mons.push(Mon::one());
        let p = Poly { mons };
        proof {
            assert(p@ =~= seq![term_one::<Rat>()]);
            assert(degree(p@[0].exps) == 0);
        }
        p
    }

    /// The zero polynomial.
    pub fn zero() -> (p: Poly)
        ensures
            p.wf(),
            p@ == seq![term_zero::<Rat>()],
    {
        let mut mons: Vec<Mon<Rat>> = Vec::new();
        mons.push(Mon::zero());
        let p = Poly { mons };
        proof {
            assert(p@ =~= seq![term_zero::<Rat>()]);
        }
        p
    }

    /// The sum of the monomials of a list, in canonical form. `None`
    /// exactly when, summing from first to last, a coefficient does not fit.
    pub fn from_mons(list: &Vec<Mon<Rat>>) -> (out: Option<Poly>)
        requires
            mons_wf(list@),
        ensures
            out.is_some() == normal_spec::<Rat>(views(list@)).is_some(),
            out matches Some(p) ==> p.wf() && Some(p@) == normal_spec::<Rat>(views(list@))
                && forall|e: Exps| #[trigger] p.coeff(e) == coeff::<Rat>(views(list@), e),
    {
        match normalize_terms(list) {
            None => None,
            Some(mons) => Some(Poly { mons }),
        }
    }

    /// The variable `v`.
    pub fn from_var(v: Var) -> (p: Poly)
        ensures
            p.wf(),
            p@ == seq![Term::<real> { exps: seq![(v, 1usize)], coef: 1 as real }],
    {
        let mut mons: Vec<Mon<Rat>> = Vec::new();
        mons.push(Mon::from_var(v));
        let p = Poly { mons };
        proof {
            assert(p@ =~= seq![Term::<real> { exps: seq![(v, 1usize)], coef: 1 as real }]);
        }
        p
    }

    /// The constant `c`.
    pub fn from_const(c: Rat) -> (p: Poly)
        requires
            Rat::wf(c),
        ensures
            p.wf(),
            p@ == seq![Term::<real> { exps: Seq::empty(), coef: c@ }],
    {
        let mut mons: Vec<Mon<Rat>> = Vec::new();
        mons.push(Mon { vars: Vec::new(), coef: c });
        let p = Poly { mons };
        proof {
            assert(p@ =~= seq![Term::<real> { exps: Seq::empty(), coef: c@ }]);
            assert(degree(p@[0].exps) == 0);
        }
        p
    }

    /// Whether the polynomial is zero.
    pub fn is_zero(&self) -> (b: bool)
        requires
            self.wf(),
        ensures
            b == (self@ == seq![term_zero::<Rat>()]),
    {
        is_zero_terms(&self.mons)
    }

    /// The total degree: the degree of the leading term.
    pub fn tdeg(&self) -> (d: usize)
        requires
            self.wf(),
        ensures
            d == leading_degree(self@),
    {
        degree_terms(&self.mons)
    }

    /// A copy.
    pub fn dup(&self) -> (p: Poly)
        requires
            self.wf(),
        ensures
            p.wf(),
            p@ == self@,
    {
        Poly { mons: dup_terms(&self.mons) }
    }

    /// Whether two polynomials have the same terms.
    pub fn equals(&self, other: &Poly) -> (b: bool)
        requires
            self.wf(),
            other.wf(),
        ensures
            b == (self@ == other@),
    {
        same_terms(&self.mons, &other.mons)
    }

    /// The additive inverse.
    pub fn neg(&self) -> (out: Option<Poly>)
        requires
            self.wf(),
        ensures
            out.is_some() == neg_spec::<Rat>(self@).is_some(),
            out.is_some() <==> forall|e: Exps| fits(-#[trigger] self.coeff(e)),
            out matches Some(p) ==> p.wf() && Some(p@) == neg_spec::<Rat>(self@) && forall|e: Exps|
             #[trigger] p.coeff(e) == -self.coeff(e),
    {
        proof {
            assert forall|e: Exps|
                Rat::scale_val(#[trigger] coeff::<Rat>(self@, e), -(1 as real)) == -self.coeff(
                    e,
                ) by {
                let x = self.coeff(e);
                assert(x * (-(1 as real)) == -x) by (nonlinear_arith);
            }
        }
        match neg_terms(&self.mons) {
            None => None,
            Some(mons) => Some(Poly { mons }),
        }
    }

    /// The sum.
    pub fn add(&self, rhs: &Poly) -> (out: Option<Poly>)
        requires
            self.wf(),
            rhs.wf(),
        ensures
            out.is_some() == add_spec::<Rat>(self@, rhs@).is_some(),
            out.is_some() <==> forall|e: Exps| fits(#[trigger] self.coeff(e) + rhs.coeff(e)),
            out matches Some(p) ==> p.wf() && Some(p@) == add_spec::<Rat>(self@, rhs@)
                && forall|e: Exps| #[trigger] p.coeff(e) == self.coeff(e) + rhs.coeff(e),
    {
        match sum_terms(&self.mons, &rhs.mons) {
            None => {
                proof {
                    let e = choose|e: Exps|
                        !Rat::val_fits(
                            Rat::add_val(
                                #[trigger] coeff::<Rat>(self@, e),
                                coeff::<Rat>(rhs@, e),
                            ),
                        );
                    assert(!fits(self.coeff(e) + rhs.coeff(e)));
                }
                None
            },
            Some(mons) => {
                proof {
                    assert forall|e: Exps| fits(#[trigger] self.coeff(e) + rhs.coeff(e)) by {
                        assert(Rat::val_fits(
                            Rat::add_val(coeff::<Rat>(self@, e), coeff::<Rat>(rhs@, e)),
                        ));
                    }
                }
                Some(Poly { mons })
            },
        }
    }

    /// The difference: the sum of `self` and the inverse of `rhs`.
    pub fn sub(&self, rhs: &Poly) -> (out: Option<Poly>)
        requires
            self.wf(),
            rhs.wf(),
        ensures
            out.is_some() == sub_spec::<Rat>(self@, rhs@).is_some(),
            out.is_some() <==> forall|e: Exps|
                fits(-#[trigger] rhs.coeff(e)) && fits(self.coeff(e) - rhs.coeff(e)),
            out matches Some(p) ==> p.wf() && Some(p@) == sub_spec::<Rat>(self@, rhs@)
                && forall|e: Exps| #[trigger] p.coeff(e) == self.coeff(e) - rhs.coeff(e),
    {
        match rhs.neg() {
            None => None,
            Some(n) => {
                proof {
                    assert forall|e: Exps| #[trigger]
                        self.coeff(e) + n.coeff(e) == self.coeff(e) - rhs.coeff(e) by {
                        assert(n.coeff(e) == -rhs.coeff(e));
                    }
                }
                let out = self.add(&n);
                proof {
                    if out.is_none() {
                        let e = choose|e: Exps| !fits(#[trigger] self.coeff(e) + n.coeff(e));
                        assert(n.coeff(e) == -rhs.coeff(e));
                        assert(!fits(self.coeff(e) - rhs.coeff(e)));
                    } else {
                        assert forall|e: Exps|
                            fits(-#[trigger] rhs.coeff(e)) && fits(
                                self.coeff(e) - rhs.coeff(e),
                            ) by {
                            assert(n.coeff(e) == -rhs.coeff(e));
                            assert(fits(self.coeff(e) + n.coeff(e)));
                        }
                        let p = out.unwrap();
                        assert forall|e: Exps| #[trigger]
                            p.coeff(e) == self.coeff(e) - rhs.coeff(e) by {
                            assert(n.coeff(e) == -rhs.coeff(e));
                        }
                    }
                }
                out
            },
        }
    }

    /// The product: the canonical sum of all products of a term of `self`
    /// and a term of `rhs`.
    pub fn mul(&self, rhs: &Poly) -> (out: Option<Poly>)
        requires
            self.wf(),
            rhs.wf(),
        ensures
            out.is_some() == mul_spec::<Rat>(self@, rhs@).is_some(),
            out matches Some(p) ==> p.wf() && Some(p@) == mul_spec::<Rat>(self@, rhs@)
                && forall|e: Exps| #[trigger]
                p.coeff(e) == coeff::<Rat>(products::<Rat>(self@, rhs@), e),
    {
        match mul_terms(&self.mons, &rhs.mons) {
            None => None,
            Some(mons) => Some(Poly { mons }),
        }
    }

    /// The power with exponent `e`, by binary exponentiation. Where the
    /// exponent times the total degree stays within a machine word, it is
    /// the product of `e` factors `self`.
    pub fn pow(&self, e: usize) -> (out: Option<Poly>)
        requires
            self.wf(),
        ensures
            out.is_some() == pow_spec(self@, e as nat).is_some(),
            out matches Some(p) ==> p.wf() && Some(p@) == pow_spec(self@, e as nat),
            out matches Some(p) ==> (e * leading_degree(self@) <= usize::MAX ==> p@
                == crate::laws::power(self@, e as nat)),
    {
        proof {
            if e * leading_degree(self@) <= usize::MAX && pow_spec(self@, e as nat).is_some() {
                crate::laws::lemma_pow_is_power(self@, e as nat);
            }
        }
        let mut res = Poly::one();
        let mut base = self.dup();
        let mut n: usize = e;
        while n > 0
            invariant
                res.wf(),
                base.wf(),
                pow_spec(self@, e as nat) == pow_loop(res@, base@, n as nat),
            decreases n,
        {
            if n % 2 == 1 {
                match res.mul(&base) {
                    None => {
                        return None;
                    },
                    Some(r) => {
                        res = r;
                    },
                }
            }
            n = n / 2;
            if n > 0 {
                match base.mul(&base) {
                    None => {
                        return None;
                    },
                    Some(b) => {
                        base = b;
                    },
                }
            }
        }
        Some(res)
    }
}

} // verus!
