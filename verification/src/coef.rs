//! Coefficients of monomials: what a polynomial and a template have in
//! common.
//!
//! A coefficient type denotes values of a module over the rationals: it has
//! zero and one, addition, and multiplication by a rational scalar. Plain
//! rationals are one such type, linear expressions in the parameters the
//! other. Each operation returns `None` exactly when its exact result cannot
//! be represented.
use crate::rat::{fits, Rat};
use vstd::prelude::*;

verus! {

pub trait Coef: Sized {
    /// The mathematical values that the type denotes.
    type V;

    /// The representation invariant.
    spec fn wf(&self) -> bool;

    /// The value denoted.
    spec fn val(&self) -> Self::V;

    spec fn zero_val() -> Self::V;

    spec fn one_val() -> Self::V;

    spec fn add_val(a: Self::V, b: Self::V) -> Self::V;

    spec fn scale_val(a: Self::V, c: real) -> Self::V;

    /// Whether a value can be represented.
    spec fn val_fits(a: Self::V) -> bool;

    /// Every represented value is representable, and so are zero and one.
    proof fn lemma_wf_fits(&self)
        requires
            self.wf(),
        ensures
            Self::val_fits(self.val()),
    ;

    proof fn lemma_zero_one()
        ensures
            Self::val_fits(Self::zero_val()),
            Self::val_fits(Self::one_val()),
            Self::zero_val() != Self::one_val(),
    ;

    proof fn lemma_add_zero(a: Self::V)
        ensures
            Self::add_val(a, Self::zero_val()) == a,
            Self::add_val(Self::zero_val(), a) == a,
    ;

    proof fn lemma_add_comm(a: Self::V, b: Self::V)
        ensures
            Self::add_val(a, b) == Self::add_val(b, a),
    ;

    proof fn lemma_add_assoc(a: Self::V, b: Self::V, c: Self::V)
        ensures
            Self::add_val(Self::add_val(a, b), c) == Self::add_val(a, Self::add_val(b, c)),
    ;

    proof fn lemma_add_neg(a: Self::V)
        ensures
            Self::add_val(a, Self::scale_val(a, -(1 as real))) == Self::zero_val(),
    ;

    proof fn lemma_scale_unit(a: Self::V)
        ensures
            Self::scale_val(a, 1 as real) == a,
            Self::scale_val(a, 0 as real) == Self::zero_val(),
    ;

    proof fn lemma_scale_zero(c: real)
        ensures
            Self::scale_val(Self::zero_val(), c) == Self::zero_val(),
    ;

    proof fn lemma_scale_add(a: Self::V, b: Self::V, c: real)
        ensures
            Self::scale_val(Self::add_val(a, b), c) == Self::add_val(
                Self::scale_val(a, c),
                Self::scale_val(b, c),
            ),
    ;

    proof fn lemma_scale_sum(a: Self::V, c: real, d: real)
        ensures
            Self::scale_val(a, c + d) == Self::add_val(
                Self::scale_val(a, c),
                Self::scale_val(a, d),
            ),
    ;

    proof fn lemma_scale_scale(a: Self::V, c: real, d: real)
        ensures
            Self::scale_val(Self::scale_val(a, c), d) == Self::scale_val(a, c * d),
    ;

    /// A scalar other than zero takes only zero to zero.
    proof fn lemma_scale_nonzero(a: Self::V, c: real)
        requires
            c != 0 as real,
            Self::scale_val(a, c) == Self::zero_val(),
        ensures
            a == Self::zero_val(),
    ;

    fn zero() -> (r: Self)
        ensures
            r.wf(),
            r.val() == Self::zero_val(),
    ;

    fn one() -> (r: Self)
        ensures
            r.wf(),
            r.val() == Self::one_val(),
    ;

    fn is_zero(&self) -> (b: bool)
        requires
            self.wf(),
        ensures
            b == (self.val() == Self::zero_val()),
    ;

    /// Whether two coefficients denote the same value.
    fn same(&self, other: &Self) -> (b: bool)
        requires
            self.wf(),
            other.wf(),
        ensures
            b == (self.val() == other.val()),
    ;

    /// A copy.
    fn dup(&self) -> (r: Self)
        requires
            self.wf(),
        ensures
            r.wf(),
            r.val() == self.val(),
    ;

    /// The sum.
    fn plus(&self, other: &Self) -> (out: Option<Self>)
        requires
            self.wf(),
            other.wf(),
        ensures
            out.is_some() <==> Self::val_fits(Self::add_val(self.val(), other.val())),
            out matches Some(r) ==> r.wf() && r.val() == Self::add_val(self.val(), other.val()),
    ;

    /// The product with the scalar `c`.
    fn scaled(&self, c: &Rat) -> (out: Option<Self>)
        requires
            self.wf(),
            Rat::wf(*c),
        ensures
            out.is_some() <==> Self::val_fits(Self::scale_val(self.val(), c@)),
            out matches Some(r) ==> r.wf() && r.val() == Self::scale_val(self.val(), c@),
    ;

    /// The additive inverse.
    fn negated(&self) -> (out: Option<Self>)
        requires
            self.wf(),
        ensures
            out.is_some() <==> Self::val_fits(Self::scale_val(self.val(), -(1 as real))),
            out matches Some(r) ==> r.wf() && r.val() == Self::scale_val(
                self.val(),
                -(1 as real),
            ),
    ;
}

impl Coef for Rat {
    type V = real;

    open spec fn wf(&self) -> bool {
        Rat::wf(*self)
    }

    open spec fn val(&self) -> real {
        self@
    }

    open spec fn zero_val() -> real {
        0 as real
    }

    open spec fn one_val() -> real {
        1 as real
    }

    open spec fn add_val(a: real, b: real) -> real {
        a + b
    }

    open spec fn scale_val(a: real, c: real) -> real {
        a * c
    }

    open spec fn val_fits(a: real) -> bool {
        fits(a)
    }

    proof fn lemma_wf_fits(&self) {
        self.lemma_fits();
    }

    proof fn lemma_zero_one() {
        let z = Rat { num: 0, den: 1 };
        let o = Rat { num: 1, den: 1 };
        assert(z@ == 0 as real && o@ == 1 as real) by (nonlinear_arith)
            requires
                z@ == 0 as real / 1 as real,
                o@ == 1 as real / 1 as real,
        ;
        z.lemma_fits();
        o.lemma_fits();
    }

    proof fn lemma_add_zero(a: real) {
    }

    proof fn lemma_add_comm(a: real, b: real) {
    }

    proof fn lemma_add_assoc(a: real, b: real, c: real) {
    }

    proof fn lemma_add_neg(a: real) {
        assert(a + a * (-(1 as real)) == 0 as real) by (nonlinear_arith);
    }

    proof fn lemma_scale_unit(a: real) {
        assert(a * (1 as real) == a && a * (0 as real) == 0 as real) by (nonlinear_arith);
    }

    proof fn lemma_scale_zero(c: real) {
        assert((0 as real) * c == 0 as real) by (nonlinear_arith);
    }

    proof fn lemma_scale_add(a: real, b: real, c: real) {
        assert((a + b) * c == a * c + b * c) by (nonlinear_arith);
    }

    proof fn lemma_scale_sum(a: real, c: real, d: real) {
        assert(a * (c + d) == a * c + a * d) by (nonlinear_arith);
    }

    proof fn lemma_scale_scale(a: real, c: real, d: real) {
        assert((a * c) * d == a * (c * d)) by (nonlinear_arith);
    }

    proof fn lemma_scale_nonzero(a: real, c: real) {
        assert(a == 0 as real) by (nonlinear_arith)
            requires
                c != 0 as real,
                a * c == 0 as real,
        ;
    }

    fn zero() -> (r: Rat) {
        Rat::zero()
    }

    fn one() -> (r: Rat) {
        Rat::one()
    }

    fn is_zero(&self) -> (b: bool) {
        Rat::is_zero(self)
    }

    fn same(&self, other: &Rat) -> (b: bool) {
        self.equals(other)
    }

    fn dup(&self) -> (r: Rat) {
        *self
    }

    fn plus(&self, other: &Rat) -> (out: Option<Rat>) {
        self.add(other)
    }

    fn scaled(&self, c: &Rat) -> (out: Option<Rat>) {
        self.mul(c)
    }

    fn negated(&self) -> (out: Option<Rat>) {
        let out = self.neg();
        proof {
            assert(self@ * (-(1 as real)) == -self@) by (nonlinear_arith);
        }
        out
    }
}

} // verus!
