//! Monomials: a coefficient and an exponent vector.
//!
//! A monomial whose coefficient is zero has no exponents: it is the zero
//! sentinel, the least element of the monomial order. Every other monomial
//! is ordered by its exponent vector alone.
use crate::coef::Coef;
use crate::exps::{
    degree, exps_dup, exps_from_pairs, exps_mul, exps_of_pairs, exps_order, exps_product,
    exps_same, exps_wf, grevlex, lemma_grevlex_equal, lemma_grevlex_flip, lemma_grevlex_trans,
    Exps, Order,
};
use crate::rat::Rat;
use crate::ring::Var;
use vstd::prelude::*;

verus! {

/// What a monomial denotes: an exponent vector and the value of the
/// coefficient.
pub struct Term<V> {
    pub exps: Exps,
    pub coef: V,
}

/// A monomial with coefficients of type `T`.
#[derive(Clone, PartialEq, Eq, Debug)]
pub struct Mon<T: Coef> {
    pub vars: Vec<(Var, usize)>,
    pub coef: T,
}

impl<T: Coef> View for Mon<T> {
    type V = Term<T::V>;

    open spec fn view(&self) -> Term<T::V> {
        Term { exps: self.vars@, coef: self.coef.val() }
    }
}

/// A well-formed exponent vector, empty where the coefficient is zero.
pub open spec fn term_wf<T: Coef>(t: Term<T::V>) -> bool {
    &&& exps_wf(t.exps)
    &&& t.coef == T::zero_val() ==> t.exps.len() == 0
}

/// The zero sentinel.
pub open spec fn term_zero<T: Coef>() -> Term<T::V> {
    Term { exps: Seq::empty(), coef: T::zero_val() }
}

/// The constant one.
pub open spec fn term_one<T: Coef>() -> Term<T::V> {
    Term { exps: Seq::empty(), coef: T::one_val() }
}

/// The monomial order: the zero sentinel lies below every other monomial,
/// and two monomials that are not zero compare as their exponent vectors.
pub open spec fn term_order<T: Coef>(a: Term<T::V>, b: Term<T::V>) -> Order {
    if a.coef == T::zero_val() && b.coef == T::zero_val() {
        Order::Equal
    } else if a.coef == T::zero_val() {
        Order::Less
    } else if b.coef == T::zero_val() {
        Order::Greater
    } else {
        grevlex(a.exps, b.exps)
    }
}

/// The product of a term and a rational term: a zero coefficient gives the
/// zero sentinel.
pub open spec fn term_mul<T: Coef>(a: Term<T::V>, b: Term<real>) -> Term<T::V> {
    let c = T::scale_val(a.coef, b.coef);
    if c == T::zero_val() {
        term_zero::<T>()
    } else {
        Term { exps: exps_mul(a.exps, b.exps), coef: c }
    }
}

/// The product of a term and a scalar.
pub open spec fn term_scale<T: Coef>(a: Term<T::V>, c: real) -> Term<T::V> {
    let v = T::scale_val(a.coef, c);
    if v == T::zero_val() {
        term_zero::<T>()
    } else {
        Term { exps: a.exps, coef: v }
    }
}

/// No monomial lies below itself: a monomial compares `Equal` to itself.
pub proof fn lemma_order_irreflexive<T: Coef>(a: Term<T::V>)
    ensures
        term_order::<T>(a, a) == Order::Equal,
{
    lemma_grevlex_equal(a.exps, a.exps);
}

/// Two monomials compare `Equal` exactly when they have the same exponent
/// vector and are both zero or both not zero: of two distinct monomials one
/// lies below the other.
pub proof fn lemma_order_total<T: Coef>(a: Term<T::V>, b: Term<T::V>)
    requires
        term_wf::<T>(a),
        term_wf::<T>(b),
    ensures
        term_order::<T>(a, b) == Order::Equal <==> (a.exps == b.exps && (a.coef == T::zero_val()
            <==> b.coef == T::zero_val())),
{
    lemma_grevlex_equal(a.exps, b.exps);
}

/// `a` lies below `b` exactly when `b` lies above `a`.
pub proof fn lemma_order_asymmetric<T: Coef>(a: Term<T::V>, b: Term<T::V>)
    ensures
        term_order::<T>(a, b) == Order::Less <==> term_order::<T>(b, a) == Order::Greater,
        term_order::<T>(a, b) == Order::Greater <==> term_order::<T>(b, a) == Order::Less,
        term_order::<T>(a, b) == Order::Equal <==> term_order::<T>(b, a) == Order::Equal,
{
    lemma_grevlex_flip(a.exps, b.exps);
}

/// The order is transitive.
pub proof fn lemma_order_transitive<T: Coef>(a: Term<T::V>, b: Term<T::V>, c: Term<T::V>)
    requires
        term_order::<T>(a, b) == Order::Less,
        term_order::<T>(b, c) == Order::Less,
    ensures
        term_order::<T>(a, c) == Order::Less,
{
    if a.coef != T::zero_val() {
        lemma_grevlex_trans(a.exps, b.exps, c.exps);
    }
}

/// The zero sentinel lies below every monomial that is not zero, and no
/// monomial lies below it.
pub proof fn lemma_zero_least<T: Coef>(a: Term<T::V>)
    ensures
        a.coef != T::zero_val() ==> term_order::<T>(term_zero::<T>(), a) == Order::Less,
        term_order::<T>(a, term_zero::<T>()) != Order::Less,
{
}

/// Of two monomials that are not zero, the one of smaller total degree lies
/// below the other.
pub proof fn lemma_degree_dominates<T: Coef>(a: Term<T::V>, b: Term<T::V>)
    requires
        a.coef != T::zero_val(),
        b.coef != T::zero_val(),
        degree(a.exps) < degree(b.exps),
    ensures
        term_order::<T>(a, b) == Order::Less,
{
}

impl<T: Coef> Mon<T> {
    /// The representation invariant.
    pub open spec fn wf(&self) -> bool {
        &&& self.coef.wf()
        &&& term_wf::<T>(self@)
    }

    /// The constant one.
    pub fn one() -> (m: Mon<T>)
        ensures
            m.wf(),
            m@ == term_one::<T>(),
    {
        proof {
            T::lemma_zero_one();
        }
        Mon { vars: Vec::new(), coef: T::one() }
    }

    /// The zero sentinel.
    pub fn zero() -> (m: Mon<T>)
        ensures
            m.wf(),
            m@ == term_zero::<T>(),
    {
        Mon { vars: Vec::new(), coef: T::zero() }
    }

    /// Whether the monomial has no variables.
    pub fn is_cnst(&self) -> (b: bool)
        ensures
            b == (self@.exps.len() == 0),
    {
        self.vars.len() == 0
    }

    /// Whether the monomial is the zero sentinel.
    pub fn is_zero(&self) -> (b: bool)
        requires
            self.wf(),
        ensures
            b == (self@.coef == T::zero_val()),
            b == (self@ == term_zero::<T>()),
    {
        let b = self.coef.is_zero();
        proof {
            if b {
                assert(self@.exps =~= Seq::empty());
            }
        }
        b
    }

    /// The variable `v`, with exponent one and coefficient one.
    pub fn from_var(v: Var) -> (m: Mon<T>)
        ensures
            m.wf(),
            m@ == (Term::<T::V> { exps: seq![(v, 1usize)], coef: T::one_val() }),
    {
        let mut vars: Vec<(Var, usize)> = Vec::new();
        vars.push((v, 1));
        proof {
            T::lemma_zero_one();
            assert(vars@ == seq![(v, 1usize)]);
            assert(vars@.drop_last().len() == 0);
            assert(degree(vars@) == 1) by {
                reveal_with_fuel(degree, 2);
            }
        }
        Mon { vars, coef: T::one() }
    }

    /// The product of the powers that `pairs` lists, with coefficient one.
    /// Of two pairs for one variable the later one counts, and an exponent
    /// of zero removes the variable. `None` when the total degree exceeds a
    /// machine word.
    pub fn from_pairs(pairs: &Vec<(Var, usize)>) -> (out: Option<Mon<T>>)
        ensures
            out.is_some() <==> degree(exps_of_pairs(pairs@)) <= usize::MAX,
            out matches Some(m) ==> m.wf() && m@ == (Term::<T::V> {
                exps: exps_of_pairs(pairs@),
                coef: T::one_val(),
            }),
    {
        proof {
            T::lemma_zero_one();
        }
        match exps_from_pairs(pairs) {
            Some(vars) => Some(Mon { vars, coef: T::one() }),
            None => None,
        }
    }

    /// A copy.
    pub fn dup(&self) -> (m: Mon<T>)
        requires
            self.wf(),
        ensures
            m.wf(),
            m@ == self@,
    {
        Mon { vars: exps_dup(&self.vars), coef: self.coef.dup() }
    }

    /// The place of `self` relative to `other` in the monomial order.
    pub fn compare(&self, other: &Mon<T>) -> (r: Order)
        requires
            self.wf(),
            other.wf(),
        ensures
            r == term_order::<T>(self@, other@),
    {
        let az = self.coef.is_zero();
        let bz = other.coef.is_zero();
        if az && bz {
            Order::Equal
        } else if az {
            Order::Less
        } else if bz {
            Order::Greater
        } else {
            exps_order(&self.vars, &other.vars)
        }
    }

    /// Whether `self` lies strictly below `other` in the monomial order.
    pub fn lt(&self, other: &Mon<T>) -> (b: bool)
        requires
            self.wf(),
            other.wf(),
        ensures
            b == (term_order::<T>(self@, other@) == Order::Less),
    {
        match self.compare(other) {
            Order::Less => true,
            _ => false,
        }
    }

    /// Whether two monomials have the same exponents and coefficients of the
    /// same value.
    pub fn equals(&self, other: &Mon<T>) -> (b: bool)
        requires
            self.wf(),
            other.wf(),
        ensures
            b == (self@ == other@),
    {
        exps_same(&self.vars, &other.vars) && self.coef.same(&other.coef)
    }

    /// The product with the scalar `c`: the coefficient is multiplied, and a
    /// product of zero is the zero sentinel. `None` when the coefficient
    /// cannot be represented.
    pub fn scale(&self, c: &Rat) -> (out: Option<Mon<T>>)
        requires
            self.wf(),
            Rat::wf(*c),
        ensures
            out.is_some() <==> T::val_fits(T::scale_val(self@.coef, c@)),
            out matches Some(m) ==> m.wf() && m@ == term_scale::<T>(self@, c@),
    {
        match self.coef.scaled(c) {
            None => None,
            Some(coef) => {
                if coef.is_zero() {
                    Some(Mon::zero())
                } else {
                    Some(Mon { vars: exps_dup(&self.vars), coef })
                }
            },
        }
    }

    /// The product with a rational monomial: coefficients multiply and
    /// exponents add, and a product of zero is the zero sentinel. `None`
    /// when the coefficient cannot be represented, or when the product is
    /// not zero and its total degree exceeds a machine word.
    pub fn mul_mon(&self, rhs: &Mon<Rat>) -> (out: Option<Mon<T>>)
        requires
            self.wf(),
            rhs.wf(),
        ensures
            out.is_some() <==> T::val_fits(T::scale_val(self@.coef, rhs@.coef)) && (T::scale_val(
                self@.coef,
                rhs@.coef,
            ) == T::zero_val() || degree(self@.exps) + degree(rhs@.exps) <= usize::MAX),
            out matches Some(m) ==> m.wf() && m@ == term_mul::<T>(self@, rhs@),
    {
        match self.coef.scaled(&rhs.coef) {
            None => None,
            Some(coef) => {
                if coef.is_zero() {
                    Some(Mon::zero())
                } else {
                    match exps_product(&self.vars, &rhs.vars) {
                        None => None,
                        Some(vars) => Some(Mon { vars, coef }),
                    }
                }
            },
        }
    }
}

} // verus!
