//! Ideals of templates: the sets of templates known to vanish at a point
//! of a program.
//!
//! An ideal holds its generators as a list without repetition. Two ideals
//! are the same when they have the same generators, in whatever order.
use crate::failure::Failure;
use crate::linexp::LinExp;
use crate::mon::{term_zero, Term};
use crate::poly::{Poly, PolyView};
use crate::ring::{fresh_pars, Ring, Var};
use crate::temp::{ansatz, rem_spec, subs_spec, Temp, TempView};
use crate::exps::monomials;
use crate::terms::{leading_degree, mul_spec};
use vstd::prelude::*;

verus! {

/// A set of templates, asserted to vanish.
///
/// The derived `==` compares the generators in the order held, so two
/// ideals with the same generators in another order are not `==`; `same`
/// compares them as sets.
#[derive(Clone, PartialEq, Eq, Debug)]
pub struct PIdeal {
    pub gens: Vec<Temp>,
}

/// What an ideal denotes: its generators, in the order held.
pub type IdealView = Seq<TempView>;

/// The list `s` with the template `t`, unless it holds `t` already.
pub open spec fn add_gen(s: IdealView, t: TempView) -> IdealView {
    if s.contains(t) {
        s
    } else {
        s.push(t)
    }
}

/// The list `a` with every template of `b`, from first to last.
pub open spec fn union_spec(a: IdealView, b: IdealView) -> IdealView
    decreases b.len(),
{
    if b.len() == 0 {
        a
    } else {
        add_gen(union_spec(a, b.drop_last()), b.last())
    }
}

/// The products of the generators with the polynomial `p`.
pub open spec fn mul_ideal(s: IdealView, p: PolyView) -> Option<IdealView>
    decreases s.len(),
{
    if s.len() == 0 {
        Some(Seq::empty())
    } else {
        match mul_ideal(s.drop_last(), p) {
            None => None,
            Some(acc) => match mul_spec::<LinExp>(s.last(), p) {
                None => None,
                Some(t) => Some(add_gen(acc, t)),
            },
        }
    }
}

/// The generators with the polynomial `p` in place of the variable `v`.
pub open spec fn subs_ideal(s: IdealView, v: Var, p: PolyView) -> Option<IdealView>
    decreases s.len(),
{
    if s.len() == 0 {
        Some(Seq::empty())
    } else {
        match subs_ideal(s.drop_last(), v, p) {
            None => None,
            Some(acc) => match subs_spec(s.last(), v, p) {
                None => None,
                Some(t) => Some(add_gen(acc, t)),
            },
        }
    }
}

/// The remainder of one template modulo the polynomial `p`, in a ring of
/// `n` variables whose parameters have the bound `base`, and the bound
/// afterwards.
pub open spec fn rem_one(t: TempView, p: PolyView, n: int, base: int) -> Result<
    (TempView, int),
    Failure,
> {
    if leading_degree(t) < leading_degree(p) {
        Err(Failure::DegreeMismatch)
    } else {
        let ms = monomials(n, leading_degree(t) - leading_degree(p));
        if base + ms.len() > usize::MAX + 1 {
            Err(Failure::Overflow)
        } else {
            match rem_spec(t, p, ansatz(ms, base)) {
                None => Err(Failure::Overflow),
                Some(r) => Ok((r, base + ms.len())),
            }
        }
    }
}

/// The remainders of the generators modulo the polynomial `p`, one after
/// the other, each with new parameters from the bound that the one before
/// left.
pub open spec fn rem_ideal(s: IdealView, p: PolyView, n: int, base: int) -> Result<
    (IdealView, int),
    Failure,
>
    decreases s.len(),
{
    if s.len() == 0 {
        Ok((Seq::empty(), base))
    } else {
        match rem_ideal(s.drop_last(), p, n, base) {
            Err(e) => Err(e),
            Ok((acc, b1)) => match rem_one(s.last(), p, n, b1) {
                Err(e) => Err(e),
                Ok((t, b2)) => Ok((add_gen(acc, t), b2)),
            },
        }
    }
}

/// A failure on the first generators is a failure on all.
pub proof fn lemma_mul_ideal_prefix(s: IdealView, p: PolyView, k: int)
    requires
        0 <= k <= s.len(),
        mul_ideal(s.take(k), p).is_none(),
    ensures
        mul_ideal(s, p).is_none(),
    decreases s.len() - k,
{
    if k == s.len() {
        assert(s.take(k) == s);
    } else {
        assert(s.drop_last().take(k) == s.take(k));
        lemma_mul_ideal_prefix(s.drop_last(), p, k);
    }
}

/// A failure on the first generators is a failure on all.
pub proof fn lemma_subs_ideal_prefix(s: IdealView, v: Var, p: PolyView, k: int)
    requires
        0 <= k <= s.len(),
        subs_ideal(s.take(k), v, p).is_none(),
    ensures
        subs_ideal(s, v, p).is_none(),
    decreases s.len() - k,
{
    if k == s.len() {
        assert(s.take(k) == s);
    } else {
        assert(s.drop_last().take(k) == s.take(k));
        lemma_subs_ideal_prefix(s.drop_last(), v, p, k);
    }
}

/// A failure on the first generators is the failure on all.
pub proof fn lemma_rem_ideal_prefix(s: IdealView, p: PolyView, n: int, base: int, k: int)
    requires
        0 <= k <= s.len(),
        rem_ideal(s.take(k), p, n, base) is Err,
    ensures
        rem_ideal(s, p, n, base) == rem_ideal(s.take(k), p, n, base),
    decreases s.len() - k,
{
    if k == s.len() {
        assert(s.take(k) == s);
    } else {
        assert(s.drop_last().take(k) == s.take(k));
        lemma_rem_ideal_prefix(s.drop_last(), p, n, base, k);
    }
}

impl View for PIdeal {
    type V = IdealView;

    open spec fn view(&self) -> IdealView {
        Seq::new(self.gens@.len(), |i: int| self.gens@[i]@)
    }
}

impl PIdeal {
    /// Every generator is well formed and none occurs twice.
    pub open spec fn wf(&self) -> bool {
        &&& forall|i: int| 0 <= i < self.gens@.len() ==> (#[trigger] self.gens@[i]).wf()
        &&& forall|i: int, j: int|
            0 <= i < j < self.gens@.len() ==> (#[trigger] self.gens@[i])@ != (
            #[trigger] self.gens@[j])@
    }

    /// The ideal without generators.
    pub fn new() -> (r: PIdeal)
        ensures
            r.wf(),
            r@ == Seq::<TempView>::empty(),
    {
        let r = PIdeal { gens: Vec::new() };
        assert(r@ =~= Seq::<TempView>::empty());
        r
    }

    /// Whether the template `t` is a generator.
    pub fn contains(&self, t: &Temp) -> (b: bool)
        requires
            self.wf(),
            t.wf(),
        ensures
            b == self@.contains(t@),
    {
        let mut i: usize = 0;
        while i < self.gens.len()
            invariant
                i <= self.gens@.len(),
                self.wf(),
                t.wf(),
                forall|j: int| 0 <= j < i ==> self@[j] != t@,
            decreases self.gens@.len() - i,
        {
            assert(self.gens@[i as int].wf());
            if self.gens[i].equals(t) {
                assert(self@[i as int] == t@);
                return true;
            }
            i += 1;
        }
        false
    }

    /// Takes the template `t` among the generators, unless it is one
    /// already.
    pub fn insert(&mut self, t: Temp)
        requires
            old(self).wf(),
            t.wf(),
        ensures
            final(self).wf(),
            final(self)@ == add_gen(old(self)@, t@),
    {
        if !self.contains(&t) {
            let ghost s = self@;
            let ghost g = self.gens@;
            self.gens.push(t);
            proof {
                assert(self@ =~= s.push(t@));
                assert forall|i: int| 0 <= i < self.gens@.len() implies (
                #[trigger] self.gens@[i]).wf() by {
                    if i < g.len() {
                        assert(self.gens@[i] == g[i]);
                    }
                }
                assert forall|i: int, j: int| 0 <= i < j < self.gens@.len() implies (
                #[trigger] self.gens@[i])@ != (#[trigger] self.gens@[j])@ by {
                    assert(self.gens@[i] == g[i]);
                    if j < g.len() {
                        assert(self.gens@[j] == g[j]);
                    } else {
                        assert(s[i] == g[i]@);
                    }
                }
            }
        }
    }

    /// The ideal of the zero template.
    pub fn zero() -> (r: PIdeal)
        ensures
            r.wf(),
            r@ == seq![seq![term_zero::<LinExp>()]],
    {
        let mut r = PIdeal::new();
        r.insert(Temp::zero());
        assert(r@ =~= seq![seq![term_zero::<LinExp>()]]);
        r
    }

    /// The ideal of one template.
    pub fn from_temp(t: Temp) -> (r: PIdeal)
        requires
            t.wf(),
        ensures
            r.wf(),
            r@ == seq![t@],
    {
        let ghost tv = t@;
        let mut r = PIdeal::new();
        r.insert(t);
        assert(r@ =~= seq![tv]);
        r
    }

    /// The ideal of the most general template of total degree `d`, whose
    /// parameters are taken into use in `ring`. `None`, and no change to
    /// `ring`, exactly when the ordinals of the parameters do not suffice.
    pub fn most_gen(d: usize, ring: &mut Ring) -> (out: Option<PIdeal>)
        requires
            old(ring).wf(),
        ensures
            final(ring).wf(),
            final(ring).vars@ == old(ring).vars@,
            out.is_some() <==> old(ring).par_bound() + monomials(
                old(ring).vars@.len() as int,
                d as int,
            ).len() <= usize::MAX + 1,
            out.is_none() ==> final(ring).pars@ == old(ring).pars@,
            out matches Some(r) ==> r.wf() && r@ == seq![
                ansatz(monomials(old(ring).vars@.len() as int, d as int), old(ring).par_bound()),
            ] && final(ring).pars@ == old(ring).pars@ + fresh_pars(
                old(ring).par_bound(),
                monomials(old(ring).vars@.len() as int, d as int).len() as int,
            ),
    {
        match Temp::most_gen(d, ring) {
            None => None,
            Some(t) => Some(PIdeal::from_temp(t)),
        }
    }

    /// A copy.
    pub fn dup(&self) -> (r: PIdeal)
        requires
            self.wf(),
        ensures
            r.wf(),
            r@ == self@,
    {
        let mut gens: Vec<Temp> = Vec::new();
        let mut i: usize = 0;
        while i < self.gens.len()
            invariant
                i <= self.gens@.len(),
                self.wf(),
                gens@.len() == i,
                forall|j: int| 0 <= j < i ==> (#[trigger] gens@[j]).wf() && gens@[j]@ == self@[j],
            decreases self.gens@.len() - i,
        {
            assert(self.gens@[i as int].wf());
            gens.push(self.gens[i].dup());
            i += 1;
        }
        let r = PIdeal { gens };
        proof {
            assert(r@ =~= self@);
            assert forall|i: int, j: int| 0 <= i < j < r.gens@.len() implies (
            #[trigger] r.gens@[i])@ != (#[trigger] r.gens@[j])@ by {
                assert(r.gens@[i]@ == self@[i] && r.gens@[j]@ == self@[j]);
                assert(self.gens@[i]@ != self.gens@[j]@);
            }
        }
        r
    }

    /// The union: `self` with the generators of `other` that it lacks.
    pub fn union(self, other: PIdeal) -> (r: PIdeal)
        requires
            self.wf(),
            other.wf(),
        ensures
            r.wf(),
            r@ == union_spec(self@, other@),
    {
        let ghost a = self@;
        let ghost b = other@;
        let mut r = self;
        let mut i: usize = 0;
        proof {
            assert(b.take(0) =~= Seq::empty());
        }
        while i < other.gens.len()
            invariant
                i <= other.gens@.len(),
                other.wf(),
                b == other@,
                r.wf(),
                r@ == union_spec(a, b.take(i as int)),
            decreases other.gens@.len() - i,
        {
            assert(other.gens@[i as int].wf());
            proof {
                assert(b.take(i + 1).drop_last() == b.take(i as int));
                assert(b.take(i + 1).last() == other.gens@[i as int]@);
            }
            r.insert(other.gens[i].dup());
            i += 1;
        }
        proof {
            assert(b.take(b.len() as int) == b);
        }
        r
    }

    /// The ideal of the products of the generators with the polynomial
    /// `p`.
    pub fn mul(&self, p: &Poly) -> (out: Option<PIdeal>)
        requires
            self.wf(),
            p.wf(),
        ensures
            out.is_some() == mul_ideal(self@, p@).is_some(),
            out matches Some(r) ==> r.wf() && Some(r@) == mul_ideal(self@, p@),
    {
        let ghost s = self@;
        let mut r = PIdeal::new();
        let mut i: usize = 0;
        proof {
            assert(s.take(0) =~= Seq::empty());
        }
        while i < self.gens.len()
            invariant
                i <= self.gens@.len(),
                self.wf(),
                p.wf(),
                s == self@,
                r.wf(),
                mul_ideal(s.take(i as int), p@) == Some(r@),
            decreases self.gens@.len() - i,
        {
            assert(self.gens@[i as int].wf());
            proof {
                assert(s.take(i + 1).drop_last() == s.take(i as int));
                assert(s.take(i + 1).last() == self.gens@[i as int]@);
            }
            match self.gens[i].mul(p) {
                None => {
                    proof {
                        lemma_mul_ideal_prefix(s, p@, i + 1);
                    }
                    return None;
                },
                Some(t) => {
                    r.insert(t);
                },
            }
            i += 1;
        }
        proof {
            assert(s.take(s.len() as int) == s);
        }
        Some(r)
    }

    /// The ideal of the generators with the polynomial `p` in place of the
    /// variable `v`.
    pub fn subs(&self, v: Var, p: &Poly) -> (out: Option<PIdeal>)
        requires
            self.wf(),
            p.wf(),
        ensures
            out.is_some() == subs_ideal(self@, v, p@).is_some(),
            out matches Some(r) ==> r.wf() && Some(r@) == subs_ideal(self@, v, p@),
    {
        let ghost s = self@;
        let mut r = PIdeal::new();
        let mut i: usize = 0;
        proof {
            assert(s.take(0) =~= Seq::empty());
        }
        while i < self.gens.len()
            invariant
                i <= self.gens@.len(),
                self.wf(),
                p.wf(),
                s == self@,
                r.wf(),
                subs_ideal(s.take(i as int), v, p@) == Some(r@),
            decreases self.gens@.len() - i,
        {
            assert(self.gens@[i as int].wf());
            proof {
                assert(s.take(i + 1).drop_last() == s.take(i as int));
                assert(s.take(i + 1).last() == self.gens@[i as int]@);
            }
            match self.gens[i].subs(v, p) {
                None => {
                    proof {
                        lemma_subs_ideal_prefix(s, v, p@, i + 1);
                    }
                    return None;
                },
                Some(t) => {
                    r.insert(t);
                },
            }
            i += 1;
        }
        proof {
            assert(s.take(s.len() as int) == s);
        }
        Some(r)
    }

    /// The ideal of the remainders of the generators modulo the polynomial
    /// `p`, each with a most general template of its own, whose parameters
    /// are taken into use in `ring`. On failure some of the parameters may
    /// have been taken into use.
    pub fn rem_par(&self, p: &Poly, ring: &mut Ring) -> (out: Result<PIdeal, Failure>)
        requires
            self.wf(),
            p.wf(),
            old(ring).wf(),
        ensures
            final(ring).wf(),
            final(ring).vars@ == old(ring).vars@,
            old(ring).par_bound() <= final(ring).par_bound(),
            out matches Ok(r) ==> r.wf() && rem_ideal(
                self@,
                p@,
                old(ring).vars@.len() as int,
                old(ring).par_bound(),
            ) == Ok::<(IdealView, int), Failure>((r@, final(ring).par_bound())),
            out matches Err(e) ==> rem_ideal(
                self@,
                p@,
                old(ring).vars@.len() as int,
                old(ring).par_bound(),
            ) == Err::<(IdealView, int), Failure>(e),
    {
        let ghost s = self@;
        let ghost n = ring.vars@.len() as int;
        let ghost base = ring.par_bound();
        let mut r = PIdeal::new();
        let mut i: usize = 0;
        proof {
            assert(s.take(0) =~= Seq::empty());
        }
        while i < self.gens.len()
            invariant
                i <= self.gens@.len(),
                self.wf(),
                p.wf(),
                s == self@,
                r.wf(),
                ring.wf(),
                ring.vars@ == old(ring).vars@,
                n == old(ring).vars@.len(),
                base == old(ring).par_bound(),
                base <= ring.par_bound(),
                rem_ideal(s.take(i as int), p@, n, base) == Ok::<(IdealView, int), Failure>(
                    (r@, ring.par_bound()),
                ),
            decreases self.gens@.len() - i,
        {
            assert(self.gens@[i as int].wf());
            proof {
                assert(s.take(i + 1).drop_last() == s.take(i as int));
                assert(s.take(i + 1).last() == self.gens@[i as int]@);
            }
            let ghost b1 = ring.par_bound();
            match self.gens[i].rem_par(p, ring) {
                Err(e) => {
                    proof {
                        assert(rem_one(self.gens@[i as int]@, p@, n, b1) == Err::<
                            (TempView, int),
                            Failure,
                        >(e));
                        lemma_rem_ideal_prefix(s, p@, n, base, i + 1);
                    }
                    return Err(e);
                },
                Ok(t) => {
                    r.insert(t);
                },
            }
            i += 1;
        }
        proof {
            assert(s.take(s.len() as int) == s);
        }
        Ok(r)
    }

    /// Whether every generator of `self` is a generator of `other`.
    pub fn subset_of(&self, other: &PIdeal) -> (b: bool)
        requires
            self.wf(),
            other.wf(),
        ensures
            b == forall|t: TempView| self@.contains(t) ==> other@.contains(t),
    {
        let mut i: usize = 0;
        while i < self.gens.len()
            invariant
                i <= self.gens@.len(),
                self.wf(),
                other.wf(),
                forall|j: int| 0 <= j < i ==> other@.contains(#[trigger] self@[j]),
            decreases self.gens@.len() - i,
        {
            assert(self.gens@[i as int].wf());
            if !other.contains(&self.gens[i]) {
                assert(self@.contains(self@[i as int]));
                return false;
            }
            i += 1;
        }
        true
    }

    /// Whether two ideals have the same generators.
    pub fn same(&self, other: &PIdeal) -> (b: bool)
        requires
            self.wf(),
            other.wf(),
        ensures
            b == same_gens(self@, other@),
    {
        self.subset_of(other) && other.subset_of(self)
    }
}

/// The two lists hold the same templates.
pub open spec fn same_gens(a: IdealView, b: IdealView) -> bool {
    forall|t: TempView| a.contains(t) <==> b.contains(t)
}

} // verus!
