//! Generation of constraints: the backward walk through a program.
//!
//! The walk carries an ideal, what has to vanish after the rest of the
//! program, back through each statement, and gathers for each loop the
//! obligation that the ideal before the loop and the ideal before its body
//! become equal.
use crate::expr::{expr_wf, Expr, Pred};
use crate::expr_parse::{views_of, Pre, PreV, E, EV};
use crate::poly_parse::{create_poly, names_after, poly_of};
use crate::ring::{intern_id, intern_names, Var};
use crate::failure::Failure;
use crate::ideal::{
    mul_ideal, rem_ideal, same_gens, subs_ideal, union_spec, IdealView, PIdeal,
};
use crate::ring::Ring;
use vstd::prelude::*;

verus! {

/// A pair of ideals that have to become equal. The order of the two does
/// not matter.
#[derive(Clone, Debug)]
pub struct Constraint(pub PIdeal, pub PIdeal);

/// A set of constraints.
#[derive(Clone, Debug)]
pub struct Cs {
    pub items: Vec<Constraint>,
}

/// What a set of constraints denotes: its pairs, in the order held.
pub type CsView = Seq<(IdealView, IdealView)>;

/// The two pairs hold the same two ideals, in either order.
pub open spec fn same_pair(a: (IdealView, IdealView), b: (IdealView, IdealView)) -> bool {
    (same_gens(a.0, b.0) && same_gens(a.1, b.1)) || (same_gens(a.0, b.1) && same_gens(a.1, b.0))
}

/// The list `s` holds a pair that is the same as `c`.
pub open spec fn has_pair(s: CsView, c: (IdealView, IdealView)) -> bool {
    exists|i: int| 0 <= i < s.len() && same_pair(#[trigger] s[i], c)
}

/// The list `s` with the pair `c`, unless it holds the same pair already.
pub open spec fn add_pair(s: CsView, c: (IdealView, IdealView)) -> CsView {
    if has_pair(s, c) {
        s
    } else {
        s.push(c)
    }
}

/// The list `a` with every pair of `b`, from first to last.
pub open spec fn union_pairs(a: CsView, b: CsView) -> CsView
    decreases b.len(),
{
    if b.len() == 0 {
        a
    } else {
        add_pair(union_pairs(a, b.drop_last()), b.last())
    }
}

impl View for Constraint {
    type V = (IdealView, IdealView);

    open spec fn view(&self) -> (IdealView, IdealView) {
        (self.0@, self.1@)
    }
}

impl Constraint {
    pub open spec fn wf(&self) -> bool {
        self.0.wf() && self.1.wf()
    }

    /// Whether two constraints hold the same two ideals, in either order.
    pub fn same(&self, other: &Constraint) -> (b: bool)
        requires
            self.wf(),
            other.wf(),
        ensures
            b == same_pair(self@, other@),
    {
        (self.0.same(&other.0) && self.1.same(&other.1)) || (self.0.same(&other.1)
            && self.1.same(&other.0))
    }

    /// A copy.
    pub fn dup(&self) -> (r: Constraint)
        requires
            self.wf(),
        ensures
            r.wf(),
            r@ == self@,
    {
        Constraint(self.0.dup(), self.1.dup())
    }
}

impl View for Cs {
    type V = CsView;

    open spec fn view(&self) -> CsView {
        Seq::new(self.items@.len(), |i: int| self.items@[i]@)
    }
}

impl Cs {
    /// Every constraint is well formed and none occurs twice.
    pub open spec fn wf(&self) -> bool {
        &&& forall|i: int| 0 <= i < self.items@.len() ==> (#[trigger] self.items@[i]).wf()
        &&& forall|i: int, j: int|
            0 <= i < j < self.items@.len() ==> !same_pair(
                (#[trigger] self.items@[i])@,
                (#[trigger] self.items@[j])@,
            )
    }

    /// The empty set.
    pub fn new() -> (r: Cs)
        ensures
            r.wf(),
            r@ == Seq::<(IdealView, IdealView)>::empty(),
    {
        let r = Cs { items: Vec::new() };
        assert(r@ =~= Seq::<(IdealView, IdealView)>::empty());
        r
    }

    /// Whether the set holds the same constraint as `e`.
    pub fn contains(&self, e: &Constraint) -> (b: bool)
        requires
            self.wf(),
            e.wf(),
        ensures
            b == has_pair(self@, e@),
    {
        let mut i: usize = 0;
        while i < self.items.len()
            invariant
                i <= self.items@.len(),
                self.wf(),
                e.wf(),
                forall|j: int| 0 <= j < i ==> !same_pair(#[trigger] self@[j], e@),
            decreases self.items@.len() - i,
        {
            assert(self.items@[i as int].wf());
            if self.items[i].same(e) {
                assert(same_pair(self@[i as int], e@));
                return true;
            }
            i += 1;
        }
        false
    }

    /// The set with the constraint `e`.
    pub fn add(self, e: Constraint) -> (r: Cs)
        requires
            self.wf(),
            e.wf(),
        ensures
            r.wf(),
            r@ == add_pair(self@, e@),
    {
        if self.contains(&e) {
            self
        } else {
            let ghost s = self@;
            let ghost g = self.items@;
            let ghost ev = e@;
            let mut r = self;
            r.items.push(e);
            proof {
                assert(r@ =~= s.push(ev));
                assert forall|i: int| 0 <= i < r.items@.len() implies (
                #[trigger] r.items@[i]).wf() by {
                    if i < g.len() {
                        assert(r.items@[i] == g[i]);
                    }
                }
                assert forall|i: int, j: int| 0 <= i < j < r.items@.len() implies !same_pair(
                    (#[trigger] r.items@[i])@,
                    (#[trigger] r.items@[j])@,
                ) by {
                    assert(r.items@[i] == g[i]);
                    if j < g.len() {
                        assert(r.items@[j] == g[j]);
                    } else {
                        assert(s[i] == g[i]@);
                        assert(!same_pair(s[i], ev));
                    }
                }
            }
            r
        }
    }

    /// A copy.
    pub fn dup(&self) -> (r: Cs)
        requires
            self.wf(),
        ensures
            r.wf(),
            r@ == self@,
    {
        let mut items: Vec<Constraint> = Vec::new();
        let mut i: usize = 0;
        while i < self.items.len()
            invariant
                i <= self.items@.len(),
                self.wf(),
                items@.len() == i,
                forall|j: int| 0 <= j < i ==> (#[trigger] items@[j]).wf() && items@[j]@ == self@[j],
            decreases self.items@.len() - i,
        {
            assert(self.items@[i as int].wf());
            items.push(self.items[i].dup());
            i += 1;
        }
        let r = Cs { items };
        proof {
            assert(r@ =~= self@);
            assert forall|i: int, j: int| 0 <= i < j < r.items@.len() implies !same_pair(
                (#[trigger] r.items@[i])@,
                (#[trigger] r.items@[j])@,
            ) by {
                assert(r.items@[i]@ == self@[i] && r.items@[j]@ == self@[j]);
                assert(!same_pair(self.items@[i]@, self.items@[j]@));
            }
        }
        r
    }

    /// The union: `self` with the constraints of `other` that it lacks.
    pub fn union(self, other: Cs) -> (r: Cs)
        requires
            self.wf(),
            other.wf(),
        ensures
            r.wf(),
            r@ == union_pairs(self@, other@),
    {
        let ghost a = self@;
        let ghost b = other@;
        let mut r = self;
        let mut i: usize = 0;
        proof {
            assert(b.take(0) =~= Seq::empty());
        }
        while i < other.items.len()
            invariant
                i <= other.items@.len(),
                other.wf(),
                b == other@,
                r.wf(),
                r@ == union_pairs(a, b.take(i as int)),
            decreases other.items@.len() - i,
        {
            assert(other.items@[i as int].wf());
            proof {
                assert(b.take(i + 1).drop_last() == b.take(i as int));
                assert(b.take(i + 1).last() == other.items@[i as int]@);
            }
            r = r.add(other.items[i].dup());
            i += 1;
        }
        proof {
            assert(b.take(b.len() as int) == b);
        }
        r
    }
}

/// What the backward walk through the program `e` gives: the ideal before
/// the program, the constraints gathered, and the bound of the parameters
/// afterwards. The walk starts from the ideal `ideal` after the program
/// and the constraints `cs`, in a ring of `n` variables whose parameters
/// have the bound `base`. Where `precise` holds, the ideal of the branch
/// that a guard excludes is multiplied by the polynomial of the guard.
pub open spec fn gen_spec(
    e: Expr,
    ideal: IdealView,
    cs: CsView,
    n: int,
    base: int,
    precise: bool,
) -> Result<(IdealView, CsView, int), Failure>
    decreases e, 0int,
{
    match e {
        Expr::Ass { lv, rv } => match subs_ideal(ideal, lv, rv@) {
            None => Err(Failure::Overflow),
            Some(i) => Ok((i, cs, base)),
        },
        Expr::Skip => Ok((ideal, cs, base)),
        Expr::Sequence { exprs } => gen_seq(exprs@, exprs@.len() as int, ideal, cs, n, base, precise),
        Expr::If { guard, the, els } => match gen_spec(*the, ideal, cs, n, base, precise) {
            Err(f) => Err(f),
            Ok((i1, c1, b1)) => match gen_spec(*els, ideal, cs, n, b1, precise) {
                Err(f) => Err(f),
                Ok((i2, c2, b2)) => {
                    let (kept, other) = if guard.eq {
                        (i1, i2)
                    } else {
                        (i2, i1)
                    };
                    match rem_ideal(kept, guard.p@, n, b2) {
                        Err(f) => Err(f),
                        Ok((r, b3)) => if precise {
                            match mul_ideal(other, guard.p@) {
                                None => Err(Failure::Overflow),
                                Some(m) => Ok((union_spec(r, m), union_pairs(c1, c2), b3)),
                            }
                        } else {
                            Ok((union_spec(r, other), union_pairs(c1, c2), b3))
                        },
                    }
                },
            },
        },
        Expr::While { guard, c } => match gen_spec(*c, ideal, cs, n, base, precise) {
            Err(f) => Err(f),
            Ok((i1, c1, b1)) => Ok((ideal, union_pairs(add_pair(cs, (ideal, i1)), c1), b1)),
        },
    }
}

/// The walk through the first `k` statements of a sequence, the last of
/// them first.
pub open spec fn gen_seq(
    es: Seq<Expr>,
    k: int,
    ideal: IdealView,
    cs: CsView,
    n: int,
    base: int,
    precise: bool,
) -> Result<(IdealView, CsView, int), Failure>
    decreases es, k,
{
    if k <= 0 || k > es.len() {
        Ok((ideal, cs, base))
    } else {
        match gen_spec(es[k - 1], ideal, cs, n, base, precise) {
            Err(f) => Err(f),
            Ok((i, c, b)) => gen_seq(es, k - 1, i, c, n, b, precise),
        }
    }
}

/// The backward walk through the program `e`.
fn walk(e: &Expr, ideal: PIdeal, c: Cs, ring: &mut Ring, precise: bool) -> (out: Result<
    (PIdeal, Cs),
    Failure,
>)
    requires
        expr_wf(*e),
        ideal.wf(),
        c.wf(),
        old(ring).wf(),
    ensures
        final(ring).wf(),
        final(ring).vars@ == old(ring).vars@,
        old(ring).par_bound() <= final(ring).par_bound(),
        out matches Ok(r) ==> r.0.wf() && r.1.wf() && gen_spec(
            *e,
            ideal@,
            c@,
            old(ring).vars@.len() as int,
            old(ring).par_bound(),
            precise,
        ) == Ok::<(IdealView, CsView, int), Failure>((r.0@, r.1@, final(ring).par_bound())),
        out matches Err(f) ==> gen_spec(
            *e,
            ideal@,
            c@,
            old(ring).vars@.len() as int,
            old(ring).par_bound(),
            precise,
        ) == Err::<(IdealView, CsView, int), Failure>(f),
    decreases e,
{
    let ghost n = ring.vars@.len() as int;
    let ghost base = ring.par_bound();
    match e {
        Expr::Ass { lv, rv } => match ideal.subs(*lv, rv) {
            None => Err(Failure::Overflow),
            Some(i) => Ok((i, c)),
        },
        Expr::Skip => Ok((ideal, c)),
        Expr::Sequence { exprs } => {
            let ghost es = exprs@;
            let ghost goal = gen_spec(*e, ideal@, c@, n, base, precise);
            let mut cur_ideal = ideal;
            let mut cur_c = c;
            let mut k: usize = exprs.len();
            while k > 0
                invariant
                    k <= exprs@.len(),
                    es == exprs@,
                    decreases_to!(e => exprs),
                    forall|i: int| 0 <= i < es.len() ==> expr_wf(#[trigger] es[i]),
                    cur_ideal.wf(),
                    cur_c.wf(),
                    ring.wf(),
                    ring.vars@ == old(ring).vars@,
                    n == old(ring).vars@.len(),
                    base == old(ring).par_bound(),
                    base <= ring.par_bound(),
                    goal == gen_spec(*e, ideal@, c@, n, base, precise),
                    goal == gen_seq(
                        es,
                        k as int,
                        cur_ideal@,
                        cur_c@,
                        n,
                        ring.par_bound(),
                        precise,
                    ),
                decreases k,
            {
                proof {
                    assert(decreases_to!(exprs => exprs[k - 1]));
                    assert(expr_wf(es[k - 1]));
                }
                match walk(&exprs[k - 1], cur_ideal, cur_c, ring, precise) {
                    Err(f) => {
                        return Err(f);
                    },
                    Ok((i2, c2)) => {
                        cur_ideal = i2;
                        cur_c = c2;
                    },
                }
                k -= 1;
            }
            Ok((cur_ideal, cur_c))
        },
        Expr::If { guard, the, els } => {
            let (i1, c1) = match walk(the, ideal.dup(), c.dup(), ring, precise) {
                Err(f) => {
                    return Err(f);
                },
                Ok(r) => r,
            };
            let (i2, c2) = match walk(els, ideal, c, ring, precise) {
                Err(f) => {
                    return Err(f);
                },
                Ok(r) => r,
            };
            let (kept, other) = if guard.eq {
                (i1, i2)
            } else {
                (i2, i1)
            };
            let r = match kept.rem_par(&guard.p, ring) {
                Err(f) => {
                    return Err(f);
                },
                Ok(r) => r,
            };
            if precise {
                match other.mul(&guard.p) {
                    None => Err(Failure::Overflow),
                    Some(m) => Ok((r.union(m), c1.union(c2))),
                }
            } else {
                Ok((r.union(other), c1.union(c2)))
            }
        },
        Expr::While { guard, c: body } => {
            let (i1, c1) = match walk(body, ideal.dup(), c.dup(), ring, precise) {
                Err(f) => {
                    return Err(f);
                },
                Ok(r) => r,
            };
            let c = c.add(Constraint(ideal.dup(), i1));
            Ok((ideal, c.union(c1)))
        },
    }
}

/// The constraints of the program `e`: the walk carries `ideal`, what has
/// to vanish after the program, back to its beginning, and adds to `c` one
/// constraint for each loop. At a conditional the ideal of the branch that
/// the guard allows is taken modulo the polynomial of the guard, and the
/// ideal of the other branch is multiplied by it. New parameters are taken
/// into use in `ring`.
pub fn gen_con(e: &Expr, ideal: PIdeal, c: Cs, ring: &mut Ring) -> (out: Result<
    (PIdeal, Cs),
    Failure,
>)
    requires
        expr_wf(*e),
        ideal.wf(),
        c.wf(),
        old(ring).wf(),
    ensures
        final(ring).wf(),
        final(ring).vars@ == old(ring).vars@,
        old(ring).par_bound() <= final(ring).par_bound(),
        out matches Ok(r) ==> r.0.wf() && r.1.wf() && gen_spec(
            *e,
            ideal@,
            c@,
            old(ring).vars@.len() as int,
            old(ring).par_bound(),
            true,
        ) == Ok::<(IdealView, CsView, int), Failure>((r.0@, r.1@, final(ring).par_bound())),
        out matches Err(f) ==> gen_spec(
            *e,
            ideal@,
            c@,
            old(ring).vars@.len() as int,
            old(ring).par_bound(),
            true,
        ) == Err::<(IdealView, CsView, int), Failure>(f),
{
    walk(e, ideal, c, ring, true)
}

/// The constraints of the program `e` as `gen_con` gives them, but for
/// conditionals: the ideal of the branch that the guard excludes is taken
/// as it is, not multiplied by the polynomial of the guard.
pub fn gen_con_less_precise(e: &Expr, ideal: PIdeal, c: Cs, ring: &mut Ring) -> (out: Result<
    (PIdeal, Cs),
    Failure,
>)
    requires
        expr_wf(*e),
        ideal.wf(),
        c.wf(),
        old(ring).wf(),
    ensures
        final(ring).wf(),
        final(ring).vars@ == old(ring).vars@,
        old(ring).par_bound() <= final(ring).par_bound(),
        out matches Ok(r) ==> r.0.wf() && r.1.wf() && gen_spec(
            *e,
            ideal@,
            c@,
            old(ring).vars@.len() as int,
            old(ring).par_bound(),
            false,
        ) == Ok::<(IdealView, CsView, int), Failure>((r.0@, r.1@, final(ring).par_bound())),
        out matches Err(f) ==> gen_spec(
            *e,
            ideal@,
            c@,
            old(ring).vars@.len() as int,
            old(ring).par_bound(),
            false,
        ) == Err::<(IdealView, CsView, int), Failure>(f),
{
    walk(e, ideal, c, ring, false)
}

/// What the backward walk through a syntax tree gives: the ideal before
/// the program, the constraints gathered, and the names and the bound of
/// the parameters of the ring afterwards.
pub type AltOut = Result<(IdealView, CsView, Seq<Seq<char>>, int), Failure>;

/// The backward walk through the syntax tree `e`, as `gen_spec` describes
/// it for a program. The variables and polynomials are converted on the
/// way, in a ring with the names `names` whose parameters have the bound
/// `base`: a variable is looked up or added when the walk meets its
/// assignment, the polynomial of a guard after the branches of its
/// conditional. A conditional without second branch is walked as if that
/// branch were `skip`.
pub open spec fn gen_alt_spec(
    e: EV,
    ideal: IdealView,
    cs: CsView,
    names: Seq<Seq<char>>,
    base: int,
) -> AltOut
    decreases e, 0int,
{
    match e {
        EV::Ass(v, p) => match poly_of(p, intern_names(names, v)) {
            Err(f) => Err(f),
            Ok(pv) => match subs_ideal(ideal, Var { id: intern_id(names, v) as usize }, pv) {
                None => Err(Failure::Overflow),
                Some(i) => Ok((i, cs, names_after(p, intern_names(names, v)), base)),
            },
        },
        EV::Skip => Ok((ideal, cs, names, base)),
        EV::Sequence(es) => gen_alt_seq(es, es.len() as int, ideal, cs, names, base),
        EV::If(g, the, els) => match gen_alt_spec(*the, ideal, cs, names, base) {
            Err(f) => Err(f),
            Ok((i1, c1, n1, b1)) => {
                let second: AltOut = match els {
                    Some(b) => gen_alt_spec(*b, ideal, cs, n1, b1),
                    None => Ok((ideal, cs, n1, b1)),
                };
                match second {
                    Err(f) => Err(f),
                    Ok((i2, c2, n2, b2)) => merge_spec(g, i1, c1, i2, c2, n2, b2),
                }
            },
        },
        EV::While(g, body) => match gen_alt_spec(*body, ideal, cs, names, base) {
            Err(f) => Err(f),
            Ok((i1, c1, n1, b1)) => Ok(
                (ideal, union_pairs(add_pair(cs, (ideal, i1)), c1), n1, b1),
            ),
        },
    }
}

/// The ideal and the constraints before a conditional with the guard `g`,
/// from those before its two branches: the ideal of the branch that the
/// guard allows modulo the polynomial of the guard, united with the ideal
/// of the other branch times that polynomial.
pub open spec fn merge_spec(
    g: PreV,
    i1: IdealView,
    c1: CsView,
    i2: IdealView,
    c2: CsView,
    names: Seq<Seq<char>>,
    base: int,
) -> AltOut {
    match poly_of(g.p, names) {
        Err(f) => Err(f),
        Ok(pv) => {
            let n3 = names_after(g.p, names);
            let (kept, other) = if g.eq {
                (i1, i2)
            } else {
                (i2, i1)
            };
            match rem_ideal(kept, pv, n3.len() as int, base) {
                Err(f) => Err(f),
                Ok((r, b3)) => match mul_ideal(other, pv) {
                    None => Err(Failure::Overflow),
                    Some(m) => Ok((union_spec(r, m), union_pairs(c1, c2), n3, b3)),
                },
            }
        },
    }
}

/// The walk through the first `k` statements of a list of syntax trees,
/// the last of them first.
pub open spec fn gen_alt_seq(
    es: Seq<EV>,
    k: int,
    ideal: IdealView,
    cs: CsView,
    names: Seq<Seq<char>>,
    base: int,
) -> AltOut
    decreases es, k,
{
    if k <= 0 || k > es.len() {
        Ok((ideal, cs, names, base))
    } else {
        match gen_alt_spec(es[k - 1], ideal, cs, names, base) {
            Err(f) => Err(f),
            Ok((i, c, n, b)) => gen_alt_seq(es, k - 1, i, c, n, b),
        }
    }
}

/// The ideal and the constraints before a conditional, from those before
/// its two branches.
fn merge_branches(guard: &Pre, i1: PIdeal, c1: Cs, i2: PIdeal, c2: Cs, ring: &mut Ring) -> (out:
    Result<(PIdeal, Cs), Failure>)
    requires
        i1.wf(),
        c1.wf(),
        i2.wf(),
        c2.wf(),
        old(ring).wf(),
    ensures
        final(ring).wf(),
        old(ring).par_bound() <= final(ring).par_bound(),
        out matches Ok(r) ==> r.0.wf() && r.1.wf() && merge_spec(
            guard@,
            i1@,
            c1@,
            i2@,
            c2@,
            old(ring).names(),
            old(ring).par_bound(),
        ) == Ok::<(IdealView, CsView, Seq<Seq<char>>, int), Failure>(
            (r.0@, r.1@, final(ring).names(), final(ring).par_bound()),
        ),
        out matches Err(f) ==> merge_spec(
            guard@,
            i1@,
            c1@,
            i2@,
            c2@,
            old(ring).names(),
            old(ring).par_bound(),
        ) == Err::<(IdealView, CsView, Seq<Seq<char>>, int), Failure>(f),
{
    let p = match create_poly(&guard.p, ring) {
        Err(f) => {
            return Err(f);
        },
        Ok(p) => p,
    };
    let (kept, other) = if guard.eq {
        (i1, i2)
    } else {
        (i2, i1)
    };
    assert(ring.names().len() == ring.vars@.len());
    let r = match kept.rem_par(&p, ring) {
        Err(f) => {
            return Err(f);
        },
        Ok(r) => r,
    };
    assert(ring.names() =~= names_after(guard@.p, old(ring).names()));
    match other.mul(&p) {
        None => Err(Failure::Overflow),
        Some(m) => Ok((r.union(m), c1.union(c2))),
    }
}

/// The walk through a conditional.
fn walk_if(e: &E, ideal: PIdeal, c: Cs, ring: &mut Ring) -> (out: Result<(PIdeal, Cs), Failure>)
    requires
        e is If,
        ideal.wf(),
        c.wf(),
        old(ring).wf(),
    ensures
        final(ring).wf(),
        old(ring).par_bound() <= final(ring).par_bound(),
        out matches Ok(r) ==> r.0.wf() && r.1.wf() && gen_alt_spec(
            e@,
            ideal@,
            c@,
            old(ring).names(),
            old(ring).par_bound(),
        ) == Ok::<(IdealView, CsView, Seq<Seq<char>>, int), Failure>(
            (r.0@, r.1@, final(ring).names(), final(ring).par_bound()),
        ),
        out matches Err(f) ==> gen_alt_spec(
            e@,
            ideal@,
            c@,
            old(ring).names(),
            old(ring).par_bound(),
        ) == Err::<(IdealView, CsView, Seq<Seq<char>>, int), Failure>(f),
    decreases e, 0int,
{
    match e {
        E::If { guard, the, els } => {
            let (i1, c1) = match gen_con_alt(the, ideal.dup(), c.dup(), ring) {
                Err(f) => {
                    return Err(f);
                },
                Ok(r) => r,
            };
            let (i2, c2) = match els {
                Some(b) => match gen_con_alt(b, ideal, c, ring) {
                    Err(f) => {
                        return Err(f);
                    },
                    Ok(r) => r,
                },
                None => (ideal, c),
            };
            merge_branches(guard, i1, c1, i2, c2, ring)
        },
        _ => Ok((ideal, c)),
    }
}

/// The constraints of a program given as a syntax tree: the walk of
/// `gen_con`, with the variables and polynomials converted on the way.
/// New variables and parameters are taken into use in `ring`.
pub fn gen_con_alt(e: &E, ideal: PIdeal, c: Cs, ring: &mut Ring) -> (out: Result<
    (PIdeal, Cs),
    Failure,
>)
    requires
        ideal.wf(),
        c.wf(),
        old(ring).wf(),
    ensures
        final(ring).wf(),
        old(ring).par_bound() <= final(ring).par_bound(),
        out matches Ok(r) ==> r.0.wf() && r.1.wf() && gen_alt_spec(
            e@,
            ideal@,
            c@,
            old(ring).names(),
            old(ring).par_bound(),
        ) == Ok::<(IdealView, CsView, Seq<Seq<char>>, int), Failure>(
            (r.0@, r.1@, final(ring).names(), final(ring).par_bound()),
        ),
        out matches Err(f) ==> gen_alt_spec(
            e@,
            ideal@,
            c@,
            old(ring).names(),
            old(ring).par_bound(),
        ) == Err::<(IdealView, CsView, Seq<Seq<char>>, int), Failure>(f),
    decreases e, 1int,
{
    let ghost names = ring.names();
    let ghost base = ring.par_bound();
    match e {
        E::Ass { v, p } => {
            let lv = ring.intern(v.0.clone());
            let rv = match create_poly(p, ring) {
                Err(f) => {
                    return Err(f);
                },
                Ok(rv) => rv,
            };
            match ideal.subs(lv, &rv) {
                None => Err(Failure::Overflow),
                Some(i) => Ok((i, c)),
            }
        },
        E::Skip => Ok((ideal, c)),
        E::Sequence { es } => {
            let ghost evs = views_of(es@);
            let ghost goal = gen_alt_spec(e@, ideal@, c@, names, base);
            let mut cur_ideal = ideal;
            let mut cur_c = c;
            let mut k: usize = es.len();
            while k > 0
                invariant
                    k <= es@.len(),
                    evs == views_of(es@),
                    decreases_to!(e => es),
                    cur_ideal.wf(),
                    cur_c.wf(),
                    ring.wf(),
                    base == old(ring).par_bound(),
                    names == old(ring).names(),
                    base <= ring.par_bound(),
                    goal == gen_alt_spec(e@, ideal@, c@, names, base),
                    goal == gen_alt_seq(
                        evs,
                        k as int,
                        cur_ideal@,
                        cur_c@,
                        ring.names(),
                        ring.par_bound(),
                    ),
                decreases k,
            {
                proof {
                    assert(decreases_to!(es => es[k - 1]));
                    assert(evs[k - 1] == es@[k - 1]@);
                }
                match gen_con_alt(&es[k - 1], cur_ideal, cur_c, ring) {
                    Err(f) => {
                        return Err(f);
                    },
                    Ok((i2, c2)) => {
                        cur_ideal = i2;
                        cur_c = c2;
                    },
                }
                k -= 1;
            }
            Ok((cur_ideal, cur_c))
        },
        E::If { .. } => walk_if(e, ideal, c, ring),
        E::While { guard, body } => {
            let (i1, c1) = match gen_con_alt(body, ideal.dup(), c.dup(), ring) {
                Err(f) => {
                    return Err(f);
                },
                Ok(r) => r,
            };
            let c = c.add(Constraint(ideal.dup(), i1));
            Ok((ideal, c.union(c1)))
        },
    }
}

} // verus!
