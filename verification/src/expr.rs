//! Programs: assignments, sequences, conditionals and loops with
//! polynomial guards.
use crate::expr_parse::{views_of, E, EV};
use crate::exps::exps_dup;
use crate::failure::Failure;
use crate::mon::Mon;
use crate::poly::{Poly, PolyView};
use crate::poly_parse::{create_poly, names_after, poly_of};
use crate::rat::Rat;
use crate::ring::{intern_id, intern_names, Ring, Var};
use vstd::prelude::*;

verus! {

/// A guard: the polynomial `p` is, or is not, zero.
#[derive(Clone, PartialEq, Eq, Debug)]
pub struct Pred {
    pub p: Poly,
    /// `true` for `p == 0`, `false` for `p != 0`.
    pub eq: bool,
}

impl Pred {
    pub fn new(p: Poly, eq: bool) -> (r: Pred)
        ensures
            r.p == p,
            r.eq == eq,
    {
        Pred { p, eq }
    }
}

/// A program.
#[derive(PartialEq, Eq, Debug)]
pub enum Expr {
    Ass { lv: Var, rv: Poly },
    Skip,
    Sequence { exprs: Vec<Expr> },
    If { guard: Pred, the: Box<Expr>, els: Box<Expr> },
    While { guard: Pred, c: Box<Expr> },
}

/// Every polynomial of the program is well formed.
pub open spec fn expr_wf(e: Expr) -> bool
    decreases e,
{
    match e {
        Expr::Ass { lv, rv } => rv.wf(),
        Expr::Skip => true,
        Expr::Sequence { exprs } => forall|i: int|
            0 <= i < exprs@.len() ==> expr_wf(#[trigger] exprs@[i]),
        Expr::If { guard, the, els } => guard.p.wf() && expr_wf(*the) && expr_wf(*els),
        Expr::While { guard, c } => guard.p.wf() && expr_wf(*c),
    }
}

/// What a program denotes: its tree, with each polynomial as its terms.
pub enum ExprView {
    Ass(Var, PolyView),
    Skip,
    Sequence(Seq<ExprView>),
    If(PolyView, bool, Box<ExprView>, Box<ExprView>),
    While(PolyView, bool, Box<ExprView>),
}

/// What a list of programs denotes.
pub open spec fn expr_views(es: Seq<Expr>) -> Seq<ExprView>
    decreases es, 1int,
{
    Seq::new(
        es.len(),
        |i: int|
            if 0 <= i < es.len() {
                expr_view(es[i])
            } else {
                ExprView::Skip
            },
    )
}

pub open spec fn expr_view(e: Expr) -> ExprView
    decreases e, 0int,
{
    match e {
        Expr::Ass { lv, rv } => ExprView::Ass(lv, rv@),
        Expr::Skip => ExprView::Skip,
        Expr::Sequence { exprs } => ExprView::Sequence(expr_views(exprs@)),
        Expr::If { guard, the, els } => ExprView::If(
            guard.p@,
            guard.eq,
            Box::new(expr_view(*the)),
            Box::new(expr_view(*els)),
        ),
        Expr::While { guard, c } => ExprView::While(guard.p@, guard.eq, Box::new(expr_view(*c))),
    }
}

impl View for Expr {
    type V = ExprView;

    open spec fn view(&self) -> ExprView {
        expr_view(*self)
    }
}

/// A copy of a polynomial, well formed or not.
fn copy_poly(p: &Poly) -> (r: Poly)
    ensures
        r@ == p@,
{
    let mut mons: Vec<Mon<Rat>> = Vec::new();
    let mut i: usize = 0;
    while i < p.mons.len()
        invariant
            i <= p.mons@.len(),
            mons@.len() == i,
            forall|j: int| 0 <= j < i ==> (#[trigger] mons@[j])@ == p.mons@[j]@,
        decreases p.mons@.len() - i,
    {
        let m = Mon { vars: exps_dup(&p.mons[i].vars), coef: p.mons[i].coef };
        mons.push(m);
        i += 1;
    }
    let r = Poly { mons };
    assert(r@ =~= p@);
    r
}

impl Clone for Expr {
    fn clone(&self) -> (r: Expr)
        ensures
            r@ == self@,
        decreases self,
    {
        match self {
            Expr::Ass { lv, rv } => Expr::Ass { lv: *lv, rv: copy_poly(rv) },
            Expr::Skip => Expr::Skip,
            Expr::Sequence { exprs } => {
                let mut out: Vec<Expr> = Vec::new();
                let mut i: usize = 0;
                while i < exprs.len()
                    invariant
                        i <= exprs@.len(),
                        decreases_to!(self => exprs),
                        out@.len() == i,
                        forall|j: int| 0 <= j < i ==> (#[trigger] out@[j])@ == exprs@[j]@,
                    decreases exprs@.len() - i,
                {
                    proof {
                        assert(decreases_to!(exprs => exprs[i as int]));
                    }
                    out.push(exprs[i].clone());
                    i += 1;
                }
                let r = Expr::Sequence { exprs: out };
                proof {
                    assert(expr_views(out@) =~= expr_views(exprs@));
                }
                r
            },
            Expr::If { guard, the, els } => Expr::If {
                guard: Pred { p: copy_poly(&guard.p), eq: guard.eq },
                the: Box::new((**the).clone()),
                els: Box::new((**els).clone()),
            },
            Expr::While { guard, c } => Expr::While {
                guard: Pred { p: copy_poly(&guard.p), eq: guard.eq },
                c: Box::new((**c).clone()),
            },
        }
    }
}

/// The names of the ring after the conversion of a syntax tree: the
/// variables are looked up or added in the order in which the conversion
/// meets them.
pub open spec fn names_conv(e: EV, names: Seq<Seq<char>>) -> Seq<Seq<char>>
    decreases e, 0int,
{
    match e {
        EV::Ass(v, p) => names_after(p, intern_names(names, v)),
        EV::Skip => names,
        EV::Sequence(es) => names_conv_seq(es, es.len() as int, names),
        EV::If(g, the, els) => {
            let n1 = match els {
                Some(b) => names_conv(*b, names),
                None => names,
            };
            names_conv(*the, names_after(g.p, n1))
        },
        EV::While(g, body) => names_conv(*body, names_after(g.p, names)),
    }
}

/// The names of the ring after the conversion of the first `k` statements
/// of a list.
pub open spec fn names_conv_seq(es: Seq<EV>, k: int, names: Seq<Seq<char>>) -> Seq<Seq<char>>
    decreases es, k,
{
    if k <= 0 || k > es.len() {
        names
    } else {
        names_conv(es[k - 1], names_conv_seq(es, k - 1, names))
    }
}

/// The program `r` is the conversion of the syntax tree `e` in a ring
/// with the names `names`: each name stands for its variable, each tree
/// of a polynomial for its polynomial, and a conditional without second
/// branch has `Skip` for it.
pub open spec fn converts(e: EV, names: Seq<Seq<char>>, r: Expr) -> bool
    decreases e, 0int,
{
    match e {
        EV::Ass(v, p) => r matches Expr::Ass { lv, rv } && lv.id == intern_id(names, v)
            && rv.wf() && poly_of(p, intern_names(names, v)) == Ok::<PolyView, Failure>(rv@),
        EV::Skip => r is Skip,
        EV::Sequence(es) => r matches Expr::Sequence { exprs } && exprs@.len() == es.len()
            && forall|i: int|
            0 <= i < es.len() ==> converts(
                es[i],
                names_conv_seq(es, i, names),
                #[trigger] exprs@[i],
            ),
        EV::If(g, the, els) => {
            let n1 = match els {
                Some(b) => names_conv(*b, names),
                None => names,
            };
            r matches Expr::If { guard, the: t, els: e2 } && guard.eq == g.eq && guard.p.wf()
                && poly_of(g.p, n1) == Ok::<PolyView, Failure>(guard.p@) && converts(
                *the,
                names_after(g.p, n1),
                *t,
            ) && match els {
                Some(b) => converts(*b, names, *e2),
                None => *e2 is Skip,
            }
        },
        EV::While(g, body) => r matches Expr::While { guard, c } && guard.eq == g.eq
            && guard.p.wf() && poly_of(g.p, names) == Ok::<PolyView, Failure>(guard.p@)
            && converts(*body, names_after(g.p, names), *c),
    }
}

/// The failure of the conversion of a syntax tree, where it fails: that of
/// the first polynomial, in the order of the conversion, that cannot be
/// built.
pub open spec fn conv_failure(e: EV, names: Seq<Seq<char>>) -> Option<Failure>
    decreases e, 0int,
{
    match e {
        EV::Ass(v, p) => match poly_of(p, intern_names(names, v)) {
            Err(f) => Some(f),
            Ok(_) => None,
        },
        EV::Skip => None,
        EV::Sequence(es) => conv_failure_seq(es, es.len() as int, names),
        EV::If(g, the, els) => {
            let first = match els {
                Some(b) => conv_failure(*b, names),
                None => None,
            };
            let n1 = match els {
                Some(b) => names_conv(*b, names),
                None => names,
            };
            match first {
                Some(f) => Some(f),
                None => match poly_of(g.p, n1) {
                    Err(f) => Some(f),
                    Ok(_) => conv_failure(*the, names_after(g.p, n1)),
                },
            }
        },
        EV::While(g, body) => match poly_of(g.p, names) {
            Err(f) => Some(f),
            Ok(_) => conv_failure(*body, names_after(g.p, names)),
        },
    }
}

/// The failure of the conversion of the first `k` statements of a list.
pub open spec fn conv_failure_seq(es: Seq<EV>, k: int, names: Seq<Seq<char>>) -> Option<Failure>
    decreases es, k,
{
    if k <= 0 || k > es.len() {
        None
    } else {
        match conv_failure_seq(es, k - 1, names) {
            Some(f) => Some(f),
            None => conv_failure(es[k - 1], names_conv_seq(es, k - 1, names)),
        }
    }
}

/// A failure among the first statements is the failure of the list.
pub proof fn lemma_conv_failure_prefix(es: Seq<EV>, k: int, names: Seq<Seq<char>>)
    requires
        0 <= k <= es.len(),
        conv_failure_seq(es, k, names).is_some(),
    ensures
        conv_failure_seq(es, es.len() as int, names) == conv_failure_seq(es, k, names),
    decreases es.len() - k,
{
    if k < es.len() {
        lemma_conv_failure_prefix(es, k + 1, names);
    }
}

/// The programs of a list of syntax trees, from first to last.
fn convert_list(es: &Vec<E>, ring: &mut Ring) -> (out: Result<Vec<Expr>, Failure>)
    requires
        old(ring).wf(),
    ensures
        final(ring).wf(),
        final(ring).pars@ == old(ring).pars@,
        out matches Ok(exprs) ==> exprs@.len() == es@.len() && final(ring).names()
            == names_conv_seq(views_of(es@), es@.len() as int, old(ring).names()) && forall|
            j: int,
        |
            0 <= j < es@.len() ==> converts(
                views_of(es@)[j],
                names_conv_seq(views_of(es@), j, old(ring).names()),
                #[trigger] exprs@[j],
            ) && expr_wf(exprs@[j]),
        out is Ok ==> conv_failure_seq(views_of(es@), es@.len() as int, old(ring).names())
            is None,
        out matches Err(f) ==> conv_failure_seq(
            views_of(es@),
            es@.len() as int,
            old(ring).names(),
        ) == Some(f),
    decreases es, 0int,
{
    let ghost names = ring.names();
    let ghost evs = views_of(es@);
    let mut exprs: Vec<Expr> = Vec::new();
    let mut i: usize = 0;
    while i < es.len()
        invariant
            i <= es@.len(),
            evs == views_of(es@),
            names == old(ring).names(),
            ring.wf(),
            ring.pars@ == old(ring).pars@,
            exprs@.len() == i,
            ring.names() == names_conv_seq(evs, i as int, names),
            conv_failure_seq(evs, i as int, names) is None,
            forall|j: int|
                0 <= j < i ==> converts(
                    evs[j],
                    names_conv_seq(evs, j, names),
                    #[trigger] exprs@[j],
                ) && expr_wf(exprs@[j]),
        decreases es@.len() - i,
    {
        proof {
            assert(decreases_to!(es => es[i as int]));
            assert(evs[i as int] == es@[i as int]@);
        }
        let ghost before = exprs@;
        match convert_from_parseresult(&es[i], ring) {
            Err(f) => {
                proof {
                    assert(conv_failure_seq(evs, i + 1, names) == Some(f));
                    lemma_conv_failure_prefix(evs, i + 1, names);
                }
                return Err(f);
            },
            Ok(x) => {
                exprs.push(x);
            },
        }
        proof {
            assert forall|j: int| 0 <= j < i + 1 implies converts(
                evs[j],
                names_conv_seq(evs, j, names),
                #[trigger] exprs@[j],
            ) && expr_wf(exprs@[j]) by {
                if j < i {
                    assert(exprs@[j] == before[j]);
                }
            }
        }
        i += 1;
    }
    Ok(exprs)
}

/// The program of a conditional.
fn convert_if(e: &E, ring: &mut Ring) -> (out: Result<Expr, Failure>)
    requires
        old(ring).wf(),
        e is If,
    ensures
        final(ring).wf(),
        final(ring).pars@ == old(ring).pars@,
        out matches Ok(r) ==> converts(e@, old(ring).names(), r) && expr_wf(r)
            && final(ring).names() == names_conv(e@, old(ring).names()) && conv_failure(
            e@,
            old(ring).names(),
        ) is None,
        out matches Err(f) ==> conv_failure(e@, old(ring).names()) == Some(f),
    decreases e, 0int,
{
    match e {
        E::If { guard, the, els } => {
            let e2 = match els {
                Some(b) => match convert_from_parseresult(b, ring) {
                    Err(f) => {
                        return Err(f);
                    },
                    Ok(x) => x,
                },
                None => Expr::Skip,
            };
            assert(expr_wf(e2));
            let p = match create_poly(&guard.p, ring) {
                Err(f) => {
                    return Err(f);
                },
                Ok(p) => p,
            };
            let t = match convert_from_parseresult(the, ring) {
                Err(f) => {
                    return Err(f);
                },
                Ok(x) => x,
            };
            let ghost names = old(ring).names();
            let ghost ev = e@;
            let r = Expr::If { guard: Pred::new(p, guard.eq), the: Box::new(t), els: Box::new(e2) };
            proof {
                let g = guard@;
                let n1 = match els {
                    Some(b) => names_conv(b@, names),
                    None => names,
                };
                assert(ev == EV::If(
                    g,
                    Box::new(the@),
                    match els {
                        Some(b) => Some(Box::new(b@)),
                        None => None,
                    },
                ));
                assert(poly_of(g.p, n1) == Ok::<PolyView, Failure>(p@));
                assert(converts(the@, names_after(g.p, n1), t));
                assert(r matches Expr::If { guard: g2, the: t2, els: e3 } && g2.p == p && *t2 == t
                    && *e3 == e2);
                assert(converts(ev, names, r));
                assert(expr_wf(e2));
                assert(expr_wf(t));
                assert(p.wf());
                assert(expr_wf(r));
            }
            Ok(r)
        },
        _ => Ok(Expr::Skip),
    }
}

/// The program of a syntax tree. The variables are looked up in `ring` by
/// their names and added where they are new; a conditional without second
/// branch gets `Skip` for it. The conversion fails where a polynomial
/// cannot be built; `ring` then keeps the variables added so far.
pub fn convert_from_parseresult(e: &E, ring: &mut Ring) -> (out: Result<Expr, Failure>)
    requires
        old(ring).wf(),
    ensures
        final(ring).wf(),
        final(ring).pars@ == old(ring).pars@,
        out matches Ok(r) ==> converts(e@, old(ring).names(), r) && expr_wf(r)
            && final(ring).names() == names_conv(e@, old(ring).names()) && conv_failure(
            e@,
            old(ring).names(),
        ) is None,
        out matches Err(f) ==> conv_failure(e@, old(ring).names()) == Some(f),
    decreases e, 1int,
{
    match e {
        E::Ass { v, p } => {
            let lv = ring.intern(v.0.clone());
            match create_poly(p, ring) {
                Err(f) => Err(f),
                Ok(rv) => Ok(Expr::Ass { lv, rv }),
            }
        },
        E::Skip => Ok(Expr::Skip),
        E::Sequence { es } => match convert_list(es, ring) {
            Err(f) => Err(f),
            Ok(exprs) => Ok(Expr::Sequence { exprs }),
        },
        E::If { .. } => convert_if(e, ring),
        E::While { guard, body } => {
            let p = match create_poly(&guard.p, ring) {
                Err(f) => {
                    return Err(f);
                },
                Ok(p) => p,
            };
            let c = match convert_from_parseresult(body, ring) {
                Err(f) => {
                    return Err(f);
                },
                Ok(x) => x,
            };
            Ok(Expr::While { guard: Pred::new(p, guard.eq), c: Box::new(c) })
        },
    }
}

} // verus!
