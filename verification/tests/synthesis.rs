use multi_var_poly::constraints::{gen_con, gen_con_alt, gen_con_less_precise, Constraint, Cs};
use multi_var_poly::expr::{convert_from_parseresult, Expr, Pred};
use multi_var_poly::expr_parse::{program, E};
use multi_var_poly::exps::Order;
use multi_var_poly::failure::Failure;
use multi_var_poly::ideal::PIdeal;
use multi_var_poly::linexp::{LinExp, ParTerm};
use multi_var_poly::mon::Mon;
use multi_var_poly::poly::Poly;
use multi_var_poly::rat::Rat;
use multi_var_poly::ring::{Par, Ring, Var};
use multi_var_poly::solve::LinearEquations;
use multi_var_poly::temp::Temp;

fn q(n: i64, d: i64) -> Rat {
    Rat::new(n, d).unwrap()
}

fn mon(pairs: Vec<(Var, usize)>) -> Mon<Rat> {
    Mon::from_pairs(&pairs).unwrap()
}

fn poly(mons: Vec<Mon<Rat>>) -> Poly {
    Poly::from_mons(&mons).unwrap()
}

fn plus_const(v: Var, n: i64) -> Poly {
    poly(vec![mon(vec![(v, 1)]), Mon::<Rat>::one().scale(&q(n, 1)).unwrap()])
}

#[test]
fn most_general_of_degree_one() {
    let mut r = Ring::new();
    let x = r.vextend("x".to_string());
    let t = Temp::most_gen(1, &mut r).unwrap();
    assert_eq!(t.mons.len(), 2);
    // the linear term leads; the constant has the parameter of lowest ordinal
    assert_eq!(t.mons[0], Mon::from_par(Par::new(1), &vec![(x, 1)]).unwrap());
    assert_eq!(t.mons[1], Mon::from_par(Par::new(0), &vec![]).unwrap());
    assert_eq!(r.pars, vec![Par::new(0), Par::new(1)]);
    // a second template gets parameters of its own
    let u = Temp::most_gen(1, &mut r).unwrap();
    assert_eq!(u.mons[0], Mon::from_par(Par::new(3), &vec![(x, 1)]).unwrap());
    assert_eq!(u.mons[1], Mon::from_par(Par::new(2), &vec![]).unwrap());
    assert_eq!(r.pars.len(), 4);
    assert_eq!(Temp::most_gen(0, &mut r).unwrap().mons.len(), 1);
}

#[test]
fn most_general_runs_out_of_ordinals() {
    let mut r = Ring::new();
    r.vextend("x".to_string());
    r.add_par(Par::new(usize::MAX - 1));
    let before = r.clone();
    assert_eq!(Temp::most_gen(1, &mut r), None);
    assert_eq!(r, before);
    assert!(Temp::most_gen(0, &mut r).is_some());
}

#[test]
fn substitution_round_trip() {
    let mut r = Ring::new();
    let y = r.vextend("y".to_string());
    let a = Par::new(0);
    let t = Temp::from_mons(&vec![Mon::from_par(a, &vec![(y, 1)]).unwrap()], &mut r).unwrap();
    let up = t.subs(y, &plus_const(y, 1)).unwrap();
    // a y + a
    assert_eq!(up.mons.len(), 2);
    assert_eq!(up.mons[1].coef, LinExp::from_par(a));
    let back = up.subs(y, &plus_const(y, -1)).unwrap();
    assert_eq!(back, t);
    assert_eq!(back.mons[0].coef, t.mons[0].coef);
    assert_eq!(back.mons[0].coef.terms, vec![ParTerm { par: Some(a), coef: Rat::one() }]);
}

#[test]
fn substitution_of_powers() {
    let mut r = Ring::new();
    let x = r.vextend("x".to_string());
    let y = r.vextend("y".to_string());
    // a x^2 y + b x, with x := y + 1
    let t = Temp::from_mons(
        &vec![
            Mon::from_par(Par::new(0), &vec![(x, 2), (y, 1)]).unwrap(),
            Mon::from_par(Par::new(1), &vec![(x, 1)]).unwrap(),
        ],
        &mut r,
    )
    .unwrap();
    let s = t.subs(x, &plus_const(y, 1)).unwrap();
    // a y^3 + 2a y^2 + (a + b) y + b
    let a = LinExp::from_par(Par::new(0));
    let b = LinExp::from_par(Par::new(1));
    let a2 = a.scale(&q(2, 1)).unwrap();
    let ab = a.add(&b).unwrap();
    let expect = vec![
        Mon { vars: vec![(y, 3)], coef: a },
        Mon { vars: vec![(y, 2)], coef: a2 },
        Mon { vars: vec![(y, 1)], coef: ab },
        Mon { vars: vec![], coef: b },
    ];
    assert_eq!(s.mons, expect);
    // substituting zero leaves nothing of the terms with the variable
    assert_eq!(t.subs(x, &Poly::zero()).unwrap(), Temp::zero());
    // a variable that does not occur
    let z = Var::new(7);
    assert_eq!(t.subs(z, &plus_const(y, 1)).unwrap(), t);
}

#[test]
fn substitution_is_additive() {
    let mut r = Ring::new();
    let x = r.vextend("x".to_string());
    let y = r.vextend("y".to_string());
    let a = Temp::from_mons(
        &vec![
            Mon::from_par(Par::new(0), &vec![(x, 2)]).unwrap(),
            Mon::from_par(Par::new(1), &vec![(y, 1)]).unwrap(),
        ],
        &mut r,
    )
    .unwrap();
    let b = Temp::from_mons(
        &vec![
            Mon::from_par(Par::new(2), &vec![(x, 2)]).unwrap(),
            Mon::from_par(Par::new(1), &vec![(y, 1)]).unwrap().scale(&q(-1, 1)).unwrap(),
            Mon::from_par(Par::new(3), &vec![(x, 1), (y, 1)]).unwrap(),
        ],
        &mut r,
    )
    .unwrap();
    let p = poly(vec![mon(vec![(y, 2)]), mon(vec![(x, 1)]), Mon::<Rat>::one().scale(&q(3, 1)).unwrap()]);
    let left = a.add(&b).unwrap().subs(x, &p).unwrap();
    let right = a.subs(x, &p).unwrap().add(&b.subs(x, &p).unwrap()).unwrap();
    assert_eq!(left, right);
}

#[test]
fn multiplication_distributes() {
    let mut r = Ring::new();
    let x = r.vextend("x".to_string());
    let y = r.vextend("y".to_string());
    let a = poly(vec![mon(vec![(x, 2)]), mon(vec![(y, 1)]).scale(&q(1, 2)).unwrap()]);
    let b = poly(vec![mon(vec![(x, 2)]).scale(&q(-1, 1)).unwrap(), Mon::one()]);
    let c = poly(vec![mon(vec![(x, 1), (y, 1)]), mon(vec![(y, 3)]).scale(&q(2, 3)).unwrap()]);
    let left = a.add(&b).unwrap().mul(&c).unwrap();
    let right = a.mul(&c).unwrap().add(&b.mul(&c).unwrap()).unwrap();
    assert_eq!(left, right);
    // (y/2 + 1) (xy + 2/3 y^3) = 1/3 y^4 + 2/3 y^3 + 1/2 x y^2 + x y
    let expect = poly(vec![
        mon(vec![(y, 4)]).scale(&q(1, 3)).unwrap(),
        mon(vec![(y, 3)]).scale(&q(2, 3)).unwrap(),
        mon(vec![(x, 1), (y, 2)]).scale(&q(1, 2)).unwrap(),
        mon(vec![(x, 1), (y, 1)]),
    ]);
    assert_eq!(left, expect);
    assert_eq!(a.mul(&Poly::one()).unwrap(), a);
    assert_eq!(Poly::one().mul(&a).unwrap(), a);
    assert_eq!(a.mul(&Poly::zero()).unwrap(), Poly::zero());
    assert_eq!(Poly::zero().mul(&a).unwrap(), Poly::zero());
    assert_eq!(a.sub(&a).unwrap(), Poly::zero());
    assert_eq!(a.add(&Poly::zero()).unwrap(), a);
    assert_eq!(a.neg().unwrap().neg().unwrap(), a);
    assert!(a.equals(&a.dup()));
    // the templates too
    let t = Temp::most_gen(1, &mut r).unwrap();
    let u = Temp::most_gen(1, &mut r).unwrap();
    let left = t.add(&u).unwrap().mul(&c).unwrap();
    let right = t.mul(&c).unwrap().add(&u.mul(&c).unwrap()).unwrap();
    assert_eq!(left, right);
    assert_eq!(t.mul(&Poly::one()).unwrap(), t);
    assert_eq!(t.neg().unwrap().add(&t).unwrap(), Temp::zero());
    assert!(t.equals(&t.dup()));
    assert!(!t.equals(&u));
}

#[test]
fn normalization_is_idempotent() {
    let x = Var::new(0);
    let y = Var::new(1);
    let raw = vec![
        mon(vec![(y, 1)]),
        mon(vec![(x, 2)]).scale(&q(3, 1)).unwrap(),
        mon(vec![(y, 1)]).scale(&q(-1, 1)).unwrap(),
        Mon::<Rat>::zero(),
        mon(vec![(x, 2)]),
        Mon::<Rat>::one(),
    ];
    let once = Poly::from_mons(&raw).unwrap();
    assert_eq!(once.mons, vec![mon(vec![(x, 2)]).scale(&q(4, 1)).unwrap(), Mon::one()]);
    let twice = Poly::from_mons(&once.mons).unwrap();
    assert_eq!(once, twice);
    // everything cancels: the zero sentinel alone
    let gone = Poly::from_mons(&vec![mon(vec![(x, 1)]), mon(vec![(x, 1)]).scale(&q(-1, 1)).unwrap()]).unwrap();
    assert_eq!(gone, Poly::zero());
    assert_eq!(Poly::from_mons(&gone.mons).unwrap(), Poly::zero());
    assert_eq!(gone.tdeg(), 0);
}

#[test]
fn polynomial_overflow() {
    let x = Var::new(0);
    let big = Poly::from_const(q(i64::MAX, 1));
    assert_eq!(big.add(&Poly::one()), None);
    assert_eq!(big.mul(&big), None);
    assert_eq!(Poly::from_const(q(i64::MIN, 1)).neg(), None);
    assert_eq!(Poly::from_const(q(2, 1)).pow(63), None);
    assert_eq!(Poly::from_const(q(2, 1)).pow(62), Some(Poly::from_const(q(1 << 62, 1))));
    let high = poly(vec![mon(vec![(x, usize::MAX)])]);
    assert_eq!(high.mul(&Poly::from_var(x)), None);
    assert_eq!(
        Poly::from_mons(&vec![Mon::<Rat>::one().scale(&q(i64::MAX, 1)).unwrap(), Mon::one()]),
        None
    );
}

#[test]
fn remainder_by_polynomial() {
    let mut r = Ring::new();
    let x = r.vextend("x".to_string());
    // t = a0 x^2, divisor x: t - (q1 x + q0) x with new parameters 1 and 2
    let t = Temp::from_mons(&vec![Mon::from_par(Par::new(0), &vec![(x, 2)]).unwrap()], &mut r)
        .unwrap();
    let rem = t.rem_par(&Poly::from_var(x), &mut r).unwrap();
    let a0 = LinExp::from_par(Par::new(0));
    let q0 = LinExp::from_par(Par::new(1));
    let q1 = LinExp::from_par(Par::new(2));
    let lead = a0.add(&q1.neg().unwrap()).unwrap();
    assert_eq!(
        rem.mons,
        vec![
            Mon { vars: vec![(x, 2)], coef: lead },
            Mon { vars: vec![(x, 1)], coef: q0.neg().unwrap() },
        ]
    );
    assert_eq!(r.pars, vec![Par::new(0), Par::new(1), Par::new(2)]);
    // a divisor of larger degree is rejected, and the ring stays
    let before = r.clone();
    let d = poly(vec![mon(vec![(x, 3)])]);
    assert_eq!(t.rem_par(&d, &mut r), Err(Failure::DegreeMismatch));
    assert_eq!(r, before);
}

fn countdown(y: Var) -> Expr {
    Expr::While {
        guard: Pred::new(Poly::from_var(y), false),
        c: Box::new(Expr::Ass { lv: y, rv: plus_const(y, -1) }),
    }
}

#[test]
fn countdown_loop_has_one_constraint() {
    for degree in 1..3usize {
        let mut r = Ring::new();
        let y = r.vextend("y".to_string());
        let g = Temp::most_gen(degree, &mut r).unwrap();
        let ideal = PIdeal::from_temp(g.clone());
        let (i, c) = gen_con(&countdown(y), ideal.clone(), Cs::new(), &mut r).unwrap();
        // the loop leaves the ideal as it is and adds its one obligation
        assert_eq!(i, ideal);
        assert_eq!(c.items.len(), 1);
        assert_eq!(c.items[0].0, ideal);
        let shifted = g.subs(y, &plus_const(y, -1)).unwrap();
        assert_eq!(c.items[0].1, PIdeal::from_temp(shifted));

        let le = LinearEquations::from_constraints(&c, &r).unwrap();
        assert_eq!(le.parsize, degree + 1);
        assert_eq!(le.eqs.len(), degree);
        let sol = le.solve().unwrap();
        assert_eq!(le.check(&sol), Some(true));
        // every parameter but that of the constant term vanishes
        assert_eq!(sol[0], (Par::new(0), LinExp::from_par(Par::new(0))));
        for k in 1..degree + 1 {
            assert_eq!(sol[k], (Par::new(k), LinExp::zero()));
        }
        let inv = g.subs_pars(&sol, &mut r).unwrap();
        assert_eq!(inv, Temp::from_mons(&vec![Mon::from_par(Par::new(0), &vec![]).unwrap()], &mut r).unwrap());
    }
}

#[test]
fn leading_coefficient_decides_at_linearization() {
    let mut r = Ring::new();
    let x = r.vextend("x".to_string());
    let a = r.mint().unwrap();
    // (a + 1) x against a x: the difference is x, whose coefficient is a number
    let ax = Mon::from_par(a, &vec![(x, 1)]).unwrap();
    let mut ax1 = Mon::from_par(a, &vec![(x, 1)]).unwrap();
    ax1.coef = ax1.coef.add(&LinExp::one()).unwrap();
    let t2 = Temp::from_mons(&vec![ax], &mut r).unwrap();
    let t1 = Temp::from_mons(&vec![ax1], &mut r).unwrap();
    let c = Cs::new().add(Constraint(PIdeal::from_temp(t2.clone()), PIdeal::from_temp(t1)));
    assert_eq!(LinearEquations::from_constraints(&c, &r), Err(Failure::Unsatisfiable));
    // a against zero: the difference is the term a, which gives the equation a = 0
    let a0 = Mon::from_par(a, &vec![]).unwrap();
    let t3 = Temp::from_mons(&vec![a0], &mut r).unwrap();
    let c = Cs::new().add(Constraint(PIdeal::zero(), PIdeal::from_temp(t3)));
    let le = LinearEquations::from_constraints(&c, &r).unwrap();
    assert_eq!(le.parsize, 1);
    assert_eq!(le.eqs, vec![(LinExp::from_par(a), Rat::zero())]);
    assert_eq!(le.solve(), Ok(vec![(a, LinExp::zero())]));
    // a x + 5 against a x: the number 5 is no leading term, and its equation 0 = -5 goes
    // to the solver
    let five = Mon::<LinExp> { vars: vec![], coef: LinExp::from_const(Rat::from_int(5)) };
    let ax = Mon::from_par(a, &vec![(x, 1)]).unwrap();
    let bx = Mon::from_par(r.mint().unwrap(), &vec![(x, 1)]).unwrap();
    let t4 = Temp::from_mons(&vec![ax, five], &mut r).unwrap();
    let t5 = Temp::from_mons(&vec![bx], &mut r).unwrap();
    let c = Cs::new().add(Constraint(PIdeal::from_temp(t5), PIdeal::from_temp(t4)));
    let le = LinearEquations::from_constraints(&c, &r).unwrap();
    assert_eq!(le.eqs.len(), 2);
    assert_eq!(le.eqs[1], (LinExp::zero(), Rat::from_int(-5)));
    assert_eq!(le.solve(), Err(Failure::Unsatisfiable));
}

#[test]
fn identical_ideals_are_unsatisfiable() {
    let mut r = Ring::new();
    let y = r.vextend("y".to_string());
    let g = Temp::most_gen(1, &mut r).unwrap();
    let ideal = PIdeal::from_temp(g);
    let body = Expr::Ass { lv: y, rv: Poly::from_var(y) };
    let w = Expr::While { guard: Pred::new(Poly::from_var(y), true), c: Box::new(body) };
    let (_i, c) = gen_con(&w, ideal, Cs::new(), &mut r).unwrap();
    assert_eq!(c.items.len(), 1);
    // the difference of the two templates is zero: its leading coefficient has no parameter
    assert_eq!(LinearEquations::from_constraints(&c, &r), Err(Failure::Unsatisfiable));
}

#[test]
fn constraints_are_a_set_of_unordered_pairs() {
    let mut r = Ring::new();
    r.vextend("y".to_string());
    let a = PIdeal::most_gen(1, &mut r).unwrap();
    let b = PIdeal::zero();
    let c = Cs::new().add(Constraint(a.clone(), b.clone()));
    let c = c.add(Constraint(b.clone(), a.clone()));
    assert_eq!(c.items.len(), 1);
    let c = c.add(Constraint(a.clone(), a.clone()));
    assert_eq!(c.items.len(), 2);
    let d = Cs::new().add(Constraint(b.clone(), b.clone())).add(Constraint(b.clone(), a.clone()));
    let u = c.union(d);
    assert_eq!(u.items.len(), 3);
    assert!(u.contains(&Constraint(b.clone(), b.clone())));
    // an ideal is a set
    let ab = a.clone().union(b.clone());
    let ba = b.clone().union(a.clone());
    assert_eq!(ab.gens.len(), 2);
    assert!(ab.same(&ba));
    assert!(!ab.same(&a));
    assert!(a.subset_of(&ab));
    assert_eq!(ab.clone().union(a.clone()).gens.len(), 2);
    assert!(PIdeal::new().gens.is_empty());
    assert!(ab.dup().same(&ab));
}

fn branch(y: Var, x: Var, eq: bool) -> Expr {
    Expr::If {
        guard: Pred::new(Poly::from_var(x), eq),
        the: Box::new(Expr::Ass { lv: y, rv: plus_const(y, 1) }),
        els: Box::new(Expr::Skip),
    }
}

#[test]
fn conditional_merges_both_branches() {
    let mut r = Ring::new();
    let x = r.vextend("x".to_string());
    let y = r.vextend("y".to_string());
    let g = Temp::most_gen(1, &mut r).unwrap();
    let ideal = PIdeal::from_temp(g.clone());
    let px = Poly::from_var(x);
    let shifted = g.subs(y, &plus_const(y, 1)).unwrap();

    let mut r1 = r.clone();
    let (i, c) = gen_con(&branch(y, x, true), ideal.clone(), Cs::new(), &mut r1).unwrap();
    assert!(c.items.is_empty());
    let mut r2 = r.clone();
    let expect = PIdeal::from_temp(shifted.rem_par(&px, &mut r2).unwrap())
        .union(PIdeal::from_temp(g.mul(&px).unwrap()));
    assert_eq!(i, expect);
    assert_eq!(r1, r2);
    assert_eq!(i.gens.len(), 2);

    // the other guard exchanges the branches
    let mut r1 = r.clone();
    let (i, _c) = gen_con(&branch(y, x, false), ideal.clone(), Cs::new(), &mut r1).unwrap();
    let mut r2 = r.clone();
    let expect = PIdeal::from_temp(g.rem_par(&px, &mut r2).unwrap())
        .union(PIdeal::from_temp(shifted.mul(&px).unwrap()));
    assert_eq!(i, expect);

    // the less precise walk does not multiply
    let mut r1 = r.clone();
    let (i, _c) =
        gen_con_less_precise(&branch(y, x, true), ideal.clone(), Cs::new(), &mut r1).unwrap();
    let mut r2 = r.clone();
    let expect = PIdeal::from_temp(shifted.rem_par(&px, &mut r2).unwrap())
        .union(PIdeal::from_temp(g.clone()));
    assert_eq!(i, expect);
}

#[test]
fn sequence_is_walked_backwards() {
    let mut r = Ring::new();
    let x = r.vextend("x".to_string());
    let y = r.vextend("y".to_string());
    let g = Temp::most_gen(1, &mut r).unwrap();
    let ideal = PIdeal::from_temp(g.clone());
    // x := y; y := 0
    let e = Expr::Sequence {
        exprs: vec![
            Expr::Ass { lv: x, rv: Poly::from_var(y) },
            Expr::Ass { lv: y, rv: Poly::zero() },
        ],
    };
    let (i, c) = gen_con(&e, ideal.clone(), Cs::new(), &mut r).unwrap();
    assert!(c.items.is_empty());
    let expect = g.subs(y, &Poly::zero()).unwrap().subs(x, &Poly::from_var(y)).unwrap();
    assert_eq!(i, PIdeal::from_temp(expect));
    let (i, _c) = gen_con(&Expr::Skip, ideal.clone(), Cs::new(), &mut r).unwrap();
    assert_eq!(i, ideal);
}

const MANNA: &str = r#"
    x1 = x1; x2 = x2;
    y1 = 0;y2 = 0;y3 = x1;
    while ( y3 != 0 ) {
        if ( y2 + 1 == x2 ) {
            y1 = y1 + 1;
            y2 = 0;
            y3 = y3 - 1;
        }
        else {
            y2 = y2 + 1;
            y3 = y3 - 1;
        }
    }"#;

fn parse(text: &str) -> E {
    let (rest, e) = program(text).unwrap();
    assert_eq!(rest, "");
    e
}

#[test]
fn manna_division() {
    let mut r = Ring::new();
    let e = convert_from_parseresult(&parse(MANNA), &mut r).unwrap();
    assert_eq!(r.vars, vec!["x1", "x2", "y1", "y2", "y3"]);
    let g = Temp::most_gen(2, &mut r).unwrap();
    assert_eq!(g.mons.len(), 21);
    let (i, c) = gen_con_less_precise(&e, PIdeal::from_temp(g.clone()), Cs::new(), &mut r).unwrap();
    let c = c.add(Constraint(i, PIdeal::zero()));
    assert_eq!(c.items.len(), 2);
    let le = LinearEquations::from_constraints(&c, &r).unwrap();
    let sol = le.solve().unwrap();
    assert_eq!(sol.len(), le.parsize);
    // the solution satisfies every equation exactly
    assert_eq!(le.check(&sol), Some(true));
    let inv = g.subs_pars(&sol, &mut r).unwrap();
    println!("{:?}", inv);
    // the invariant x1 = y1 x2 + y2 + y3, up to a factor
    let x1 = Var::new(0);
    let x2 = Var::new(1);
    let y1 = Var::new(2);
    let y2 = Var::new(3);
    let y3 = Var::new(4);
    assert_eq!(inv.mons.len(), 4);
    assert_eq!(inv.mons[0].vars, vec![(x2, 1), (y1, 1)]);
    assert_eq!(inv.mons[1].vars, vec![(y3, 1)]);
    assert_eq!(inv.mons[2].vars, vec![(y2, 1)]);
    assert_eq!(inv.mons[3].vars, vec![(x1, 1)]);
    let k = inv.mons[0].coef.clone();
    assert_eq!(k.terms.len(), 1);
    assert!(k.terms[0].par.is_some());
    assert_eq!(inv.mons[1].coef, k);
    assert_eq!(inv.mons[2].coef, k);
    assert_eq!(inv.mons[3].coef, k.neg().unwrap());
    // one free parameter: one basis invariant
    let pars = inv.pars();
    assert_eq!(pars.len(), 1);
    let basis = inv.basis(&pars, &mut r).unwrap();
    assert_eq!(basis.len(), 1);
    assert_eq!(basis[0].mons[0].coef, LinExp::from_const(q(-1, 1)));
    assert_eq!(basis[0].mons[3].coef, LinExp::one());
}

#[test]
fn walk_over_syntax_tree() {
    let text = "y = 5; while (y != 0) { y = y - 1; }";
    let mut r = Ring::new();
    r.vextend("y".to_string());
    let g = Temp::most_gen(1, &mut r).unwrap();
    let ideal = PIdeal::from_temp(g.clone());
    let mut r1 = r.clone();
    let (i1, c1) = gen_con_alt(&parse(text), ideal.clone(), Cs::new(), &mut r1).unwrap();
    let mut r2 = r.clone();
    let e = convert_from_parseresult(&parse(text), &mut r2).unwrap();
    let (i2, c2) = gen_con(&e, ideal, Cs::new(), &mut r2).unwrap();
    assert_eq!(i1, i2);
    assert_eq!(c1.items.len(), 1);
    assert_eq!(c2.items.len(), 1);
    assert!(c1.items[0].same(&c2.items[0]));
    assert_eq!(r1, r2);
    // a0 + 5 a1
    let y = Var::new(0);
    assert_eq!(i1, PIdeal::from_temp(g.subs(y, &Poly::from_const(q(5, 1))).unwrap()));
}

#[test]
fn conversion_of_syntax_tree() {
    let mut r = Ring::new();
    let e = convert_from_parseresult(&parse("if (a == b) { c = a * a; }"), &mut r).unwrap();
    assert_eq!(r.vars, vec!["a", "b", "c"]);
    let a = Var::new(0);
    let b = Var::new(1);
    let c = Var::new(2);
    let guard = poly(vec![mon(vec![(a, 1)]), mon(vec![(b, 1)]).scale(&q(-1, 1)).unwrap()]);
    let expect = Expr::If {
        guard: Pred::new(guard, true),
        the: Box::new(Expr::Ass { lv: c, rv: poly(vec![mon(vec![(a, 2)])]) }),
        els: Box::new(Expr::Skip),
    };
    assert_eq!(e, expect);
    // a copy is the same program
    assert_eq!(e.clone(), expect);
    let w = Expr::While {
        guard: Pred::new(Poly::from_var(a), false),
        c: Box::new(Expr::Sequence { exprs: vec![e.clone(), Expr::Skip] }),
    };
    assert_eq!(w.clone(), w);
    let mut r = Ring::new();
    assert_eq!(
        convert_from_parseresult(&parse("x = 9223372036854775807 + 1;"), &mut r),
        Err(Failure::Overflow)
    );
}

#[test]
fn c_fall() {
    let text = r#"
        x = x0; v = v0; t = t0;
        while (t - a != 0) {
            x = x + v * dt;
            v = v - g * dt;
            t = t + dt;
        }
        "#;
    let mut r = Ring::new();
    let e = convert_from_parseresult(&parse(text), &mut r).unwrap();
    assert_eq!(r.vars.len(), 9);
    let g = Temp::most_gen(3, &mut r).unwrap();
    let (i, c) = gen_con(&e, PIdeal::from_temp(g.clone()), Cs::new(), &mut r).unwrap();
    let c = c.add(Constraint(i, PIdeal::zero()));
    let le = LinearEquations::from_constraints(&c, &r).unwrap();
    let sol = le.solve().unwrap();
    assert_eq!(le.check(&sol), Some(true));
    let inv = g.subs_pars(&sol, &mut r).unwrap();
    println!("{:?}", inv);
    // one basis invariant for each parameter that stays free
    let pars = inv.pars();
    let basis = inv.basis(&pars, &mut r).unwrap();
    assert_eq!(basis.len(), pars.len());
    for b in &basis {
        assert!(b.pars().is_empty());
        assert!(!b.is_zero());
    }
}

#[test]
fn zero_and_mostgen() {
    let mut r = Ring::new();
    r.vextend(String::from("x0"));
    let x0 = Var::new(0);
    r.vextend(String::from("x1"));
    let x1 = Var::new(1);
    r.vextend(String::from("x2"));
    let x2 = Var::new(2);
    let g = Temp::most_gen(1, &mut r).unwrap();
    let i = PIdeal::from_temp(g.clone());

    let par = |k: usize| LinExp::from_par(Par::new(k));
    let mut a0x0 = Mon::from_par(Par::new(0), &vec![(x0, 1)]).unwrap();
    a0x0.coef = a0x0.coef.add(&LinExp::one().add(&par(3)).unwrap()).unwrap();
    let mut a1x1 = Mon::from_par(Par::new(1), &vec![(x1, 1)]).unwrap();
    a1x1.coef = a1x1
        .coef
        .add(
            &LinExp::one()
                .scale(&q(8, 1))
                .unwrap()
                .add(&par(4))
                .unwrap()
                .add(&par(5))
                .unwrap()
                .add(&par(6))
                .unwrap(),
        )
        .unwrap();
    let a2x2 = Mon::from_par(Par::new(2), &vec![(x2, 1)]).unwrap();
    let t = Temp::from_mons(&vec![a0x0, a1x1, a2x2], &mut r).unwrap();
    assert_eq!(r.pars.len(), 7);
    let eq_cons = Constraint(i, PIdeal::from_temp(t));
    let c = Cs::new().add(eq_cons);

    let leq = LinearEquations::from_constraints(&c, &r).unwrap();
    assert_eq!(leq.parsize, 7);
    assert_eq!(leq.eqs.len(), 4);
    // g = a3 x2 + a2 x1 + a1 x0 + a0, and the four coefficients of t - g have to vanish
    let sol = leq.solve().unwrap();
    assert_eq!(leq.check(&sol), Some(true));
    assert_eq!(sol.len(), 7);
    assert_eq!(sol[0], (Par::new(0), LinExp::zero()));
    assert_eq!(sol[1], (Par::new(1), LinExp::one().add(&par(3)).unwrap()));
    assert_eq!(sol[2], (Par::new(2), par(3)));
    assert_eq!(sol[3], (Par::new(3), par(3)));
    let a4 = LinExp::from_const(q(-9, 1))
        .add(&par(5).neg().unwrap())
        .unwrap()
        .add(&par(6).neg().unwrap())
        .unwrap();
    assert_eq!(sol[4], (Par::new(4), a4));
    assert_eq!(sol[5], (Par::new(5), par(5)));
    assert_eq!(sol[6], (Par::new(6), par(6)));
    let inv = g.subs_pars(&sol, &mut r).unwrap();
    assert_eq!(inv.mons.len(), 3);
    assert_eq!(inv.mons[0], Mon { vars: vec![(x2, 1)], coef: par(3) });
    assert_eq!(inv.mons[1], Mon { vars: vec![(x1, 1)], coef: par(3) });
    assert_eq!(inv.mons[2], Mon { vars: vec![(x0, 1)], coef: LinExp::one().add(&par(3)).unwrap() });
}

#[test]
fn templates_compare_by_leading_terms() {
    let mut r = Ring::new();
    let x = r.vextend("x".to_string());
    let y = r.vextend("y".to_string());
    let a = r.mint().unwrap();
    let b = r.mint().unwrap();
    let ax2 = Mon::from_par(a, &vec![(x, 2)]).unwrap();
    let by = Mon::from_par(b, &vec![(y, 1)]).unwrap();
    let bx2 = Mon::from_par(b, &vec![(x, 2)]).unwrap();
    let t = Temp::from_mons(&vec![by.dup(), ax2], &mut r).unwrap();
    let u = Temp::from_mons(&vec![by], &mut r).unwrap();
    let w = Temp::from_mons(&vec![bx2], &mut r).unwrap();
    assert_eq!(t.compare(&u), Order::Greater);
    assert_eq!(u.compare(&t), Order::Less);
    assert_eq!(t.compare(&w), Order::Equal);
    assert_eq!(Temp::zero().compare(&u), Order::Less);
}
