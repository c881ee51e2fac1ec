use multi_var_poly::coef::Coef;
use multi_var_poly::exps::{exps_degree, exps_from_pairs, exps_order, exps_product, exps_up_to, Order};
use multi_var_poly::linexp::{LinExp, ParTerm};
use multi_var_poly::mon::Mon;
use multi_var_poly::rat::Rat;
use multi_var_poly::ring::{Par, Ring, Var};

fn q(n: i64, d: i64) -> Rat {
    Rat::new(n, d).unwrap()
}

#[test]
fn rat_new_reduces() {
    assert_eq!(q(2, 4), Rat { num: 1, den: 2 });
    assert_eq!(q(3, -6), Rat { num: -1, den: 2 });
    assert_eq!(q(0, -7), Rat { num: 0, den: 1 });
    assert_eq!(q(-8, -4), Rat { num: 2, den: 1 });
    assert_eq!(Rat::new(1, 0), None);
    // -MIN does not fit
    assert_eq!(Rat::new(i64::MIN, -1), None);
    assert_eq!(Rat::new(i64::MIN, 2), Some(Rat { num: i64::MIN / 2, den: 1 }));
    assert_eq!(Rat::from_int(-5), Rat { num: -5, den: 1 });
}

#[test]
fn rat_constants() {
    assert_eq!(Rat::zero(), Rat { num: 0, den: 1 });
    assert_eq!(Rat::one(), Rat { num: 1, den: 1 });
    assert!(Rat::zero().is_zero());
    assert!(!Rat::one().is_zero());
    assert!(!q(-1, 3).is_zero());
}

#[test]
fn rat_arithmetic() {
    assert_eq!(q(1, 2).add(&q(1, 3)), Some(q(5, 6)));
    assert_eq!(q(1, 2).add(&q(1, 2)), Some(q(1, 1)));
    assert_eq!(q(1, 2).sub(&q(1, 3)), Some(q(1, 6)));
    assert_eq!(q(1, 3).sub(&q(1, 2)), Some(q(-1, 6)));
    assert_eq!(q(2, 3).mul(&q(3, 4)), Some(q(1, 2)));
    assert_eq!(q(2, 3).mul(&q(-9, 4)), Some(q(-3, 2)));
    assert_eq!(q(2, 3).div(&q(4, 9)), Some(q(3, 2)));
    assert_eq!(q(2, 3).div(&q(-4, 9)), Some(q(-3, 2)));
    assert_eq!(q(2, 3).neg(), Some(q(-2, 3)));
    assert_eq!(q(0, 1).neg(), Some(q(0, 1)));
}

#[test]
fn rat_overflow_is_none() {
    let big = q(i64::MAX, 1);
    assert_eq!(big.add(&Rat::one()), None);
    assert_eq!(big.mul(&q(2, 1)), None);
    assert_eq!(q(i64::MIN, 1).neg(), None);
    assert_eq!(q(i64::MIN, 1).sub(&Rat::one()), None);
    assert_eq!(q(1, i64::MAX).div(&q(2, 1)), None);
    // an intermediate value that does not fit is no obstacle
    assert_eq!(big.mul(&q(1, i64::MAX)), Some(Rat::one()));
    assert_eq!(big.add(&q(-i64::MAX, 1)), Some(Rat::zero()));
    assert_eq!(q(1, i64::MAX).add(&q(1, i64::MAX)), Some(q(2, i64::MAX)));
}

#[test]
fn rat_comparisons() {
    assert!(q(1, 3).lt(&q(1, 2)));
    assert!(!q(1, 2).lt(&q(1, 3)));
    assert!(!q(1, 2).lt(&q(1, 2)));
    assert!(q(-1, 2).lt(&q(-1, 3)));
    assert!(q(-1, 2).lt(&Rat::zero()));
    assert!(q(i64::MAX - 1, i64::MAX).lt(&Rat::one()));
    assert!(q(1, 2).equals(&q(2, 4)));
    assert!(!q(1, 2).equals(&q(1, 3)));
}

#[test]
fn rat_as_coefficient() {
    assert_eq!(<Rat as Coef>::zero(), Rat::zero());
    assert_eq!(<Rat as Coef>::one(), Rat::one());
    assert_eq!(Coef::plus(&q(1, 2), &q(1, 2)), Some(Rat::one()));
    assert_eq!(Coef::scaled(&q(1, 2), &q(4, 1)), Some(q(2, 1)));
    assert_eq!(Coef::negated(&q(1, 2)), Some(q(-1, 2)));
    assert!(Coef::same(&q(1, 2), &q(1, 2)));
    assert_eq!(Coef::dup(&q(1, 2)), q(1, 2));
    assert!(Coef::is_zero(&Rat::zero()));
}

#[test]
fn ring_variables_are_interned() {
    let mut r = Ring::new();
    let x = r.vextend("x".to_string());
    let y = r.vextend("y".to_string());
    let x2 = r.vextend("x".to_string());
    assert_eq!(x, Var::new(0));
    assert_eq!(y, Var::new(1));
    assert_eq!(x2, x);
    assert_eq!(r.vars.len(), 2);
    assert_eq!(r.intern("z".to_string()), Var::new(2));
    assert_eq!(r.intern("y".to_string()), Var::new(1));
    assert_eq!(r.lookup(&"z".to_string()), Some(Var::new(2)));
    assert_eq!(r.lookup(&"w".to_string()), None);
}

#[test]
fn ring_parameters() {
    let mut r = Ring::new();
    assert_eq!(r.next_par(), Some(0));
    assert_eq!(r.mint(), Some(Par::new(0)));
    assert_eq!(r.mint(), Some(Par::new(1)));
    r.pextend(vec![Par::new(5), Par::new(3), Par::new(5), Par::new(0)]);
    assert_eq!(r.pars, vec![Par::new(0), Par::new(1), Par::new(3), Par::new(5)]);
    assert!(r.contains_par(Par::new(3)));
    assert!(!r.contains_par(Par::new(4)));
    // a new parameter lies above every one in use
    assert_eq!(r.mint(), Some(Par::new(6)));
    r.mint_many(2);
    assert_eq!(r.next_par(), Some(9));
    r.add_par(Par::new(usize::MAX));
    assert_eq!(r.next_par(), None);
    let before = r.clone();
    assert_eq!(r.mint(), None);
    assert_eq!(r, before);
}

#[test]
fn exponent_vectors() {
    let x = Var::new(0);
    let y = Var::new(1);
    let z = Var::new(2);
    // a later pair overrides, an exponent zero removes
    let e = exps_from_pairs(&vec![(y, 2), (x, 1), (y, 3), (z, 4), (z, 0)]).unwrap();
    assert_eq!(e, vec![(x, 1), (y, 3)]);
    assert_eq!(exps_degree(&e), 4);
    assert_eq!(exps_from_pairs(&vec![(x, usize::MAX), (y, 1)]), None);
    let f = vec![(y, 1), (z, 2)];
    assert_eq!(exps_product(&e, &f), Some(vec![(x, 1), (y, 4), (z, 2)]));
    assert_eq!(exps_product(&vec![(x, usize::MAX)], &vec![(x, 1)]), None);
    // degree first
    assert_eq!(exps_order(&vec![(x, 3)], &vec![(z, 2)]), Order::Greater);
    // then the highest variable in which they differ: the larger exponent is larger
    assert_eq!(exps_order(&vec![(x, 1), (z, 1)], &vec![(y, 2)]), Order::Greater);
    assert_eq!(exps_order(&vec![(x, 2)], &vec![(x, 1), (y, 1)]), Order::Less);
    assert_eq!(exps_order(&vec![(x, 1), (y, 1)], &vec![(x, 2)]), Order::Greater);
    assert_eq!(exps_order(&e, &e), Order::Equal);
}

#[test]
fn monomials_up_to_degree() {
    let x = Var::new(0);
    let y = Var::new(1);
    let l = exps_up_to(2, 2);
    // y^2 > xy > x^2 > y > x > 1
    assert_eq!(
        l,
        vec![
            vec![(y, 2)],
            vec![(x, 1), (y, 1)],
            vec![(x, 2)],
            vec![(y, 1)],
            vec![(x, 1)],
            vec![],
        ]
    );
    assert_eq!(exps_up_to(0, 5), vec![vec![]]);
    assert_eq!(exps_up_to(3, 0), vec![vec![]]);
    assert_eq!(exps_up_to(3, 3).len(), 20);
}

#[test]
fn monomial_products() {
    let x = Var::new(0);
    let y = Var::new(1);
    let a: Mon<Rat> = Mon::from_pairs(&vec![(x, 1)]).unwrap().scale(&q(2, 1)).unwrap();
    let b: Mon<Rat> = Mon::from_pairs(&vec![(x, 2), (y, 1)]).unwrap().scale(&q(1, 4)).unwrap();
    let p = a.mul_mon(&b).unwrap();
    assert_eq!(p.vars, vec![(x, 3), (y, 1)]);
    assert_eq!(p.coef, q(1, 2));
    // a zero operand gives the zero sentinel
    let z = a.mul_mon(&Mon::zero()).unwrap();
    assert_eq!(z, Mon::zero());
    assert!(z.is_zero());
    assert!(z.is_cnst());
    assert_eq!(a.scale(&Rat::zero()).unwrap(), Mon::zero());
    assert!(!a.is_cnst());
    assert!(Mon::<Rat>::one().is_cnst());
    assert_eq!(Mon::<Rat>::from_var(y).vars, vec![(y, 1)]);
    assert!(a.equals(&a.dup()));
    assert!(!a.equals(&b));
}

#[test]
fn linear_expressions() {
    let a = Par::new(0);
    let b = Par::new(1);
    let e = LinExp::from_terms(&vec![
        ParTerm { par: Some(b), coef: q(2, 1) },
        ParTerm { par: None, coef: q(1, 2) },
        ParTerm { par: Some(a), coef: q(3, 1) },
        ParTerm { par: Some(b), coef: q(-2, 1) },
        ParTerm { par: None, coef: q(1, 2) },
    ])
    .unwrap();
    // 1 + 3a
    assert_eq!(
        e.terms,
        vec![
            ParTerm { par: None, coef: q(1, 1) },
            ParTerm { par: Some(a), coef: q(3, 1) },
        ]
    );
    assert!(!e.is_cnst());
    assert!(!e.is_zero());
    assert_eq!(e.constant(), q(1, 1));
    assert_eq!(e.coef_of(a), q(3, 1));
    assert_eq!(e.coef_of(b), Rat::zero());
    assert_eq!(e.without_constant(), LinExp::from_par(a).scale(&q(3, 1)).unwrap());
    assert_eq!(e.add_const(&q(-1, 1)).unwrap(), e.without_constant());
    assert_eq!(e.neg().unwrap().add(&e).unwrap(), LinExp::zero());
    assert!(LinExp::from_const(q(5, 1)).is_cnst());
    assert!(LinExp::zero().is_cnst());
    assert!(LinExp::zero().is_zero());
    assert_eq!(LinExp::from_const(Rat::zero()), LinExp::zero());
    assert_eq!(LinExp::from_terms(&vec![]).unwrap(), LinExp::zero());
    assert_eq!(LinExp::one().without_constant(), LinExp::zero());
    assert!(e.equals(&e.dup()));
    // a -> 2 + b, substituted into 1 + 3a: 7 + 3b
    let sol = vec![(a, LinExp::from_par(b).add_const(&q(2, 1)).unwrap())];
    let s = e.subst(&sol).unwrap();
    assert_eq!(
        s.terms,
        vec![
            ParTerm { par: None, coef: q(7, 1) },
            ParTerm { par: Some(b), coef: q(3, 1) },
        ]
    );
    // overflow
    let big = LinExp::from_const(q(i64::MAX, 1));
    assert_eq!(big.add(&LinExp::one()), None);
    assert_eq!(big.scale(&q(2, 1)), None);
    assert_eq!(LinExp::from_const(q(i64::MIN, 1)).neg(), None);
    let mut r = Ring::new();
    s.register_pars(&mut r);
    assert_eq!(r.pars, vec![b]);
}

#[test]
fn parterm_order() {
    let z = ParTerm::zero();
    let o = ParTerm::one();
    let a = ParTerm::from_par(Par::new(0));
    let b = ParTerm::from_par(Par::new(1));
    assert_eq!(z.compare(z), Order::Equal);
    assert_eq!(o.compare(z), Order::Greater);
    assert_eq!(o.compare(o.scale(&q(5, 1)).unwrap()), Order::Equal);
    assert_eq!(a.compare(b), Order::Less);
    assert_eq!(b.compare(a), Order::Greater);
    assert_eq!(a.compare(a.scale(&q(7, 1)).unwrap()), Order::Equal);
    assert_eq!(a.compare(o), Order::Greater);
    assert!(z.is_zero());
    assert!(z.is_cnst());
    assert!(!a.is_cnst());
    assert!(!a.is_zero());
}
