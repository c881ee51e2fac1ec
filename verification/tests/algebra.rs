use multi_var_poly::exps::Order;
use multi_var_poly::expr::{Expr, Pred};
use multi_var_poly::linexp::{LinExp, ParTerm};
use multi_var_poly::mon::Mon;
use multi_var_poly::poly::Poly;
use multi_var_poly::rat::Rat;
use multi_var_poly::ring::{Par, Ring, Var};
use multi_var_poly::temp::Temp;

fn c(n: i64, d: i64) -> Rat {
    Rat::new(n, d).unwrap()
}

fn mon(pairs: Vec<(Var, usize)>) -> Mon<Rat> {
    Mon::from_pairs(&pairs).unwrap()
}

fn tmon(pairs: Vec<(Var, usize)>) -> Mon<LinExp> {
    Mon::from_pairs(&pairs).unwrap()
}

fn pmon(p: Par, pairs: Vec<(Var, usize)>) -> Mon<LinExp> {
    Mon::from_par(p, &pairs).unwrap()
}

fn poly(mons: Vec<Mon<Rat>>) -> Poly {
    Poly::from_mons(&mons).unwrap()
}

fn three_vars() -> (Ring, Var, Var, Var) {
    let mut r = Ring::new();
    let x = r.vextend("x".to_string());
    let y = r.vextend("y".to_string());
    let z = r.vextend("z".to_string());
    (r, x, y, z)
}

#[test]
fn parterm_ord_test() {
    let a = ParTerm::from_par(Par::new(0));
    let c2 = ParTerm::from_par(Par::new(2));
    let a = a.scale(&c(8, 1)).unwrap();
    assert!(a.lt(c2));

    // cnst < var
    let z = ParTerm::zero();
    assert!(z.lt(a));
    let o = ParTerm::one();
    assert!(o.lt(a));
    // zero is minimum
    assert!(z.lt(o));
}

#[test]
fn linexp_ops_test() {
    let threea = ParTerm::from_par(Par::new(0)).scale(&c(3, 1)).unwrap();
    let twob = ParTerm::from_par(Par::new(1));
    let onec = ParTerm::from_par(Par::new(2));
    let le1 = LinExp::from_terms(&vec![threea, twob.scale(&c(-1, 1)).unwrap(), onec]).unwrap();
    let le2 = LinExp::from_terms(&vec![twob, onec]).unwrap();
    println!("{:?}", le1);
    println!("{:?}", le1.scale(&c(9, 1)).unwrap());
    println!("{:?}", le1.scale(&Rat::zero()).unwrap());
    let les = le1.add(&le2).unwrap();
    println!("{:?}", les);

    // zero and one
    assert!(LinExp::zero().add(&les).unwrap() == les.clone());
    assert!(les.add(&LinExp::zero()).unwrap() == les.clone());
    assert!(LinExp::one().add(&LinExp::zero()).unwrap() == LinExp::one());
    // 3a - b + c + b + c = 3a + 2c
    assert_eq!(
        les.terms,
        vec![
            ParTerm { par: Some(Par::new(0)), coef: c(3, 1) },
            ParTerm { par: Some(Par::new(2)), coef: c(2, 1) },
        ]
    );
    assert!(le1.scale(&Rat::zero()).unwrap() == LinExp::zero());
}

#[test]
fn mon_ord_test() {
    let x = Var::new(0);
    let y = Var::new(1);
    let z = Var::new(2);

    let x2: Mon<Rat> = mon(vec![(x, 2)]);
    let xy: Mon<Rat> = mon(vec![(x, 1), (y, 1)]);
    let y2: Mon<Rat> = mon(vec![(y, 2)]);
    let yz: Mon<Rat> = mon(vec![(y, 1), (z, 1)]);
    let eight = Mon::<Rat>::one().scale(&c(8, 1)).unwrap();
    let zero = Mon::<Rat>::zero();
    assert!(zero.lt(&eight));
    // of one degree, y has the larger exponent in xy
    assert!(x2.lt(&xy));
    assert!(!xy.lt(&x2));
    let dp = vec![x2, xy, y2, yz, eight, zero];
    println!("{:?}", dp);
    // 0 < 8 < x2 < xy < y2 < yz
    assert_eq!(dp[3].compare(&dp[2]), Order::Greater);
    assert_eq!(dp[2].compare(&dp[1]), Order::Greater);
    assert_eq!(dp[4].compare(&dp[3]), Order::Less);
    assert_eq!(dp[5].compare(&dp[4]), Order::Less);
    assert_eq!(dp[0].compare(&dp[0]), Order::Equal);
    assert_eq!(dp[0].compare(&dp[1]), Order::Less);
    assert_eq!(dp[1].compare(&dp[0]), Order::Greater);
}

#[test]
fn test_zero() {
    println!("{:?}", Poly::zero());
    assert!(Poly::zero().is_zero());
    assert_eq!(Poly::zero().mons, vec![Mon::<Rat>::zero()]);
}

#[test]
fn check_poly_pow() {
    let (_r, x, y, z) = three_vars();

    let x2: Mon<Rat> = mon(vec![(x, 2)]);
    let _xy: Mon<Rat> = mon(vec![(x, 1), (y, 1)]);
    let _yz: Mon<Rat> = mon(vec![(y, 1), (z, 1)]);
    let p1 = poly(vec![x2]);
    println!("{:?}", p1.pow(5));
    println!("{:?}", Poly::from_const(c(3, 1)).pow(5));
    assert_eq!(p1.pow(5).unwrap(), poly(vec![mon(vec![(x, 10)])]));
    assert_eq!(Poly::from_const(c(3, 1)).pow(5).unwrap(), Poly::from_const(c(243, 1)));
    assert_eq!(p1.pow(0).unwrap(), Poly::one());
}

#[test]
fn check_poly_addition() {
    let (_r, x, y, z) = three_vars();

    let x2: Mon<Rat> = mon(vec![(x, 2)]);
    let y2: Mon<Rat> = mon(vec![(y, 2)]);
    let xy: Mon<Rat> = mon(vec![(x, 1), (y, 1)]);
    let yz: Mon<Rat> = mon(vec![(y, 1), (z, 1)]);
    let twelve: Mon<Rat> = Mon::<Rat>::one().scale(&c(12, 1)).unwrap();
    let p1 = poly(vec![x2, yz, twelve.clone()]);
    let p2 = poly(vec![xy, y2, twelve]);
    let p3 = poly(vec![]);
    assert!(p1.tdeg() == 2);
    assert!(p2.tdeg() == 2);
    let a = p1.add(&p2).unwrap();
    assert!(a.tdeg() == 2);
    println!("{:?}", a);
    assert!(p3.is_zero());
    // x^2 + xy + y^2 + yz + 24
    assert_eq!(a.mons.len(), 5);
    assert_eq!(a.mons[4].coef, c(24, 1));
}

#[test]
fn zero_is_identity_of_add() {
    assert!(Temp::one().add(&Temp::zero()).unwrap() == Temp::one());
    assert!(Temp::zero().add(&Temp::one()).unwrap() == Temp::one());
    assert!(Temp::zero().add(&Temp::zero()).unwrap() == Temp::zero());
}

#[test]
fn one_id_of_mul_zero_is_zero() {
    assert!(Temp::one().mul(&Poly::zero()).unwrap() == Temp::zero());
    println!("T 1 * P 0 = T 0");
    assert!(Temp::zero().mul(&Poly::one()).unwrap() == Temp::zero());
    println!("T 0 * P 1 = T 0");
    assert!(Temp::one().mul(&Poly::one()).unwrap() == Temp::one());
    println!("T 1 * P 1 = T 1");
    assert!(Temp::zero().mul(&Poly::zero()).unwrap() == Temp::zero());
    println!("T 0 * P 0 = T 0");
}

#[test]
fn check_temp_add_poly_mul() {
    let (mut r, x, y, z) = three_vars();
    // parameters
    let pars: Vec<Par> = (0..4).map(|i| Par::new(i)).collect();

    let ax2 = pmon(pars[0], vec![(x, 2)]);
    let bx2 = pmon(pars[1], vec![(x, 1), (y, 1)]);
    let cxy = pmon(pars[2], vec![(x, 1), (y, 1)]);
    let dxy = pmon(pars[3], vec![(x, 1), (y, 1)]);
    let y2 = pmon(pars[3], vec![(y, 2)]);
    let yz = pmon(pars[0], vec![(y, 1), (z, 1)]);
    let p1 = Temp::from_mons(&vec![ax2, cxy, yz, y2.clone()], &mut r).unwrap();
    let p2 = Temp::from_mons(&vec![bx2, dxy, y2], &mut r).unwrap();
    assert!(r.pars == pars);
    assert!(p1.tdeg() == 2);
    assert!(p2.tdeg() == 2);

    let p1 = p1.add(&p2).unwrap();

    assert!(p1.clone() == p1.add(&Temp::zero()).unwrap());
    assert!(p1.clone() == Temp::zero().add(&p1).unwrap());

    let x2: Mon<Rat> = mon(vec![(x, 2)]);
    let y2: Mon<Rat> = mon(vec![(y, 2)]);
    let xy: Mon<Rat> = mon(vec![(x, 1), (y, 1)]);
    let yz: Mon<Rat> = mon(vec![(y, 1), (z, 1)]);
    let twelve: Mon<Rat> = Mon::<Rat>::one().scale(&c(12, 1)).unwrap();
    let p2 = poly(vec![x2, yz, xy, y2, twelve]);

    assert!(p1.tdeg() == 2);
    let m = p1.mul(&p2).unwrap();
    println!("{:?}", m);
    assert!(m.tdeg() == 4);
}

#[test]
fn check_subs_mostgen() {
    let (mut r, x, y, z) = three_vars();

    let p1 = Temp::most_gen(2, &mut r).unwrap();
    // 3 variable, 2 degree => 4H2 == 5C2 == 10
    assert!(r.pars.len() == 10);
    println!("{:?}", p1);
    assert!(p1.tdeg() == 2);

    let x2: Mon<Rat> = mon(vec![(x, 2)]);
    let y2: Mon<Rat> = mon(vec![(y, 2)]);
    let _xy: Mon<Rat> = mon(vec![(x, 1), (y, 1)]);
    let yz: Mon<Rat> = mon(vec![(y, 1), (z, 1)]);
    let twelve: Mon<Rat> = Mon::<Rat>::one().scale(&c(12, 1)).unwrap();
    let p2 = poly(vec![x2, yz, y2, twelve]);

    println!("{:?} subs {:?} to {:?} ", p1, x, p2);
    let s = p1.subs(x, &p2).unwrap();
    println!("{:?}", s);
    assert_eq!(s.tdeg(), 4);
}

fn manna_ring() -> (Ring, Var, Var, Var, Var, Var) {
    let mut r = Ring::new();
    let x1 = r.vextend("x1".to_string());
    let x2 = r.vextend("x2".to_string());
    let y1 = r.vextend("y1".to_string());
    let y2 = r.vextend("y2".to_string());
    let y3 = r.vextend("y3".to_string());
    (r, x1, x2, y1, y2, y3)
}

fn minus_one() -> Rat {
    Rat::one().neg().unwrap()
}

#[test]
fn check_mannadiv_poly() {
    let (mut r, x1, x2, y1, y2, y3) = manna_ring();
    // y1*x2 + y2 + y3 - x1 = 0
    let m1 = tmon(vec![(y1, 1), (x2, 1)]);
    let m2 = tmon(vec![(y2, 1)]);
    let m3 = tmon(vec![(y3, 1)]);
    let m4 = tmon(vec![(x1, 1)]).scale(&minus_one()).unwrap();
    let g_inv = Temp::from_mons(&vec![m1, m2, m3, m4], &mut r).unwrap();

    // p = x2-y2-1
    let m1 = mon(vec![(x2, 1)]);
    let m2 = mon(vec![(y2, 1)]).scale(&minus_one()).unwrap();
    let n_one = Mon::<Rat>::one().scale(&minus_one()).unwrap();
    let p = poly(vec![m1, m2, n_one]);

    let pc11y1 = poly(vec![mon(vec![(y1, 1)]), Mon::one()]);
    let pc12y2 = Poly::zero();
    let pc13y3 = poly(vec![mon(vec![(y3, 1)]), Mon::<Rat>::one().scale(&minus_one()).unwrap()]);
    let pc21y2 = poly(vec![mon(vec![(y2, 1)]), Mon::one()]);
    let pc22y3 = poly(vec![mon(vec![(y3, 1)]), Mon::<Rat>::one().scale(&minus_one()).unwrap()]);
    let c1g = {
        let subs3 = g_inv.subs(y3, &pc13y3).unwrap();
        let subs2 = subs3.subs(y2, &pc12y2).unwrap();
        subs2.subs(y1, &pc11y1).unwrap()
    };
    println!("c1g{:?}", c1g);
    println!("g_inv{:?}", g_inv);
    let c2g = {
        let subs2 = g_inv.subs(y3, &pc22y3).unwrap();
        subs2.subs(y2, &pc21y2).unwrap()
    };
    println!("{:?}", c2g.mons[c2g.mons.len() - 1].coef.terms);
    println!("c2g{:?}", c2g);
    println!("g_inv{:?}", g_inv);
    assert!(c2g == g_inv);
    let remainder = c1g.rem_par(&p, &mut r).unwrap();
    println!("{:?}", remainder);
    let pg = c2g.mul(&p).unwrap();

    let p1y1 = Poly::zero();
    let p2y2 = Poly::zero();
    let p3y3 = poly(vec![mon(vec![(x1, 1)])]);
    let g1 = {
        let subs3 = pg.subs(y3, &p3y3).unwrap();
        let subs2 = subs3.subs(y2, &p2y2).unwrap();
        subs2.subs(y1, &p1y1).unwrap()
    };
    let g2 = {
        let subs3 = remainder.subs(y3, &p3y3).unwrap();
        let subs2 = subs3.subs(y2, &p2y2).unwrap();
        subs2.subs(y1, &p1y1).unwrap()
    };
    println!("{:?}", g1);
    println!("{:?}", g2);
    // the invariant holds at the start of the program
    assert!(g1.is_zero());
}

#[test]
fn mannadiv_simple() {
    let (_r, x1, x2, y1, y2, y3) = manna_ring();

    let p1y1 = Poly::zero();
    let p2y2 = Poly::zero();
    let p3y3 = poly(vec![mon(vec![(x1, 1)])]);
    let c_init = Expr::Sequence {
        exprs: vec![
            Expr::Ass { lv: y1, rv: p1y1 },
            Expr::Ass { lv: y2, rv: p2y2 },
            Expr::Ass { lv: y3, rv: p3y3 },
        ],
    };

    let pc11y1 = poly(vec![mon(vec![(y1, 1)]), Mon::one()]);
    let pc12y2 = Poly::zero();
    let pc13y3 = poly(vec![mon(vec![(y3, 1)]), Mon::<Rat>::one().scale(&minus_one()).unwrap()]);
    let c1 = Expr::Sequence {
        exprs: vec![
            Expr::Ass { lv: y1, rv: pc11y1 },
            Expr::Ass { lv: y2, rv: pc12y2 },
            Expr::Ass { lv: y3, rv: pc13y3 },
        ],
    };
    let pc21y2 = poly(vec![mon(vec![(y2, 1)]), Mon::one()]);
    let pc22y3 = poly(vec![mon(vec![(y3, 1)]), Mon::<Rat>::one().scale(&minus_one()).unwrap()]);
    let c2 = Expr::Sequence {
        exprs: vec![Expr::Ass { lv: y2, rv: pc21y2 }, Expr::Ass { lv: y3, rv: pc22y3 }],
    };

    // p = x2-y2-1
    let p = poly(vec![
        mon(vec![(x2, 1)]),
        mon(vec![(y2, 1)]).scale(&minus_one()).unwrap(),
        Mon::<Rat>::one().scale(&minus_one()).unwrap(),
    ]);
    let c_if = Expr::If { guard: Pred::new(p, true), the: Box::new(c1), els: Box::new(c2) };

    let c = Expr::Sequence { exprs: vec![c_init, c_if] };
    assert_eq!(c.clone(), c);
}
