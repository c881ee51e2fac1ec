use multi_var_poly::linexp::{LinExp, ParTerm};
use multi_var_poly::mon::Mon;
use multi_var_poly::poly::Poly;
use multi_var_poly::rat::Rat;
use multi_var_poly::ring::{Par, Ring, Var};
use multi_var_poly::solve::LinearEquations;
use multi_var_poly::temp::Temp;
use multi_var_poly::text::powers_to_text;

fn q(n: i64, d: i64) -> Rat {
    Rat::new(n, d).unwrap()
}

#[test]
fn text_of_symbols_and_numbers() {
    assert_eq!(Par::new(4).text(), "a[4]");
    assert_eq!(Var::new(12).text(), "x[12]");
    assert_eq!(q(3, 1).text(), "3");
    assert_eq!(q(-3, 4).text(), "-3/4");
    assert_eq!(q(0, 1).text(), "0");
    assert_eq!(q(1, 1).factor_text(), "");
    assert_eq!(q(-1, 1).factor_text(), "-");
    assert_eq!(q(1, 2).factor_text(), "1/2");
}

#[test]
fn text_of_linear_expressions() {
    let a = Par::new(0);
    let b = Par::new(1);
    assert_eq!(ParTerm { par: None, coef: q(5, 2) }.text(), "5/2");
    assert_eq!(ParTerm { par: Some(a), coef: q(1, 1) }.text(), "a[0]");
    assert_eq!(ParTerm { par: Some(a), coef: q(-1, 1) }.text(), "-a[0]");
    assert_eq!(ParTerm { par: Some(b), coef: q(3, 1) }.text(), "3a[1]");
    let e = LinExp::from_terms(&vec![
        ParTerm { par: Some(b), coef: q(-2, 1) },
        ParTerm { par: None, coef: q(1, 2) },
        ParTerm { par: Some(a), coef: q(1, 1) },
    ])
    .unwrap();
    assert_eq!(e.text(), "(1/2+a[0]-2a[1])");
    assert_eq!(LinExp::zero().text(), "(0)");
    assert_eq!(LinExp::one().factor_text(), "");
    assert_eq!(LinExp::one().neg().unwrap().factor_text(), "-");
    assert_eq!(e.factor_text(), "(1/2+a[0]-2a[1])");
}

#[test]
fn text_of_polynomials() {
    let mut r = Ring::new();
    let x = r.vextend("x".to_string());
    let y = r.vextend("y".to_string());
    let m: Mon<Rat> = Mon::from_pairs(&vec![(x, 2), (y, 1)]).unwrap().scale(&q(3, 1)).unwrap();
    assert_eq!(m.text(Some(&r)), "3x^2y");
    assert_eq!(m.text(None), "3x[0]^2x[1]");
    assert_eq!(powers_to_text(&vec![(y, 7)], Some(&r)), "y^7");
    let p = Poly::from_mons(&vec![
        m,
        Mon::from_pairs(&vec![(y, 1)]).unwrap().scale(&q(-1, 1)).unwrap(),
        Mon::from_pairs(&vec![(x, 1)]).unwrap(),
        Mon::<Rat>::one().scale(&q(1, 2)).unwrap(),
    ])
    .unwrap();
    assert_eq!(p.text(Some(&r)), "3x^2y-y+x+1/2");
    assert_eq!(Poly::zero().text(Some(&r)), "0");
    assert_eq!(Poly::one().text(None), "1");
}

#[test]
fn text_of_templates() {
    let mut r = Ring::new();
    let x = r.vextend("x".to_string());
    let t = Temp::most_gen(2, &mut r).unwrap();
    assert_eq!(t.text(Some(&r)), "(a[2])x^2+(a[1])x+(a[0])");
    let c = Mon::<LinExp>::from_pairs(&vec![(x, 1)]).unwrap();
    let u = Temp::from_mons(&vec![c, Mon::from_par(Par::new(4), &vec![]).unwrap()], &mut r)
        .unwrap();
    assert_eq!(u.text(Some(&r)), "x+(a[4])");
    assert_eq!(u.neg().unwrap().text(None), "-x[0]+(-a[4])");
    assert_eq!(Temp::zero().text(None), "(0)");
}

#[test]
fn text_of_equations() {
    let le = |terms: Vec<(usize, i64)>| -> LinExp {
        let ts: Vec<ParTerm> = terms
            .into_iter()
            .map(|(p, c)| ParTerm { par: Some(Par::new(p)), coef: q(c, 1) })
            .collect();
        LinExp::from_terms(&ts).unwrap()
    };
    let eqs = LinearEquations {
        parsize: 3,
        eqs: vec![(le(vec![(0, 1), (2, -2)]), q(3, 1)), (le(vec![(1, -1)]), q(0, 1))],
    };
    assert_eq!(eqs.text(), " a[0]       -2a[2]=  3  \n      -a[1]       =  0  \n");
    let none = LinearEquations { parsize: 2, eqs: vec![] };
    assert_eq!(none.text(), "");
}
