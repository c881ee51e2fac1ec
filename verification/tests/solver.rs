use multi_var_poly::failure::Failure;
use multi_var_poly::linexp::{LinExp, ParTerm};
use multi_var_poly::rat::Rat;
use multi_var_poly::ring::Par;
use multi_var_poly::solve::{pivot_row, LinearEquations};

fn q(n: i64, d: i64) -> Rat {
    Rat::new(n, d).unwrap()
}

fn le(terms: Vec<(usize, i64)>) -> LinExp {
    let ts: Vec<ParTerm> = terms
        .into_iter()
        .map(|(p, c)| ParTerm { par: Some(Par::new(p)), coef: q(c, 1) })
        .collect();
    LinExp::from_terms(&ts).unwrap()
}

fn par(p: usize) -> LinExp {
    LinExp::from_par(Par::new(p))
}

fn cst(n: i64, d: i64) -> LinExp {
    LinExp::from_const(q(n, d))
}

#[test]
fn solve_unique() {
    // a0 + a1 = 3, a0 - a1 = 1
    let eqs = LinearEquations {
        parsize: 2,
        eqs: vec![(le(vec![(0, 1), (1, 1)]), q(3, 1)), (le(vec![(0, 1), (1, -1)]), q(1, 1))],
    };
    let sol = eqs.solve().unwrap();
    assert_eq!(sol, vec![(Par::new(0), cst(2, 1)), (Par::new(1), cst(1, 1))]);
    assert_eq!(eqs.check(&sol), Some(true));
}

#[test]
fn solve_with_free_parameters() {
    // a0 + 2 a1 - a2 = 4 in three parameters
    let eqs = LinearEquations {
        parsize: 3,
        eqs: vec![(le(vec![(0, 1), (1, 2), (2, -1)]), q(4, 1))],
    };
    let sol = eqs.solve().unwrap();
    // a0 = 4 - 2 a1 + a2, a1 and a2 free
    let a0 = cst(4, 1)
        .add(&par(1).scale(&q(-2, 1)).unwrap())
        .unwrap()
        .add(&par(2))
        .unwrap();
    assert_eq!(sol, vec![(Par::new(0), a0), (Par::new(1), par(1)), (Par::new(2), par(2))]);
    assert_eq!(eqs.check(&sol), Some(true));
}

#[test]
fn solve_pivot_right_of_diagonal() {
    // a1 + a2 = 1, a2 = 5: a0 is free
    let eqs = LinearEquations {
        parsize: 3,
        eqs: vec![(le(vec![(1, 1), (2, 1)]), q(1, 1)), (le(vec![(2, 2)]), q(10, 1))],
    };
    let sol = eqs.solve().unwrap();
    assert_eq!(
        sol,
        vec![(Par::new(0), par(0)), (Par::new(1), cst(-4, 1)), (Par::new(2), cst(5, 1))]
    );
    assert_eq!(eqs.check(&sol), Some(true));
}

#[test]
fn solve_fractions() {
    // 2 a0 + 3 a1 = 1, 4 a0 - 3 a1 = 0
    let eqs = LinearEquations {
        parsize: 2,
        eqs: vec![(le(vec![(0, 2), (1, 3)]), q(1, 1)), (le(vec![(0, 4), (1, -3)]), q(0, 1))],
    };
    let sol = eqs.solve().unwrap();
    assert_eq!(sol, vec![(Par::new(0), cst(1, 6)), (Par::new(1), cst(2, 9))]);
    assert_eq!(eqs.check(&sol), Some(true));
}

#[test]
fn solve_unsatisfiable() {
    // a0 = 1 and a0 = 2: more equations than parameters
    let eqs = LinearEquations {
        parsize: 1,
        eqs: vec![(le(vec![(0, 1)]), q(1, 1)), (le(vec![(0, 1)]), q(2, 1))],
    };
    assert_eq!(eqs.solve(), Err(Failure::Unsatisfiable));
    // 0 = 1
    let eqs = LinearEquations { parsize: 2, eqs: vec![(LinExp::zero(), q(1, 1))] };
    assert_eq!(eqs.solve(), Err(Failure::Unsatisfiable));
    // a0 + a1 = 1, 2 a0 + 2 a1 = 3
    let eqs = LinearEquations {
        parsize: 2,
        eqs: vec![(le(vec![(0, 1), (1, 1)]), q(1, 1)), (le(vec![(0, 2), (1, 2)]), q(3, 1))],
    };
    assert_eq!(eqs.solve(), Err(Failure::Unsatisfiable));
}

#[test]
fn solve_redundant_and_empty() {
    let eqs = LinearEquations {
        parsize: 2,
        eqs: vec![
            (le(vec![(0, 1), (1, 1)]), q(1, 1)),
            (le(vec![(0, 2), (1, 2)]), q(2, 1)),
            (LinExp::zero(), q(0, 1)),
        ],
    };
    let sol = eqs.solve().unwrap();
    let a0 = cst(1, 1).add(&par(1).neg().unwrap()).unwrap();
    assert_eq!(sol, vec![(Par::new(0), a0), (Par::new(1), par(1))]);
    assert_eq!(eqs.check(&sol), Some(true));
    let none = LinearEquations { parsize: 0, eqs: vec![] };
    assert_eq!(none.solve(), Ok(vec![]));
    let free = LinearEquations { parsize: 2, eqs: vec![] };
    assert_eq!(free.solve(), Ok(vec![(Par::new(0), par(0)), (Par::new(1), par(1))]));
}

#[test]
fn solve_overflow() {
    let m = i64::MAX;
    let eqs = LinearEquations {
        parsize: 2,
        eqs: vec![(le(vec![(0, m), (1, 1)]), q(1, 1)), (le(vec![(0, 1), (1, m)]), q(1, 1))],
    };
    assert_eq!(eqs.solve(), Err(Failure::Overflow));
}

#[test]
fn check_rejects_wrong_bindings() {
    let eqs = LinearEquations {
        parsize: 2,
        eqs: vec![(le(vec![(0, 1), (1, 1)]), q(3, 1)), (le(vec![(0, 1), (1, -1)]), q(1, 1))],
    };
    let wrong = vec![(Par::new(0), cst(2, 1)), (Par::new(1), cst(2, 1))];
    assert_eq!(eqs.check(&wrong), Some(false));
    // an expression that is not constant does not satisfy
    let open = vec![(Par::new(0), par(0)), (Par::new(1), cst(1, 1))];
    assert_eq!(eqs.check(&open), Some(false));
    let big = vec![(Par::new(0), cst(i64::MAX, 1)), (Par::new(1), cst(i64::MAX, 1))];
    assert_eq!(eqs.check(&big), None);
}

#[test]
fn pivot_is_largest_signed_value() {
    let col = |vals: Vec<i64>| -> Vec<Vec<Rat>> { vals.into_iter().map(|v| vec![q(v, 1)]).collect() };
    assert_eq!(pivot_row(&col(vec![1, 3, 2]), 0, 0), 1);
    assert_eq!(pivot_row(&col(vec![0, 0, 0]), 0, 0), 0);
    // zero is the smallest: a negative entry is taken before it
    assert_eq!(pivot_row(&col(vec![0, -5, 0]), 0, 0), 1);
    assert_eq!(pivot_row(&col(vec![-2, -5, -1]), 0, 0), 2);
    // the signed value counts, not the magnitude
    assert_eq!(pivot_row(&col(vec![-7, 1]), 0, 0), 1);
    // the first of equal entries, and only rows from `cur` on
    assert_eq!(pivot_row(&col(vec![9, 4, 4]), 1, 0), 1);
}
