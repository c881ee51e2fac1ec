use multi_var_poly::expr_parse::{
    assign, expr, if_cnd, if_stmt, nested_program, pred, program, skip, var, while_cnd,
    while_stmt, Pre, E, V,
};
use multi_var_poly::failure::Failure;
use multi_var_poly::poly_parse::{
    create_poly, factor, poly, pow_calc, primary, term, unary, unsigned_number, variable, P,
};
use multi_var_poly::ring::Ring;

fn num(n: i64) -> Box<P> {
    Box::new(P::Num(n))
}

fn name(s: &str) -> Box<P> {
    Box::new(P::Var(s.to_string()))
}

#[test]
fn number_parser() {
    assert_eq!(Ok(("", P::Num(64))), unsigned_number("64"));
    assert_eq!(Ok(("", P::Num(12333))), unsigned_number("12333"));
    assert_eq!(Ok(("", P::Num(0))), unsigned_number("0"));
    assert_eq!(Err(""), unsigned_number(""));
    assert_eq!(Err("-123"), unsigned_number("-123"));
}

#[test]
fn variable_parser() {
    assert_eq!(Ok(("", P::Var("x1".to_string()))), variable("x1"));
    assert_eq!(Ok(("^2 + y^2", P::Var("x".to_string()))), variable("x^2 + y^2"));
    assert_eq!(Err("23x"), variable("23x"));
}

#[test]
fn factor_parser() {
    let expected_factor1 = P::Pow {
        exp1: Box::new(P::Var("x1".to_string())),
        exp2: Box::new(P::Pow { exp1: Box::new(P::Num(3)), exp2: Box::new(P::Num(2)) }),
    };

    assert_eq!(Ok(("", expected_factor1)), factor("x1 ^ 3 ^ 2"));

    let expected_factor2 = P::Pow {
        exp1: Box::new(P::Var("x1".to_string())),
        exp2: Box::new(P::Pow {
            exp1: Box::new(P::Num(3)),
            exp2: Box::new(P::Pow { exp1: Box::new(P::Num(3)), exp2: Box::new(P::Num(2)) }),
        }),
    };
    assert_eq!(Ok(("", expected_factor2)), factor("x1 ^ 3 ^ 3 ^ 2"));
}

fn expected_term_right() -> P {
    P::Mul {
        exp1: Box::new(P::Mul {
            exp1: Box::new(P::Pow {
                exp1: Box::new(P::Var("x1".to_string())),
                exp2: Box::new(P::Num(3)),
            }),
            exp2: Box::new(P::Pow {
                exp1: Box::new(P::Var("y1".to_string())),
                exp2: Box::new(P::Num(2)),
            }),
        }),
        exp2: Box::new(P::Pow {
            exp1: Box::new(P::Var("x1".to_string())),
            exp2: Box::new(P::Num(4)),
        }),
    }
}

#[test]
fn term_parser() {
    let expected_term = expected_term_right();

    assert_eq!(Ok(("", expected_term)), term("x1 ^ 3 * y1 ^ 2 * x1 ^ 4"));
}

fn expected_sum() -> P {
    let expected_term_left = P::Mul {
        exp1: Box::new(P::Mul {
            exp1: Box::new(P::Num(3)),
            exp2: Box::new(P::Var("x4".to_string())),
        }),
        exp2: Box::new(P::Var("y2".to_string())),
    };
    P::Add { exp1: Box::new(expected_term_left), exp2: Box::new(expected_term_right()) }
}

#[test]
fn poly_parser() {
    let expected_poly = expected_sum();

    assert_eq!(
        Ok(("", expected_poly.clone())),
        poly("3 * x4 * y2 +  x1 ^ 3 * y1 ^ 2 * x1 ^ 4")
    );
    let powed_poly = P::Pow { exp1: Box::new(expected_poly), exp2: Box::new(P::Num(3)) };
    assert_eq!(
        Ok(("", powed_poly)),
        poly("(       3 * x4 * y2 +  x1 ^ 3 * y1 ^ 2 * x1 ^ 4 ) ^ 3")
    );
}

#[test]
fn poly_construct() {
    let expected_poly = expected_sum();

    assert_eq!(
        Ok(("", expected_poly.clone())),
        poly("3 * x4 * y2 +  x1 ^ 3 * y1 ^ 2 * x1 ^ 4")
    );
    let powed_poly = P::Pow { exp1: Box::new(expected_poly), exp2: Box::new(P::Num(3)) };
    assert_eq!(
        Ok(("", powed_poly)),
        poly("(       3 * x4 * y2 +  x1 ^ 3 * y1 ^ 2 * x1 ^ 4 ) ^ 3")
    );
    let mut r = Ring::new();
    match poly("(       3 * x4 * y2 +  x1 ^ 3 * y1 ^ 2 * x1 ^ 4 ) ") {
        Ok((_s, p)) => {
            let q = create_poly(&p, &mut r).unwrap();
            println!("{:?}", q);
            // x4, y2, x1, y1 in the order of their first occurrence
            assert_eq!(r.vars, vec!["x4", "y2", "x1", "y1"]);
            assert_eq!(q.mons.len(), 2);
            assert_eq!(q.tdeg(), 9);
        }
        Err(_) => unreachable!(),
    }
}

#[test]
fn var_parser() {
    assert_eq!(Ok(("", V("x1".to_string()))), var("x1"));
    assert_eq!(Ok(("^2 + y^2", V("x".to_string()))), var("x^2 + y^2"));
    assert_eq!(Err("23x"), var("23x"));
}

#[test]
fn assign_parser() {
    let expected = E::Ass { v: V("x1".to_string()), p: P::Num(0) };
    assert_eq!(Ok(("", expected)), assign("x1 = 0"));
    let expected = E::Ass { v: V("y4".to_string()), p: P::Num(7) };
    assert_eq!(Ok(("", expected)), assign("y4 = 7"));
}

#[test]
fn pred_parser() {
    let expected = Pre {
        p: P::Sub { exp1: Box::new(P::Num(0)), exp2: Box::new(P::Num(0)) },
        eq: true,
    };
    assert_eq!(Ok(("", expected)), pred("0 == 0"));
    let expected = Pre {
        p: P::Sub { exp1: Box::new(P::Num(7)), exp2: Box::new(P::Num(0)) },
        eq: false,
    };
    assert_eq!(Ok(("", expected)), pred("7 != 0"));
    let expected = Pre {
        p: P::Sub { exp1: Box::new(P::Num(0)), exp2: Box::new(P::Num(7)) },
        eq: false,
    };
    assert_eq!(Ok(("", expected)), pred("0 != 7"));
}

#[test]
fn if_parser() {
    let expected = E::If {
        guard: Pre {
            p: P::Sub { exp1: Box::new(P::Num(0)), exp2: Box::new(P::Num(0)) },
            eq: true,
        },
        the: Box::new(E::Ass { v: V("x1".to_string()), p: P::Num(0) }),
        els: None,
    };
    assert_eq!(Ok(("", expected)), if_stmt("if (0 == 0) { x1 = 0; }"));
    let expected = E::If {
        guard: Pre {
            p: P::Sub {
                exp1: Box::new(P::Var("x".to_string())),
                exp2: Box::new(P::Num(0)),
            },
            eq: false,
        },
        the: Box::new(E::Sequence {
            es: vec![
                E::Ass { v: V("x1".to_string()), p: P::Num(0) },
                E::Ass { v: V("y".to_string()), p: P::Num(1) },
            ],
        }),
        els: Some(Box::new(E::Ass { v: V("x1".to_string()), p: P::Var("y".to_string()) })),
    };
    assert_eq!(
        Ok(("", expected)),
        if_stmt(
            r#"
        if (x != 0) 
            { x1 = 0; y = 1; } 
        else 
            {  x1 = y;      }
        "#
        )
    );
}

#[test]
fn while_parser() {
    let expected = E::While {
        guard: Pre {
            p: P::Sub { exp1: Box::new(P::Num(0)), exp2: Box::new(P::Num(0)) },
            eq: true,
        },
        body: Box::new(E::Ass { v: V("x1".to_string()), p: P::Num(0) }),
    };
    assert_eq!(Ok(("", expected)), while_stmt("while (0 == 0) { x1 = 0; }"));
}

fn manna_tree() -> E {
    let c_then = E::Sequence {
        es: vec![
            E::Ass {
                v: V("y1".to_string()),
                p: P::Add { exp1: name("y1"), exp2: num(1) },
            },
            E::Ass { v: V("y2".to_string()), p: P::Num(0) },
            E::Ass {
                v: V("y3".to_string()),
                p: P::Sub { exp1: name("y3"), exp2: num(1) },
            },
        ],
    };
    let c_else = E::Sequence {
        es: vec![
            E::Ass {
                v: V("y2".to_string()),
                p: P::Add { exp1: name("y2"), exp2: num(1) },
            },
            E::Ass {
                v: V("y3".to_string()),
                p: P::Sub { exp1: name("y3"), exp2: num(1) },
            },
        ],
    };
    let c_while = E::While {
        guard: Pre { p: P::Sub { exp1: name("y3"), exp2: num(0) }, eq: false },
        body: Box::new(E::If {
            guard: Pre {
                p: P::Sub {
                    exp1: Box::new(P::Add { exp1: name("y2"), exp2: num(1) }),
                    exp2: name("x2"),
                },
                eq: true,
            },
            the: Box::new(c_then),
            els: Some(Box::new(c_else)),
        }),
    };
    E::Sequence {
        es: vec![
            E::Ass { v: V("y1".to_string()), p: P::Num(0) },
            E::Ass { v: V("y2".to_string()), p: P::Num(0) },
            E::Ass { v: V("y3".to_string()), p: P::Var("x1".to_string()) },
            c_while,
        ],
    }
}

#[test]
fn p_program_parser() {
    let expected = manna_tree();
    assert_eq!(
        Ok(("", expected)),
        program(
            r#"
            y1 = 0;y2 = 0;y3 = x1;
            while(y3 != 0) {
                if (y2 + 1 == x2) {
                    y1 = y1 + 1;
                    y2 = 0;
                    y3 = y3 - 1;
                }
            
                else {
                    y2 = y2 + 1;
                    y3 = y3 - 1;
                }
            }"#
        )
    );
    let _r = Ring::new();
}

#[test]
fn primary_and_unary() {
    assert_eq!(Ok(("", P::Num(7))), primary("7"));
    assert_eq!(Ok((" rest", P::Var("ab1".to_string()))), primary("ab1 rest"));
    assert_eq!(
        Ok(("", P::Add { exp1: name("x"), exp2: num(1) })),
        primary("( x + 1 )")
    );
    // a bracket that is not closed fails where the closing bracket is missing
    assert_eq!(Err(""), primary("(x + 1"));
    assert_eq!(Err("*"), primary("*"));
    assert_eq!(Ok(("", P::Neg(num(3)))), unary("-3"));
    assert_eq!(Ok(("", P::Num(3))), unary("- - 3"));
    assert_eq!(Ok(("", P::Neg(name("x")))), unary("+ - + x"));
    // white space before a primary without sign is not read
    assert_eq!(Err(" 3"), unary(" 3"));
}

#[test]
fn number_too_large_is_rejected() {
    assert_eq!(Ok(("", P::Num(i64::MAX))), unsigned_number("9223372036854775807"));
    assert_eq!(Err("9223372036854775808"), unsigned_number("9223372036854775808"));
}

#[test]
fn operators_without_operand_are_left() {
    assert_eq!(Ok((" +", P::Var("x".to_string()))), poly("x +"));
    assert_eq!(Ok((" * ", P::Var("x".to_string()))), term("x * "));
    assert_eq!(Ok((" ^ y", P::Var("x".to_string()))), factor("x ^ y"));
    assert_eq!(
        Ok(("", P::Sub { exp1: Box::new(P::Sub { exp1: name("a"), exp2: name("b") }), exp2: name("c") })),
        poly("a - b - c")
    );
}

#[test]
fn statement_parsers() {
    assert_eq!(Ok(("", E::Skip)), expr("skip;"));
    assert_eq!(Ok((";", E::Skip)), skip("skip;"));
    assert_eq!(Err("x"), skip("x"));
    assert_eq!(
        Ok(("", E::Ass { v: V("x".to_string()), p: P::Num(1) })),
        expr("x = 1;")
    );
    // an assignment without `;` is no statement
    assert_eq!(Err("x = 1"), expr("x = 1"));
    assert_eq!(Ok(("", E::Skip)), program(""));
    assert_eq!(Ok(("?", E::Skip)), program("?"));
    assert_eq!(Ok(("", E::Skip)), nested_program(" { } "));
    assert_eq!(
        Ok(("", E::Sequence { es: vec![E::Skip, E::Skip] })),
        nested_program("{ skip; skip; }")
    );
    let g = Pre { p: P::Sub { exp1: name("x"), exp2: num(0) }, eq: true };
    assert_eq!(Ok(("{", g.clone())), if_cnd("if ( x == 0 ) {"));
    assert_eq!(Ok(("", g)), while_cnd("while(x==0)"));
    assert_eq!(Err(" 0)"), if_cnd("if (x = 0)"));
    assert_eq!(Err("<= 0"), pred("x <= 0"));
}

#[test]
fn if_without_usable_else() {
    let e = E::If {
        guard: Pre { p: P::Sub { exp1: name("x"), exp2: num(0) }, eq: true },
        the: Box::new(E::Skip),
        els: None,
    };
    assert_eq!(Ok(("else x", e)), if_stmt("if (x == 0) { } else x"));
}

#[test]
fn exponent_values() {
    assert_eq!(Some(3), pow_calc(&P::Num(3)));
    assert_eq!(None, pow_calc(&P::Num(-1)));
    assert_eq!(None, pow_calc(&P::Var("x".to_string())));
    // 3 ^ (3 ^ 2) = 19683
    let tower = P::Pow {
        exp1: num(3),
        exp2: Box::new(P::Pow { exp1: num(3), exp2: num(2) }),
    };
    assert_eq!(Some(19683), pow_calc(&tower));
    assert_eq!(Some(1), pow_calc(&P::Pow { exp1: num(0), exp2: num(0) }));
    assert_eq!(Some(0), pow_calc(&P::Pow { exp1: num(0), exp2: num(5) }));
    assert_eq!(Some(1), pow_calc(&P::Pow { exp1: num(1), exp2: num(i64::MAX) }));
    assert_eq!(None, pow_calc(&P::Pow { exp1: num(2), exp2: num(64) }));
    assert_eq!(Some(1usize << 63), pow_calc(&P::Pow { exp1: num(2), exp2: num(63) }));
}

#[test]
fn create_poly_rejects_bad_exponent() {
    let mut r = Ring::new();
    let p = P::Pow { exp1: name("x"), exp2: name("y") };
    assert_eq!(Err(Failure::BadExponent), create_poly(&p, &mut r));
    let p = P::Pow { exp1: name("x"), exp2: num(-2) };
    assert_eq!(Err(Failure::BadExponent), create_poly(&p, &mut r));
}
