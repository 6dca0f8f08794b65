use sumcheck::field::Fp;
use sumcheck::poly::{BooleanHypercube, MultiPoly, SumCheckPolynomial, Term, UniPoly, VarPower};
use sumcheck::sumcheck_pml::Verifier as PmlVerifier;

fn fp(v: u64) -> Fp {
    Fp::new(v)
}

/// The linear two-variable polynomial `24*x0 + 15*x0*x1 + 35*x1`.
fn linear_poly() -> MultiPoly {
    MultiPoly {
        num_vars: 2,
        terms: vec![
            Term { coeff: fp(24), vars: vec![VarPower { var: 0, power: 1 }] },
            Term {
                coeff: fp(15),
                vars: vec![VarPower { var: 0, power: 1 }, VarPower { var: 1, power: 1 }],
            },
            Term { coeff: fp(35), vars: vec![VarPower { var: 1, power: 1 }] },
        ],
    }
}

#[test]
fn field_arithmetic_basics() {
    assert_eq!(fp(96).add(fp(5)), fp(4));
    assert_eq!(fp(3).sub(fp(10)), fp(90));
    assert_eq!(fp(10).mul(fp(10)), fp(3));
    assert_eq!(fp(2).pow(10), fp(1024 % 97));
    // 3 * 65 = 195 = 2 * 97 + 1.
    assert_eq!(fp(3).inv(), fp(65));
    assert_eq!(fp(3).mul(fp(3).inv()), fp(1));
    assert_eq!(fp(0).inv(), fp(0));
}

#[test]
fn evaluate_linear_poly() {
    let g = linear_poly();
    assert_eq!(g.evaluate(&vec![fp(0), fp(0)]), Some(fp(0)));
    assert_eq!(g.evaluate(&vec![fp(0), fp(1)]), Some(fp(35)));
    assert_eq!(g.evaluate(&vec![fp(1), fp(0)]), Some(fp(24)));
    assert_eq!(g.evaluate(&vec![fp(1), fp(1)]), Some(fp(74)));
}

#[test]
fn hypercube_order_and_end() {
    let mut cube = BooleanHypercube::new(2);
    assert_eq!(cube.next(), Some(vec![fp(0), fp(0)]));
    assert_eq!(cube.next(), Some(vec![fp(1), fp(0)]));
    assert_eq!(cube.next(), Some(vec![fp(0), fp(1)]));
    assert_eq!(cube.next(), Some(vec![fp(1), fp(1)]));
    assert_eq!(cube.next(), None);
}

#[test]
fn hypercube_zero_variables_yields_one_empty_point() {
    let mut cube = BooleanHypercube::new(0);
    assert_eq!(cube.next(), Some(vec![]));
    assert_eq!(cube.next(), None);
}

#[test]
fn to_evaluations_matches_pointwise_evaluation() {
    let g = linear_poly();
    let evals = g.to_evaluations();
    assert_eq!(evals, vec![fp(0), fp(24), fp(35), fp(74)]);
}

#[test]
fn fix_variables_reduces_arity() {
    // Fixing x0 = 2 turns the linear polynomial into 48 + 65*x1.
    let g = linear_poly();
    let h = g.fix_variables(&vec![fp(2)]);
    assert_eq!(h.num_vars(), 1);
    assert_eq!(h.evaluate(&vec![fp(0)]), Some(fp(48)));
    assert_eq!(h.evaluate(&vec![fp(1)]), Some(fp(16)));
}

#[test]
fn fold_identity_through_fix_variables() {
    // Fixing the first variable to r agrees with the affine blend
    // (1 - r) * g(0, b) + r * g(1, b) at every remaining cube point.
    let g = linear_poly();
    let r = fp(7);
    let h = g.fix_variables(&vec![r]);
    for b in 0..2u64 {
        let lhs = h.evaluate(&vec![fp(b)]).unwrap();
        let g0 = g.evaluate(&vec![fp(0), fp(b)]).unwrap();
        let g1 = g.evaluate(&vec![fp(1), fp(b)]).unwrap();
        let rhs = fp(1).sub(r).mul(g0).add(r.mul(g1));
        assert_eq!(lhs, rhs);
    }
}

#[test]
fn to_univariate_sums_the_tail_cube() {
    // 20*x0^2 + 5*x0^2*x1 + 29*x0*x1 + 62*x0^2*x1^2 + 90*x0*x1^2 + 88*x1^2.
    let g = MultiPoly {
        num_vars: 2,
        terms: vec![
            Term { coeff: fp(20), vars: vec![VarPower { var: 0, power: 2 }] },
            Term {
                coeff: fp(5),
                vars: vec![VarPower { var: 0, power: 2 }, VarPower { var: 1, power: 1 }],
            },
            Term {
                coeff: fp(29),
                vars: vec![VarPower { var: 0, power: 1 }, VarPower { var: 1, power: 1 }],
            },
            Term {
                coeff: fp(62),
                vars: vec![VarPower { var: 0, power: 2 }, VarPower { var: 1, power: 2 }],
            },
            Term {
                coeff: fp(90),
                vars: vec![VarPower { var: 0, power: 1 }, VarPower { var: 1, power: 2 }],
            },
            Term { coeff: fp(88), vars: vec![VarPower { var: 1, power: 2 }] },
        ],
    };
    let uni = g.to_univariate();
    // g_0(t) = g(t, 0) + g(t, 1); at t = 0 that is 0 + 88, at t = 1 it is
    // 20 + (20+5+29+62+90+88 = 294 = 3 mod 97).
    assert_eq!(uni.evaluate(fp(0)), fp(88));
    assert_eq!(uni.evaluate(fp(1)), fp(23));
}

#[test]
fn uni_poly_evaluates_densely() {
    // 1 + 2x + x^2 at x = 3 is 16.
    let u = UniPoly { coeffs: vec![fp(1), fp(2), fp(1)] };
    assert_eq!(u.evaluate(fp(3)), fp(16));
}

#[test]
fn well_formedness_is_decided() {
    assert!(linear_poly().is_well_formed());
    // A factor naming a variable beyond the arity is refused.
    let bad = MultiPoly {
        num_vars: 1,
        terms: vec![Term { coeff: fp(3), vars: vec![VarPower { var: 1, power: 1 }] }],
    };
    assert!(!bad.is_well_formed());
    // Unsorted factor lists are refused.
    let unsorted = MultiPoly {
        num_vars: 2,
        terms: vec![Term {
            coeff: fp(3),
            vars: vec![VarPower { var: 1, power: 1 }, VarPower { var: 0, power: 1 }],
        }],
    };
    assert!(!unsorted.is_well_formed());
}

#[test]
fn lagrange_interpolation_concrete() {
    // Samples (0,1), (1,4), (2,9) lie on x^2 + 2x + 1; at 3 it is 16.
    let ys = vec![fp(1), fp(4), fp(9)];
    let v = PmlVerifier::<MultiPoly>::univariate_interpolate_and_evaluate(&ys, fp(3));
    assert_eq!(v, fp(16));
}
