use sumcheck::common::{Error, FixedRng, VerifierRoundResult};
use sumcheck::field::Fp;
use sumcheck::poly::{MultiPoly, SumCheckPolynomial, Term, VarPower};
use sumcheck::sumcheck_ml;
use sumcheck::sumcheck_naive;
use sumcheck::sumcheck_pml;

fn fp(v: u64) -> Fp {
    Fp::new(v)
}

/// The linear two-variable polynomial `24*x0 + 15*x0*x1 + 35*x1`.
fn linear_poly() -> MultiPoly {
    MultiPoly {
        num_vars: 2,
        terms: vec![
            Term { coeff: fp(24), vars: vec![VarPower { var: 0, power: 1 }] },
            Term {
                coeff: fp(15),
                vars: vec![VarPower { var: 0, power: 1 }, VarPower { var: 1, power: 1 }],
            },
            Term { coeff: fp(35), vars: vec![VarPower { var: 1, power: 1 }] },
        ],
    }
}

/// Degree-two polynomial in `x0`:
/// `20*x0^2 + 5*x0^2*x1 + 29*x0*x1 + 62*x0^2*x1^2 + 90*x0*x1^2 + 88*x1^2`.
fn quadratic_poly() -> MultiPoly {
    MultiPoly {
        num_vars: 2,
        terms: vec![
            Term { coeff: fp(20), vars: vec![VarPower { var: 0, power: 2 }] },
            Term {
                coeff: fp(5),
                vars: vec![VarPower { var: 0, power: 2 }, VarPower { var: 1, power: 1 }],
            },
            Term {
                coeff: fp(29),
                vars: vec![VarPower { var: 0, power: 1 }, VarPower { var: 1, power: 1 }],
            },
            Term {
                coeff: fp(62),
                vars: vec![VarPower { var: 0, power: 2 }, VarPower { var: 1, power: 2 }],
            },
            Term {
                coeff: fp(90),
                vars: vec![VarPower { var: 0, power: 1 }, VarPower { var: 1, power: 2 }],
            },
            Term { coeff: fp(88), vars: vec![VarPower { var: 1, power: 2 }] },
        ],
    }
}

/// Drives a full multilinear run and returns the final verdict.
fn run_ml(g: MultiPoly, claim: Fp, rng: &mut FixedRng) -> Result<bool, Error> {
    let n = g.num_vars();
    let mut prover = sumcheck_ml::Prover::new(g.clone());
    let mut verifier = sumcheck_ml::Verifier::new(Some(g), claim);
    let mut r_j = fp(1);
    for j in 0..n {
        let (p0, p1) = prover.round(r_j, j);
        match verifier.round(p0, p1, rng)? {
            VerifierRoundResult::JthRound(r) => r_j = r,
            VerifierRoundResult::FinalRound(ok) => return Ok(ok),
        }
    }
    panic!("the verifier never reached the final round");
}

#[test]
fn test_normal_poly() {
    // 24 * x_0   +   15 * x_0 * x_1   +   35 * x_1
    let g = linear_poly();
    let rng = &mut FixedRng::new(vec![11, 31]);
    let mut prover = sumcheck_ml::Prover::new(g.clone());
    let mut verifier = sumcheck_ml::Verifier::new(Some(g.clone()), prover.claim());
    let mut r_j = fp(1);
    for j in 0..g.num_vars() {
        let (p0, p1) = prover.round(r_j, j);
        let verifier_res = verifier.round(p0, p1, rng).unwrap();
        match verifier_res {
            VerifierRoundResult::JthRound(r) => {
                r_j = r;
            },
            VerifierRoundResult::FinalRound(res) => {
                assert!(res);
                break;
            },
        }
    }
}

#[test]
fn ml_linear_claim_and_acceptance() {
    // Hypercube sum 0 + 35 + 24 + 74 = 133 = 36 mod 97.
    let g = linear_poly();
    let prover = sumcheck_ml::Prover::new(g.clone());
    assert_eq!(prover.claim(), fp(36));
    for seed in [vec![0, 0], vec![5, 9], vec![96, 13]] {
        let rng = &mut FixedRng::new(seed);
        assert_eq!(run_ml(g.clone(), fp(36), rng), Ok(true));
    }
}

#[test]
fn prove_and_verify_accepts_honest_runs() {
    let g = linear_poly();
    for seed in [vec![1, 2], vec![50, 96], vec![0, 0]] {
        let rng = &mut FixedRng::new(seed);
        let res = sumcheck_ml::prove_and_verify(g.clone(), g.clone(), rng);
        assert_eq!(res, Ok(true));
    }
}

#[test]
fn ml_wrong_claim_rejected_in_round_zero() {
    let g = linear_poly();
    let rng = &mut FixedRng::new(vec![5, 9]);
    let res = run_ml(g, fp(37), rng);
    match res {
        Err(Error::ProverClaimMismatch(expected, actual)) => {
            assert_eq!(expected, fp(37));
            assert_eq!(actual, fp(36));
        },
        other => panic!("expected a claim mismatch, got {:?}", other),
    }
}

#[test]
fn ml_single_variable_round_is_final() {
    // g(x0) = 5*x0 over one variable: claim g(0) + g(1) = 5.
    let g = MultiPoly {
        num_vars: 1,
        terms: vec![Term { coeff: fp(5), vars: vec![VarPower { var: 0, power: 1 }] }],
    };
    let prover = sumcheck_ml::Prover::new(g.clone());
    assert_eq!(prover.claim(), fp(5));
    let rng = &mut FixedRng::new(vec![42]);
    assert_eq!(run_ml(g, fp(5), rng), Ok(true));
}

#[test]
fn ml_challenges_are_recorded_in_order() {
    let g = linear_poly();
    let mut prover = sumcheck_ml::Prover::new(g.clone());
    let mut verifier = sumcheck_ml::Verifier::new(Some(g), fp(36));
    let rng = &mut FixedRng::new(vec![5, 9]);
    let mut r_j = fp(1);
    for j in 0..2 {
        let (p0, p1) = prover.round(r_j, j);
        match verifier.round(p0, p1, rng).unwrap() {
            VerifierRoundResult::JthRound(r) => r_j = r,
            VerifierRoundResult::FinalRound(ok) => assert!(ok),
        }
    }
    assert_eq!(verifier.r.len(), 2);
    assert_eq!(verifier.r[0], fp(5));
    assert_eq!(verifier.r[1], fp(9));
}

#[test]
fn ml_corrupted_middle_message_rejected() {
    let g = linear_poly();
    let mut prover = sumcheck_ml::Prover::new(g.clone());
    let mut verifier = sumcheck_ml::Verifier::new(Some(g), fp(36));
    let rng = &mut FixedRng::new(vec![5, 9]);
    let (p0, p1) = prover.round(fp(1), 0);
    let r = match verifier.round(p0, p1, rng).unwrap() {
        VerifierRoundResult::JthRound(r) => r,
        other => panic!("round zero ended early: {:?}", other),
    };
    let (q0, q1) = prover.round(r, 1);
    let res = verifier.round(q0.add(fp(1)), q1, rng);
    assert!(matches!(res, Err(Error::ProverClaimMismatch(_, _))));
}

#[test]
fn ml_missing_oracle_is_reported() {
    let mut verifier = sumcheck_ml::Verifier::<MultiPoly> {
        n: 1,
        claim: fp(5),
        r: vec![],
        g: None,
        expect: fp(5),
    };
    let rng = &mut FixedRng::new(vec![3]);
    let res = verifier.round(fp(0), fp(5), rng);
    assert!(matches!(res, Err(Error::NoPolySet)));
}

#[test]
fn naive_quadratic_claim_and_acceptance() {
    // Hypercube sum 0 + 88 + 20 + 3 = 111 = 14 mod 97.
    let g = quadratic_poly();
    let mut prover = sumcheck_naive::Prover::new(g.clone());
    assert_eq!(prover.c_1(), fp(14));
    let mut verifier = sumcheck_naive::Verifier::new(Some(g));
    verifier.set_c_1(prover.c_1());
    let rng = &mut FixedRng::new(vec![19, 83]);
    let mut r_j = fp(1);
    let mut accepted = false;
    for j in 0..prover.num_vars() {
        let g_j = prover.round(r_j, j);
        match verifier.round(g_j, rng).unwrap() {
            VerifierRoundResult::JthRound(r) => r_j = r,
            VerifierRoundResult::FinalRound(ok) => {
                accepted = ok;
                break;
            },
        }
    }
    assert!(accepted);
}

#[test]
fn naive_prove_and_verify_accepts_honest_runs() {
    let g = quadratic_poly();
    for seed in [vec![4, 7], vec![90, 2], vec![0, 0]] {
        let rng = &mut FixedRng::new(seed);
        let res = sumcheck_naive::prove_and_verify(g.clone(), g.clone(), rng);
        assert_eq!(res, Ok(true));
    }
}

#[test]
fn naive_wrong_claim_rejected_in_round_zero() {
    let g = quadratic_poly();
    let mut prover = sumcheck_naive::Prover::new(g.clone());
    let mut verifier = sumcheck_naive::Verifier::new(Some(g));
    verifier.set_c_1(fp(15));
    let rng = &mut FixedRng::new(vec![19, 83]);
    let g_0 = prover.round(fp(1), 0);
    match verifier.round(g_0, rng) {
        Err(Error::ProverClaimMismatch(expected, actual)) => {
            assert_eq!(expected, fp(15));
            assert_eq!(actual, fp(14));
        },
        other => panic!("expected a claim mismatch, got {:?}", other),
    }
}

/// Two multilinear factors over two variables.
fn pml_factors() -> Vec<MultiPoly> {
    let g1 = MultiPoly {
        num_vars: 2,
        terms: vec![
            Term { coeff: fp(2), vars: vec![] },
            Term { coeff: fp(3), vars: vec![VarPower { var: 0, power: 1 }] },
            Term { coeff: fp(5), vars: vec![VarPower { var: 1, power: 1 }] },
            Term {
                coeff: fp(7),
                vars: vec![VarPower { var: 0, power: 1 }, VarPower { var: 1, power: 1 }],
            },
        ],
    };
    let g2 = MultiPoly {
        num_vars: 2,
        terms: vec![
            Term { coeff: fp(4), vars: vec![] },
            Term { coeff: fp(1), vars: vec![VarPower { var: 0, power: 1 }] },
            Term { coeff: fp(6), vars: vec![VarPower { var: 1, power: 1 }] },
        ],
    };
    vec![g1, g2]
}

fn run_pml(gs: Vec<MultiPoly>, claim: Fp, rng: &mut FixedRng) -> Result<bool, Error> {
    let n = gs[0].num_vars();
    let mut prover = sumcheck_pml::Prover::new(gs.clone());
    let mut verifier = sumcheck_pml::Verifier::new(Some(gs), claim);
    let mut r_j = fp(1);
    for j in 0..n {
        let msg = prover.round(r_j, j);
        match verifier.round(msg, rng)? {
            VerifierRoundResult::JthRound(r) => r_j = r,
            VerifierRoundResult::FinalRound(ok) => return Ok(ok),
        }
    }
    panic!("the verifier never reached the final round");
}

#[test]
fn pml_claim_is_product_sum_and_protocol_accepts() {
    let gs = pml_factors();
    // Brute-force sum of the product over the four cube points.
    let mut expected = fp(0);
    for b in 0..4u64 {
        let point = vec![fp(b & 1), fp((b >> 1) & 1)];
        let v1 = gs[0].evaluate(&point).unwrap();
        let v2 = gs[1].evaluate(&point).unwrap();
        expected = expected.add(v1.mul(v2));
    }
    let prover = sumcheck_pml::Prover::new(gs.clone());
    assert_eq!(prover.claim(), expected);
    let rng = &mut FixedRng::new(vec![23, 61]);
    assert_eq!(run_pml(gs, expected, rng), Ok(true));
}

#[test]
fn pml_wrong_claim_rejected_in_round_zero() {
    let gs = pml_factors();
    let prover = sumcheck_pml::Prover::new(gs.clone());
    let claim = prover.claim();
    let rng = &mut FixedRng::new(vec![23, 61]);
    let res = run_pml(gs, claim.add(fp(1)), rng);
    match res {
        Err(Error::ProverClaimMismatch(expected, actual)) => {
            assert_eq!(expected, claim.add(fp(1)));
            assert_eq!(actual, claim);
        },
        other => panic!("expected a claim mismatch, got {:?}", other),
    }
}

#[test]
fn pml_single_factor_matches_ml_messages() {
    // With k = 1 the PML round message is the ML pair (p0, p1).
    let g = linear_poly();
    let mut ml_prover = sumcheck_ml::Prover::new(g.clone());
    let mut pml_prover = sumcheck_pml::Prover::new(vec![g]);
    assert_eq!(ml_prover.claim(), pml_prover.claim());
    let (p0, p1) = ml_prover.round(fp(1), 0);
    let msg = pml_prover.round(fp(1), 0);
    assert_eq!(msg, vec![p0, p1]);
}

#[test]
fn pml_round_points_follow_the_blend_formula() {
    // s_t = sum over b of the product over the factors of
    // T_i[2b] * (1 - t) + T_i[2b + 1] * t, checked at every t.
    let gs = pml_factors();
    let mut prover = sumcheck_pml::Prover::new(gs.clone());
    let msg = prover.round(fp(1), 0);
    assert_eq!(msg.len(), 3);
    let t1 = gs[0].to_evaluations();
    let t2 = gs[1].to_evaluations();
    for t in 0..3u64 {
        let tf = fp(t);
        let mut s = fp(0);
        for b in 0..2usize {
            let b1 = t1[2 * b].mul(fp(1).sub(tf)).add(t1[2 * b + 1].mul(tf));
            let b2 = t2[2 * b].mul(fp(1).sub(tf)).add(t2[2 * b + 1].mul(tf));
            s = s.add(b1.mul(b2));
        }
        assert_eq!(msg[t as usize], s);
    }
}
