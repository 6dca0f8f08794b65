//! The naive Sum-Check protocol over sparse multivariate polynomials: in
//! every round the prover fixes the previous challenge into its working
//! polynomial and sends the full round univariate, obtained by summing
//! over the Boolean hypercube of the remaining variables.
use vstd::prelude::*;
use vstd::arithmetic::power2::*;
use crate::field::{fadd, Fp, lemma_view_injective};
use crate::poly::{
    all_wf, cube_sum, lemma_fixed_tail_sum, lemma_round_univariate_sum, tail_cube_sum, uni_eval,
    vals, MultiPoly, SumCheckPolynomial, UniPoly,
};
use crate::common::{Error, RngF, VerifierRoundResult};

verus! {

/// The state of the prover.
pub struct Prover {
    /// The working polynomial: the input with the received challenges
    /// already fixed into it.
    pub g: MultiPoly,
    /// The value the prover claims equals the hypercube sum.
    pub c_1: Fp,
    /// The challenges received from the verifier so far.
    pub r: Vec<Fp>,
    /// The arity of the input polynomial.
    pub num_vars: usize,
    /// The input polynomial itself, kept for specification.
    pub g0: Ghost<MultiPoly>,
}

impl Prover {
    pub open spec fn wf(self) -> bool {
        &&& self.g0@.wf()
        &&& self.g.wf()
        &&& self.g0@.spec_num_vars() == self.num_vars as nat
        &&& 1 <= self.num_vars < 64
        &&& self.c_1.wf()
        &&& all_wf(self.r@)
        &&& self.r@.len() <= self.num_vars
        &&& self.g.spec_num_vars() == self.num_vars - self.r@.len()
        &&& forall|x: Seq<int>|
            x.len() == self.num_vars - self.r@.len() ==> #[trigger] self.g.spec_eval(x)
                == self.g0@.spec_eval(vals(self.r@) + x)
        &&& self.c_1@ == cube_sum(&self.g0@, pow2(self.num_vars as nat) as int)
    }

    /// Builds the prover; the claim is the sum of the polynomial over the
    /// whole Boolean hypercube.
    pub fn new(g: MultiPoly) -> (s: Self)
        requires
            g.wf(),
            1 <= g.spec_num_vars() < 64,
        ensures
            s.wf(),
            s.g == g,
            s.g0@ == g,
            s.r@.len() == 0,
            s.num_vars as nat == g.spec_num_vars(),
            s.c_1@ == cube_sum(&g, pow2(g.spec_num_vars()) as int),
    {
        let num_vars = g.num_vars();
        let evals = g.to_evaluations();
        let mut c_1 = Fp::zero();
        let mut i: usize = 0;
        while i < evals.len()
            invariant
                g.wf(),
                g.spec_num_vars() < 64,
                all_wf(evals@),
                evals@.len() == pow2(g.spec_num_vars()),
                forall|b: int|
                    0 <= b < evals@.len() ==> vals(evals@)[b] == g.spec_eval(
                        crate::poly::cube_point(b, g.spec_num_vars()),
                    ),
                i <= evals@.len(),
                c_1.wf(),
                c_1@ == cube_sum(&g, i as int),
            decreases evals@.len() - i,
        {
            proof {
                assert(vals(evals@)[i as int] == evals@[i as int]@);
                assert(cube_sum(&g, i + 1) == fadd(
                    cube_sum(&g, i as int),
                    g.spec_eval(crate::poly::cube_point(i as int, g.spec_num_vars())),
                ));
            }
            c_1 = c_1.add(evals[i]);
            i = i + 1;
        }
        let s = Prover { g, c_1, r: Vec::new(), num_vars, g0: Ghost(g) };
        proof {
            assert forall|x: Seq<int>| x.len() == s.num_vars - s.r@.len() implies #[trigger] s
                .g.spec_eval(x) == s.g0@.spec_eval(vals(s.r@) + x) by {
                assert(vals(s.r@) + x =~= x);
            }
        }
        s
    }

    /// The value the prover claims equals the true hypercube sum.
    pub fn c_1(&self) -> (c: Fp)
        ensures
            c == self.c_1,
    {
        self.c_1
    }

    pub fn num_vars(&self) -> (n: usize)
        ensures
            n == self.num_vars,
    {
        self.num_vars
    }

    /// Round `j` of the prover: fixes the previous challenge into the
    /// working polynomial (except in round zero) and returns the round
    /// univariate, whose value at every `t` is the sum of
    /// `g(r_1, .., r_{j}, t, p)` over the remaining Boolean hypercube.
    pub fn round(&mut self, r_prev: Fp, j: usize) -> (res: UniPoly)
        requires
            old(self).wf(),
            r_prev.wf(),
            j < old(self).num_vars,
            j == 0 ==> old(self).r@.len() == 0,
            j >= 1 ==> old(self).r@.len() == j - 1,
        ensures
            final(self).wf(),
            final(self).g0 == old(self).g0,
            final(self).c_1 == old(self).c_1,
            final(self).num_vars == old(self).num_vars,
            final(self).r@ == if j == 0 {
                old(self).r@
            } else {
                old(self).r@.push(r_prev)
            },
            all_wf(res.coeffs@),
            forall|t: int| #[trigger]
                uni_eval(vals(res.coeffs@), t) == tail_cube_sum(
                    final(self).g,
                    t,
                    pow2((final(self).num_vars - j - 1) as nat) as int,
                ),
            final(self).g.spec_num_vars() == final(self).num_vars - j,
            j == 0 ==> final(self).g == old(self).g,
    {
        if j != 0 {
            let mut prefix: Vec<Fp> = Vec::new();
            prefix.push(r_prev);
            let fixed = self.g.fix_variables(&prefix);
            self.g = fixed;
            self.r.push(r_prev);
            proof {
                assert(vals(self.r@) =~= vals(old(self).r@).push(r_prev@));
                assert forall|i: int| 0 <= i < self.r@.len() implies (
                #[trigger] self.r@[i]).wf() by {
                    if i < self.r@.len() - 1 {
                        assert(self.r@[i] == old(self).r@[i]);
                    }
                }
                assert forall|x: Seq<int>| x.len() == self.num_vars - self.r@.len() implies
                #[trigger] self.g.spec_eval(x) == self.g0@.spec_eval(vals(self.r@) + x) by {
                    assert(vals(prefix@) =~= seq![r_prev@]);
                    assert(self.g.spec_eval(x) == old(self).g.spec_eval(vals(prefix@) + x));
                    assert(vals(old(self).r@) + (vals(prefix@) + x) =~= vals(self.r@) + x);
                }
            }
        }
        self.g.to_univariate()
    }
}

/// The state of the verifier.
pub struct Verifier {
    /// The arity of the polynomial under proof.
    pub n: usize,
    /// The claim the prover opened with.
    pub c_1: Fp,
    /// The round univariates accepted so far.
    pub g_part: Vec<UniPoly>,
    /// The challenges issued so far, in order.
    pub r: Vec<Fp>,
    /// Oracle access to the original polynomial, for the final check.
    pub g: Option<MultiPoly>,
}

impl Verifier {
    pub open spec fn wf(self) -> bool {
        &&& 1 <= self.n < 64
        &&& self.c_1.wf()
        &&& all_wf(self.r@)
        &&& self.r@.len() <= self.n
        &&& forall|i: int| 0 <= i < self.g_part@.len() ==> all_wf((#[trigger] self.g_part@[i]).coeffs@)
        &&& (self.g matches Some(g) ==> g.wf() && g.spec_num_vars() == self.n as nat)
    }

    /// Builds the verifier from the oracle polynomial; the claim is set
    /// afterwards with [`Verifier::set_c_1`].
    pub fn new(g: Option<MultiPoly>) -> (s: Self)
        requires
            g matches Some(gp) && gp.wf() && 1 <= gp.spec_num_vars() < 64,
        ensures
            s.wf(),
            s.g == g,
            s.c_1@ == 0,
            s.g_part@.len() == 0,
            s.r@.len() == 0,
            g matches Some(gp) ==> s.n as nat == gp.spec_num_vars(),
    {
        let num_vars = match &g {
            Some(gp) => gp.num_vars(),
            None => 0,
        };
        Verifier { n: num_vars, c_1: Fp::zero(), g_part: Vec::new(), r: Vec::new(), g }
    }

    /// Records the claim the protocol is to check.
    pub fn set_c_1(&mut self, c_1: Fp)
        requires
            c_1.wf(),
        ensures
            *final(self) == (Verifier { c_1, ..*old(self) }),
    {
        self.c_1 = c_1;
    }

    /// Round `j` of the verifier, on the round univariate `g_j`. In the
    /// first round `g_j(0) + g_j(1)` must equal the claim, in a middle
    /// round it must equal the previous univariate at the previous
    /// challenge; otherwise the round fails with a claim mismatch and the
    /// state is unchanged. On success a challenge is drawn and recorded,
    /// and the final round's verdict compares `g_j` at that challenge
    /// against one oracle evaluation at the full challenge vector.
    pub fn round<R: RngF>(&mut self, g_j: UniPoly, rng: &mut R) -> (res: Result<
        VerifierRoundResult,
        Error,
    >)
        requires
            old(self).wf(),
            all_wf(g_j.coeffs@),
            old(self).r@.len() < old(self).n,
            old(self).g_part@.len() == old(self).r@.len(),
        ensures
            final(self).wf(),
            final(self).n == old(self).n,
            final(self).c_1 == old(self).c_1,
            final(self).g == old(self).g,
            ({
                let e = fadd(uni_eval(vals(g_j.coeffs@), 0), uni_eval(vals(g_j.coeffs@), 1));
                let expected = if old(self).r@.len() == 0 {
                    old(self).c_1@
                } else {
                    uni_eval(
                        vals(old(self).g_part@.last().coeffs@),
                        old(self).r@.last()@,
                    )
                };
                &&& (e != expected ==> (res matches Err(Error::ProverClaimMismatch(ex, a))
                    && ex.wf() && ex@ == expected && a.wf() && a@ == e
                    && *final(self) == *old(self)))
                &&& (e == expected && old(self).r@.len() < old(self).n - 1 ==> (res matches Ok(
                    VerifierRoundResult::JthRound(rj),
                ) && rj.wf() && final(self).r@ == old(self).r@.push(rj)
                    && final(self).g_part@ == old(self).g_part@.push(g_j)))
                &&& (e == expected && old(self).r@.len() == old(self).n - 1 && old(self).g
                    is None ==> (res matches Err(Error::NoPolySet) && final(self).r@.len() == old(
                    self,
                ).r@.len() + 1))
                &&& (e == expected && old(self).r@.len() == old(self).n - 1 && (old(self).g
                    matches Some(gp)) ==> (res matches Ok(VerifierRoundResult::FinalRound(ok))
                    && ({
                    let rj = final(self).r@.last();
                    &&& final(self).r@ == old(self).r@.push(rj)
                    &&& (old(self).g matches Some(gp) && (ok <==> uni_eval(
                        vals(g_j.coeffs@),
                        rj@,
                    ) == gp.spec_eval(vals(final(self).r@))))
                })))
            }),
    {
        let r_j = rng.draw();
        let e = g_j.evaluate(Fp::zero()).add(g_j.evaluate(Fp::one()));
        if self.r.len() == 0 {
            // First round: the univariate must sum to the claim.
            proof {
                lemma_view_injective(self.c_1, e);
            }
            if !(self.c_1 == e) {
                return Err(Error::ProverClaimMismatch(self.c_1, e));
            }
        } else {
            // Middle round: it must sum to the previous univariate at the
            // previous challenge.
            let idx = self.g_part.len() - 1;
            let ridx = self.r.len() - 1;
            let prev_evaluation = self.g_part[idx].evaluate(self.r[ridx]);
            proof {
                lemma_view_injective(prev_evaluation, e);
                assert(self.g_part@[idx as int] == self.g_part@.last());
                assert(self.r@[ridx as int] == self.r@.last());
            }
            if !(prev_evaluation == e) {
                return Err(Error::ProverClaimMismatch(prev_evaluation, e));
            }
        }
        self.r.push(r_j);
        proof {
            assert forall|i: int| 0 <= i < self.r@.len() implies (#[trigger] self.r@[i]).wf() by {
                if i < self.r@.len() - 1 {
                    assert(self.r@[i] == old(self).r@[i]);
                }
            }
        }
        if self.r.len() == self.n {
            // Last round: one oracle call decides.
            match &self.g {
                Some(g) => {
                    let lhs = g_j.evaluate(r_j);
                    let rhs = match g.evaluate(&self.r) {
                        Some(rhs) => rhs,
                        None => {
                            proof {
                                assert(false);
                            }
                            Fp::zero()
                        },
                    };
                    proof {
                        lemma_view_injective(lhs, rhs);
                        assert(self.r@.last() == r_j);
                    }
                    Ok(VerifierRoundResult::FinalRound(lhs == rhs))
                },
                None => Err(Error::NoPolySet),
            }
        } else {
            self.g_part.push(g_j);
            proof {
                assert forall|i: int| 0 <= i < self.g_part@.len() implies all_wf(
                    (#[trigger] self.g_part@[i]).coeffs@,
                ) by {
                    if i < self.g_part@.len() - 1 {
                        assert(self.g_part@[i] == old(self).g_part@[i]);
                    }
                }
            }
            Ok(VerifierRoundResult::JthRound(r_j))
        }
    }
}

/// Law: an honest naive run always accepts. Drives a prover built from
/// `g` and a verifier holding the equal oracle `oracle` through all `n`
/// rounds, with challenges from any randomness source, and returns the
/// final verdict, which is proved to be acceptance.
#[verifier::rlimit(100)]
pub fn prove_and_verify<R: RngF>(g: MultiPoly, oracle: MultiPoly, rng: &mut R) -> (res: Result<
    bool,
    Error,
>)
    requires
        g.wf(),
        1 <= g.spec_num_vars() < 64,
        oracle == g,
    ensures
        res matches Ok(accepted) && accepted,
{
    let n = g.num_vars();
    let mut prover = Prover::new(g);
    let mut verifier = Verifier::new(Some(oracle));
    verifier.set_c_1(prover.c_1());
    let mut r_j = Fp::one();
    let mut j: usize = 0;
    while j < n
        invariant
            g.wf(),
            1 <= n < 64,
            n as nat == g.spec_num_vars(),
            prover.wf(),
            verifier.wf(),
            prover.g0@ == g,
            prover.num_vars == n,
            verifier.g == Some(g),
            verifier.n == n,
            j <= n - 1,
            verifier.r@.len() == j,
            verifier.g_part@.len() == j,
            prover.r@ == if j == 0 {
                Seq::<Fp>::empty()
            } else {
                verifier.r@.drop_last()
            },
            j >= 1 ==> r_j == verifier.r@.last(),
            r_j.wf(),
            j == 0 ==> verifier.c_1@ == cube_sum(&g, pow2(n as nat) as int) && prover.g == g,
            j >= 1 ==> uni_eval(vals(verifier.g_part@.last().coeffs@), r_j@) == tail_cube_sum(
                prover.g,
                r_j@,
                pow2((n - j) as nat) as int,
            ),
        decreases n - j,
    {
        let ghost old_pg = prover.g;
        let ghost old_vr = verifier.r@;
        let g_j = prover.round(r_j, j);
        proof {
            lemma_pow2_unfold((n - j) as nat);
            if j == 0 {
                lemma_round_univariate_sum(prover.g, pow2((n - 1) as nat) as int);
            } else {
                // The fixed polynomial evaluates as the old one with the
                // challenge prefixed, so the carried expectation is its
                // hypercube sum.
                assert forall|x: Seq<int>| x.len() == old_pg.spec_num_vars() - 1 implies
                #[trigger] prover.g.spec_eval(x) == old_pg.spec_eval(seq![r_j@] + x) by {
                    assert(old_pg.spec_eval(seq![r_j@] + x) == g.spec_eval(
                        vals(old_vr.drop_last()) + (seq![r_j@] + x),
                    ));
                    assert(prover.g.spec_eval(x) == g.spec_eval(vals(prover.r@) + x));
                    assert(vals(prover.r@) =~= vals(old_vr.drop_last()).push(r_j@));
                    assert(vals(old_vr.drop_last()) + (seq![r_j@] + x) =~= vals(prover.r@) + x);
                }
                lemma_fixed_tail_sum(old_pg, prover.g, r_j@, pow2((n - j) as nat) as int);
                lemma_round_univariate_sum(prover.g, pow2((n - j - 1) as nat) as int);
            }
            // The message meets the verifier's expectation, so the round
            // cannot fail.
            assert(uni_eval(vals(g_j.coeffs@), 0) == tail_cube_sum(
                prover.g,
                0,
                pow2((n - j - 1) as nat) as int,
            ));
            assert(uni_eval(vals(g_j.coeffs@), 1) == tail_cube_sum(
                prover.g,
                1,
                pow2((n - j - 1) as nat) as int,
            ));
            if j == 0 {
                assert(fadd(uni_eval(vals(g_j.coeffs@), 0), uni_eval(vals(g_j.coeffs@), 1))
                    == verifier.c_1@);
            } else {
                assert(fadd(uni_eval(vals(g_j.coeffs@), 0), uni_eval(vals(g_j.coeffs@), 1))
                    == uni_eval(vals(verifier.g_part@.last().coeffs@), r_j@));
            }
        }
        match verifier.round(g_j, rng) {
            Ok(VerifierRoundResult::JthRound(r)) => {
                proof {
                    if j == n - 1 {
                        // The last round always ends with a verdict.
                        assert(false);
                    }
                    assert(verifier.g_part@.last() == g_j);
                    assert(verifier.r@.drop_last() =~= old_vr);
                }
                r_j = r;
            },
            Ok(VerifierRoundResult::FinalRound(accepted)) => {
                proof {
                    assert(j == n - 1);
                    let rj = verifier.r@.last();
                    // The last univariate at the challenge is one oracle
                    // evaluation of the input polynomial.
                    assert(uni_eval(vals(g_j.coeffs@), rj@) == tail_cube_sum(
                        prover.g,
                        rj@,
                        pow2(0) as int,
                    ));
                    lemma2_to64();
                    assert(tail_cube_sum(prover.g, rj@, 0) == 0);
                    assert(prover.g.spec_num_vars() == 1);
                    assert(tail_cube_sum(prover.g, rj@, 1) == fadd(
                        0,
                        prover.g.spec_eval(seq![rj@] + crate::poly::cube_point(0, 0)),
                    ));
                    assert(seq![rj@] + crate::poly::cube_point(0, 0) =~= seq![rj@]);
                    assert(prover.g.spec_eval(seq![rj@]) == g.spec_eval(
                        vals(prover.r@) + seq![rj@],
                    ));
                    assert(vals(prover.r@) + seq![rj@] =~= vals(verifier.r@));
                    crate::poly::lemma_terms_eval_bounds(g.terms@, vals(verifier.r@));
                    vstd::arithmetic::div_mod::lemma_small_mod(
                        g.spec_eval(vals(verifier.r@)) as nat,
                        97,
                    );
                    assert(accepted);
                }
                return Ok(accepted);
            },
            Err(e) => {
                proof {
                    // An honest message always meets the expectation, and
                    // the oracle is present, so no round can fail.
                    assert(false);
                }
                return Err(e);
            },
        }
        j = j + 1;
    }
    proof {
        assert(false);
    }
    Err(Error::NoPolySet)
}

} // verus!
