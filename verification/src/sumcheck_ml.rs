//! The multilinear Sum-Check protocol: the prover keeps the evaluation
//! table of its polynomial and folds it in place with each challenge, so a
//! round sends only the two values `(p(0), p(1))` of the round univariate.
use vstd::prelude::*;
use vstd::arithmetic::power2::*;
use crate::field::{blend, fadd, lemma_blend_alt, lemma_view_injective, Fp};
use crate::poly::{
    all_wf, cube_sum, eval_table, evens, fold_many, fold_once, fsum, lemma_fold_many_push,
    lemma_final_message, lemma_folded_table_is_mle, lemma_fsum_is_cube_sum, lemma_honest_ml_run,
    lemma_split_sum, mle_table, odds, pow2_u64, vals, MultiPoly, SumCheckPolynomial,
};
use crate::common::{Error, RngF, VerifierRoundResult};

verus! {

/// The state of the prover.
pub struct Prover<P: SumCheckPolynomial> {
    /// The polynomial this run of the protocol sums.
    g: P,
    /// The value the prover claims equals the hypercube sum.
    claim: Fp,
    /// The challenges received from the verifier so far.
    r: Vec<Fp>,
    /// The arity of `g`.
    num_vars: usize,
    /// The evaluation table; after `j` folds only the first `2^(n-j)`
    /// entries are live.
    table: Vec<Fp>,
}

impl<P: SumCheckPolynomial> Prover<P> {
    pub closed spec fn wf(self) -> bool {
        &&& self.g.wf()
        &&& self.num_vars as nat == self.g.spec_num_vars()
        &&& 1 <= self.num_vars < 64
        &&& self.claim.wf()
        &&& all_wf(self.r@)
        &&& all_wf(self.table@)
        &&& self.r@.len() <= self.num_vars
        &&& self.table@.len() == pow2(self.num_vars as nat)
        &&& vals(self.table@).subrange(
            0,
            pow2((self.num_vars - self.r@.len()) as nat) as int,
        ) == fold_many(eval_table(&self.g), vals(self.r@))
        &&& self.claim@ == fsum(eval_table(&self.g))
    }

    pub closed spec fn spec_g(self) -> P {
        self.g
    }

    pub closed spec fn spec_claim(self) -> Fp {
        self.claim
    }

    pub closed spec fn spec_r(self) -> Seq<Fp> {
        self.r@
    }

    pub closed spec fn spec_num_vars_state(self) -> nat {
        self.num_vars as nat
    }

    /// Builds the prover: materialises the evaluation table and sums it
    /// into the claim, which therefore equals the full hypercube sum.
    pub fn new(g: P) -> (s: Self)
        requires
            g.wf(),
            1 <= g.spec_num_vars() < 64,
        ensures
            s.wf(),
            s.spec_g() == g,
            s.spec_r() =~= Seq::<Fp>::empty(),
            s.spec_num_vars_state() == g.spec_num_vars(),
            s.spec_claim()@ == cube_sum(&g, pow2(g.spec_num_vars()) as int),
    {
        let num_vars = g.num_vars();
        let table = g.to_evaluations();
        let mut claim = Fp::zero();
        let mut i: usize = 0;
        while i < table.len()
            invariant
                all_wf(table@),
                i <= table@.len(),
                claim.wf(),
                claim@ == fsum(vals(table@).subrange(0, i as int)),
            decreases table@.len() - i,
        {
            proof {
                assert(vals(table@).subrange(0, i + 1).drop_last() =~= vals(table@).subrange(
                    0,
                    i as int,
                ));
                assert(vals(table@).subrange(0, i + 1).last() == table@[i as int]@);
            }
            claim = claim.add(table[i]);
            i = i + 1;
        }
        proof {
            assert(vals(table@) =~= eval_table(&g));
            assert(vals(table@).subrange(0, table@.len() as int) =~= vals(table@));
            lemma_fsum_is_cube_sum(&g, pow2(g.spec_num_vars()) as int);
            assert(eval_table(&g).subrange(0, eval_table(&g).len() as int) =~= eval_table(&g));
        }
        let s = Prover { g, claim, num_vars, r: Vec::new(), table };
        proof {
            assert(vals(s.r@) =~= Seq::<int>::empty());
            assert(fold_many(eval_table(&s.g), vals(s.r@)) == eval_table(&s.g));
            assert(vals(s.table@).subrange(0, pow2(s.num_vars as nat) as int) =~= vals(s.table@));
        }
        s
    }

    /// The value the prover claims equals the true hypercube sum.
    pub fn claim(&self) -> (c: Fp)
        ensures
            c == self.spec_claim(),
    {
        self.claim
    }

    pub fn num_vars(&self) -> (n: usize)
        ensures
            n as nat == self.spec_num_vars_state(),
    {
        self.num_vars
    }

    /// Round `j` of the prover: folds the table with the previous
    /// challenge (except in round zero), then returns the pair
    /// `(p(0), p(1))`: the sums of the live even and odd entries. The two
    /// returned values always sum to the total of the live table.
    #[verifier::rlimit(100)]
    pub fn round(&mut self, r_prev: Fp, j: usize) -> (res: (Fp, Fp))
        requires
            old(self).wf(),
            r_prev.wf(),
            j < old(self).spec_num_vars_state(),
            j == 0 ==> old(self).spec_r().len() == 0,
            j >= 1 ==> old(self).spec_r().len() == j - 1,
        ensures
            final(self).wf(),
            final(self).spec_g() == old(self).spec_g(),
            final(self).spec_claim() == old(self).spec_claim(),
            final(self).spec_num_vars_state() == old(self).spec_num_vars_state(),
            final(self).spec_r() == if j == 0 {
                old(self).spec_r()
            } else {
                old(self).spec_r().push(r_prev)
            },
            res.0.wf() && res.1.wf(),
            ({
                let t = fold_many(eval_table(&final(self).spec_g()), vals(final(self).spec_r()));
                res.0@ == fsum(evens(t)) && res.1@ == fsum(odds(t)) && fadd(res.0@, res.1@)
                    == fsum(t)
            }),
    {
        proof {
            lemma2_to64();
            lemma2_to64_rest();
        }
        if j != 0 {
            let ghost old_active = fold_many(eval_table(&self.g), vals(self.r@));
            let ghost snap = vals(self.table@);
            let half = pow2_u64((self.num_vars - j) as u64);
            proof {
                lemma_pow2_unfold((self.num_vars - j + 1) as nat);
                if self.num_vars - j + 1 < self.num_vars {
                    lemma_pow2_strictly_increases(
                        (self.num_vars - j + 1) as nat,
                        self.num_vars as nat,
                    );
                }
                if (self.num_vars - j) < 63 {
                    lemma_pow2_strictly_increases((self.num_vars - j) as nat, 63);
                }
            }
            let tlen = self.table.len();
            proof {
                assert(2 * half as nat <= tlen as nat);
            }
            let half_us = half as usize;
            let mut b: usize = 0;
            while b < half_us
                invariant
                    self.g == old(self).g,
                    self.r@ == old(self).r@,
                    self.claim == old(self).claim,
                    self.num_vars == old(self).num_vars,
                    old(self).wf(),
                    r_prev.wf(),
                    1 <= j < self.num_vars < 64,
                    self.r@.len() == j - 1,
                    b <= half_us,
                    half_us == half,
                    half as nat == pow2((self.num_vars - j) as nat),
                    half <= 0x8000000000000000u64,
                    2 * half as nat <= pow2(self.num_vars as nat),
                    self.table@.len() == pow2(self.num_vars as nat),
                    self.table@.len() <= usize::MAX,
                    all_wf(self.table@),
                    snap == fold_many(eval_table(&self.g), vals(self.r@)) + snap.subrange(
                        2 * half as int,
                        snap.len() as int,
                    ),
                    snap.len() == self.table@.len(),
                    forall|i: int|
                        b <= i < self.table@.len() ==> vals(self.table@)[i] == snap[i],
                    forall|i: int|
                        0 <= i < b ==> vals(self.table@)[i] == blend(
                            r_prev@,
                            snap[2 * i],
                            snap[2 * i + 1],
                        ),
                decreases half_us - b,
            {
                proof {
                    assert(2 * b + 1 < self.table@.len());
                    assert(self.table@[2 * b as int].wf());
                    assert(self.table@[2 * b + 1].wf());
                }
                let t0 = self.table[2 * b];
                let t1 = self.table[2 * b + 1];
                let v = t0.mul(Fp::one().sub(r_prev)).add(t1.mul(r_prev));
                let ghost prev_vals = vals(self.table@);
                self.table[b] = v;
                proof {
                    assert(vals(self.table@) =~= prev_vals.update(b as int, v@));
                    assert(vals(self.table@)[b as int] == blend(r_prev@, snap[2 * b], snap[2 * b + 1]));
                }
                b = b + 1;
            }
            self.r.push(r_prev);
            proof {
                assert(vals(self.r@) =~= vals(old(self).r@).push(r_prev@));
                assert forall|i: int| 0 <= i < self.r@.len() implies (#[trigger] self.r@[i]).wf()
                    by {
                    if i < self.r@.len() - 1 {
                        assert(self.r@[i] == old(self).r@[i]);
                    }
                }
                lemma_fold_many_push(eval_table(&self.g), vals(old(self).r@), r_prev@);
                assert(old_active.len() == 2 * half as int);
                assert forall|i: int| 0 <= i < half implies fold_once(old_active, r_prev@)[i]
                    == vals(self.table@)[i] by {
                    assert(old_active[2 * i] == snap[2 * i]);
                    assert(old_active[2 * i + 1] == snap[2 * i + 1]);
                }
                assert(vals(self.table@).subrange(0, half as int) =~= fold_once(
                    old_active,
                    r_prev@,
                ));
                assert(self.wf());
            }
        }
        let ghost active = fold_many(eval_table(&self.g), vals(self.r@));
        proof {
            lemma_pow2_unfold((self.num_vars - j) as nat);
            if self.num_vars - j < self.num_vars {
                lemma_pow2_strictly_increases((self.num_vars - j) as nat, self.num_vars as nat);
            }
            if (self.num_vars - j - 1) < 63 {
                lemma_pow2_strictly_increases((self.num_vars - j - 1) as nat, 63);
            }
        }
        let m = pow2_u64((self.num_vars - j - 1) as u64);
        let tlen = self.table.len();
        proof {
            assert(self.r@.len() == j);
            assert(2 * m as nat == pow2((self.num_vars - j) as nat));
            assert(active == vals(self.table@).subrange(0, 2 * m as int));
        }
        let m_us = m as usize;
        let mut p0 = Fp::zero();
        let mut p1 = Fp::zero();
        let mut b: usize = 0;
        while b < m_us
            invariant
                self.wf(),
                b <= m_us,
                m_us == m,
                active == fold_many(eval_table(&self.g), vals(self.r@)),
                active == vals(self.table@).subrange(0, 2 * m as int),
                active.len() == 2 * m as int,
                2 * m as nat <= pow2(self.num_vars as nat),
                self.table@.len() == pow2(self.num_vars as nat),
                self.table@.len() <= usize::MAX,
                p0.wf(),
                p1.wf(),
                p0@ == fsum(evens(active).subrange(0, b as int)),
                p1@ == fsum(odds(active).subrange(0, b as int)),
            decreases m_us - b,
        {
            proof {
                assert(evens(active).subrange(0, b + 1).drop_last() =~= evens(active).subrange(
                    0,
                    b as int,
                ));
                assert(odds(active).subrange(0, b + 1).drop_last() =~= odds(active).subrange(
                    0,
                    b as int,
                ));
                assert(evens(active).subrange(0, b + 1).last() == active[2 * b]);
                assert(odds(active).subrange(0, b + 1).last() == active[2 * b + 1]);
                assert(2 * b + 1 < self.table@.len());
                assert(active[2 * b] == vals(self.table@)[2 * b]);
                assert(active[2 * b + 1] == vals(self.table@)[2 * b + 1]);
                assert(self.table@[2 * b as int].wf());
                assert(self.table@[2 * b + 1].wf());
            }
            p0 = p0.add(self.table[2 * b]);
            p1 = p1.add(self.table[2 * b + 1]);
            b = b + 1;
        }
        proof {
            assert(evens(active).subrange(0, m as int) =~= evens(active));
            assert(odds(active).subrange(0, m as int) =~= odds(active));
            lemma_split_sum(active);
        }
        (p0, p1)
    }
}

/// The state of the verifier.
pub struct Verifier<P: SumCheckPolynomial> {
    /// The arity of the polynomial under proof.
    pub n: usize,
    /// The claim the prover opened with.
    pub claim: Fp,
    /// The challenges issued so far, in order.
    pub r: Vec<Fp>,
    /// Oracle access to the original polynomial, for the final check.
    pub g: Option<P>,
    /// What the next round's message must sum to over `{0, 1}`.
    pub expect: Fp,
}

impl<P: SumCheckPolynomial> Verifier<P> {
    pub open spec fn wf(self) -> bool {
        &&& 1 <= self.spec_n() < 64
        &&& self.spec_claim().wf()
        &&& self.expect.wf()
        &&& all_wf(self.spec_r())
        &&& self.spec_r().len() <= self.spec_n()
        &&& (self.spec_g() matches Some(g) ==> g.wf() && g.spec_num_vars() == self.spec_n())
    }

    pub open spec fn spec_n(self) -> nat {
        self.n as nat
    }

    pub open spec fn spec_claim(self) -> Fp {
        self.claim
    }

    pub open spec fn spec_r(self) -> Seq<Fp> {
        self.r@
    }

    pub open spec fn spec_g(self) -> Option<P> {
        self.g
    }

    /// Builds the verifier from the oracle polynomial and the claim; the
    /// rolling `expect` starts at the claim.
    pub fn new(g: Option<P>, claim: Fp) -> (s: Self)
        requires
            g matches Some(gp) && gp.wf() && 1 <= gp.spec_num_vars() < 64,
            claim.wf(),
        ensures
            s.wf(),
            s.spec_g() == g,
            s.spec_claim() == claim,
            s.expect == claim,
            s.spec_r().len() == 0,
            g matches Some(gp) ==> s.spec_n() == gp.spec_num_vars(),
    {
        let num_vars = match &g {
            Some(gp) => gp.num_vars(),
            None => 0,
        };
        Verifier { n: num_vars, claim, r: Vec::new(), g, expect: claim }
    }

    /// Round `j` of the verifier, on the prover's message `(p0, p1)`.
    /// Exactly when `p0 + p1` differs from `expect` the round fails with a
    /// claim mismatch and the state is unchanged. Otherwise a challenge
    /// `r_j` is drawn and recorded; in a middle round it is returned and
    /// `expect` becomes the round univariate at `r_j`; in the last round
    /// the verdict compares that value against the oracle evaluation at
    /// the full challenge vector.
    pub fn round<R: RngF>(&mut self, p0: Fp, p1: Fp, rng: &mut R) -> (res: Result<
        VerifierRoundResult,
        Error,
    >)
        requires
            old(self).wf(),
            p0.wf(),
            p1.wf(),
            old(self).spec_r().len() < old(self).spec_n(),
        ensures
            final(self).wf(),
            final(self).spec_n() == old(self).spec_n(),
            final(self).spec_claim() == old(self).spec_claim(),
            final(self).spec_g() == old(self).spec_g(),
            fadd(p0@, p1@) != old(self).expect@ ==> (res matches Err(
                Error::ProverClaimMismatch(e, a),
            ) && e == old(self).expect && a.wf() && a@ == fadd(p0@, p1@)
                && *final(self) == *old(self)),
            fadd(p0@, p1@) == old(self).expect@ && old(self).spec_r().len() < old(self).spec_n()
                - 1 ==> (res matches Ok(VerifierRoundResult::JthRound(rj)) && rj.wf()
                && final(self).spec_r() == old(self).spec_r().push(rj)
                && final(self).expect@ == blend(rj@, p0@, p1@)),
            fadd(p0@, p1@) == old(self).expect@ && old(self).spec_r().len() == old(self).spec_n()
                - 1 && old(self).spec_g() is None ==> (res matches Err(Error::NoPolySet)
                && final(self).spec_r().len() == old(self).spec_r().len() + 1),
            fadd(p0@, p1@) == old(self).expect@ && old(self).spec_r().len() == old(self).spec_n()
                - 1 && (old(self).spec_g() matches Some(gp)) ==> (res matches Ok(
                VerifierRoundResult::FinalRound(ok),
            ) && ({
                let rj = final(self).spec_r().last();
                &&& final(self).spec_r() == old(self).spec_r().push(rj)
                &&& (old(self).spec_g() matches Some(gp) && (ok <==> blend(rj@, p0@, p1@)
                    == gp.spec_eval(vals(final(self).spec_r()))))
            })),
    {
        let r_j = rng.draw();
        let sum = p0.add(p1);
        proof {
            lemma_view_injective(self.expect, sum);
        }
        if !(self.expect == sum) {
            Err(Error::ProverClaimMismatch(self.expect, sum))
        } else if self.r.len() == self.n - 1 {
            // Last round.
            self.r.push(r_j);
            match &self.g {
                Some(g) => {
                    let val = p0.add(r_j.mul(p1.sub(p0)));
                    let ev = match g.evaluate(&self.r) {
                        Some(ev) => ev,
                        None => {
                            proof {
                                assert(false);
                            }
                            Fp::zero()
                        },
                    };
                    proof {
                        lemma_blend_alt(r_j@, p0@, p1@);
                        lemma_view_injective(val, ev);
                        assert(self.r@.last() == r_j);
                    }
                    Ok(VerifierRoundResult::FinalRound(val == ev))
                },
                None => Err(Error::NoPolySet),
            }
        } else {
            self.r.push(r_j);
            self.expect = p0.add(r_j.mul(p1.sub(p0)));
            proof {
                lemma_blend_alt(r_j@, p0@, p1@);
            }
            Ok(VerifierRoundResult::JthRound(r_j))
        }
    }
}

/// Law: an honest multilinear run always accepts. Drives a prover built
/// from `g` and a verifier holding the equal oracle `oracle` through all
/// `n` rounds, with challenges from any randomness source, and returns
/// the final verdict, which is proved to be acceptance.
#[verifier::rlimit(100)]
pub fn prove_and_verify<R: RngF>(g: MultiPoly, oracle: MultiPoly, rng: &mut R) -> (res: Result<
    bool,
    Error,
>)
    requires
        g.wf(),
        g.multilinear(),
        1 <= g.spec_num_vars() < 64,
        oracle == g,
    ensures
        res matches Ok(accepted) && accepted,
{
    let n = g.num_vars();
    let mut prover = Prover::new(g);
    let claim = prover.claim();
    let mut verifier = Verifier::new(Some(oracle), claim);
    proof {
        lemma_fsum_is_cube_sum(&g, pow2(g.spec_num_vars()) as int);
        assert(eval_table(&g).subrange(0, eval_table(&g).len() as int) =~= eval_table(&g));
        lemma_folded_table_is_mle(g, Seq::<int>::empty());
        assert(vals(verifier.spec_r()) =~= Seq::<int>::empty());
        assert(fold_many(eval_table(&g), Seq::<int>::empty()) == eval_table(&g));
    }
    let mut r_j = Fp::one();
    let mut j: usize = 0;
    while j < n
        invariant
            g.wf(),
            g.multilinear(),
            1 <= n < 64,
            n as nat == g.spec_num_vars(),
            prover.wf(),
            verifier.wf(),
            prover.spec_g() == g,
            verifier.spec_g() == Some(g),
            verifier.spec_n() == n as nat,
            prover.spec_num_vars_state() == n as nat,
            j <= n - 1,
            verifier.spec_r().len() == j,
            prover.spec_r() == if j == 0 {
                Seq::<Fp>::empty()
            } else {
                verifier.spec_r().drop_last()
            },
            j >= 1 ==> r_j == verifier.spec_r().last(),
            r_j.wf(),
            verifier.expect@ == fsum(mle_table(g, vals(verifier.spec_r()))),
        decreases n - j,
    {
        let ghost rs = vals(verifier.spec_r());
        let (p0, p1) = prover.round(r_j, j);
        proof {
            assert(vals(prover.spec_r()) =~= rs);
            lemma_folded_table_is_mle(g, rs);
        }
        match verifier.round(p0, p1, rng) {
            Ok(VerifierRoundResult::JthRound(r)) => {
                proof {
                    if j == n - 1 {
                        // The last round always ends with a verdict.
                        assert(false);
                    }
                    lemma_honest_ml_run(g, rs, r@);
                    assert(vals(verifier.spec_r()) =~= rs.push(r@));
                }
                r_j = r;
            },
            Ok(VerifierRoundResult::FinalRound(accepted)) => {
                proof {
                    assert(j == n - 1);
                    let rj = verifier.spec_r().last();
                    lemma_final_message(g, rs, rj@);
                    assert(vals(verifier.spec_r()) =~= rs.push(rj@));
                    assert(accepted);
                }
                return Ok(accepted);
            },
            Err(e) => {
                proof {
                    // An honest message always meets the expectation, and
                    // the oracle is present, so no round can fail.
                    assert(false);
                }
                return Err(e);
            },
        }
        j = j + 1;
    }
    proof {
        assert(false);
    }
    Err(Error::NoPolySet)
}

} // verus!
