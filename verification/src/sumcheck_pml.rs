//! The product-of-multilinears Sum-Check protocol: the summand is the
//! pointwise product of `k` multilinear polynomials of one arity. The
//! prover keeps one evaluation table per factor and folds each with every
//! challenge; a round sends the `k + 1` values of the degree-`k` round
//! univariate at the points `0, 1, .., k`, which the verifier turns back
//! into a value by Lagrange interpolation.
use vstd::prelude::*;
use vstd::arithmetic::power2::*;
use crate::field::{
    blend, fadd, finv, fmul, fsub, lemma_blend_noop, lemma_fmul_noop, lemma_fsub_noop,
    lemma_view_injective, Fp, MODULUS,
};
use crate::poly::{
    all_wf, eval_table, evens, fold_many, fold_once, fsum, lemma_fold_many_push, lemma_split_sum,
    odds, pow2_u64, vals, SumCheckPolynomial,
};
use crate::common::{Error, RngF, VerifierRoundResult};

verus! {

/// The pointwise product of the tables at position `b`.
pub open spec fn prod_at(ts: Seq<Seq<int>>, b: int) -> int
    decreases ts.len(),
{
    if ts.len() == 0 {
        1
    } else {
        fmul(prod_at(ts.drop_last(), b), ts.last()[b])
    }
}

/// The table of pointwise products, over the first `len` positions.
pub open spec fn prod_table(ts: Seq<Seq<int>>, len: nat) -> Seq<int> {
    Seq::new(len, |b: int| prod_at(ts, b))
}

/// One addend of the round message at evaluation point `t`: the product
/// over the factor tables of the blend of the two entries at cube
/// position `b`.
pub open spec fn round_point_val(ts: Seq<Seq<int>>, t: int, b: int) -> int
    decreases ts.len(),
{
    if ts.len() == 0 {
        1
    } else {
        fmul(round_point_val(ts.drop_last(), t, b), blend(t, ts.last()[2 * b], ts.last()[2 * b + 1]))
    }
}

/// The round message at evaluation point `t`: the sum of
/// [`round_point_val`] over the first `count` cube positions.
pub open spec fn round_sum(ts: Seq<Seq<int>>, t: int, count: int) -> int
    decreases count,
{
    if count <= 0 {
        0
    } else {
        fadd(round_sum(ts, t, count - 1), round_point_val(ts, t, count - 1))
    }
}

/// The evaluation table of each factor after folding with the challenges
/// `rs` in turn.
pub open spec fn folded_tables<P: SumCheckPolynomial>(gs: Seq<P>, rs: Seq<int>) -> Seq<Seq<int>> {
    Seq::new(gs.len(), |i: int| fold_many(eval_table(&gs[i]), rs))
}

/// The product of the factors' values at the point `x`.
pub open spec fn prod_evals<P: SumCheckPolynomial>(gs: Seq<P>, x: Seq<int>) -> int
    decreases gs.len(),
{
    if gs.len() == 0 {
        1
    } else {
        fmul(prod_evals(gs.drop_last(), x), gs.last().spec_eval(x))
    }
}

/// At evaluation point zero a round addend is the product of the even
/// entries.
proof fn lemma_round_pv_zero(ts: Seq<Seq<int>>, b: int)
    ensures
        round_point_val(ts, 0, b) == prod_at(ts, 2 * b),
    decreases ts.len(),
{
    if ts.len() > 0 {
        lemma_round_pv_zero(ts.drop_last(), b);
        let u = ts.last()[2 * b];
        let v = ts.last()[2 * b + 1];
        vstd::arithmetic::mul::lemma_mul_basics(u);
        vstd::arithmetic::mul::lemma_mul_basics(v);
        assert(blend(0, u, v) == u % (MODULUS as int));
        lemma_fmul_noop(round_point_val(ts.drop_last(), 0, b), u);
    }
}

/// At evaluation point one a round addend is the product of the odd
/// entries.
proof fn lemma_round_pv_one(ts: Seq<Seq<int>>, b: int)
    ensures
        round_point_val(ts, 1, b) == prod_at(ts, 2 * b + 1),
    decreases ts.len(),
{
    if ts.len() > 0 {
        lemma_round_pv_one(ts.drop_last(), b);
        let u = ts.last()[2 * b];
        let v = ts.last()[2 * b + 1];
        vstd::arithmetic::mul::lemma_mul_basics(u);
        vstd::arithmetic::mul::lemma_mul_basics(v);
        assert(fsub(1, 1) == 0);
        assert(fmul(u, 0) == 0);
        assert(blend(1, u, v) == fadd(0, v % (MODULUS as int)));
        lemma_fmul_noop(round_point_val(ts.drop_last(), 1, b), v);
    }
}

proof fn lemma_round_sum_zero(ts: Seq<Seq<int>>, c: int)
    requires
        c >= 0,
    ensures
        round_sum(ts, 0, c) == fsum(evens(prod_table(ts, (2 * c) as nat))),
    decreases c,
{
    if c > 0 {
        lemma_round_sum_zero(ts, c - 1);
        lemma_round_pv_zero(ts, c - 1);
        assert(evens(prod_table(ts, (2 * c) as nat)).drop_last() =~= evens(
            prod_table(ts, (2 * c - 2) as nat),
        ));
        assert(evens(prod_table(ts, (2 * c) as nat)).last() == prod_at(ts, 2 * (c - 1)));
    }
}

proof fn lemma_round_sum_one(ts: Seq<Seq<int>>, c: int)
    requires
        c >= 0,
    ensures
        round_sum(ts, 1, c) == fsum(odds(prod_table(ts, (2 * c) as nat))),
    decreases c,
{
    if c > 0 {
        lemma_round_sum_one(ts, c - 1);
        lemma_round_pv_one(ts, c - 1);
        assert(odds(prod_table(ts, (2 * c) as nat)).drop_last() =~= odds(
            prod_table(ts, (2 * c - 2) as nat),
        ));
        assert(odds(prod_table(ts, (2 * c) as nat)).last() == prod_at(ts, 2 * (c - 1) + 1));
    }
}

/// Law: the first two entries of a round message sum to the total of the
/// live product table, so an honest message always meets the verifier's
/// `expect` check.
pub proof fn lemma_message_sum(ts: Seq<Seq<int>>, c: int)
    requires
        c >= 0,
    ensures
        fadd(round_sum(ts, 0, c), round_sum(ts, 1, c)) == fsum(prod_table(ts, (2 * c) as nat)),
{
    lemma_round_sum_zero(ts, c);
    lemma_round_sum_one(ts, c);
    lemma_split_sum(prod_table(ts, (2 * c) as nat));
}

/// The product over `s in [0, cnt)`, `s != t`, of `at - s` in the field:
/// with `at = t` this is a Lagrange denominator, with `at` the evaluation
/// point it is a numerator.
pub open spec fn lag_prod(t: int, at: int, cnt: int) -> int
    decreases cnt,
{
    if cnt <= 0 {
        1
    } else if cnt - 1 == t {
        lag_prod(t, at, cnt - 1)
    } else {
        fmul(lag_prod(t, at, cnt - 1), fsub(at, cnt - 1))
    }
}

/// The first `upto` addends of the Lagrange interpolation of the samples
/// `(0, ys[0]), (1, ys[1]), ..` evaluated at `at`.
pub open spec fn lag_eval_partial(ys: Seq<int>, at: int, upto: int) -> int
    decreases upto,
{
    if upto <= 0 {
        0
    } else {
        fadd(
            lag_eval_partial(ys, at, upto - 1),
            fmul(
                fmul(ys[upto - 1], lag_prod(upto - 1, at, ys.len() as int)),
                finv(lag_prod(upto - 1, upto - 1, ys.len() as int)),
            ),
        )
    }
}

/// The Lagrange interpolation of the samples `(t, ys[t])` for
/// `t = 0 .. ys.len()`, evaluated at `at`:
/// `Σ_t ys[t] · Π_{s≠t}(at - s) / (t - s)`.
pub open spec fn lag_eval(ys: Seq<int>, at: int) -> int {
    lag_eval_partial(ys, at, ys.len() as int)
}

/// The state of the prover.
pub struct Prover<P: SumCheckPolynomial> {
    /// The factor polynomials; the summand is their pointwise product.
    g: Vec<P>,
    /// The value the prover claims equals the hypercube sum of the product.
    claim: Fp,
    /// The challenges received from the verifier so far.
    r: Vec<Fp>,
    /// The common arity of the factors.
    num_vars: usize,
    /// One evaluation table per factor; after `j` folds only the first
    /// `2^(n-j)` entries of each are live.
    table: Vec<Vec<Fp>>,
}

impl<P: SumCheckPolynomial> Prover<P> {
    pub closed spec fn wf(self) -> bool {
        &&& 1 <= self.g@.len() < usize::MAX
        &&& self.table@.len() == self.g@.len()
        &&& forall|i: int|
            0 <= i < self.g@.len() ==> (#[trigger] self.g@[i]).wf() && self.g@[i].spec_num_vars()
                == self.num_vars as nat
        &&& 1 <= self.num_vars < 64
        &&& self.claim.wf()
        &&& all_wf(self.r@)
        &&& self.r@.len() <= self.num_vars
        &&& forall|i: int|
            0 <= i < self.table@.len() ==> (#[trigger] self.table@[i])@.len() == pow2(
                self.num_vars as nat,
            ) && all_wf(self.table@[i]@)
        &&& forall|i: int|
            0 <= i < self.table@.len() ==> vals((#[trigger] self.table@[i])@).subrange(
                0,
                pow2((self.num_vars - self.r@.len()) as nat) as int,
            ) == fold_many(eval_table(&self.g@[i]), vals(self.r@))
        &&& self.claim@ == fsum(
            prod_table(folded_tables(self.g@, Seq::<int>::empty()), pow2(self.num_vars as nat)),
        )
    }

    pub closed spec fn spec_g(self) -> Seq<P> {
        self.g@
    }

    pub closed spec fn spec_claim(self) -> Fp {
        self.claim
    }

    pub closed spec fn spec_r(self) -> Seq<Fp> {
        self.r@
    }

    pub closed spec fn spec_num_vars_state(self) -> nat {
        self.num_vars as nat
    }

    /// Builds the prover: one evaluation table per factor, and the claim
    /// is the sum over the hypercube of the product of the factors.
    pub fn new(g: Vec<P>) -> (s: Self)
        requires
            1 <= g@.len() < usize::MAX,
            forall|i: int| 0 <= i < g@.len() ==> (#[trigger] g@[i]).wf(),
            forall|i: int|
                0 <= i < g@.len() ==> (#[trigger] g@[i]).spec_num_vars() == g@[0].spec_num_vars(),
            1 <= g@[0].spec_num_vars() < 64,
        ensures
            s.wf(),
            s.spec_g() == g@,
            s.spec_r() =~= Seq::<Fp>::empty(),
            s.spec_num_vars_state() == g@[0].spec_num_vars(),
            s.spec_claim()@ == fsum(
                prod_table(
                    folded_tables(g@, Seq::<int>::empty()),
                    pow2(g@[0].spec_num_vars()),
                ),
            ),
    {
        let num_vars = g[0].num_vars();
        let count = pow2_u64(num_vars as u64);
        let mut table: Vec<Vec<Fp>> = Vec::new();
        let mut i: usize = 0;
        while i < g.len()
            invariant
                forall|a: int| 0 <= a < g@.len() ==> (#[trigger] g@[a]).wf(),
                forall|a: int|
                    0 <= a < g@.len() ==> (#[trigger] g@[a]).spec_num_vars()
                        == num_vars as nat,
                1 <= num_vars < 64,
                i <= g@.len(),
                table@.len() == i,
                forall|a: int|
                    0 <= a < i ==> (#[trigger] table@[a])@.len() == pow2(num_vars as nat)
                        && all_wf(table@[a]@),
                forall|a: int|
                    0 <= a < i ==> vals((#[trigger] table@[a])@) == eval_table(&g@[a]),
            decreases g@.len() - i,
        {
            let evs = g[i].to_evaluations();
            proof {
                assert(vals(evs@) =~= eval_table(&g@[i as int]));
            }
            table.push(evs);
            i = i + 1;
        }
        // The claim: sum the pointwise product of the tables.
        let row0_len = table[0].len();
        let ghost ts = folded_tables(g@, Seq::<int>::empty());
        proof {
            assert forall|a: int| 0 <= a < g@.len() implies #[trigger] ts[a] == vals(
                table@[a]@,
            ) by {
                assert(ts[a] == fold_many(eval_table(&g@[a]), Seq::<int>::empty()));
            }
        }
        let mut claim = Fp::zero();
        let count_us = count as usize;
        let mut b: usize = 0;
        while b < count_us
            invariant
                forall|a: int|
                    0 <= a < table@.len() ==> (#[trigger] table@[a])@.len() == pow2(
                        num_vars as nat,
                    ) && all_wf(table@[a]@),
                forall|a: int| 0 <= a < table@.len() ==> #[trigger] ts[a] == vals(table@[a]@),
                ts.len() == table@.len(),
                table@.len() >= 1,
                b <= count_us,
                count_us == count,
                count as nat == pow2(num_vars as nat),
                claim.wf(),
                claim@ == fsum(prod_table(ts, b as nat)),
            decreases count_us - b,
        {
            let mut prod = Fp::one();
            let mut a: usize = 0;
            while a < table.len()
                invariant
                    forall|x: int|
                        0 <= x < table@.len() ==> (#[trigger] table@[x])@.len() == pow2(
                            num_vars as nat,
                        ) && all_wf(table@[x]@),
                    forall|x: int| 0 <= x < table@.len() ==> #[trigger] ts[x] == vals(table@[x]@),
                    ts.len() == table@.len(),
                    a <= table@.len(),
                    b < count_us,
                    count_us == count,
                    count as nat == pow2(num_vars as nat),
                    prod.wf(),
                    prod@ == prod_at(ts.subrange(0, a as int), b as int),
                decreases table@.len() - a,
            {
                proof {
                    assert(ts.subrange(0, a + 1).drop_last() =~= ts.subrange(0, a as int));
                    assert(ts.subrange(0, a + 1).last() == ts[a as int]);
                }
                prod = prod.mul(table[a][b]);
                a = a + 1;
            }
            proof {
                assert(ts.subrange(0, ts.len() as int) =~= ts);
                assert(prod_table(ts, (b + 1) as nat).drop_last() =~= prod_table(ts, b as nat));
                assert(prod_table(ts, (b + 1) as nat).last() == prod_at(ts, b as int));
            }
            claim = claim.add(prod);
            b = b + 1;
        }
        let s = Prover { g, claim, num_vars, r: Vec::new(), table };
        proof {
            assert(vals(s.r@) =~= Seq::<int>::empty());
            assert forall|a: int| 0 <= a < s.table@.len() implies vals(
                (#[trigger] s.table@[a])@,
            ).subrange(0, pow2((s.num_vars - s.r@.len()) as nat) as int) == fold_many(
                eval_table(&s.g@[a]),
                vals(s.r@),
            ) by {
                assert(vals(s.table@[a]@).subrange(0, pow2(s.num_vars as nat) as int) =~= vals(
                    s.table@[a]@,
                ));
            }
        }
        s
    }

    /// The value the prover claims equals the true hypercube sum of the
    /// product.
    pub fn claim(&self) -> (c: Fp)
        ensures
            c == self.spec_claim(),
    {
        self.claim
    }

    pub fn num_vars(&self) -> (n: usize)
        ensures
            n as nat == self.spec_num_vars_state(),
    {
        self.num_vars
    }

    /// Round `j` of the prover: folds each factor table with the previous
    /// challenge (except in round zero), then returns the `k + 1` values
    /// `s_t = Σ_b Π_i (T_i[2b] · (1 - t) + T_i[2b + 1] · t)` of the round
    /// univariate at the evaluation points `t = 0 .. k`.
    #[verifier::rlimit(100)]
    pub fn round(&mut self, r_prev: Fp, j: usize) -> (res: Vec<Fp>)
        requires
            old(self).wf(),
            r_prev.wf(),
            j < old(self).spec_num_vars_state(),
            j == 0 ==> old(self).spec_r().len() == 0,
            j >= 1 ==> old(self).spec_r().len() == j - 1,
        ensures
            final(self).wf(),
            final(self).spec_g() == old(self).spec_g(),
            final(self).spec_claim() == old(self).spec_claim(),
            final(self).spec_num_vars_state() == old(self).spec_num_vars_state(),
            final(self).spec_r() == if j == 0 {
                old(self).spec_r()
            } else {
                old(self).spec_r().push(r_prev)
            },
            res@.len() == old(self).spec_g().len() + 1,
            all_wf(res@),
            forall|t: int|
                0 <= t < res@.len() ==> vals(res@)[t] == round_sum(
                    folded_tables(final(self).spec_g(), vals(final(self).spec_r())),
                    t,
                    pow2((final(self).spec_num_vars_state() - j - 1) as nat) as int,
                ),
    {
        proof {
            lemma2_to64();
            lemma2_to64_rest();
        }
        if j != 0 {
            let half = pow2_u64((self.num_vars - j) as u64);
            proof {
                lemma_pow2_unfold((self.num_vars - j + 1) as nat);
                if self.num_vars - j + 1 < self.num_vars {
                    lemma_pow2_strictly_increases(
                        (self.num_vars - j + 1) as nat,
                        self.num_vars as nat,
                    );
                }
            }
            let np = self.table.len();
            let row0_len = self.table[0].len();
            let mut i: usize = 0;
            while i < np
                invariant
                    self.g == old(self).g,
                    self.r@ == old(self).r@,
                    self.claim == old(self).claim,
                    self.num_vars == old(self).num_vars,
                    old(self).wf(),
                    r_prev.wf(),
                    1 <= j < self.num_vars < 64,
                    self.r@.len() == j - 1,
                    np == self.table@.len(),
                    self.table@.len() == self.g@.len(),
                    i <= np,
                    half as nat == pow2((self.num_vars - j) as nat),
                    2 * half as nat <= pow2(self.num_vars as nat),
                    pow2(self.num_vars as nat) <= usize::MAX,
                    forall|a: int|
                        0 <= a < self.table@.len() ==> (#[trigger] self.table@[a])@.len() == pow2(
                            self.num_vars as nat,
                        ) && all_wf(self.table@[a]@),
                    forall|a: int|
                        i <= a < self.table@.len() ==> vals(
                            (#[trigger] self.table@[a])@,
                        ).subrange(0, 2 * half as int) == fold_many(
                            eval_table(&self.g@[a]),
                            vals(self.r@),
                        ),
                    forall|a: int|
                        0 <= a < i ==> vals((#[trigger] self.table@[a])@).subrange(
                            0,
                            half as int,
                        ) == fold_once(
                            fold_many(eval_table(&self.g@[a]), vals(self.r@)),
                            r_prev@,
                        ),
                decreases np - i,
            {
                let ghost old_active = fold_many(eval_table(&self.g@[i as int]), vals(self.r@));
                let ghost snap = vals(self.table@[i as int]@);
                let half_us = half as usize;
                let mut b: usize = 0;
                while b < half_us
                    invariant
                        self.g == old(self).g,
                        self.r@ == old(self).r@,
                        self.claim == old(self).claim,
                        self.num_vars == old(self).num_vars,
                        r_prev.wf(),
                        1 <= j < self.num_vars < 64,
                        0 <= i < self.table@.len(),
                        np == self.table@.len(),
                        b <= half_us,
                        half_us == half,
                        half as nat == pow2((self.num_vars - j) as nat),
                        2 * half as nat <= pow2(self.num_vars as nat),
                        old_active == fold_many(eval_table(&self.g@[i as int]), vals(self.r@)),
                        old_active == snap.subrange(0, 2 * half as int),
                        snap.len() == pow2(self.num_vars as nat),
                        snap.len() <= usize::MAX,
                        pow2(self.num_vars as nat) <= usize::MAX,
                        forall|a: int|
                            0 <= a < self.table@.len() ==> (#[trigger] self.table@[a])@.len()
                                == pow2(self.num_vars as nat) && all_wf(self.table@[a]@),
                        forall|a: int|
                            i < a < self.table@.len() ==> vals(
                                (#[trigger] self.table@[a])@,
                            ).subrange(0, 2 * half as int) == fold_many(
                                eval_table(&self.g@[a]),
                                vals(self.r@),
                            ),
                        forall|a: int|
                            0 <= a < i ==> vals((#[trigger] self.table@[a])@).subrange(
                                0,
                                half as int,
                            ) == fold_once(
                                fold_many(eval_table(&self.g@[a]), vals(self.r@)),
                                r_prev@,
                            ),
                        forall|x: int|
                            b <= x < snap.len() ==> vals(self.table@[i as int]@)[x] == snap[x],
                        forall|x: int|
                            0 <= x < b ==> vals(self.table@[i as int]@)[x] == blend(
                                r_prev@,
                                snap[2 * x],
                                snap[2 * x + 1],
                            ),
                    decreases half_us - b,
                {
                    proof {
                        assert(2 * b + 1 < self.table@[i as int]@.len());
                        assert(self.table@[i as int]@[2 * b as int].wf());
                        assert(self.table@[i as int]@[2 * b + 1].wf());
                    }
                    let t0 = self.table[i][2 * b];
                    let t1 = self.table[i][2 * b + 1];
                    let v = t0.mul(Fp::one().sub(r_prev)).add(t1.mul(r_prev));
                    let ghost prev_row = vals(self.table@[i as int]@);
                    let ghost prev_tab = self.table@;
                    let row = &mut self.table[i];
                    row[b] = v;
                    proof {
                        assert(self.table@ =~= prev_tab.update(
                            i as int,
                            self.table@[i as int],
                        ));
                        assert(vals(self.table@[i as int]@) =~= prev_row.update(b as int, v@));
                    }
                    b = b + 1;
                }
                proof {
                    assert forall|x: int| 0 <= x < half implies fold_once(old_active, r_prev@)[x]
                        == vals(self.table@[i as int]@)[x] by {
                        assert(old_active[2 * x] == snap[2 * x]);
                        assert(old_active[2 * x + 1] == snap[2 * x + 1]);
                    }
                    assert(vals(self.table@[i as int]@).subrange(0, half as int) =~= fold_once(
                        old_active,
                        r_prev@,
                    ));
                }
                i = i + 1;
            }
            self.r.push(r_prev);
            proof {
                assert(vals(self.r@) =~= vals(old(self).r@).push(r_prev@));
                assert forall|x: int| 0 <= x < self.r@.len() implies (
                #[trigger] self.r@[x]).wf() by {
                    if x < self.r@.len() - 1 {
                        assert(self.r@[x] == old(self).r@[x]);
                    }
                }
                assert forall|a: int| 0 <= a < self.table@.len() implies vals(
                    (#[trigger] self.table@[a])@,
                ).subrange(0, pow2((self.num_vars - self.r@.len()) as nat) as int) == fold_many(
                    eval_table(&self.g@[a]),
                    vals(self.r@),
                ) by {
                    lemma_fold_many_push(eval_table(&self.g@[a]), vals(old(self).r@), r_prev@);
                }
                assert(self.wf());
            }
        }
        // The k + 1 evaluation points of the round univariate.
        let ghost active = folded_tables(self.g@, vals(self.r@));
        proof {
            lemma_pow2_unfold((self.num_vars - j) as nat);
            if self.num_vars - j < self.num_vars {
                lemma_pow2_strictly_increases((self.num_vars - j) as nat, self.num_vars as nat);
            }
        }
        let m = pow2_u64((self.num_vars - j - 1) as u64);
        let np = self.table.len();
        let row0_len = self.table[0].len();
        proof {
            assert(row0_len as nat == pow2(self.num_vars as nat));
        }
        let m_us = m as usize;
        let mut msg: Vec<Fp> = Vec::new();
        let mut t: usize = 0;
        while t <= np
            invariant
                self.wf(),
                self.r@.len() == j,
                j < self.num_vars,
                np == self.table@.len(),
                np < usize::MAX,
                active == folded_tables(self.g@, vals(self.r@)),
                active.len() == np,
                forall|a: int|
                    0 <= a < np ==> #[trigger] active[a] == vals(self.table@[a]@).subrange(
                        0,
                        2 * m as int,
                    ),
                2 * m as nat == pow2((self.num_vars - j) as nat),
                2 * m as nat <= pow2(self.num_vars as nat),
                pow2(self.num_vars as nat) <= usize::MAX,
                m_us == m,
                t <= np + 1,
                msg@.len() == t,
                all_wf(msg@),
                forall|x: int| 0 <= x < t ==> vals(msg@)[x] == round_sum(active, x, m as int),
            decreases np + 1 - t,
        {
            let mut s = Fp::zero();
            let mut b: usize = 0;
            while b < m_us
                invariant
                    self.wf(),
                    np == self.table@.len(),
                    active.len() == np,
                    forall|a: int|
                        0 <= a < np ==> #[trigger] active[a] == vals(self.table@[a]@).subrange(
                            0,
                            2 * m as int,
                        ),
                    2 * m as nat <= pow2(self.num_vars as nat),
                    pow2(self.num_vars as nat) <= usize::MAX,
                    m_us == m,
                    t <= np,
                    b <= m_us,
                    s.wf(),
                    s@ == round_sum(active, t as int, b as int),
                decreases m_us - b,
            {
                let tf = Fp::new(t as u64);
                let mut prod = Fp::one();
                let mut a: usize = 0;
                while a < np
                    invariant
                        self.wf(),
                        np == self.table@.len(),
                        active.len() == np,
                        forall|x: int|
                            0 <= x < np ==> #[trigger] active[x] == vals(
                                self.table@[x]@,
                            ).subrange(0, 2 * m as int),
                        2 * m as nat <= pow2(self.num_vars as nat),
                        pow2(self.num_vars as nat) <= usize::MAX,
                        m_us == m,
                        t <= np,
                        b < m_us,
                        a <= np,
                        tf.wf(),
                        tf@ == t as int % (MODULUS as int),
                        prod.wf(),
                        prod@ == round_point_val(active.subrange(0, a as int), t as int, b as int),
                    decreases np - a,
                {
                    proof {
                        assert((#[trigger] self.table@[a as int])@.len() == pow2(
                            self.num_vars as nat,
                        ));
                        assert(2 * b + 1 < self.table@[a as int]@.len());
                        assert(self.table@[a as int]@[2 * b as int].wf());
                        assert(self.table@[a as int]@[2 * b + 1].wf());
                    }
                    let u = self.table[a][2 * b];
                    let v = self.table[a][2 * b + 1];
                    prod = prod.mul(u.mul(Fp::one().sub(tf)).add(v.mul(tf)));
                    proof {
                        assert(active.subrange(0, a + 1).drop_last() =~= active.subrange(
                            0,
                            a as int,
                        ));
                        assert(active.subrange(0, a + 1).last() == active[a as int]);
                        assert(active[a as int][2 * b] == u@);
                        assert(active[a as int][2 * b + 1] == v@);
                        lemma_blend_noop(t as int, u@, v@);
                    }
                    a = a + 1;
                }
                proof {
                    assert(active.subrange(0, active.len() as int) =~= active);
                }
                s = s.add(prod);
                b = b + 1;
            }
            let ghost prev_msg = msg@;
            msg.push(s);
            proof {
                assert(vals(msg@) =~= vals(prev_msg).push(s@));
            }
            t = t + 1;
        }
        msg
    }
}

/// The state of the verifier.
pub struct Verifier<P: SumCheckPolynomial> {
    /// The common arity of the factor polynomials.
    pub nv: usize,
    /// The claim the prover opened with.
    pub claim: Fp,
    /// The challenges issued so far, in order.
    pub r: Vec<Fp>,
    /// Oracle access to the factor polynomials, for the final check.
    pub g: Option<Vec<P>>,
    /// What the next round's message must sum to over `{0, 1}`.
    pub expect: Fp,
}

impl<P: SumCheckPolynomial> Verifier<P> {
    pub open spec fn wf(self) -> bool {
        &&& 1 <= self.nv < 64
        &&& self.claim.wf()
        &&& self.expect.wf()
        &&& all_wf(self.r@)
        &&& self.r@.len() <= self.nv
        &&& (self.g matches Some(gs) ==> gs@.len() >= 1 && forall|i: int|
            0 <= i < gs@.len() ==> (#[trigger] gs@[i]).wf() && gs@[i].spec_num_vars()
                == self.nv as nat)
    }

    /// Builds the verifier from the oracle polynomials and the claim; the
    /// rolling `expect` starts at the claim.
    pub fn new(g: Option<Vec<P>>, claim: Fp) -> (s: Self)
        requires
            g matches Some(gs) && gs@.len() >= 1 && 1 <= gs@[0].spec_num_vars() < 64 && forall|
                i: int,
            |
                0 <= i < gs@.len() ==> (#[trigger] gs@[i]).wf() && gs@[i].spec_num_vars()
                    == gs@[0].spec_num_vars(),
            claim.wf(),
        ensures
            s.wf(),
            s.g == g,
            s.claim == claim,
            s.expect == claim,
            s.r@.len() == 0,
            g matches Some(gs) ==> s.nv as nat == gs@[0].spec_num_vars(),
    {
        let nv = match &g {
            Some(gs) => gs[0].num_vars(),
            None => 0,
        };
        Verifier { nv, claim, r: Vec::new(), g, expect: claim }
    }

    /// Lagrange-interpolates the samples `(0, ys[0]), (1, ys[1]), ..` and
    /// evaluates the interpolated univariate at `eval_at`.
    pub fn univariate_interpolate_and_evaluate(ys: &Vec<Fp>, eval_at: Fp) -> (r: Fp)
        requires
            all_wf(ys@),
            eval_at.wf(),
        ensures
            r.wf(),
            r@ == lag_eval(vals(ys@), eval_at@),
    {
        let len = ys.len();
        let mut acc = Fp::zero();
        let mut t: usize = 0;
        while t < len
            invariant
                all_wf(ys@),
                eval_at.wf(),
                len == ys@.len(),
                t <= len,
                acc.wf(),
                acc@ == lag_eval_partial(vals(ys@), eval_at@, t as int),
            decreases len - t,
        {
            let mut num = Fp::one();
            let mut den = Fp::one();
            let mut s: usize = 0;
            while s < len
                invariant
                    all_wf(ys@),
                    eval_at.wf(),
                    len == ys@.len(),
                    t < len,
                    s <= len,
                    num.wf(),
                    den.wf(),
                    num@ == lag_prod(t as int, eval_at@, s as int),
                    den@ == lag_prod(t as int, t as int, s as int),
                decreases len - s,
            {
                if s != t {
                    let xs = Fp::new(s as u64);
                    let xt = Fp::new(t as u64);
                    proof {
                        lemma_fsub_noop(eval_at@, s as int);
                        lemma_fsub_noop(t as int, s as int);
                        lemma_fsub_noop(t as int % (MODULUS as int), s as int);
                    }
                    num = num.mul(eval_at.sub(xs));
                    den = den.mul(xt.sub(xs));
                }
                s = s + 1;
            }
            acc = acc.add(ys[t].mul(num).mul(den.inv()));
            t = t + 1;
        }
        acc
    }

    /// Round `j` of the verifier, on the prover's `k + 1` point message.
    /// Exactly when `p[0] + p[1]` differs from `expect` the round fails
    /// with a claim mismatch and the state is unchanged. Otherwise a
    /// challenge is drawn and recorded, and the round univariate is
    /// reconstructed by Lagrange interpolation and evaluated there; in a
    /// middle round that value becomes `expect`, in the last round it is
    /// compared against the product of the oracle evaluations at the full
    /// challenge vector.
    pub fn round<R: RngF>(&mut self, p: Vec<Fp>, rng: &mut R) -> (res: Result<
        VerifierRoundResult,
        Error,
    >)
        requires
            old(self).wf(),
            p@.len() >= 2,
            all_wf(p@),
            old(self).r@.len() < old(self).nv,
        ensures
            final(self).wf(),
            final(self).nv == old(self).nv,
            final(self).claim == old(self).claim,
            final(self).g == old(self).g,
            fadd(vals(p@)[0], vals(p@)[1]) != old(self).expect@ ==> (res matches Err(
                Error::ProverClaimMismatch(e, a),
            ) && e == old(self).expect && a.wf() && a@ == fadd(vals(p@)[0], vals(p@)[1])
                && *final(self) == *old(self)),
            fadd(vals(p@)[0], vals(p@)[1]) == old(self).expect@ && old(self).r@.len() < old(
                self,
            ).nv - 1 ==> (res matches Ok(VerifierRoundResult::JthRound(rj)) && rj.wf()
                && final(self).r@ == old(self).r@.push(rj)
                && final(self).expect@ == lag_eval(vals(p@), rj@)),
            fadd(vals(p@)[0], vals(p@)[1]) == old(self).expect@ && old(self).r@.len() == old(
                self,
            ).nv - 1 && old(self).g is None ==> (res matches Err(Error::NoPolySet)
                && final(self).r@.len() == old(self).r@.len() + 1),
            fadd(vals(p@)[0], vals(p@)[1]) == old(self).expect@ && old(self).r@.len() == old(
                self,
            ).nv - 1 && (old(self).g matches Some(gs)) ==> (res matches Ok(
                VerifierRoundResult::FinalRound(ok),
            ) && ({
                let rj = final(self).r@.last();
                &&& final(self).r@ == old(self).r@.push(rj)
                &&& (old(self).g matches Some(gs) && (ok <==> lag_eval(vals(p@), rj@)
                    == prod_evals(gs@, vals(final(self).r@))))
            })),
    {
        let r_j = rng.draw();
        let sum = p[0].add(p[1]);
        proof {
            lemma_view_injective(self.expect, sum);
        }
        if !(self.expect == sum) {
            Err(Error::ProverClaimMismatch(self.expect, sum))
        } else if self.r.len() == self.nv - 1 {
            // Last round.
            self.r.push(r_j);
            proof {
                assert forall|i: int| 0 <= i < self.r@.len() implies (
                #[trigger] self.r@[i]).wf() by {
                    if i < self.r@.len() - 1 {
                        assert(self.r@[i] == old(self).r@[i]);
                    }
                }
            }
            match &self.g {
                Some(gs) => {
                    let v = Self::univariate_interpolate_and_evaluate(&p, r_j);
                    let mut prod = Fp::one();
                    let mut i: usize = 0;
                    while i < gs.len()
                        invariant
                            gs@.len() >= 1,
                            forall|a: int|
                                0 <= a < gs@.len() ==> (#[trigger] gs@[a]).wf()
                                    && gs@[a].spec_num_vars() == self.r@.len(),
                            all_wf(self.r@),
                            i <= gs@.len(),
                            prod.wf(),
                            prod@ == prod_evals(gs@.subrange(0, i as int), vals(self.r@)),
                        decreases gs@.len() - i,
                    {
                        proof {
                            assert(gs@.subrange(0, i + 1).drop_last() =~= gs@.subrange(
                                0,
                                i as int,
                            ));
                            assert(gs@.subrange(0, i + 1).last() == gs@[i as int]);
                        }
                        let e = match gs[i].evaluate(&self.r) {
                            Some(e) => e,
                            None => {
                                proof {
                                    assert(false);
                                }
                                Fp::zero()
                            },
                        };
                        prod = prod.mul(e);
                        i = i + 1;
                    }
                    proof {
                        assert(gs@.subrange(0, gs@.len() as int) =~= gs@);
                        lemma_view_injective(v, prod);
                        assert(self.r@.last() == r_j);
                    }
                    Ok(VerifierRoundResult::FinalRound(v == prod))
                },
                None => Err(Error::NoPolySet),
            }
        } else {
            self.r.push(r_j);
            self.expect = Self::univariate_interpolate_and_evaluate(&p, r_j);
            proof {
                assert forall|i: int| 0 <= i < self.r@.len() implies (
                #[trigger] self.r@[i]).wf() by {
                    if i < self.r@.len() - 1 {
                        assert(self.r@[i] == old(self).r@[i]);
                    }
                }
            }
            Ok(VerifierRoundResult::JthRound(r_j))
        }
    }
}

} // verus!
