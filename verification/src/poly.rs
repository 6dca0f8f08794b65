//! The polynomial substrate of the Sum-Check protocol: sparse multivariate
//! polynomials, dense univariate polynomials, Boolean-hypercube enumeration,
//! and the evaluation-table specifications (folding, hypercube sums) that
//! the prover and verifier contracts are stated over.
use vstd::prelude::*;
use vstd::arithmetic::power2::*;
use vstd::arithmetic::div_mod::*;
use vstd::arithmetic::mul::*;
use crate::field::{
    blend, fadd, fmul, fpow, fsub, lemma_blend_add, lemma_blend_const, lemma_blend_scale,
    lemma_fadd_assoc, lemma_fmul_assoc, lemma_fmul_comm, lemma_fmul_distrib, lemma_fmul_noop, Fp,
    MODULUS,
};

verus! {

/// The integer representatives of a sequence of field elements.
pub open spec fn vals(s: Seq<Fp>) -> Seq<int> {
    s.map_values(|f: Fp| f@)
}

/// Every element of the sequence is a reduced field element.
pub open spec fn all_wf(s: Seq<Fp>) -> bool {
    forall|i: int| 0 <= i < s.len() ==> (#[trigger] s[i]).wf()
}

/// The field sum of a sequence of representatives.
pub open spec fn fsum(s: Seq<int>) -> int
    decreases s.len(),
{
    if s.len() == 0 {
        0
    } else {
        fadd(fsum(s.drop_last()), s.last())
    }
}

/// Bit `k` of the non-negative integer `i`.
pub open spec fn bit_at(i: int, k: nat) -> int {
    (i / pow2(k) as int) % 2
}

/// The `i`-th point of the Boolean hypercube `{0,1}^n` in little-endian
/// order: coordinate `k` is bit `k` of `i`.
pub open spec fn cube_point(i: int, n: nat) -> Seq<int> {
    Seq::new(n, |k: int| bit_at(i, k as nat))
}

/// One factor `x_var ^ power` of a monomial.
#[derive(Clone, Copy, PartialEq, Eq, Structural, Debug)]
pub struct VarPower {
    pub var: usize,
    pub power: u64,
}

/// One monomial: a coefficient times a product of variable powers.
#[derive(Clone, Debug)]
pub struct Term {
    pub coeff: Fp,
    pub vars: Vec<VarPower>,
}

/// A sparse multivariate polynomial: a sum of monomials over `num_vars`
/// variables.
#[derive(Clone, Debug)]
pub struct MultiPoly {
    pub num_vars: usize,
    pub terms: Vec<Term>,
}

/// A dense univariate polynomial; entry `i` of `coeffs` is the coefficient
/// of `x^i`.
#[derive(Clone, Debug)]
pub struct UniPoly {
    pub coeffs: Vec<Fp>,
}

/// The value of a product of factors at the point `x`.
pub open spec fn term_eval(vs: Seq<VarPower>, x: Seq<int>) -> int
    decreases vs.len(),
{
    if vs.len() == 0 {
        1
    } else {
        fmul(term_eval(vs.drop_last(), x), fpow(x[vs.last().var as int], vs.last().power as nat))
    }
}

/// The value of a sum of monomials at the point `x`.
pub open spec fn terms_eval(ts: Seq<Term>, x: Seq<int>) -> int
    decreases ts.len(),
{
    if ts.len() == 0 {
        0
    } else {
        fadd(terms_eval(ts.drop_last(), x), fmul(ts.last().coeff@, term_eval(ts.last().vars@, x)))
    }
}

/// The value of a dense univariate polynomial at `t`.
pub open spec fn uni_eval(c: Seq<int>, t: int) -> int
    decreases c.len(),
{
    if c.len() == 0 {
        0
    } else {
        fadd(uni_eval(c.drop_last(), t), fmul(c.last(), fpow(t, (c.len() - 1) as nat)))
    }
}

/// A factor product is always a reduced field value.
pub proof fn lemma_term_eval_bounds(vs: Seq<VarPower>, x: Seq<int>)
    ensures
        0 <= term_eval(vs, x) < MODULUS,
    decreases vs.len(),
{
    if vs.len() > 0 {
        lemma_term_eval_bounds(vs.drop_last(), x);
    }
}

/// A polynomial value is always a reduced field value.
pub proof fn lemma_terms_eval_bounds(ts: Seq<Term>, x: Seq<int>)
    ensures
        0 <= terms_eval(ts, x) < MODULUS,
    decreases ts.len(),
{
    if ts.len() > 0 {
        lemma_terms_eval_bounds(ts.drop_last(), x);
    }
}

/// A factor product only reads the point at the variables it mentions.
pub proof fn lemma_term_eval_agree(vs: Seq<VarPower>, x: Seq<int>, y: Seq<int>)
    requires
        forall|i: int| 0 <= i < vs.len() ==> x[(#[trigger] vs[i]).var as int] == y[vs[i].var as int],
    ensures
        term_eval(vs, x) == term_eval(vs, y),
    decreases vs.len(),
{
    if vs.len() > 0 {
        lemma_term_eval_agree(vs.drop_last(), x, y);
    }
}

impl Term {
    /// Well-formed over `n` variables: reduced coefficient, factors sorted
    /// by strictly increasing variable index below `n`, all powers positive.
    pub open spec fn wf(self, n: int) -> bool {
        &&& self.coeff.wf()
        &&& forall|i: int|
            0 <= i < self.vars@.len() ==> (#[trigger] self.vars@[i]).var < n && self.vars@[i].power
                >= 1
        &&& forall|i: int, j: int|
            0 <= i < j < self.vars@.len() ==> self.vars@[i].var < self.vars@[j].var
    }

    /// Every variable appears with power at most one.
    pub open spec fn multilinear(self) -> bool {
        forall|i: int| 0 <= i < self.vars@.len() ==> (#[trigger] self.vars@[i]).power <= 1
    }
}

impl MultiPoly {
    /// The polynomial is multilinear.
    pub open spec fn multilinear(self) -> bool {
        forall|i: int| 0 <= i < self.terms@.len() ==> (#[trigger] self.terms@[i]).multilinear()
    }

    /// Decides the representation invariant, so that unverified callers
    /// can validate a polynomial before handing it to a prover.
    pub fn is_well_formed(&self) -> (b: bool)
        ensures
            b == self.wf(),
    {
        let mut j: usize = 0;
        while j < self.terms.len()
            invariant
                j <= self.terms@.len(),
                forall|a: int|
                    0 <= a < j ==> (#[trigger] self.terms@[a]).wf(self.num_vars as int),
            decreases self.terms@.len() - j,
        {
            if self.terms[j].coeff.value() >= MODULUS {
                proof {
                    assert(!self.terms@[j as int].wf(self.num_vars as int));
                }
                return false;
            }
            let mut i: usize = 0;
            while i < self.terms[j].vars.len()
                invariant
                    0 <= j < self.terms@.len(),
                    i <= self.terms@[j as int].vars@.len(),
                    forall|a: int|
                        0 <= a < i ==> (#[trigger] self.terms@[j as int].vars@[a]).var
                            < self.num_vars && self.terms@[j as int].vars@[a].power >= 1,
                    forall|a: int, b: int|
                        0 <= a < b < i ==> self.terms@[j as int].vars@[a].var
                            < self.terms@[j as int].vars@[b].var,
                decreases self.terms@[j as int].vars@.len() - i,
            {
                let vp = self.terms[j].vars[i];
                if vp.var >= self.num_vars || vp.power < 1 {
                    proof {
                        assert(!self.terms@[j as int].wf(self.num_vars as int));
                    }
                    return false;
                }
                if i > 0 && self.terms[j].vars[i - 1].var >= vp.var {
                    proof {
                        assert(!self.terms@[j as int].wf(self.num_vars as int));
                    }
                    return false;
                }
                i = i + 1;
            }
            j = j + 1;
        }
        true
    }
}

/// The capability set every polynomial used in Sum-Check must offer:
/// evaluation at a point, its arity, its table of Boolean-hypercube
/// evaluations, and (for the naive protocol) fixing a prefix of variables
/// and collapsing all but the first variable into a univariate.
pub trait SumCheckPolynomial: Sized {
    /// The representation invariant of the polynomial.
    spec fn wf(&self) -> bool;

    /// The number of variables.
    spec fn spec_num_vars(&self) -> nat;

    /// The value of the polynomial at a point, on representatives.
    spec fn spec_eval(&self, x: Seq<int>) -> int;

    /// Every value of the polynomial is a reduced field element.
    proof fn lemma_eval_bounds(&self, x: Seq<int>)
        ensures
            0 <= self.spec_eval(x) < MODULUS,
    ;

    fn num_vars(&self) -> (n: usize)
        ensures
            n as nat == self.spec_num_vars(),
    ;

    /// Evaluates `self` at a given point.
    fn evaluate(&self, point: &Vec<Fp>) -> (r: Option<Fp>)
        requires
            self.wf(),
            point@.len() == self.spec_num_vars(),
            all_wf(point@),
        ensures
            r matches Some(v) && v.wf() && v@ == self.spec_eval(vals(point@)),
    ;

    /// The evaluations of `self` over the whole Boolean hypercube, indexed
    /// by the little-endian bit encoding of the point.
    fn to_evaluations(&self) -> (r: Vec<Fp>)
        requires
            self.wf(),
            self.spec_num_vars() < 64,
        ensures
            r@.len() == pow2(self.spec_num_vars()),
            all_wf(r@),
            forall|b: int|
                0 <= b < r@.len() ==> vals(r@)[b] == self.spec_eval(
                    cube_point(b, self.spec_num_vars()),
                ),
    ;

}

/// A univariate value is always a reduced field value.
pub proof fn lemma_uni_eval_bounds(c: Seq<int>, t: int)
    ensures
        0 <= uni_eval(c, t) < MODULUS,
    decreases c.len(),
{
    if c.len() > 0 {
        lemma_uni_eval_bounds(c.drop_last(), t);
    }
}

/// Appending a zero coefficient does not change a univariate's values.
proof fn lemma_uni_eval_push_zero(c: Seq<int>, t: int)
    ensures
        uni_eval(c.push(0), t) == uni_eval(c, t),
{
    assert(c.push(0).drop_last() =~= c);
    lemma_uni_eval_bounds(c, t);
    lemma_mul_basics(fpow(t, (c.push(0).len() - 1) as nat));
    assert(fmul(0, fpow(t, (c.push(0).len() - 1) as nat)) == 0);
    lemma_small_mod(uni_eval(c, t) as nat, MODULUS as nat);
}

/// Adding `v` into the coefficient of `x^d` adds `v * t^d` to the value
/// at every point `t`.
proof fn lemma_uni_eval_update(c: Seq<int>, d: int, v: int, t: int)
    requires
        0 <= d < c.len(),
    ensures
        uni_eval(c.update(d, fadd(c[d], v)), t) == fadd(uni_eval(c, t), fmul(v, fpow(t, d as nat))),
    decreases c.len(),
{
    let w = fadd(c[d], v);
    let p = fpow(t, d as nat);
    if d == c.len() - 1 {
        assert(c.update(d, w).drop_last() =~= c.drop_last());
        lemma_fmul_comm(w, p);
        lemma_fmul_distrib(p, c[d], v);
        lemma_fmul_noop(p, c[d] + v);
        lemma_fmul_comm(p, c[d]);
        lemma_fmul_comm(p, v);
        lemma_fadd_assoc(uni_eval(c.drop_last(), t), fmul(c[d], p), fmul(v, p));
    } else {
        assert(c.update(d, w).drop_last() =~= c.drop_last().update(d, w));
        assert(c.drop_last()[d] == c[d]);
        lemma_uni_eval_update(c.drop_last(), d, v, t);
        let a = uni_eval(c.drop_last(), t);
        let y = fmul(v, p);
        let z = fmul(c.last(), fpow(t, (c.len() - 1) as nat));
        lemma_fadd_assoc(a, y, z);
        lemma_fadd_assoc(a, z, y);
    }
}

/// The factor product of one monomial with a prefix of variables fixed:
/// the new coefficient and the surviving shifted factors evaluate as the
/// whole monomial does under the substitution.
fn fix_term(t: &Term, partial_point: &Vec<Fp>, n: usize) -> (r: Term)
    requires
        t.wf(n as int),
        all_wf(partial_point@),
        partial_point@.len() <= n,
    ensures
        r.wf((n - partial_point@.len()) as int),
        forall|x: Seq<int>|
            x.len() == n - partial_point@.len() ==> fmul(r.coeff@, #[trigger] term_eval(r.vars@, x))
                == fmul(t.coeff@, term_eval(t.vars@, vals(partial_point@) + x)),
{
    let k = partial_point.len();
    let ghost q = vals(partial_point@);
    let mut acc = t.coeff;
    let mut nv: Vec<VarPower> = Vec::new();
    let ghost mut last_src: int = 0;
    let mut i: usize = 0;
    while i < t.vars.len()
        invariant
            t.wf(n as int),
            all_wf(partial_point@),
            partial_point@.len() == k,
            q == vals(partial_point@),
            k <= n,
            i <= t.vars@.len(),
            acc.wf(),
            forall|a: int|
                0 <= a < nv@.len() ==> (#[trigger] nv@[a]).var < n - k && nv@[a].power >= 1,
            forall|a: int, b: int| 0 <= a < b < nv@.len() ==> nv@[a].var < nv@[b].var,
            nv@.len() > 0 ==> 0 <= last_src < i && t.vars@[last_src].var >= k
                && nv@.last().var as int == t.vars@[last_src].var - k,
            forall|x: Seq<int>|
                x.len() == n - k ==> fmul(acc@, #[trigger] term_eval(nv@, x)) == fmul(
                    t.coeff@,
                    term_eval(t.vars@.subrange(0, i as int), q + x),
                ),
        decreases t.vars@.len() - i,
    {
        let vp = t.vars[i];
        let ghost prev_nv = nv@;
        let ghost prev_acc = acc@;
        if vp.var < k {
            let f = partial_point[vp.var].pow(vp.power);
            acc = acc.mul(f);
            proof {
                assert forall|x: Seq<int>| x.len() == n - k implies fmul(
                    acc@,
                    #[trigger] term_eval(nv@, x),
                ) == fmul(t.coeff@, term_eval(t.vars@.subrange(0, i + 1), q + x)) by {
                    let vs = t.vars@;
                    assert(vs.subrange(0, i + 1).drop_last() =~= vs.subrange(0, i as int));
                    assert(vs.subrange(0, i + 1).last() == vs[i as int]);
                    assert((q + x)[vp.var as int] == q[vp.var as int]);
                    let nn = term_eval(nv@, x);
                    let ti = term_eval(vs.subrange(0, i as int), q + x);
                    lemma_fmul_assoc(prev_acc, f@, nn);
                    lemma_fmul_comm(f@, nn);
                    lemma_fmul_assoc(prev_acc, nn, f@);
                    lemma_fmul_assoc(t.coeff@, ti, f@);
                }
            }
        } else {
            nv.push(VarPower { var: vp.var - k, power: vp.power });
            proof {
                if prev_nv.len() > 0 {
                    assert(t.vars@[last_src].var < vp.var);
                }
                last_src = i as int;
                assert forall|x: Seq<int>| x.len() == n - k implies fmul(
                    acc@,
                    #[trigger] term_eval(nv@, x),
                ) == fmul(t.coeff@, term_eval(t.vars@.subrange(0, i + 1), q + x)) by {
                    let vs = t.vars@;
                    assert(vs.subrange(0, i + 1).drop_last() =~= vs.subrange(0, i as int));
                    assert(vs.subrange(0, i + 1).last() == vs[i as int]);
                    assert(nv@.drop_last() =~= prev_nv);
                    assert((q + x)[vp.var as int] == x[vp.var - k]);
                    let f = fpow(x[vp.var - k], vp.power as nat);
                    let nn = term_eval(prev_nv, x);
                    let ti = term_eval(vs.subrange(0, i as int), q + x);
                    lemma_fmul_assoc(acc@, nn, f);
                    lemma_fmul_assoc(t.coeff@, ti, f);
                }
            }
        }
        i = i + 1;
    }
    proof {
        assert(t.vars@.subrange(0, t.vars@.len() as int) =~= t.vars@);
    }
    Term { coeff: acc, vars: nv }
}

/// The sum of `g` over the first `count` points of its Boolean hypercube.
pub open spec fn cube_sum<P: SumCheckPolynomial>(g: &P, count: int) -> int
    decreases count,
{
    if count <= 0 {
        0
    } else {
        fadd(cube_sum(g, count - 1), g.spec_eval(cube_point(count - 1, g.spec_num_vars())))
    }
}

/// The sum of `g(t, p)` over the first `count` points `p` of the hypercube
/// on the remaining `n - 1` variables: the round univariate of the naive
/// protocol, as a function of `t`.
pub open spec fn tail_cube_sum(g: MultiPoly, t: int, count: int) -> int
    decreases count,
{
    if count <= 0 {
        0
    } else {
        fadd(
            tail_cube_sum(g, t, count - 1),
            g.spec_eval(seq![t] + cube_point(count - 1, (g.spec_num_vars() - 1) as nat)),
        )
    }
}

/// The full evaluation table of `g` over its Boolean hypercube.
pub open spec fn eval_table<P: SumCheckPolynomial>(g: &P) -> Seq<int> {
    Seq::new(pow2(g.spec_num_vars()), |b: int| g.spec_eval(cube_point(b, g.spec_num_vars())))
}

/// The value of one monomial, coefficient included, at `point`.
fn eval_term(t: &Term, point: &Vec<Fp>) -> (r: Fp)
    requires
        t.wf(point@.len() as int),
        all_wf(point@),
    ensures
        r.wf(),
        r@ == fmul(t.coeff@, term_eval(t.vars@, vals(point@))),
{
    let mut acc = t.coeff;
    let mut i: usize = 0;
    while i < t.vars.len()
        invariant
            t.wf(point@.len() as int),
            all_wf(point@),
            i <= t.vars@.len(),
            acc.wf(),
            acc@ == fmul(t.coeff@, term_eval(t.vars@.subrange(0, i as int), vals(point@))),
        decreases t.vars@.len() - i,
    {
        let vp = t.vars[i];
        let f = point[vp.var].pow(vp.power);
        proof {
            let vs = t.vars@;
            let x = vals(point@);
            assert(vs.subrange(0, i + 1).drop_last() =~= vs.subrange(0, i as int));
            assert(vs.subrange(0, i + 1).last() == vs[i as int]);
            lemma_fmul_assoc(t.coeff@, term_eval(vs.subrange(0, i as int), x), f@);
        }
        acc = acc.mul(f);
        i = i + 1;
    }
    proof {
        assert(t.vars@.subrange(0, t.vars@.len() as int) =~= t.vars@);
    }
    acc
}

impl SumCheckPolynomial for MultiPoly {
    open spec fn wf(&self) -> bool {
        forall|i: int|
            0 <= i < self.terms@.len() ==> (#[trigger] self.terms@[i]).wf(self.num_vars as int)
    }

    open spec fn spec_num_vars(&self) -> nat {
        self.num_vars as nat
    }

    open spec fn spec_eval(&self, x: Seq<int>) -> int {
        terms_eval(self.terms@, x)
    }

    proof fn lemma_eval_bounds(&self, x: Seq<int>) {
        lemma_terms_eval_bounds(self.terms@, x);
    }

    fn num_vars(&self) -> usize {
        self.num_vars
    }

    fn evaluate(&self, point: &Vec<Fp>) -> Option<Fp> {
        let mut acc = Fp::zero();
        let mut i: usize = 0;
        while i < self.terms.len()
            invariant
                self.wf(),
                point@.len() == self.spec_num_vars(),
                all_wf(point@),
                i <= self.terms@.len(),
                acc.wf(),
                acc@ == terms_eval(self.terms@.subrange(0, i as int), vals(point@)),
            decreases self.terms@.len() - i,
        {
            let v = eval_term(&self.terms[i], point);
            proof {
                let ts = self.terms@;
                assert(ts.subrange(0, i + 1).drop_last() =~= ts.subrange(0, i as int));
                assert(ts.subrange(0, i + 1).last() == ts[i as int]);
            }
            acc = acc.add(v);
            i = i + 1;
        }
        proof {
            assert(self.terms@.subrange(0, self.terms@.len() as int) =~= self.terms@);
        }
        Some(acc)
    }

    fn to_evaluations(&self) -> Vec<Fp> {
        let n = self.num_vars;
        let count = pow2_u64(n as u64);
        let mut cube = BooleanHypercube::new(n as u32);
        let mut out: Vec<Fp> = Vec::new();
        let mut i: u64 = 0;
        while i < count
            invariant
                self.wf(),
                self.num_vars == n,
                n < 64,
                count as nat == pow2(n as nat),
                cube.wf(),
                cube.spec_n() == n as u32,
                cube.spec_current() == i,
                i <= count,
                out@.len() == i,
                all_wf(out@),
                forall|b: int|
                    0 <= b < i ==> vals(out@)[b] == self.spec_eval(cube_point(b, n as nat)),
            decreases count - i,
        {
            let ghost prev = out@;
            let p = cube.next();
            match p {
                Some(pt) => {
                    let v = self.evaluate(&pt);
                    match v {
                        Some(fv) => {
                            out.push(fv);
                            proof {
                                assert(vals(out@) =~= vals(prev).push(fv@));
                            }
                        },
                        None => {
                            proof {
                                assert(false);
                            }
                        },
                    }
                },
                None => {
                    proof {
                        assert(false);
                    }
                },
            }
            i = i + 1;
        }
        out
    }
}

impl MultiPoly {
    /// Substitutes the first `partial_point.len()` variables with the given
    /// field values, returning a polynomial of reduced arity.
    pub fn fix_variables(&self, partial_point: &Vec<Fp>) -> (r: Self)
        requires
            self.wf(),
            partial_point@.len() <= self.spec_num_vars(),
            all_wf(partial_point@),
        ensures
            r.wf(),
            r.spec_num_vars() == self.spec_num_vars() - partial_point@.len(),
            forall|x: Seq<int>|
                x.len() == self.spec_num_vars() - partial_point@.len() ==> #[trigger] r.spec_eval(
                    x,
                ) == self.spec_eval(vals(partial_point@) + x),
    {
        let k = partial_point.len();
        let ghost q = vals(partial_point@);
        let m = self.num_vars - k;
        let mut terms: Vec<Term> = Vec::new();
        let mut j: usize = 0;
        while j < self.terms.len()
            invariant
                self.wf(),
                all_wf(partial_point@),
                partial_point@.len() == k,
                q == vals(partial_point@),
                k <= self.num_vars,
                m == self.num_vars - k,
                j <= self.terms@.len(),
                forall|a: int| 0 <= a < terms@.len() ==> (#[trigger] terms@[a]).wf(m as int),
                forall|x: Seq<int>|
                    x.len() == m ==> #[trigger] terms_eval(terms@, x) == terms_eval(
                        self.terms@.subrange(0, j as int),
                        q + x,
                    ),
            decreases self.terms@.len() - j,
        {
            let nt = fix_term(&self.terms[j], partial_point, self.num_vars);
            let ghost prev = terms@;
            terms.push(nt);
            proof {
                assert forall|x: Seq<int>| x.len() == m implies #[trigger] terms_eval(terms@, x)
                    == terms_eval(self.terms@.subrange(0, j + 1), q + x) by {
                    let ts = self.terms@;
                    assert(terms@.drop_last() =~= prev);
                    assert(terms@.last() == nt);
                    assert(ts.subrange(0, j + 1).drop_last() =~= ts.subrange(0, j as int));
                    assert(ts.subrange(0, j + 1).last() == ts[j as int]);
                    assert(terms_eval(terms@, x) == fadd(
                        terms_eval(prev, x),
                        fmul(nt.coeff@, term_eval(nt.vars@, x)),
                    ));
                    assert(fmul(nt.coeff@, term_eval(nt.vars@, x)) == fmul(
                        ts[j as int].coeff@,
                        term_eval(ts[j as int].vars@, q + x),
                    ));
                    assert(terms_eval(prev, x) == terms_eval(ts.subrange(0, j as int), q + x));
                }
            }
            j = j + 1;
        }
        proof {
            assert(self.terms@.subrange(0, self.terms@.len() as int) =~= self.terms@);
        }
        MultiPoly { num_vars: m, terms }
    }

    /// Sums `self` over the Boolean hypercube of all variables but the
    /// first, returning the round univariate in the first variable.
    pub fn to_univariate(&self) -> (r: UniPoly)
        requires
            self.wf(),
            1 <= self.spec_num_vars() < 64,
        ensures
            all_wf(r.coeffs@),
            forall|t: int| #[trigger]
                uni_eval(vals(r.coeffs@), t) == tail_cube_sum(
                    *self,
                    t,
                    pow2((self.spec_num_vars() - 1) as nat) as int,
                ),
    {
        let n = self.num_vars;
        let count = pow2_u64((n - 1) as u64);
        let mut cube = BooleanHypercube::new((n - 1) as u32);
        let mut coeffs: Vec<Fp> = Vec::new();
        let mut b: u64 = 0;
        while b < count
            invariant
                self.wf(),
                self.num_vars == n,
                1 <= n < 64,
                count as nat == pow2((n - 1) as nat),
                cube.wf(),
                cube.spec_n() == (n - 1) as u32,
                cube.spec_current() == b,
                b <= count,
                all_wf(coeffs@),
                forall|tt: int| #[trigger]
                    uni_eval(vals(coeffs@), tt) == tail_cube_sum(*self, tt, b as int),
            decreases count - b,
        {
            let p = cube.next();
            let pt = match p {
                Some(pt) => pt,
                None => {
                    proof {
                        assert(false);
                    }
                    Vec::new()
                },
            };
            let ghost pv = vals(pt@);
            let ghost base = vals(coeffs@);
            let mut j: usize = 0;
            while j < self.terms.len()
                invariant
                    self.wf(),
                    self.num_vars == n,
                    1 <= n < 64,
                    pt@.len() == n - 1,
                    all_wf(pt@),
                    pv == vals(pt@),
                    j <= self.terms@.len(),
                    all_wf(coeffs@),
                    forall|tt: int| #[trigger]
                        uni_eval(vals(coeffs@), tt) == fadd(
                            uni_eval(base, tt),
                            terms_eval(self.terms@.subrange(0, j as int), seq![tt] + pv),
                        ),
                decreases self.terms@.len() - j,
            {
                let mut pw0: u64 = 0;
                let mut acc = self.terms[j].coeff;
                let mut fi: usize = 0;
                while fi < self.terms[j].vars.len()
                    invariant
                        self.wf(),
                        self.num_vars == n,
                        1 <= n < 64,
                        0 <= j < self.terms@.len(),
                        pt@.len() == n - 1,
                        all_wf(pt@),
                        pv == vals(pt@),
                        fi <= self.terms@[j as int].vars@.len(),
                        acc.wf(),
                        pw0 == if fi > 0 && self.terms@[j as int].vars@[0].var == 0 {
                            self.terms@[j as int].vars@[0].power
                        } else {
                            0u64
                        },
                        forall|tt: int|
                            fmul(acc@, fpow(tt, pw0 as nat)) == fmul(
                                self.terms@[j as int].coeff@,
                                #[trigger] term_eval(
                                    self.terms@[j as int].vars@.subrange(0, fi as int),
                                    seq![tt] + pv,
                                ),
                            ),
                    decreases self.terms@[j as int].vars@.len() - fi,
                {
                    let vp = self.terms[j].vars[fi];
                    let ghost prev_acc = acc@;
                    let ghost prev_pw0 = pw0;
                    if vp.var == 0 {
                        pw0 = vp.power;
                        proof {
                            assert(fi == 0) by {
                                if fi > 0 {
                                    assert(self.terms@[j as int].vars@[0].var
                                        < self.terms@[j as int].vars@[fi as int].var);
                                }
                            }
                        }
                    } else {
                        let f = pt[vp.var - 1].pow(vp.power);
                        acc = acc.mul(f);
                    }
                    proof {
                        let vs = self.terms@[j as int].vars@;
                        let co = self.terms@[j as int].coeff@;
                        assert forall|tt: int|
                            fmul(acc@, fpow(tt, pw0 as nat)) == fmul(
                                co,
                                #[trigger] term_eval(vs.subrange(0, fi + 1), seq![tt] + pv),
                            ) by {
                            assert(vs.subrange(0, fi + 1).drop_last() =~= vs.subrange(
                                0,
                                fi as int,
                            ));
                            assert(vs.subrange(0, fi + 1).last() == vs[fi as int]);
                            let x = seq![tt] + pv;
                            let ti = term_eval(vs.subrange(0, fi as int), x);
                            if vp.var == 0 {
                                assert(x[0] == tt);
                                assert(fpow(tt, 0) == 1);
                                lemma_fmul_noop(acc@, 1);
                                lemma_small_mod(acc@ as nat, MODULUS as nat);
                                assert(fmul(acc@, 1) == acc@);
                                lemma_fmul_assoc(co, ti, fpow(tt, vp.power as nat));
                            } else {
                                assert(x[vp.var as int] == pv[vp.var - 1]);
                                let f = fpow(pv[vp.var - 1], vp.power as nat);
                                let pw = fpow(tt, pw0 as nat);
                                lemma_fmul_assoc(prev_acc, f, pw);
                                lemma_fmul_comm(f, pw);
                                lemma_fmul_assoc(prev_acc, pw, f);
                                lemma_fmul_assoc(co, ti, f);
                            }
                        }
                    }
                    fi = fi + 1;
                }
                proof {
                    assert(self.terms@[j as int].vars@.subrange(
                        0,
                        self.terms@[j as int].vars@.len() as int,
                    ) =~= self.terms@[j as int].vars@);
                }
                // Make room for the coefficient of `x^pw0`; appending zero
                // coefficients leaves every value of the accumulator unchanged.
                let ghost pre_grow = vals(coeffs@);
                while (coeffs.len() as u64) <= pw0
                    invariant
                        all_wf(coeffs@),
                        forall|tt: int| #[trigger]
                            uni_eval(vals(coeffs@), tt) == uni_eval(pre_grow, tt),
                    decreases pw0 + 1 - coeffs.len(),
                {
                    let ghost before = vals(coeffs@);
                    coeffs.push(Fp::zero());
                    proof {
                        assert(vals(coeffs@) =~= before.push(0));
                        assert forall|tt: int| #[trigger]
                            uni_eval(vals(coeffs@), tt) == uni_eval(pre_grow, tt) by {
                            lemma_uni_eval_push_zero(before, tt);
                        }
                    }
                }
                let idx = pw0 as usize;
                let ghost pre_set = vals(coeffs@);
                let updated = coeffs[idx].add(acc);
                coeffs[idx] = updated;
                proof {
                    assert(vals(coeffs@) =~= pre_set.update(idx as int, fadd(pre_set[idx as int], acc@)));
                    let ts = self.terms@;
                    assert(ts.subrange(0, j + 1).drop_last() =~= ts.subrange(0, j as int));
                    assert(ts.subrange(0, j + 1).last() == ts[j as int]);
                    assert forall|tt: int| #[trigger]
                        uni_eval(vals(coeffs@), tt) == fadd(
                            uni_eval(base, tt),
                            terms_eval(ts.subrange(0, j + 1), seq![tt] + pv),
                        ) by {
                        lemma_uni_eval_update(pre_set, idx as int, acc@, tt);
                        let added = fmul(acc@, fpow(tt, pw0 as nat));
                        assert(added == fmul(
                            ts[j as int].coeff@,
                            term_eval(ts[j as int].vars@, seq![tt] + pv),
                        ));
                        lemma_fadd_assoc(
                            uni_eval(base, tt),
                            terms_eval(ts.subrange(0, j as int), seq![tt] + pv),
                            added,
                        );
                    }
                }
                j = j + 1;
            }
            b = b + 1;
            proof {
                assert(self.terms@.subrange(0, self.terms@.len() as int) =~= self.terms@);
                assert(pv == cube_point(b - 1, (n - 1) as nat));
            }
        }
        UniPoly { coeffs }
    }
}

/// `2^n`, as a machine integer.
pub fn pow2_u64(n: u64) -> (r: u64)
    requires
        n < 64,
    ensures
        r as nat == pow2(n as nat),
        r >= 1,
{
    proof {
        lemma2_to64();
        lemma2_to64_rest();
    }
    let mut r: u64 = 1;
    let mut k: u64 = 0;
    while k < n
        invariant
            k <= n,
            n < 64,
            r as nat == pow2(k as nat),
        decreases n - k,
    {
        proof {
            lemma_pow2_strictly_increases(k as nat, 63);
            lemma2_to64_rest();
            lemma_pow2_unfold((k + 1) as nat);
        }
        r = r * 2;
        k = k + 1;
    }
    r
}

/// Enumerates the `2^n` points of the Boolean hypercube `{0,1}^n` as
/// vectors of field elements, in increasing order of their little-endian
/// bit encoding.
pub struct BooleanHypercube {
    n: u32,
    current: u64,
}

impl BooleanHypercube {
    pub closed spec fn wf(self) -> bool {
        self.n < 64 && self.current <= pow2(self.n as nat)
    }

    pub closed spec fn spec_n(self) -> u32 {
        self.n
    }

    pub closed spec fn spec_current(self) -> u64 {
        self.current
    }

    pub fn new(n: u32) -> (r: Self)
        requires
            n < 64,
        ensures
            r.wf(),
            r.spec_n() == n,
            r.spec_current() == 0,
    {
        proof {
            lemma_pow2_pos(n as nat);
        }
        BooleanHypercube { n, current: 0 }
    }

    /// The next point of the cube, or `None` once all `2^n` points have
    /// been yielded.
    pub fn next(&mut self) -> (r: Option<Vec<Fp>>)
        requires
            old(self).wf(),
        ensures
            final(self).wf(),
            final(self).spec_n() == old(self).spec_n(),
            old(self).spec_current() == pow2(old(self).spec_n() as nat) ==> r is None
                && final(self).spec_current() == old(self).spec_current(),
            old(self).spec_current() < pow2(old(self).spec_n() as nat)
                ==> final(self).spec_current() == old(self).spec_current() + 1
                && (r matches Some(v) && v@.len() == old(self).spec_n() && all_wf(v@)
                && vals(v@) == cube_point(old(self).spec_current() as int, old(self).spec_n() as nat)),
    {
        let count = pow2_u64(self.n as u64);
        if self.current == count {
            None
        } else {
            let i = self.current;
            let mut v: Vec<Fp> = Vec::new();
            let mut cur: u64 = i;
            let mut k: u32 = 0;
            proof {
                lemma2_to64();
            }
            while k < self.n
                invariant
                    k <= self.n,
                    self.n < 64,
                    v@.len() == k,
                    all_wf(v@),
                    cur as int == i as int / pow2(k as nat) as int,
                    forall|b: int| 0 <= b < k ==> vals(v@)[b] == bit_at(i as int, b as nat),
                decreases self.n - k,
            {
                let ghost prev = v@;
                if cur % 2 == 1 {
                    v.push(Fp::one());
                } else {
                    v.push(Fp::zero());
                }
                proof {
                    assert(vals(v@) =~= vals(prev).push(v@.last()@));
                    lemma_pow2_pos(k as nat);
                    lemma_pow2_unfold((k + 1) as nat);
                    lemma_div_denominator(i as int, pow2(k as nat) as int, 2);
                }
                cur = cur / 2;
                k = k + 1;
            }
            self.current = i + 1;
            proof {
                assert(vals(v@) =~= cube_point(i as int, self.n as nat));
            }
            Some(v)
        }
    }
}

/// Summing a prefix of the evaluation table is summing over the first
/// points of the Boolean hypercube.
pub proof fn lemma_fsum_is_cube_sum<P: SumCheckPolynomial>(g: &P, count: int)
    requires
        0 <= count <= pow2(g.spec_num_vars()),
    ensures
        fsum(eval_table(g).subrange(0, count)) == cube_sum(g, count),
    decreases count,
{
    if count > 0 {
        lemma_fsum_is_cube_sum(g, count - 1);
        assert(eval_table(g).subrange(0, count).drop_last() =~= eval_table(g).subrange(
            0,
            count - 1,
        ));
        assert(eval_table(g).subrange(0, count).last() == g.spec_eval(
            cube_point(count - 1, g.spec_num_vars()),
        ));
    }
}

impl UniPoly {
    /// The value of the univariate at `at`, by accumulating powers.
    pub fn evaluate(&self, at: Fp) -> (r: Fp)
        requires
            all_wf(self.coeffs@),
            at.wf(),
        ensures
            r.wf(),
            r@ == uni_eval(vals(self.coeffs@), at@),
    {
        let mut acc = Fp::zero();
        let mut tp = Fp::one();
        let mut i: usize = 0;
        while i < self.coeffs.len()
            invariant
                all_wf(self.coeffs@),
                at.wf(),
                i <= self.coeffs@.len(),
                acc.wf(),
                tp.wf(),
                tp@ == fpow(at@, i as nat),
                acc@ == uni_eval(vals(self.coeffs@).subrange(0, i as int), at@),
            decreases self.coeffs@.len() - i,
        {
            proof {
                let c = vals(self.coeffs@);
                assert(c.subrange(0, i + 1).drop_last() =~= c.subrange(0, i as int));
                assert(c.subrange(0, i + 1).last() == c[i as int]);
            }
            acc = acc.add(self.coeffs[i].mul(tp));
            tp = tp.mul(at);
            i = i + 1;
        }
        proof {
            assert(vals(self.coeffs@).subrange(0, self.coeffs@.len() as int) =~= vals(
                self.coeffs@,
            ));
        }
        acc
    }
}

/// The entries of a table at even positions, in order.
pub open spec fn evens(t: Seq<int>) -> Seq<int> {
    Seq::new((t.len() / 2) as nat, |b: int| t[2 * b])
}

/// The entries of a table at odd positions, in order.
pub open spec fn odds(t: Seq<int>) -> Seq<int> {
    Seq::new((t.len() / 2) as nat, |b: int| t[2 * b + 1])
}

/// The table that results from fixing the lowest remaining variable of an
/// evaluation table to the challenge `r`: entry `b` becomes
/// `t[2b] * (1 - r) + t[2b + 1] * r`, and the table halves in length.
pub open spec fn fold_once(t: Seq<int>, r: int) -> Seq<int> {
    Seq::new((t.len() / 2) as nat, |b: int| blend(r, t[2 * b], t[2 * b + 1]))
}

/// Folding with each challenge of `rs` in turn.
pub open spec fn fold_many(t: Seq<int>, rs: Seq<int>) -> Seq<int>
    decreases rs.len(),
{
    if rs.len() == 0 {
        t
    } else {
        fold_many(fold_once(t, rs[0]), rs.drop_first())
    }
}

/// The evaluation table of `g` with the variable prefix `q` already fixed:
/// entry `b` is `g(q, b_0, b_1, ...)` for the bits of `b`.
pub open spec fn mle_table(g: MultiPoly, q: Seq<int>) -> Seq<int> {
    Seq::new(
        pow2((g.spec_num_vars() - q.len()) as nat),
        |b: int| g.spec_eval(q + cube_point(b, (g.spec_num_vars() - q.len()) as nat)),
    )
}

pub proof fn lemma_fold_many_push(t: Seq<int>, rs: Seq<int>, r: int)
    ensures
        fold_many(t, rs.push(r)) == fold_once(fold_many(t, rs), r),
    decreases rs.len(),
{
    if rs.len() == 0 {
        assert(rs.push(r).drop_first() =~= Seq::<int>::empty());
        assert(rs.push(r)[0] == r);
        assert(fold_many(fold_once(t, r), Seq::<int>::empty()) == fold_once(t, r));
        assert(fold_many(t, Seq::<int>::empty()) == t);
        assert(fold_many(t, rs.push(r)) == fold_many(fold_once(t, r), rs.push(r).drop_first()));
    } else {
        assert(rs.push(r).drop_first() =~= rs.drop_first().push(r));
        assert(rs.push(r)[0] == rs[0]);
        lemma_fold_many_push(fold_once(t, rs[0]), rs.drop_first(), r);
    }
}

/// The sum of a table of even length splits into the sum of its even
/// entries plus the sum of its odd entries.
pub proof fn lemma_split_sum(t: Seq<int>)
    requires
        t.len() % 2 == 0,
    ensures
        fadd(fsum(evens(t)), fsum(odds(t))) == fsum(t),
    decreases t.len(),
{
    if t.len() > 0 {
        let l = t.len() as int;
        let t2 = t.drop_last().drop_last();
        assert(evens(t).drop_last() =~= evens(t2));
        assert(odds(t).drop_last() =~= odds(t2));
        assert(evens(t).last() == t[l - 2]);
        assert(odds(t).last() == t[l - 1]);
        lemma_split_sum(t2);
        let a = fsum(evens(t2));
        let b = fsum(odds(t2));
        let x = t[l - 2];
        let y = t[l - 1];
        assert(t.drop_last().last() == x);
        assert(t.drop_last().drop_last() == t2);
        assert(fsum(t.drop_last()) == fadd(fsum(t2), x));
        assert(fsum(t) == fadd(fadd(fsum(t2), x), y));
        assert(fsum(evens(t)) == fadd(a, x));
        assert(fsum(odds(t)) == fadd(b, y));
        lemma_fadd_assoc(fadd(a, x), b, y);
        lemma_fadd_assoc(a, x, b);
        lemma_fadd_assoc(a, b, x);
    }
}

/// The sum of a folded table is the affine blend, at the challenge, of the
/// even-entry sum and the odd-entry sum of the table it was folded from:
/// the invariant that carries the verifier's `expect` across a round.
pub proof fn lemma_fold_sum(t: Seq<int>, r: int)
    requires
        t.len() % 2 == 0,
    ensures
        fsum(fold_once(t, r)) == blend(r, fsum(evens(t)), fsum(odds(t))),
    decreases t.len(),
{
    if t.len() == 0 {
        lemma_mul_basics(fsub(1, r));
        lemma_mul_basics(r);
    } else {
        let l = t.len() as int;
        let t2 = t.drop_last().drop_last();
        assert(fold_once(t, r).drop_last() =~= fold_once(t2, r));
        assert(fold_once(t, r).last() == blend(r, t[l - 2], t[l - 1]));
        assert(evens(t).drop_last() =~= evens(t2));
        assert(odds(t).drop_last() =~= odds(t2));
        assert(evens(t).last() == t[l - 2]);
        assert(odds(t).last() == t[l - 1]);
        lemma_fold_sum(t2, r);
        lemma_blend_add(r, fsum(evens(t2)), fsum(odds(t2)), t[l - 2], t[l - 1]);
    }
}

/// Splitting off the lowest bit of a hypercube index splits off the first
/// coordinate of its point.
pub proof fn lemma_cube_point_split(b: int, c: int, m: nat)
    requires
        m >= 1,
        0 <= c < 2,
        b >= 0,
    ensures
        cube_point(2 * b + c, m) == seq![c] + cube_point(b, (m - 1) as nat),
{
    let lhs = cube_point(2 * b + c, m);
    let rhs = seq![c] + cube_point(b, (m - 1) as nat);
    assert forall|k: int| 0 <= k < m implies lhs[k] == rhs[k] by {
        if k == 0 {
            lemma2_to64();
            assert(pow2(0) == 1);
            lemma_mod_multiples_vanish(b, c, 2);
        } else {
            lemma_pow2_unfold(k as nat);
            lemma_pow2_pos((k - 1) as nat);
            lemma_div_denominator(2 * b + c, 2, pow2((k - 1) as nat) as int);
            lemma_fundamental_div_mod_converse(2 * b + c, 2, b, c);
            assert((2 * b + c) / 2 == b);
            assert(pow2(k as nat) == 2 * pow2((k - 1) as nat));
            assert(rhs[k] == bit_at(b, (k - 1) as nat));
        }
    }
    assert(lhs =~= rhs);
}

/// A product of factors, at most linear in the variable at position
/// `q.len()`, is an affine blend in that variable.
proof fn lemma_term_blend(vs: Seq<VarPower>, q: Seq<int>, x: Seq<int>, r: int)
    requires
        forall|i: int|
            0 <= i < vs.len() ==> (#[trigger] vs[i]).power >= 1 && vs[i].var < q.len() + 1
                + x.len(),
        forall|i: int, j: int| 0 <= i < j < vs.len() ==> vs[i].var < vs[j].var,
        forall|i: int|
            0 <= i < vs.len() && (#[trigger] vs[i]).var == q.len() ==> vs[i].power == 1,
    ensures
        term_eval(vs, q + seq![r] + x) == blend(
            r,
            term_eval(vs, q + seq![0int] + x),
            term_eval(vs, q + seq![1int] + x),
        ),
    decreases vs.len(),
{
    let k = q.len() as int;
    let pr = q + seq![r] + x;
    let p0 = q + seq![0int] + x;
    let p1 = q + seq![1int] + x;
    if vs.len() == 0 {
        lemma_blend_const(r, 1);
    } else {
        let f = vs.last();
        let rest = vs.drop_last();
        if f.var == k {
            assert forall|i: int| 0 <= i < rest.len() implies pr[(#[trigger] rest[i]).var as int]
                == p0[rest[i].var as int] && pr[rest[i].var as int] == p1[rest[i].var as int] by {
                assert(rest[i].var < k);
            }
            lemma_term_eval_agree(rest, pr, p0);
            lemma_term_eval_agree(rest, pr, p1);
            let rv = term_eval(rest, pr);
            lemma_term_eval_bounds(rest, pr);
            assert(pr[k] == r);
            assert(p0[k] == 0);
            assert(p1[k] == 1);
            assert(f.power == 1);
            lemma_mul_basics(r);
            lemma_mul_basics(rv);
            assert(fpow(r, 0) == 1);
            assert(fpow(0, 0) == 1);
            assert(fpow(1, 0) == 1);
            assert(fpow(r, 1) == r % (MODULUS as int));
            assert(fpow(0, 1) == 0);
            assert(fpow(1, 1) == 1);
            lemma_fmul_noop(rv, r);
            lemma_small_mod(rv as nat, MODULUS as nat);
            assert(term_eval(vs, pr) == fmul(rv, r));
            assert(term_eval(vs, p0) == 0);
            assert(term_eval(vs, p1) == rv);
            lemma_mul_basics(fsub(1, r));
            assert(fmul(0, fsub(1, r)) == 0);
            assert(blend(r, 0, rv) == fadd(0, fmul(rv, r)));
            lemma_small_mod(fmul(rv, r) as nat, MODULUS as nat);
        } else {
            if f.var < k {
                assert(pr[f.var as int] == q[f.var as int]);
                assert(p0[f.var as int] == q[f.var as int]);
                assert(p1[f.var as int] == q[f.var as int]);
            } else {
                assert(pr[f.var as int] == x[f.var - k - 1]);
                assert(p0[f.var as int] == x[f.var - k - 1]);
                assert(p1[f.var as int] == x[f.var - k - 1]);
            }
            let fv = fpow(pr[f.var as int], f.power as nat);
            lemma_term_blend(rest, q, x, r);
            let e0 = term_eval(rest, p0);
            let e1 = term_eval(rest, p1);
            lemma_fmul_comm(blend(r, e0, e1), fv);
            lemma_blend_scale(r, fv, e0, e1);
            lemma_fmul_comm(fv, e0);
            lemma_fmul_comm(fv, e1);
        }
    }
}

/// A multilinear sum of monomials is an affine blend in the variable at
/// position `q.len()`.
proof fn lemma_terms_blend(ts: Seq<Term>, q: Seq<int>, x: Seq<int>, r: int, n: int)
    requires
        forall|i: int| 0 <= i < ts.len() ==> (#[trigger] ts[i]).wf(n),
        forall|i: int| 0 <= i < ts.len() ==> (#[trigger] ts[i]).multilinear(),
        n == q.len() + 1 + x.len(),
    ensures
        terms_eval(ts, q + seq![r] + x) == blend(
            r,
            terms_eval(ts, q + seq![0int] + x),
            terms_eval(ts, q + seq![1int] + x),
        ),
    decreases ts.len(),
{
    if ts.len() == 0 {
        lemma_mul_basics(fsub(1, r));
        lemma_mul_basics(r);
    } else {
        let t = ts.last();
        let rest = ts.drop_last();
        lemma_terms_blend(rest, q, x, r, n);
        lemma_term_blend(t.vars@, q, x, r);
        let t0 = term_eval(t.vars@, q + seq![0int] + x);
        let t1 = term_eval(t.vars@, q + seq![1int] + x);
        lemma_blend_scale(r, t.coeff@, t0, t1);
        lemma_blend_add(
            r,
            terms_eval(rest, q + seq![0int] + x),
            terms_eval(rest, q + seq![1int] + x),
            fmul(t.coeff@, t0),
            fmul(t.coeff@, t1),
        );
    }
}

/// A multilinear polynomial is an affine blend in the variable that
/// follows the fixed prefix `q`.
pub proof fn lemma_poly_blend(g: MultiPoly, q: Seq<int>, x: Seq<int>, r: int)
    requires
        g.wf(),
        g.multilinear(),
        q.len() + 1 + x.len() == g.spec_num_vars(),
    ensures
        g.spec_eval(q + seq![r] + x) == blend(
            r,
            g.spec_eval(q + seq![0int] + x),
            g.spec_eval(q + seq![1int] + x),
        ),
{
    lemma_terms_blend(g.terms@, q, x, r, g.num_vars as int);
}

/// Law: for a multilinear polynomial, one fold of the table of the fixed
/// prefix `q` with challenge `r` gives the table of the prefix extended by
/// the challenge.
pub proof fn lemma_fold_once_mle(g: MultiPoly, q: Seq<int>, r: int)
    requires
        g.wf(),
        g.multilinear(),
        q.len() < g.spec_num_vars(),
    ensures
        fold_once(mle_table(g, q), r) == mle_table(g, q.push(r)),
{
    let n = g.spec_num_vars();
    let m = (n - q.len()) as nat;
    let t = mle_table(g, q);
    lemma_pow2_unfold(m);
    let lhs = fold_once(t, r);
    let rhs = mle_table(g, q.push(r));
    assert(lhs.len() == rhs.len());
    assert forall|b: int| 0 <= b < lhs.len() implies lhs[b] == rhs[b] by {
        let cp = cube_point(b, (m - 1) as nat);
        lemma_cube_point_split(b, 0, m);
        lemma_cube_point_split(b, 1, m);
        assert(q + cube_point(2 * b, m) =~= q + seq![0int] + cp);
        assert(q + cube_point(2 * b + 1, m) =~= q + seq![1int] + cp);
        lemma_poly_blend(g, q, cp, r);
        assert(q.push(r) + cp =~= q + seq![r] + cp);
    }
    assert(lhs =~= rhs);
}

/// Law: the table obtained by folding the full evaluation table of a
/// multilinear polynomial with the challenges `r_1 .. r_k` in turn is the
/// evaluation table of `g(r_1, .., r_k, ·)`: entry `b` equals
/// `g(r_1, .., r_k, b_0, b_1, ...)` for the bits of `b`.
pub proof fn lemma_folded_table_is_mle(g: MultiPoly, rs: Seq<int>)
    requires
        g.wf(),
        g.multilinear(),
        rs.len() <= g.spec_num_vars(),
    ensures
        fold_many(eval_table(&g), rs) == mle_table(g, rs),
    decreases rs.len(),
{
    if rs.len() == 0 {
        assert(fold_many(eval_table(&g), rs) == eval_table(&g));
        assert forall|b: int| 0 <= b < eval_table(&g).len() implies eval_table(&g)[b] == mle_table(
            g,
            rs,
        )[b] by {
            assert(rs + cube_point(b, g.spec_num_vars()) =~= cube_point(b, g.spec_num_vars()));
        }
        assert(eval_table(&g) =~= mle_table(g, rs));
    } else {
        let rs0 = rs.drop_last();
        lemma_folded_table_is_mle(g, rs0);
        lemma_fold_many_push(eval_table(&g), rs0, rs.last());
        lemma_fold_once_mle(g, rs0, rs.last());
        assert(rs0.push(rs.last()) =~= rs);
    }
}

/// Law: one round of an honest multilinear run keeps prover and verifier
/// in step, whatever challenge the randomness source yields. With the
/// table of the challenges so far: the message pair (the even-entry and
/// odd-entry sums) meets the verifier's expectation (the table total);
/// the verifier's next expectation (the affine blend at the challenge)
/// is the total of the next table; and in the last round the blended
/// value is exactly the oracle evaluation at the full challenge vector,
/// so the verifier accepts.
pub proof fn lemma_honest_ml_run(g: MultiPoly, rs: Seq<int>, r: int)
    requires
        g.wf(),
        g.multilinear(),
        rs.len() < g.spec_num_vars(),
    ensures
        ({
            let t = mle_table(g, rs);
            &&& fadd(fsum(evens(t)), fsum(odds(t))) == fsum(t)
            &&& blend(r, fsum(evens(t)), fsum(odds(t))) == fsum(mle_table(g, rs.push(r)))
            &&& (rs.len() == g.spec_num_vars() - 1 ==> blend(r, t[0], t[1]) == g.spec_eval(
                rs.push(r),
            ))
        }),
{
    let n = g.spec_num_vars();
    let m = (n - rs.len()) as nat;
    let t = mle_table(g, rs);
    lemma_pow2_unfold(m);
    assert(t.len() == pow2(m));
    lemma_split_sum(t);
    lemma_fold_sum(t, r);
    lemma_fold_once_mle(g, rs, r);
    if rs.len() == n - 1 {
        lemma2_to64();
        lemma_poly_blend(g, rs, Seq::<int>::empty(), r);
        assert(cube_point(0, 1) =~= seq![0int]);
        assert(cube_point(1, 1) =~= seq![1int]);
        assert(rs + cube_point(0, 1) =~= rs + seq![0int] + Seq::<int>::empty());
        assert(rs + cube_point(1, 1) =~= rs + seq![1int] + Seq::<int>::empty());
        assert(rs.push(r) =~= rs + seq![r] + Seq::<int>::empty());
        assert(t[0] == g.spec_eval(rs + cube_point(0, 1)));
        assert(t[1] == g.spec_eval(rs + cube_point(1, 1)));
    }
}

/// Law: in the last round the live table holds exactly the two values the
/// prover sends, and their blend at the drawn challenge is the oracle
/// evaluation at the full challenge vector: the honest final check holds.
pub proof fn lemma_final_message(g: MultiPoly, rs: Seq<int>, r: int)
    requires
        g.wf(),
        g.multilinear(),
        rs.len() == g.spec_num_vars() - 1,
    ensures
        ({
            let t = mle_table(g, rs);
            &&& t.len() == 2
            &&& fsum(evens(t)) == t[0]
            &&& fsum(odds(t)) == t[1]
            &&& blend(r, fsum(evens(t)), fsum(odds(t))) == g.spec_eval(rs.push(r))
        }),
{
    let t = mle_table(g, rs);
    lemma2_to64();
    assert(t.len() == 2);
    assert(t[0] == g.spec_eval(rs + cube_point(0, 1)));
    assert(t[1] == g.spec_eval(rs + cube_point(1, 1)));
    lemma_terms_eval_bounds(g.terms@, rs + cube_point(0, 1));
    lemma_terms_eval_bounds(g.terms@, rs + cube_point(1, 1));
    assert(0 <= t[0] < MODULUS);
    assert(0 <= t[1] < MODULUS);
    assert(evens(t) =~= seq![t[0]]);
    assert(odds(t) =~= seq![t[1]]);
    assert(seq![t[0]].drop_last() =~= Seq::<int>::empty());
    assert(seq![t[1]].drop_last() =~= Seq::<int>::empty());
    assert(fsum(Seq::<int>::empty()) == 0);
    assert(seq![t[0]].last() == t[0]);
    assert(seq![t[1]].last() == t[1]);
    assert(fsum(seq![t[0]]) == fadd(0, t[0]));
    assert(fsum(seq![t[1]]) == fadd(0, t[1]));
    lemma_small_mod(t[0] as nat, MODULUS as nat);
    lemma_small_mod(t[1] as nat, MODULUS as nat);
    assert(fsum(evens(t)) == t[0]);
    assert(fsum(odds(t)) == t[1]);
    lemma_honest_ml_run(g, rs, r);
    assert(blend(r, t[0], t[1]) == g.spec_eval(rs.push(r)));
}

/// Law: the round univariate of the naive protocol sums over `{0, 1}` to
/// the hypercube sum of the working polynomial: an honest round message
/// always meets the verifier's check.
pub proof fn lemma_round_univariate_sum(g: MultiPoly, c: int)
    requires
        1 <= g.spec_num_vars(),
        c >= 0,
    ensures
        fadd(tail_cube_sum(g, 0, c), tail_cube_sum(g, 1, c)) == cube_sum(&g, 2 * c),
    decreases c,
{
    if c > 0 {
        lemma_round_univariate_sum(g, c - 1);
        let m = g.spec_num_vars();
        lemma_cube_point_split(c - 1, 0, m);
        lemma_cube_point_split(c - 1, 1, m);
        let a = tail_cube_sum(g, 0, c - 1);
        let b = tail_cube_sum(g, 1, c - 1);
        let x = g.spec_eval(seq![0int] + cube_point(c - 1, (m - 1) as nat));
        let y = g.spec_eval(seq![1int] + cube_point(c - 1, (m - 1) as nat));
        assert(cube_sum(&g, 2 * c) == fadd(
            cube_sum(&g, 2 * c - 1),
            g.spec_eval(cube_point(2 * c - 1, m)),
        ));
        assert(cube_sum(&g, 2 * c - 1) == fadd(
            cube_sum(&g, 2 * c - 2),
            g.spec_eval(cube_point(2 * c - 2, m)),
        ));
        assert(cube_point(2 * c - 2, m) == cube_point(2 * (c - 1), m));
        assert(cube_point(2 * c - 1, m) == cube_point(2 * (c - 1) + 1, m));
        assert(cube_sum(&g, 2 * c) == fadd(fadd(cube_sum(&g, 2 * c - 2), x), y));
        lemma_fadd_assoc(fadd(a, x), b, y);
        lemma_fadd_assoc(a, x, b);
        lemma_fadd_assoc(a, b, x);
    }
}

/// Law: the round univariate of the naive protocol, taken at the drawn
/// challenge, is the hypercube sum of the polynomial with that challenge
/// fixed in: the verifier's expectation carries over to the next round.
pub proof fn lemma_fixed_tail_sum(g: MultiPoly, h: MultiPoly, r: int, c: int)
    requires
        1 <= g.spec_num_vars(),
        h.spec_num_vars() == g.spec_num_vars() - 1,
        c >= 0,
        forall|x: Seq<int>|
            x.len() == g.spec_num_vars() - 1 ==> #[trigger] h.spec_eval(x) == g.spec_eval(
                seq![r] + x,
            ),
    ensures
        tail_cube_sum(g, r, c) == cube_sum(&h, c),
    decreases c,
{
    if c > 0 {
        lemma_fixed_tail_sum(g, h, r, c - 1);
        assert(h.spec_eval(cube_point(c - 1, h.spec_num_vars())) == g.spec_eval(
            seq![r] + cube_point(c - 1, (g.spec_num_vars() - 1) as nat),
        ));
    }
}

/// Law: one fold of the full evaluation table satisfies the fold identity
/// `table[b] = (1 - r) * g(0, b) + r * g(1, b)` at every entry.
pub proof fn lemma_fold_identity(g: MultiPoly, r: int, b: int)
    requires
        g.wf(),
        1 <= g.spec_num_vars(),
        0 <= b < pow2((g.spec_num_vars() - 1) as nat),
    ensures
        fold_once(eval_table(&g), r)[b] == blend(
            r,
            g.spec_eval(seq![0int] + cube_point(b, (g.spec_num_vars() - 1) as nat)),
            g.spec_eval(seq![1int] + cube_point(b, (g.spec_num_vars() - 1) as nat)),
        ),
{
    let n = g.spec_num_vars();
    lemma_pow2_unfold(n);
    lemma_cube_point_split(b, 0, n);
    lemma_cube_point_split(b, 1, n);
    assert(eval_table(&g)[2 * b] == g.spec_eval(cube_point(2 * b, n)));
    assert(eval_table(&g)[2 * b + 1] == g.spec_eval(cube_point(2 * b + 1, n)));
}

} // verus!
