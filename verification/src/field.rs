//! The prime field of order 97: canonical representatives, the algebraic
//! operations the protocol needs, and the modular-arithmetic lemmas the
//! protocol proofs rest on.
use vstd::prelude::*;
use vstd::arithmetic::div_mod::*;
use vstd::arithmetic::mul::*;

verus! {

/// The order of the field; every element is kept reduced into `[0, MODULUS)`.
pub const MODULUS: u64 = 97;

/// Field addition on integer representatives.
pub open spec fn fadd(a: int, b: int) -> int {
    (a + b) % (MODULUS as int)
}

/// Field subtraction on integer representatives.
pub open spec fn fsub(a: int, b: int) -> int {
    (a - b) % (MODULUS as int)
}

/// Field multiplication on integer representatives.
pub open spec fn fmul(a: int, b: int) -> int {
    (a * b) % (MODULUS as int)
}

/// Whether `a` has a multiplicative inverse in the field.
pub open spec fn has_inv(a: int) -> bool {
    exists|x: int| 0 <= x < MODULUS && #[trigger] fmul(a, x) == 1
}

/// The multiplicative inverse of `a`, or `0` when none exists
/// (for a prime modulus only multiples of the modulus lack one).
pub open spec fn finv(a: int) -> int {
    if has_inv(a) {
        choose|x: int| 0 <= x < MODULUS && #[trigger] fmul(a, x) == 1
    } else {
        0
    }
}

/// `b` raised to the power `e` in the field.
pub open spec fn fpow(b: int, e: nat) -> int
    decreases e,
{
    if e == 0 {
        1
    } else {
        fmul(fpow(b, (e - 1) as nat), b)
    }
}

/// The affine blend `(1 - r) * u + r * v`: the value at `r` of the line
/// through `(0, u)` and `(1, v)`.
pub open spec fn blend(r: int, u: int, v: int) -> int {
    fadd(fmul(u, fsub(1, r)), fmul(v, r))
}

/// An element of the prime field of order [`MODULUS`].
#[derive(Clone, Copy, PartialEq, Eq, Structural, Debug)]
pub struct Fp {
    v: u64,
}

impl View for Fp {
    type V = int;

    closed spec fn view(&self) -> int {
        self.v as int
    }
}

impl Fp {
    /// A value is well formed when its representative is reduced.
    pub open spec fn wf(self) -> bool {
        0 <= self@ < MODULUS
    }

    /// Embeds a non-negative integer into the field.
    pub fn new(v: u64) -> (r: Fp)
        ensures
            r.wf(),
            r@ == v as int % (MODULUS as int),
    {
        Fp { v: v % MODULUS }
    }

    /// The additive identity.
    pub fn zero() -> (r: Fp)
        ensures
            r.wf(),
            r@ == 0,
    {
        Fp { v: 0 }
    }

    /// The multiplicative identity.
    pub fn one() -> (r: Fp)
        ensures
            r.wf(),
            r@ == 1,
    {
        Fp { v: 1 }
    }

    /// The canonical representative, as a machine integer.
    pub fn value(self) -> (r: u64)
        ensures
            r as int == self@,
    {
        self.v
    }

    pub fn add(self, rhs: Fp) -> (r: Fp)
        requires
            self.wf(),
            rhs.wf(),
        ensures
            r.wf(),
            r@ == fadd(self@, rhs@),
    {
        Fp { v: (self.v + rhs.v) % MODULUS }
    }

    pub fn sub(self, rhs: Fp) -> (r: Fp)
        requires
            self.wf(),
            rhs.wf(),
        ensures
            r.wf(),
            r@ == fsub(self@, rhs@),
    {
        proof {
            lemma_mod_add_multiples_vanish(self@ - rhs@, MODULUS as int);
        }
        Fp { v: (self.v + MODULUS - rhs.v) % MODULUS }
    }

    pub fn mul(self, rhs: Fp) -> (r: Fp)
        requires
            self.wf(),
            rhs.wf(),
        ensures
            r.wf(),
            r@ == fmul(self@, rhs@),
    {
        proof {
            assert((self.v as int) * (rhs.v as int) < 9409) by (nonlinear_arith)
                requires self.v < 97 && rhs.v < 97;
        }
        Fp { v: (self.v * rhs.v) % MODULUS }
    }

    /// `self` raised to the power `e`.
    pub fn pow(self, e: u64) -> (r: Fp)
        requires
            self.wf(),
        ensures
            r.wf(),
            r@ == fpow(self@, e as nat),
    {
        let mut acc = Fp::one();
        let mut i: u64 = 0;
        while i < e
            invariant
                self.wf(),
                acc.wf(),
                i <= e,
                acc@ == fpow(self@, i as nat),
            decreases e - i,
        {
            acc = acc.mul(self);
            i = i + 1;
        }
        acc
    }

    /// The multiplicative inverse, found by exhausting the (small) field;
    /// returns zero when `self` has no inverse.
    pub fn inv(self) -> (r: Fp)
        requires
            self.wf(),
        ensures
            r.wf(),
            r@ == finv(self@),
    {
        let mut x: u64 = 0;
        while x < MODULUS
            invariant
                self.wf(),
                x <= MODULUS,
                forall|y: int| 0 <= y < x ==> #[trigger] fmul(self@, y) != 1,
            decreases MODULUS - x,
        {
            proof {
                assert((self.v as int) * (x as int) < 9409) by (nonlinear_arith)
                    requires self.v < 97 && x < 97;
            }
            if (self.v * x) % MODULUS == 1 {
                proof {
                    assert(fmul(self@, x as int) == 1);
                    assert(has_inv(self@));
                    let w = choose|y: int|
                        0 <= y < MODULUS && #[trigger] fmul(self@, y) == 1;
                    lemma_inv_unique(self@, x as int, w);
                }
                return Fp { v: x };
            }
            x = x + 1;
        }
        proof {
            assert(!has_inv(self@));
        }
        Fp { v: 0 }
    }
}

/// Two field elements are the same value exactly when their
/// representatives agree.
pub proof fn lemma_view_injective(a: Fp, b: Fp)
    ensures
        (a == b) <==> (a@ == b@),
{
}

/// Reducing the left addend does not change a field sum.
pub proof fn lemma_fadd_noop_left(a: int, b: int)
    ensures
        fadd(a % (MODULUS as int), b) == fadd(a, b),
{
    let m = MODULUS as int;
    lemma_add_mod_noop(a, b, m);
    lemma_add_mod_noop(a % m, b, m);
    lemma_mod_twice(a, m);
}

/// Reducing the right addend does not change a field sum.
pub proof fn lemma_fadd_noop_right(a: int, b: int)
    ensures
        fadd(a, b % (MODULUS as int)) == fadd(a, b),
{
    let m = MODULUS as int;
    lemma_add_mod_noop(a, b, m);
    lemma_add_mod_noop(a, b % m, m);
    lemma_mod_twice(b, m);
}

/// Reducing either factor does not change a field product.
pub proof fn lemma_fmul_noop(a: int, b: int)
    ensures
        fmul(a % (MODULUS as int), b) == fmul(a, b),
        fmul(a, b % (MODULUS as int)) == fmul(a, b),
{
    let m = MODULUS as int;
    lemma_mul_mod_noop_left(a, b, m);
    lemma_mul_mod_noop_right(a, b, m);
}

/// Reducing either operand does not change a field difference.
pub proof fn lemma_fsub_noop(a: int, b: int)
    ensures
        fsub(a % (MODULUS as int), b) == fsub(a, b),
        fsub(a, b % (MODULUS as int)) == fsub(a, b),
{
    let m = MODULUS as int;
    lemma_sub_mod_noop(a, b, m);
    lemma_sub_mod_noop(a % m, b, m);
    lemma_sub_mod_noop(a, b % m, m);
    lemma_mod_twice(a, m);
    lemma_mod_twice(b, m);
}

/// Reducing the interpolation point does not change a blend.
pub proof fn lemma_blend_noop(r: int, u: int, v: int)
    ensures
        blend(r % (MODULUS as int), u, v) == blend(r, u, v),
{
    lemma_fsub_noop(1, r);
    lemma_fmul_noop(u, 1 - r);
    lemma_fmul_noop(v, r);
}

/// Field addition is associative.
pub proof fn lemma_fadd_assoc(a: int, b: int, c: int)
    ensures
        fadd(fadd(a, b), c) == fadd(a, fadd(b, c)),
{
    lemma_fadd_noop_left(a + b, c);
    lemma_fadd_noop_right(a, b + c);
}

/// Field multiplication is associative.
pub proof fn lemma_fmul_assoc(a: int, b: int, c: int)
    ensures
        fmul(fmul(a, b), c) == fmul(a, fmul(b, c)),
{
    lemma_fmul_noop(a * b, c);
    lemma_fmul_noop(a, b * c);
    lemma_mul_is_associative(a, b, c);
}

/// Field multiplication is commutative.
pub proof fn lemma_fmul_comm(a: int, b: int)
    ensures
        fmul(a, b) == fmul(b, a),
{
    lemma_mul_is_commutative(a, b);
}

/// Multiplication distributes over addition in the field.
pub proof fn lemma_fmul_distrib(a: int, b: int, c: int)
    ensures
        fmul(a, fadd(b, c)) == fadd(fmul(a, b), fmul(a, c)),
{
    let m = MODULUS as int;
    lemma_fmul_noop(a, b + c);
    lemma_mul_is_distributive_add(a, b, c);
    lemma_add_mod_noop(a * b, a * c, m);
}

/// Multiplication distributes over subtraction in the field.
pub proof fn lemma_fmul_distrib_sub(a: int, b: int, c: int)
    ensures
        fmul(a, fsub(b, c)) == fsub(fmul(a, b), fmul(a, c)),
{
    let m = MODULUS as int;
    lemma_fmul_noop(a, b - c);
    lemma_mul_is_distributive_sub(a, b, c);
    lemma_sub_mod_noop(a * b, a * c, m);
}

/// A field element has at most one inverse.
pub proof fn lemma_inv_unique(a: int, x: int, y: int)
    requires
        0 <= x < MODULUS,
        0 <= y < MODULUS,
        fmul(a, x) == 1,
        fmul(a, y) == 1,
    ensures
        x == y,
{
    let m = MODULUS as int;
    // x == x * (a * y) == (x * a) * y == y, all modulo the field order.
    lemma_mul_mod_noop_right(x, a * y, m);
    assert(x * (a * y) == (x * a) * y) by (nonlinear_arith);
    lemma_mul_mod_noop_left(x * a, y, m);
    lemma_mul_is_commutative(x, a);
    lemma_small_mod(x as nat, m as nat);
    lemma_small_mod(y as nat, m as nat);
    assert((x * ((a * y) % m)) % m == x % m);
    assert(((x * a) % m) * y % m == (1 * y) % m);
}

/// Blending a value with itself gives the value back.
pub proof fn lemma_blend_const(r: int, u: int)
    requires
        0 <= u < MODULUS,
    ensures
        blend(r, u, u) == u,
{
    let m = MODULUS as int;
    lemma_fmul_distrib(u, fsub(1, r), r);
    lemma_fadd_noop_right(1 - r, r);
    assert(fadd(fsub(1, r), r) == 1int % m);
    lemma_fmul_noop(u, 1);
    lemma_small_mod(u as nat, m as nat);
}

/// Scaling commutes with blending.
pub proof fn lemma_blend_scale(r: int, c: int, u: int, v: int)
    ensures
        fmul(c, blend(r, u, v)) == blend(r, fmul(c, u), fmul(c, v)),
{
    lemma_fmul_distrib(c, fmul(u, fsub(1, r)), fmul(v, r));
    lemma_fmul_assoc(c, u, fsub(1, r));
    lemma_fmul_assoc(c, v, r);
    lemma_fmul_comm(c, u);
    lemma_fmul_comm(c, v);
    lemma_fmul_noop(c * u, fsub(1, r));
    lemma_fmul_noop(u * c, fsub(1, r));
    lemma_fmul_noop(c * v, r);
    lemma_fmul_noop(v * c, r);
    lemma_mul_is_commutative(c, u);
    lemma_mul_is_commutative(c, v);
}

/// Blends add pointwise.
pub proof fn lemma_blend_add(r: int, u1: int, v1: int, u2: int, v2: int)
    ensures
        fadd(blend(r, u1, v1), blend(r, u2, v2)) == blend(r, fadd(u1, u2), fadd(v1, v2)),
{
    let m = MODULUS as int;
    let s = fsub(1, r);
    // Reassociate the four addends.
    lemma_fadd_assoc(fmul(u1, s), fmul(v1, r), blend(r, u2, v2));
    lemma_fadd_assoc(fmul(u2, s), fmul(v2, r), fmul(v1, r));
    lemma_fadd_noop_right(fmul(v1, r), fmul(u2, s) + fmul(v2, r));
    assert(fadd(fmul(v1, r), blend(r, u2, v2)) == fadd(fmul(v1, r), fmul(u2, s) + fmul(v2, r)));
    assert(fmul(v1, r) + (fmul(u2, s) + fmul(v2, r)) == fmul(u2, s) + (fmul(v2, r) + fmul(v1, r)));
    lemma_fadd_noop_right(fmul(u2, s), fmul(v2, r) + fmul(v1, r));
    lemma_fadd_noop_right(fmul(v2, r), fmul(v1, r));
    lemma_fadd_noop_right(fmul(v1, r), fmul(v2, r));
    assert(fadd(fmul(v1, r), blend(r, u2, v2)) == fadd(fmul(u2, s), fadd(fmul(v1, r), fmul(v2, r))));
    lemma_fadd_assoc(fmul(u1, s), fmul(u2, s), fadd(fmul(v1, r), fmul(v2, r)));
    // Each side now pairs the `u` terms and the `v` terms; distribute.
    lemma_fmul_comm(u1, s);
    lemma_fmul_comm(u2, s);
    lemma_fmul_distrib(s, u1, u2);
    lemma_fmul_comm(s, fadd(u1, u2));
    lemma_fmul_comm(v1, r);
    lemma_fmul_comm(v2, r);
    lemma_fmul_distrib(r, v1, v2);
    lemma_fmul_comm(r, fadd(v1, v2));
}

/// The verifier's update `p0 + r * (p1 - p0)` is the affine blend.
pub proof fn lemma_blend_alt(r: int, u: int, v: int)
    ensures
        fadd(u, fmul(r, fsub(v, u))) == blend(r, u, v),
{
    let m = MODULUS as int;
    lemma_fmul_noop(r, v - u);
    lemma_fadd_noop_right(u, r * (v - u));
    lemma_mul_is_distributive_sub(r, v, u);
    // Left side reduced to (u + (r * v - r * u)) % m.
    lemma_fmul_noop(u, 1 - r);
    lemma_mul_is_distributive_sub(u, 1, r);
    lemma_fadd_noop_left(u * 1 - u * r, fmul(v, r));
    lemma_fadd_noop_right(u * 1 - u * r, v * r);
    lemma_mul_is_commutative(u, r);
    lemma_mul_is_commutative(v, r);
}

} // verus!
