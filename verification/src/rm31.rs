//! The base field GF(p) with p = 2^31 - 1.
//!
//! An element is stored as a single `u32` kept in the canonical range
//! `[0, P)`; every operation both takes and returns canonical values, so
//! `==` on stored representations coincides with equality of residues.
//! Reduction of wide intermediates uses the Mersenne identity
//! 2^31 = P + 1, so a 62-bit product folds down with two splits and one
//! conditional subtraction instead of a general division.

use vstd::arithmetic::div_mod::{
    lemma_add_mod_noop, lemma_fundamental_div_mod, lemma_mod_add_multiples_vanish,
    lemma_mod_multiples_vanish, lemma_mod_twice, lemma_mul_mod_noop_general, lemma_small_mod,
    lemma_sub_mod_noop,
};
use vstd::arithmetic::mul::lemma_mul_upper_bound;
use vstd::arithmetic::power2::{lemma2_to64, lemma_pow2_pos, lemma_pow2_unfold, pow2};
use vstd::prelude::*;

verus! {

/// The Mersenne prime modulus, 2^31 - 1.
pub const P: u32 = 0x7fff_ffff;

/// Canonical residue of `x` modulo `P`, as a mathematical integer in `[0, P)`.
pub open spec fn modp(x: int) -> int {
    x % (P as int)
}

/// Residue of the sum.
pub open spec fn fadd(x: int, y: int) -> int {
    modp(x + y)
}

/// Residue of the difference.
pub open spec fn fsub(x: int, y: int) -> int {
    modp(x - y)
}

/// Residue of the negation.
pub open spec fn fneg(x: int) -> int {
    modp(-x)
}

/// Residue of the product.
pub open spec fn fmul(x: int, y: int) -> int {
    modp(x * y)
}

/// A residue already in `[0, P)` is its own reduction.
pub proof fn lemma_modp_small(x: int)
    requires
        0 <= x < P,
    ensures
        modp(x) == x,
{
    lemma_small_mod(x as nat, P as nat);
}

/// An inner reduction of either summand can be dropped.
pub proof fn lemma_modp_add(x: int, y: int)
    ensures
        modp(modp(x) + y) == modp(x + y),
        modp(x + modp(y)) == modp(x + y),
        modp(modp(x) + modp(y)) == modp(x + y),
{
    lemma_add_mod_noop(x, y, P as int);
    lemma_add_mod_noop(modp(x), y, P as int);
    lemma_add_mod_noop(x, modp(y), P as int);
    lemma_mod_twice(x, P as int);
    lemma_mod_twice(y, P as int);
}

/// An inner reduction on either side of a difference can be dropped.
pub proof fn lemma_modp_sub(x: int, y: int)
    ensures
        modp(modp(x) - y) == modp(x - y),
        modp(x - modp(y)) == modp(x - y),
        modp(modp(x) - modp(y)) == modp(x - y),
{
    lemma_sub_mod_noop(x, y, P as int);
    lemma_sub_mod_noop(modp(x), y, P as int);
    lemma_sub_mod_noop(x, modp(y), P as int);
    lemma_mod_twice(x, P as int);
    lemma_mod_twice(y, P as int);
}

/// An inner reduction of either factor can be dropped.
pub proof fn lemma_modp_mul(x: int, y: int)
    ensures
        modp(modp(x) * y) == modp(x * y),
        modp(x * modp(y)) == modp(x * y),
        modp(modp(x) * modp(y)) == modp(x * y),
{
    lemma_mul_mod_noop_general(x, y, P as int);
}

/// The n-th power of a residue, by repeated reduced multiplication.
pub open spec fn fpow(x: int, n: nat) -> int
    decreases n,
{
    if n == 0 {
        1
    } else {
        fmul(fpow(x, (n - 1) as nat), x)
    }
}

/// What `try_inverse` returns: the candidate x^(P-2), kept only if one
/// checking multiplication confirms it.
pub open spec fn rf_inverse_spec(x: int) -> Option<RF> {
    if x == 0 {
        None
    } else if fmul(x, fpow(x, (P - 2) as nat)) == 1 {
        Some(RF { val: fpow(x, (P - 2) as nat) as u32 })
    } else {
        None
    }
}

/// What `try_sqrt` returns: the candidate x^(2^29), the exponent being
/// (P + 1) / 4, kept only if squaring it gives back x.
pub open spec fn rf_sqrt_spec(x: int) -> Option<RF> {
    if fmul(fpow(x, 0x2000_0000), fpow(x, 0x2000_0000)) == x {
        Some(RF { val: fpow(x, 0x2000_0000) as u32 })
    } else {
        None
    }
}

/// Every power is a canonical residue.
pub proof fn lemma_fpow_canonical(x: int, n: nat)
    ensures
        0 <= fpow(x, n) < P,
{
    if n == 0 {
    }
}

/// Multiplication of residues is commutative.
pub proof fn lemma_fmul_comm(x: int, y: int)
    ensures
        fmul(x, y) == fmul(y, x),
{
    assert(x * y == y * x) by (nonlinear_arith);
}

/// The residue 1 is neutral.
pub proof fn lemma_fmul_one(x: int)
    requires
        0 <= x < P,
    ensures
        fmul(1, x) == x,
        fmul(x, 1) == x,
{
    lemma_modp_small(x);
}

/// Multiplication of residues is associative.
pub proof fn lemma_fmul_assoc(x: int, y: int, z: int)
    ensures
        fmul(fmul(x, y), z) == fmul(x, fmul(y, z)),
{
    lemma_modp_mul(x * y, z);
    lemma_modp_mul(x, y * z);
    assert((x * y) * z == x * (y * z)) by (nonlinear_arith);
}

/// Raising to a sum of exponents multiplies the powers.
pub proof fn lemma_fpow_add(x: int, m: nat, n: nat)
    ensures
        fpow(x, m + n) == fmul(fpow(x, m), fpow(x, n)),
    decreases n,
{
    if n == 0 {
        lemma_fpow_canonical(x, m);
        lemma_fmul_one(fpow(x, m));
    } else {
        lemma_fpow_add(x, m, (n - 1) as nat);
        lemma_fmul_assoc(fpow(x, m), fpow(x, (n - 1) as nat), x);
    }
}

/// Raising to a product of exponents iterates the powers.
pub proof fn lemma_fpow_mul(x: int, m: nat, n: nat)
    ensures
        fpow(x, m * n) == fpow(fpow(x, m), n),
    decreases n,
{
    if n == 0 {
        assert(m * n == 0) by (nonlinear_arith)
            requires
                n == 0,
        ;
    } else {
        assert(m * n == m * (n - 1) + m) by (nonlinear_arith);
        lemma_fpow_mul(x, m, (n - 1) as nat);
        lemma_fpow_add(x, m * (n - 1) as nat, m);
    }
}

/// The first two powers of a canonical residue, written out.
pub proof fn lemma_fpow_two(x: int)
    requires
        0 <= x < P,
    ensures
        fpow(x, 1) == x,
        fpow(x, 2) == fmul(x, x),
{
    assert(fpow(x, 0) == 1);
    assert(fpow(x, 1) == fmul(fpow(x, 0), x));
    assert(fpow(x, 2) == fmul(fpow(x, 1), x));
    lemma_fmul_one(x);
}

/// Every positive power of the zero residue is zero.
pub proof fn lemma_fpow_zero_base(n: nat)
    requires
        n >= 1,
    ensures
        fpow(0, n) == 0,
    decreases n,
{
    if n > 1 {
        lemma_fpow_zero_base((n - 1) as nat);
    }
    lemma_modp_small(0);
}

/// An element of GF(p), always held in canonical form by this module's
/// operations.
#[derive(Clone, Copy, Debug, PartialEq, Eq, Structural)]
pub struct RF {
    pub val: u32,
}

impl View for RF {
    type V = int;

    open spec fn view(&self) -> int {
        self.val as int
    }
}

impl RF {
    /// The stored word lies in the canonical range `[0, P)`.
    pub open spec fn is_canonical(self) -> bool {
        self.val < P
    }

    /// Lifts an arbitrary machine word into the field.
    pub fn new(v: u32) -> (r: RF)
        ensures
            r.is_canonical(),
            r@ == modp(v as int),
    {
        RF { val: v % P }
    }

    /// Canonicalizes an element; on values produced by this module it is
    /// the identity, and it is idempotent on every input.
    pub fn reduce(self) -> (r: RF)
        ensures
            r.is_canonical(),
            r@ == modp(self.val as int),
            self.is_canonical() ==> r == self,
    {
        proof {
            if self.val < P {
                lemma_small_mod(self.val as nat, P as nat);
            }
        }
        RF { val: self.val % P }
    }

    /// Tests for the additive identity.
    pub fn is_zero(&self) -> (r: bool)
        ensures
            r == (self@ == 0),
    {
        self.val == 0
    }

    /// Field addition.
    pub fn add(self, rhs: RF) -> (r: RF)
        requires
            self.is_canonical(),
            rhs.is_canonical(),
        ensures
            r.is_canonical(),
            r@ == fadd(self@, rhs@),
    {
        let s: u32 = self.val + rhs.val;
        let v: u32 = if s >= P {
            s - P
        } else {
            s
        };
        proof {
            if s >= P {
                lemma_mod_multiples_vanish(1, s - P, P as int);
                lemma_small_mod((s - P) as nat, P as nat);
            } else {
                lemma_small_mod(s as nat, P as nat);
            }
        }
        RF { val: v }
    }

    /// Field subtraction.
    pub fn sub(self, rhs: RF) -> (r: RF)
        requires
            self.is_canonical(),
            rhs.is_canonical(),
        ensures
            r.is_canonical(),
            r@ == fsub(self@, rhs@),
    {
        let v: u32 = if self.val >= rhs.val {
            self.val - rhs.val
        } else {
            self.val + P - rhs.val
        };
        proof {
            let d = self.val as int - rhs.val as int;
            if self.val >= rhs.val {
                lemma_small_mod(d as nat, P as nat);
            } else {
                lemma_mod_add_multiples_vanish(d, P as int);
                lemma_small_mod((d + P) as nat, P as nat);
            }
        }
        RF { val: v }
    }

    /// Field negation.
    pub fn neg(self) -> (r: RF)
        requires
            self.is_canonical(),
        ensures
            r.is_canonical(),
            r@ == fneg(self@),
    {
        let v: u32 = if self.val == 0 {
            0
        } else {
            P - self.val
        };
        proof {
            let m = -(self.val as int);
            if self.val == 0 {
                lemma_small_mod(0, P as nat);
            } else {
                lemma_mod_add_multiples_vanish(m, P as int);
                lemma_small_mod((m + P) as nat, P as nat);
            }
        }
        RF { val: v }
    }

    /// Field multiplication, through a 64-bit product.
    pub fn mul(self, rhs: RF) -> (r: RF)
        requires
            self.is_canonical(),
            rhs.is_canonical(),
        ensures
            r.is_canonical(),
            r@ == fmul(self@, rhs@),
    {
        proof {
            lemma_mul_upper_bound(self.val as int, P as int - 1, rhs.val as int, P as int - 1);
            assert(0x7fff_fffe * 0x7fff_fffe < 0x4000_0000_0000_0000int) by (nonlinear_arith);
        }
        let prod: u64 = (self.val as u64) * (rhs.val as u64);
        reduce_wide(prod)
    }

    /// Multiplicative inverse: exactly `rf_inverse_spec` — the candidate
    /// self^(P-2) of Fermat's little theorem, computed by binary
    /// exponentiation and kept only if one checking multiplication
    /// confirms it, so a returned value is an inverse by construction.
    /// The additive identity has no inverse and yields `None`.
    pub fn try_inverse(self) -> (r: Option<RF>)
        requires
            self.is_canonical(),
        ensures
            r == rf_inverse_spec(self@),
            self@ == 0 ==> r is None,
            r matches Some(y) ==> y.is_canonical() && fmul(self@, y@) == 1 && self@ != 0,
    {
        if self.val == 0 {
            return None;
        }
        let mut result = RF { val: 1 };
        let mut base = self;
        let mut e: u32 = P - 2;
        proof {
            lemma_fpow_canonical(self@, (P - 2) as nat);
            lemma_fmul_one(fpow(self@, (P - 2) as nat));
        }
        while e > 0
            invariant
                result.is_canonical(),
                base.is_canonical(),
                fmul(result@, fpow(base@, e as nat)) == fpow(self@, (P - 2) as nat),
            decreases e,
        {
            proof {
                let e0 = e as nat;
                let b2 = fmul(base@, base@);
                lemma_fpow_two(base@);
                lemma_fpow_mul(base@, 2, e0 / 2);
                if e % 2 == 1 {
                    lemma_fmul_comm(fpow(b2, e0 / 2), base@);
                    lemma_fmul_assoc(result@, base@, fpow(b2, e0 / 2));
                }
            }
            if e % 2 == 1 {
                result = result.mul(base);
            }
            base = base.mul(base);
            e = e / 2;
        }
        proof {
            lemma_fmul_one(result@);
        }
        let check = self.mul(result);
        if check.val == 1 {
            Some(result)
        } else {
            None
        }
    }

    /// Square root: exactly `rf_sqrt_spec` — the candidate self^(2^29),
    /// the exponent being (P + 1) / 4, computed by repeated squaring and
    /// kept only if squaring it gives back self, so a returned value is
    /// a square root by construction.
    pub fn try_sqrt(self) -> (r: Option<RF>)
        requires
            self.is_canonical(),
        ensures
            r == rf_sqrt_spec(self@),
            r matches Some(s) ==> s.is_canonical() && fmul(s@, s@) == self@,
            self@ == 0 ==> (r matches Some(s) && s@ == 0),
    {
        let mut s = self;
        let mut k: u32 = 0;
        proof {
            lemma2_to64();
            lemma_fpow_two(self@);
        }
        while k < 29
            invariant
                k <= 29,
                s.is_canonical(),
                s@ == fpow(self@, pow2(k as nat)),
            decreases 29 - k,
        {
            proof {
                lemma_fpow_add(self@, pow2(k as nat), pow2(k as nat));
                lemma_pow2_unfold((k + 1) as nat);
            }
            s = s.mul(s);
            k = k + 1;
        }
        proof {
            lemma2_to64();
            if self@ == 0 {
                lemma_pow2_pos(29);
                lemma_fpow_zero_base(pow2(29));
            }
        }
        let sq = s.mul(s);
        if sq.val == self.val {
            Some(s)
        } else {
            None
        }
    }

    /// Multiplication by the fixed constant 2^15; equivalent to a general
    /// multiplication by that constant, but needing only a shifted product.
    pub fn mul_by_2_15(self) -> (r: RF)
        requires
            self.is_canonical(),
        ensures
            r.is_canonical(),
            r@ == fmul(self@, 0x8000),
    {
        let w: u64 = self.val as u64;
        let prod: u64 = w << 15u64;
        proof {
            assert(prod == w * 0x8000) by (bit_vector)
                requires
                    w < 0x8000_0000u64,
                    prod == w << 15u64,
            ;
        }
        reduce_wide(prod)
    }

    /// Multiplication by the fixed constant 2^16; equivalent to a general
    /// multiplication by that constant, but needing only a shifted product.
    pub fn mul_by_2_16(self) -> (r: RF)
        requires
            self.is_canonical(),
        ensures
            r.is_canonical(),
            r@ == fmul(self@, 0x10000),
    {
        let w: u64 = self.val as u64;
        let prod: u64 = w << 16u64;
        proof {
            assert(prod == w * 0x10000) by (bit_vector)
                requires
                    w < 0x8000_0000u64,
                    prod == w << 16u64,
            ;
        }
        reduce_wide(prod)
    }
}

/// Folds a value below 2^62 to its canonical residue, using
/// 2^31 = P + 1: splitting `t` as `hi * 2^31 + lo` leaves `hi + lo`
/// congruent to `t`, and two such splits land below `P + 2`.
fn reduce_wide(t: u64) -> (r: RF)
    requires
        t < 0x4000_0000_0000_0000,
    ensures
        r.is_canonical(),
        r@ == modp(t as int),
{
    let hi: u64 = t >> 31u64;
    let lo: u64 = t & 0x7fff_ffff;
    proof {
        assert(hi == t as int / 0x8000_0000 && lo == t as int % 0x8000_0000) by (bit_vector)
            requires
                hi == t >> 31u64,
                lo == t & 0x7fff_ffffu64,
        ;
        lemma_fundamental_div_mod(t as int, 0x8000_0000);
        lemma_mod_multiples_vanish(hi as int, hi + lo, P as int);
    }
    let s: u64 = hi + lo;
    let hi2: u64 = s >> 31u64;
    let lo2: u64 = s & 0x7fff_ffff;
    proof {
        assert(hi2 == s as int / 0x8000_0000 && lo2 == s as int % 0x8000_0000) by (bit_vector)
            requires
                hi2 == s >> 31u64,
                lo2 == s & 0x7fff_ffffu64,
        ;
        lemma_fundamental_div_mod(s as int, 0x8000_0000);
        lemma_mod_multiples_vanish(hi2 as int, hi2 + lo2, P as int);
    }
    let u: u64 = hi2 + lo2;
    let v: u64 = if u >= P as u64 {
        u - P as u64
    } else {
        u
    };
    proof {
        if u >= P as u64 {
            lemma_mod_multiples_vanish(1, u - P, P as int);
            lemma_small_mod((u - P) as nat, P as nat);
        } else {
            lemma_small_mod(u as nat, P as nat);
        }
    }
    RF { val: v as u32 }
}

} // verus!
