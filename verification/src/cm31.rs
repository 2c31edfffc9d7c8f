//! The degree-2 extension field: pairs (a, b) read as a + b*i with i^2 = -1.

use crate::laws::{
    lemma_cpow_canonical, lemma_cpow_mul, lemma_cpow_two, lemma_eighth_root, lemma_fourth_root,
    lemma_half_order_primitive, lemma_mul_assoc, lemma_mul_comm, lemma_mul_one,
    lemma_norm_of_square, lemma_w4_squares, lemma_w8_squares,
};
use crate::rm31::{
    fadd, fmul, fneg, fsub, lemma_modp_add, lemma_modp_mul, lemma_modp_small, lemma_modp_sub,
    modp, rf_inverse_spec, rf_sqrt_spec, RF, P,
};
use vstd::arithmetic::div_mod::lemma_mod_multiples_vanish;
use vstd::arithmetic::power2::{lemma2_to64, lemma_pow2_unfold, pow2};
use vstd::prelude::*;

verus! {

/// An extension-field element: real part `a`, imaginary part `b`.
#[derive(Clone, Copy, Debug, PartialEq, Eq, Structural)]
pub struct CF {
    pub a: RF,
    pub b: RF,
}

impl View for CF {
    type V = (int, int);

    open spec fn view(&self) -> (int, int) {
        (self.a.val as int, self.b.val as int)
    }
}

/// Both components are canonical base-field words.
pub open spec fn canonical_pair(x: (int, int)) -> bool {
    0 <= x.0 < P && 0 <= x.1 < P
}

/// The additive identity, as a pair of residues.
pub open spec fn c_zero() -> (int, int) {
    (0, 0)
}

/// The multiplicative identity, as a pair of residues.
pub open spec fn c_one() -> (int, int) {
    (1, 0)
}

/// The element -1, the primitive 2nd root of unity.
pub open spec fn c_neg_one() -> (int, int) {
    ((P - 1) as int, 0)
}

/// The n-th power, by repeated multiplication.
pub open spec fn cpow(x: (int, int), n: nat) -> (int, int)
    decreases n,
{
    if n == 0 {
        c_one()
    } else {
        cmul(cpow(x, (n - 1) as nat), x)
    }
}

/// `w` is a k-th root of unity and no smaller positive power of it
/// reaches the multiplicative identity.
pub open spec fn is_primitive_root(w: (int, int), k: nat) -> bool {
    cpow(w, k) == c_one() && forall|j: nat| 0 < j < k ==> cpow(w, j) != c_one()
}

/// Component-wise sum of two elements.
pub open spec fn cadd(x: (int, int), y: (int, int)) -> (int, int) {
    (fadd(x.0, y.0), fadd(x.1, y.1))
}

/// Component-wise difference of two elements.
pub open spec fn csub(x: (int, int), y: (int, int)) -> (int, int) {
    (fsub(x.0, y.0), fsub(x.1, y.1))
}

/// Component-wise negation.
pub open spec fn cneg(x: (int, int)) -> (int, int) {
    (fneg(x.0), fneg(x.1))
}

/// The product (a + b*i)(c + d*i) = (ac - bd) + (ad + bc)*i, with both
/// components reduced.
pub open spec fn cmul(x: (int, int), y: (int, int)) -> (int, int) {
    (modp(x.0 * y.0 - x.1 * y.1), modp(x.0 * y.1 + x.1 * y.0))
}

/// The norm a^2 + b^2 of an element, as a reduced residue.
pub open spec fn cnorm(x: (int, int)) -> int {
    modp(x.0 * x.0 + x.1 * x.1)
}

/// What `CF::try_inverse` returns: nothing for the additive identity or
/// a vanishing norm, else the conjugate scaled by the checked inverse of
/// the norm.
pub open spec fn cf_inverse_spec(x: (int, int)) -> Option<CF> {
    if x == c_zero() {
        None
    } else if cnorm(x) == 0 {
        None
    } else {
        match rf_inverse_spec(cnorm(x)) {
            None => None,
            Some(i) => Some(
                (CF {
                    a: RF { val: fmul(i@, x.0) as u32 },
                    b: RF { val: fmul(i@, modp(-x.1)) as u32 },
                }),
            ),
        }
    }
}

/// The real branch of the square-root construction: a nonzero
/// base-field root s of (a + r0)/2 gives the candidate (s, b/(2s)),
/// kept only if it squares back to the input.
pub open spec fn cf_sqrt_branch1(x: (int, int), r0: int) -> Option<CF> {
    match rf_sqrt_spec(fmul(fadd(x.0, r0), 0x4000_0000)) {
        None => None,
        Some(s) => if s@ == 0 {
            None
        } else {
            match rf_inverse_spec(s@) {
                None => None,
                Some(si) => {
                    let cand = (CF {
                        a: s,
                        b: RF { val: fmul(fmul(x.1, 0x4000_0000), si@) as u32 },
                    });
                    if cmul(cand@, cand@) == x {
                        Some(cand)
                    } else {
                        None
                    }
                },
            }
        },
    }
}

/// The imaginary branch of the square-root construction: a nonzero
/// base-field root s of (r0 - a)/2 gives the candidate (b/(2s), s),
/// kept only if it squares back to the input.
pub open spec fn cf_sqrt_branch2(x: (int, int), r0: int) -> Option<CF> {
    match rf_sqrt_spec(fmul(fsub(r0, x.0), 0x4000_0000)) {
        None => None,
        Some(s) => if s@ == 0 {
            None
        } else {
            match rf_inverse_spec(s@) {
                None => None,
                Some(si) => {
                    let cand = (CF {
                        a: RF { val: fmul(fmul(x.1, 0x4000_0000), si@) as u32 },
                        b: s,
                    });
                    if cmul(cand@, cand@) == x {
                        Some(cand)
                    } else {
                        None
                    }
                },
            }
        },
    }
}

/// What `CF::try_sqrt` returns: zero for zero; else, from the checked
/// base-field root of the norm, the real branch's candidate if it
/// verifies, otherwise the imaginary branch's, otherwise nothing.
pub open spec fn cf_sqrt_spec(x: (int, int)) -> Option<CF> {
    if x == c_zero() {
        Some((CF { a: RF { val: 0 }, b: RF { val: 0 } }))
    } else {
        match rf_sqrt_spec(cnorm(x)) {
            None => None,
            Some(r0) => match cf_sqrt_branch1(x, r0@) {
                Some(c) => Some(c),
                None => cf_sqrt_branch2(x, r0@),
            },
        }
    }
}

/// The tower as a value: entry 0 is -1, each later entry what the
/// square-root construction yields on its predecessor.
pub open spec fn tower_spec(n: nat) -> Option<Seq<CF>>
    decreases n,
{
    if n <= 1 {
        Some(seq![(CF { a: RF { val: 0x7fff_fffe }, b: RF { val: 0 } })])
    } else {
        match tower_spec((n - 1) as nat) {
            None => None,
            Some(s) => match cf_sqrt_spec(s.last()@) {
                None => None,
                Some(w) => Some(s.push(w)),
            },
        }
    }
}

/// A refused tower stays refused at every greater height.
proof fn lemma_tower_none_mono(m: nat, n: nat)
    requires
        m <= n,
        tower_spec(m) is None,
    ensures
        tower_spec(n) is None,
    decreases n,
{
    if m < n {
        if n <= 1 {
            assert(tower_spec(m) is Some);
        } else {
            lemma_tower_none_mono(m, (n - 1) as nat);
        }
    }
}

/// Derives the tower w_2, w_4, ..., w_{2^n}: the fixed primitive 2nd
/// root of unity followed by n - 1 repeated square roots, each entry a
/// primitive root of twice the previous order. The result is exactly
/// the tower `tower_spec` describes: `None` only if a square-root step
/// of that chain fails, which would mean the field was not constructed
/// to support a tower of the requested height.
pub fn gen_roots_of_unity(n: usize) -> (r: Option<Vec<CF>>)
    requires
        n >= 2,
    ensures
        r is Some <==> tower_spec(n as nat) is Some,
        r matches Some(v) ==> Some(v@) == tower_spec(n as nat),
        r matches Some(v) ==> {
            &&& v@.len() == n
            &&& forall|i: int| 0 <= i < n ==> (#[trigger] v@[i]).wf()
            &&& v@[0]@ == c_neg_one()
            &&& forall|i: int|
                0 <= i < n ==> is_primitive_root((#[trigger] v@[i])@, pow2((i + 1) as nat))
            &&& forall|i: int| 1 <= i < n ==> cmul(v@[i]@, v@[i]@) == v@[i - 1]@
        },
{
    let w2 = CF::root_of_unity_2();
    let mut w = w2;
    let mut res: Vec<CF> = Vec::new();
    res.push(w2);
    proof {
        lemma2_to64();
        lemma_cpow_two(c_neg_one());
        assert(res@ =~= seq![(CF { a: RF { val: 0x7fff_fffe }, b: RF { val: 0 } })]);
    }
    let mut k: usize = 1;
    while k < n
        invariant
            2 <= n,
            1 <= k <= n,
            res@.len() == k,
            forall|i: int| 0 <= i < k ==> (#[trigger] res@[i]).wf(),
            res@[0]@ == c_neg_one(),
            forall|i: int|
                0 <= i < k ==> cpow((#[trigger] res@[i])@, pow2(i as nat)) == c_neg_one(),
            forall|i: int| 1 <= i < k ==> cmul(res@[i]@, res@[i]@) == res@[i - 1]@,
            w == res@[k - 1],
            tower_spec(k as nat) == Some(res@),
        decreases n - k,
    {
        match w.try_sqrt() {
            None => {
                proof {
                    assert(res@.last() == w);
                    assert(tower_spec((k + 1) as nat) is None);
                    lemma_tower_none_mono((k + 1) as nat, n as nat);
                }
                return None;
            },
            Some(s) => {
                proof {
                    lemma_cpow_two(s@);
                    lemma_pow2_unfold(k as nat);
                    lemma_cpow_mul(s@, 2, pow2((k - 1) as nat));
                    assert(res@.last() == w);
                    assert(tower_spec((k + 1) as nat) == Some(res@.push(s)));
                }
                w = s;
                res.push(s);
                k = k + 1;
            },
        }
    }
    proof {
        assert forall|i: int| 0 <= i < n implies is_primitive_root(
            (#[trigger] res@[i])@,
            pow2((i + 1) as nat),
        ) by {
            lemma_half_order_primitive(res@[i]@, i as nat);
        }
    }
    Some(res)
}

/// The two sides of the Karatsuba scheme, with their intermediate
/// reductions, equal the two components of `cmul`.
proof fn lemma_karatsuba(a: int, b: int, c: int, d: int)
    ensures
        modp(modp(a * c) - modp(b * d)) == modp(a * c - b * d),
        modp(modp(modp(modp(a + b) * modp(c + d)) - modp(a * c)) - modp(b * d)) == modp(
            a * d + b * c,
        ),
{
    lemma_modp_sub(a * c, b * d);
    let s = (a + b) * (c + d);
    lemma_modp_mul(a + b, c + d);
    assert(modp(modp(a + b) * modp(c + d)) == modp(s));
    lemma_modp_sub(s, a * c);
    assert(modp(modp(modp(a + b) * modp(c + d)) - modp(a * c)) == modp(s - a * c));
    lemma_modp_sub(s - a * c, b * d);
    assert((a + b) * (c + d) - a * c - b * d == a * d + b * c) by (nonlinear_arith);
}

/// Multiplying a residue by P - 1 is negation.
proof fn lemma_mul_p_minus_one(x: int)
    ensures
        modp(x * ((P - 1) as int)) == modp(-x),
{
    assert(x * ((P - 1) as int) == (P as int) * x + (-x)) by (nonlinear_arith);
    lemma_mod_multiples_vanish(x, -x, P as int);
}

/// The conjugate scaled by an inverse of the norm is a multiplicative
/// inverse: with n = a^2 + b^2 and n * i = 1, the product of (a, b) and
/// (i * a, i * (-b)) is the identity.
proof fn lemma_cf_inverse(a: int, b: int, i: int)
    requires
        modp(modp(a * a + b * b) * i) == 1,
    ensures
        modp(a * modp(i * a) - b * modp(i * modp(-b))) == 1,
        modp(a * modp(i * modp(-b)) + b * modp(i * a)) == 0,
{
    lemma_modp_mul(i, -b);
    assert(modp(i * modp(-b)) == modp(i * (-b)));
    let t1 = a * modp(i * a);
    let t2 = b * modp(i * (-b));
    lemma_modp_sub(t1, t2);
    lemma_modp_mul(a, i * a);
    lemma_modp_mul(b, i * (-b));
    lemma_modp_sub(a * (i * a), b * (i * (-b)));
    assert(modp(t1 - t2) == modp(a * (i * a) - b * (i * (-b))));
    assert(a * (i * a) - b * (i * (-b)) == (a * a + b * b) * i) by (nonlinear_arith);
    lemma_modp_mul(a * a + b * b, i);
    assert(modp(t1 - t2) == 1);
    let u1 = a * modp(i * (-b));
    let u2 = b * modp(i * a);
    lemma_modp_add(u1, u2);
    lemma_modp_mul(a, i * (-b));
    lemma_modp_mul(b, i * a);
    lemma_modp_add(a * (i * (-b)), b * (i * a));
    assert(modp(u1 + u2) == modp(a * (i * (-b)) + b * (i * a)));
    assert(a * (i * (-b)) + b * (i * a) == 0) by (nonlinear_arith);
    lemma_modp_small(0);
    assert(modp(u1 + u2) == 0);
}

impl CF {
    /// Both stored components are canonical.
    pub open spec fn wf(self) -> bool {
        self.a.is_canonical() && self.b.is_canonical()
    }

    /// Lifts two machine words into an extension-field element.
    pub fn new(re: u32, im: u32) -> (r: CF)
        ensures
            r.wf(),
            r@ == (modp(re as int), modp(im as int)),
    {
        CF { a: RF::new(re), b: RF::new(im) }
    }

    /// The real component.
    pub fn real_part(self) -> (r: RF)
        ensures
            r == self.a,
    {
        self.a
    }

    /// The imaginary component.
    pub fn imag(self) -> (r: RF)
        ensures
            r == self.b,
    {
        self.b
    }

    /// The additive identity.
    pub fn zero() -> (r: CF)
        ensures
            r.wf(),
            r@ == c_zero(),
    {
        CF::new(0, 0)
    }

    /// The multiplicative identity.
    pub fn one() -> (r: CF)
        ensures
            r.wf(),
            r@ == c_one(),
    {
        CF::new(1, 0)
    }

    /// Tests for the additive identity.
    pub fn is_zero(&self) -> (r: bool)
        ensures
            r == (self@ == c_zero()),
    {
        self.a.is_zero() && self.b.is_zero()
    }

    /// Component-wise addition.
    pub fn add(self, rhs: CF) -> (r: CF)
        requires
            self.wf(),
            rhs.wf(),
        ensures
            r.wf(),
            r@ == cadd(self@, rhs@),
    {
        CF { a: self.a.add(rhs.a), b: self.b.add(rhs.b) }
    }

    /// Component-wise subtraction.
    pub fn sub(self, rhs: CF) -> (r: CF)
        requires
            self.wf(),
            rhs.wf(),
        ensures
            r.wf(),
            r@ == csub(self@, rhs@),
    {
        CF { a: self.a.sub(rhs.a), b: self.b.sub(rhs.b) }
    }

    /// Component-wise negation.
    pub fn neg(self) -> (r: CF)
        requires
            self.wf(),
        ensures
            r.wf(),
            r@ == cneg(self@),
    {
        CF { a: self.a.neg(), b: self.b.neg() }
    }

    /// Full multiplication, by the Karatsuba scheme: three base-field
    /// multiplications, ac, bd and (a + b)(c + d), in place of four.
    pub fn mul(self, rhs: CF) -> (r: CF)
        requires
            self.wf(),
            rhs.wf(),
        ensures
            r.wf(),
            r@ == cmul(self@, rhs@),
    {
        let a = self.a;
        let b = self.b;
        let c = rhs.a;
        let d = rhs.b;
        let ac = a.mul(c);
        let bd = b.mul(d);
        let re = ac.sub(bd);
        let im = a.add(b).mul(c.add(d)).sub(ac).sub(bd);
        proof {
            lemma_karatsuba(a@, b@, c@, d@);
        }
        CF { a: re, b: im }
    }

    /// Multiplication by a base-field scalar, applied to both components;
    /// equal to multiplication by the element (f, 0).
    pub fn mul_by_f(self, f: RF) -> (r: CF)
        requires
            self.wf(),
            f.is_canonical(),
        ensures
            r.wf(),
            r@ == (fmul(f@, self@.0), fmul(f@, self@.1)),
            r@ == cmul(self@, (f@, 0)),
    {
        proof {
            lemma_modp_small(0);
            assert(f@ * self@.0 == self@.0 * f@) by (nonlinear_arith);
            assert(f@ * self@.1 == self@.1 * f@) by (nonlinear_arith);
        }
        CF { a: f.mul(self.real_part()), b: f.mul(self.imag()) }
    }

    /// Fast multiplication by the fixed 8th root of unity (2^15, 2^15):
    /// the Karatsuba scheme specialized to c = d = 2^15, so that every
    /// base-field product is a shift.
    pub fn mul_by_w8(self) -> (r: CF)
        requires
            self.wf(),
        ensures
            r.wf(),
            r@ == cmul(self@, (0x8000, 0x8000)),
    {
        let a = self.a;
        let b = self.b;
        let ac = a.mul_by_2_15();
        let bd = b.mul_by_2_15();
        let re = ac.sub(bd);
        // c + d = 2^16, so one shifted product replaces (a + b)(c + d).
        let im = a.add(b).mul_by_2_16().sub(ac).sub(bd);
        proof {
            lemma_modp_sub(a@ * 0x8000, b@ * 0x8000);
            lemma_modp_mul(a@ + b@, 0x10000);
            lemma_modp_sub((a@ + b@) * 0x10000, a@ * 0x8000);
            lemma_modp_sub((a@ + b@) * 0x10000 - a@ * 0x8000, b@ * 0x8000);
        }
        CF { a: re, b: im }
    }

    /// Fast multiplication by -1: negate both components; equal to
    /// multiplication by the element (P - 1, 0), the square of the 4th
    /// root of unity.
    pub fn mul_neg_1(self) -> (r: CF)
        requires
            self.wf(),
        ensures
            r.wf(),
            r@ == cneg(self@),
            r@ == cmul(self@, ((P - 1) as int, 0)),
    {
        proof {
            lemma_mul_p_minus_one(self@.0);
            lemma_mul_p_minus_one(self@.1);
        }
        CF { a: self.a.neg(), b: self.b.neg() }
    }

    /// Fast multiplication by the primitive 4th root i = (0, 1):
    /// (a, b) becomes (-b, a).
    pub fn mul_j(self) -> (r: CF)
        requires
            self.wf(),
        ensures
            r.wf(),
            r@ == cmul(self@, (0, 1)),
    {
        proof {
            lemma_modp_small(self@.0);
        }
        CF { a: self.b.neg(), b: self.a }
    }

    /// Multiplicative inverse: exactly `cf_inverse_spec` — the conjugate
    /// (a, -b) scaled by the checked inverse of the norm a^2 + b^2, so a
    /// returned value is an inverse by construction; the additive
    /// identity has none and yields `None`.
    pub fn try_inverse(&self) -> (r: Option<CF>)
        requires
            self.wf(),
        ensures
            r == cf_inverse_spec(self@),
            self@ == c_zero() ==> r is None,
            r matches Some(y) ==> y.wf() && cmul(self@, y@) == c_one(),
    {
        if self.a.val == 0 && self.b.val == 0 {
            return None;
        }
        let norm = self.a.mul(self.a).add(self.b.mul(self.b)).reduce();
        proof {
            lemma_modp_add(self@.0 * self@.0, self@.1 * self@.1);
        }
        if norm.is_zero() {
            return None;
        }
        match norm.try_inverse() {
            None => None,
            Some(inv0) => {
                let norm_inv = inv0.reduce();
                let conj = CF { a: self.a, b: self.b.neg() };
                let result = conj.mul_by_f(norm_inv);
                proof {
                    lemma_cf_inverse(self@.0, self@.1, norm_inv@);
                }
                Some(result)
            },
        }
    }

    /// Binary exponentiation: square-and-multiply over the bits of the
    /// exponent; the zero exponent yields the multiplicative identity.
    pub fn pow(self, exp: usize) -> (r: CF)
        requires
            self.wf(),
        ensures
            r.wf(),
            r@ == cpow(self@, exp as nat),
    {
        let mut result = CF::one();
        let mut base = self;
        let mut e: usize = exp;
        proof {
            lemma_cpow_canonical(self@, exp as nat);
            lemma_mul_comm(c_one(), cpow(self@, exp as nat));
            lemma_mul_one(cpow(self@, exp as nat));
        }
        while e > 0
            invariant
                result.wf(),
                base.wf(),
                cmul(result@, cpow(base@, e as nat)) == cpow(self@, exp as nat),
            decreases e,
        {
            proof {
                let e0 = e as nat;
                let b2 = cmul(base@, base@);
                lemma_cpow_two(base@);
                lemma_cpow_mul(base@, 2, e0 / 2);
                if e % 2 == 1 {
                    lemma_mul_comm(cpow(b2, e0 / 2), base@);
                    lemma_mul_assoc(result@, base@, cpow(b2, e0 / 2));
                }
            }
            if e % 2 == 1 {
                result = result.mul(base);
            }
            base = base.mul(base);
            e = e / 2;
        }
        proof {
            lemma_mul_one(result@);
        }
        result
    }

    /// A square root, if the two-branch construction finds one: the
    /// extension-field analogue of the complex formula
    /// x = sqrt((|z| + Re z) / 2), y = Im z / (2 x), with the sign choice
    /// replaced by an explicit verification of the candidate. The result
    /// is exactly `cf_sqrt_spec`: every returned value squares back to
    /// the input, the additive identity is its own root, the real branch
    /// is preferred, and an input whose norm is a base-field non-residue
    /// always fails. Either branch may fail even for a square, so `None`
    /// says no more than `cf_sqrt_spec` does.
    pub fn try_sqrt(self) -> (r: Option<CF>)
        requires
            self.wf(),
        ensures
            r == cf_sqrt_spec(self@),
            r matches Some(s) ==> s.wf() && cmul(s@, s@) == self@,
            self@ == c_zero() ==> (r matches Some(s) && s@ == c_zero()),
            (forall|y: int| 0 <= y < P ==> fmul(y, y) != cnorm(self@)) ==> r is None,
    {
        if self.is_zero() {
            proof {
                lemma_modp_small(0);
                assert(fmul(0, 0) == cnorm(self@));
            }
            return Some(CF::zero());
        }
        // 2^30 doubles to 2^31 = P + 1, so it is the inverse of 2.
        let two_inv = RF { val: 0x4000_0000 };
        let a = self.a;
        let b = self.b;
        let norm = a.mul(a).add(b.mul(b)).reduce();
        proof {
            lemma_modp_add(self@.0 * self@.0, self@.1 * self@.1);
        }
        let r0 = match norm.try_sqrt() {
            Some(v) => v,
            None => {
                return None;
            },
        };
        // First branch: x = sqrt((a + r) / 2), then y = b / (2 x).
        let cand_x2 = a.add(r0).mul(two_inv).reduce();
        match cand_x2.try_sqrt() {
            Some(x) => {
                if !x.is_zero() {
                    match x.try_inverse() {
                        Some(x_inv) => {
                            let y = b.mul(two_inv).mul(x_inv).reduce();
                            let candidate = (CF { a: x, b: y }).reduce();
                            if candidate.mul(candidate) == self {
                                proof {
                                    lemma_norm_of_square(candidate@);
                                }
                                return Some(candidate);
                            }
                        },
                        None => {},
                    }
                }
            },
            None => {},
        }
        proof {
            assert(cf_sqrt_branch1(self@, r0@) is None);
        }
        // Second branch: y = sqrt((r - a) / 2), then x = b / (2 y).
        let cand_y2 = r0.sub(a).mul(two_inv).reduce();
        match cand_y2.try_sqrt() {
            Some(y) => {
                if !y.is_zero() {
                    match y.try_inverse() {
                        Some(y_inv) => {
                            let x = b.mul(two_inv).mul(y_inv).reduce();
                            let candidate = (CF { a: x, b: y }).reduce();
                            if candidate.mul(candidate) == self {
                                proof {
                                    lemma_norm_of_square(candidate@);
                                }
                                return Some(candidate);
                            }
                        },
                        None => {},
                    }
                }
            },
            None => {},
        }
        None
    }

    /// The primitive 2nd root of unity, -1 = (P - 1, 0).
    pub fn root_of_unity_2() -> (r: CF)
        ensures
            r.wf(),
            r@ == c_neg_one(),
            is_primitive_root(r@, 2),
    {
        proof {
            lemma2_to64();
            lemma_modp_small((P - 1) as int);
            lemma_modp_small(0);
            lemma_cpow_two(c_neg_one());
            lemma_half_order_primitive(c_neg_one(), 0);
        }
        CF::new(0x7fff_fffe, 0)
    }

    /// A primitive 4th root of unity (0, ±1); the selector `i` picks
    /// which of the two, 0 for (0, 1) and 1 for (0, -1).
    pub fn root_of_unity_4(i: u32) -> (r: CF)
        requires
            i < 2,
        ensures
            r.wf(),
            r@ == if i == 0 {
                (0int, 1int)
            } else {
                (0int, (P - 1) as int)
            },
            is_primitive_root(r@, 4),
    {
        proof {
            lemma_modp_small(0);
            lemma_modp_small(1);
            lemma_modp_small((P - 1) as int);
            lemma_w4_squares();
            lemma_fourth_root((0int, 1int));
            lemma_fourth_root((0int, (P - 1) as int));
        }
        if i == 0 {
            CF::new(0, 1)
        } else {
            CF::new(0, P - 1)
        }
    }

    /// A primitive 8th root of unity (±2^15, ±2^15); the selector `i`
    /// picks the signs: 0 for (v, v), 1 for (v, -v), 2 for (-v, v) and
    /// 3 for (-v, -v), with v = 2^15.
    pub fn root_of_unity_8(i: u32) -> (r: CF)
        requires
            i < 4,
        ensures
            r.wf(),
            r@ == if i == 0 {
                (0x8000int, 0x8000int)
            } else if i == 1 {
                (0x8000int, (P - 0x8000) as int)
            } else if i == 2 {
                ((P - 0x8000) as int, 0x8000int)
            } else {
                ((P - 0x8000) as int, (P - 0x8000) as int)
            },
            is_primitive_root(r@, 8),
    {
        let v: u32 = 0x8000;
        let neg_v: u32 = P - v;
        proof {
            lemma_modp_small(0x8000);
            lemma_modp_small((P - 0x8000) as int);
            lemma_w8_squares();
            lemma_w4_squares();
            lemma_eighth_root((0x8000int, 0x8000int), (0int, 1int));
            lemma_eighth_root(
                ((P - 0x8000) as int, (P - 0x8000) as int),
                (0int, 1int),
            );
            lemma_eighth_root(
                (0x8000int, (P - 0x8000) as int),
                (0int, (P - 1) as int),
            );
            lemma_eighth_root(
                ((P - 0x8000) as int, 0x8000int),
                (0int, (P - 1) as int),
            );
        }
        if i == 0 {
            CF::new(v, v)
        } else if i == 1 {
            CF::new(v, neg_v)
        } else if i == 2 {
            CF::new(neg_v, v)
        } else {
            CF::new(neg_v, neg_v)
        }
    }

    /// Canonicalizes both components; the identity on well-formed values.
    pub fn reduce(self) -> (r: CF)
        ensures
            r.wf(),
            r@ == (modp(self.a.val as int), modp(self.b.val as int)),
            self.wf() ==> r == self,
    {
        CF { a: self.a.reduce(), b: self.b.reduce() }
    }
}

impl From<u32> for CF {
    /// The word becomes the real part; the imaginary part is zero.
    fn from(v: u32) -> (r: CF) {
        CF::new(v, 0)
    }
}

impl vstd::std_specs::convert::FromSpecImpl<u32> for CF {
    open spec fn obeys_from_spec() -> bool {
        true
    }

    open spec fn from_spec(v: u32) -> CF {
        CF { a: RF { val: modp(v as int) as u32 }, b: RF { val: 0 } }
    }
}

impl From<(u32, u32)> for CF {
    /// The first word becomes the real part, the second the imaginary.
    fn from(v: (u32, u32)) -> (r: CF) {
        CF::new(v.0, v.1)
    }
}

impl vstd::std_specs::convert::FromSpecImpl<(u32, u32)> for CF {
    open spec fn obeys_from_spec() -> bool {
        true
    }

    open spec fn from_spec(v: (u32, u32)) -> CF {
        CF { a: RF { val: modp(v.0 as int) as u32 }, b: RF { val: modp(v.1 as int) as u32 } }
    }
}

impl From<CF> for (u32, u32) {
    /// The canonical numeric values of the two components.
    fn from(f: CF) -> (r: (u32, u32)) {
        (f.a.reduce().val, f.b.reduce().val)
    }
}

impl vstd::std_specs::convert::FromSpecImpl<CF> for (u32, u32) {
    open spec fn obeys_from_spec() -> bool {
        true
    }

    open spec fn from_spec(f: CF) -> (u32, u32) {
        (modp(f.a.val as int) as u32, modp(f.b.val as int) as u32)
    }
}

} // verus!
