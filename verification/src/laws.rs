//! The algebraic laws of the extension field, stated over the residue-pair
//! model used by the contracts in `cm31` and proved once for every value.

use crate::cm31::{
    c_neg_one, c_one, c_zero, cadd, canonical_pair, cmul, cneg, cnorm, cpow, is_primitive_root,
};
use crate::rm31::{
    fmul, lemma_modp_add, lemma_modp_mul, lemma_modp_small, lemma_modp_sub, modp, P,
};
use vstd::arithmetic::div_mod::{lemma_mod_add_multiples_vanish, lemma_mod_multiples_vanish};
use vstd::arithmetic::mul::{
    lemma_mul_is_associative, lemma_mul_is_distributive_add,
    lemma_mul_is_distributive_add_other_way, lemma_mul_is_distributive_sub,
    lemma_mul_is_distributive_sub_other_way,
};
use vstd::arithmetic::power2::{lemma2_to64, lemma_pow2_pos, lemma_pow2_unfold, pow2};
use vstd::prelude::*;

verus! {

/// Inner reductions of both products in a difference of products can be
/// dropped, whichever factor carries them.
proof fn lemma_modp_sub_of_products(u: int, v: int, s: int, t: int)
    ensures
        modp(modp(u) * s - modp(v) * t) == modp(u * s - v * t),
        modp(s * modp(u) - t * modp(v)) == modp(s * u - t * v),
{
    lemma_modp_sub(modp(u) * s, modp(v) * t);
    lemma_modp_mul(u, s);
    lemma_modp_mul(v, t);
    lemma_modp_sub(u * s, v * t);
    lemma_modp_sub(s * modp(u), t * modp(v));
    lemma_modp_mul(s, u);
    lemma_modp_mul(t, v);
    lemma_modp_sub(s * u, t * v);
    assert(modp(u) * s == s * modp(u) && u * s == s * u) by (nonlinear_arith);
    assert(modp(v) * t == t * modp(v) && v * t == t * v) by (nonlinear_arith);
}

/// The companion of `lemma_modp_sub_of_products` for a sum of products.
proof fn lemma_modp_add_of_products(u: int, v: int, s: int, t: int)
    ensures
        modp(modp(u) * s + modp(v) * t) == modp(u * s + v * t),
        modp(s * modp(u) + t * modp(v)) == modp(s * u + t * v),
{
    lemma_modp_add(modp(u) * s, modp(v) * t);
    lemma_modp_mul(u, s);
    lemma_modp_mul(v, t);
    lemma_modp_add(u * s, v * t);
    lemma_modp_add(s * modp(u), t * modp(v));
    lemma_modp_mul(s, u);
    lemma_modp_mul(t, v);
    lemma_modp_add(s * u, t * v);
    assert(modp(u) * s == s * modp(u) && u * s == s * u) by (nonlinear_arith);
    assert(modp(v) * t == t * modp(v) && v * t == t * v) by (nonlinear_arith);
}

/// Addition is associative.
pub proof fn lemma_add_assoc(x: (int, int), y: (int, int), z: (int, int))
    ensures
        cadd(cadd(x, y), z) == cadd(x, cadd(y, z)),
{
    lemma_modp_add(x.0 + y.0, z.0);
    lemma_modp_add(x.1 + y.1, z.1);
    lemma_modp_add(x.0, y.0 + z.0);
    lemma_modp_add(x.1, y.1 + z.1);
}

/// Addition is commutative.
pub proof fn lemma_add_comm(x: (int, int), y: (int, int))
    ensures
        cadd(x, y) == cadd(y, x),
{
}

/// The additive identity is neutral.
pub proof fn lemma_add_zero(x: (int, int))
    requires
        canonical_pair(x),
    ensures
        cadd(x, c_zero()) == x,
{
    lemma_modp_small(x.0);
    lemma_modp_small(x.1);
}

/// Every element and its negation sum to the additive identity.
pub proof fn lemma_add_neg(x: (int, int))
    ensures
        cadd(x, cneg(x)) == c_zero(),
{
    lemma_modp_add(x.0, -x.0);
    lemma_modp_add(x.1, -x.1);
    lemma_modp_small(0);
}

/// Multiplication is commutative.
pub proof fn lemma_mul_comm(x: (int, int), y: (int, int))
    ensures
        cmul(x, y) == cmul(y, x),
{
    assert(x.0 * y.0 - x.1 * y.1 == y.0 * x.0 - y.1 * x.1) by (nonlinear_arith);
    assert(x.0 * y.1 + x.1 * y.0 == y.0 * x.1 + y.1 * x.0) by (nonlinear_arith);
}

/// The two ring identities behind associativity of the pair product,
/// built from distributivity and associativity of integer products.
proof fn lemma_ring_assoc(a: int, b: int, c: int, d: int, e: int, f: int)
    ensures
        (a * c - b * d) * e - (a * d + b * c) * f == a * (c * e - d * f) - b * (c * f + d * e),
        (a * c - b * d) * f + (a * d + b * c) * e == a * (c * f + d * e) + b * (c * e - d * f),
{
    lemma_mul_is_distributive_sub_other_way(e, a * c, b * d);
    lemma_mul_is_distributive_sub_other_way(f, a * c, b * d);
    lemma_mul_is_distributive_add_other_way(e, a * d, b * c);
    lemma_mul_is_distributive_add_other_way(f, a * d, b * c);
    lemma_mul_is_distributive_sub(a, c * e, d * f);
    lemma_mul_is_distributive_sub(b, c * e, d * f);
    lemma_mul_is_distributive_add(a, c * f, d * e);
    lemma_mul_is_distributive_add(b, c * f, d * e);
    lemma_mul_is_associative(a, c, e);
    lemma_mul_is_associative(b, d, e);
    lemma_mul_is_associative(a, d, f);
    lemma_mul_is_associative(b, c, f);
    lemma_mul_is_associative(a, c, f);
    lemma_mul_is_associative(b, d, f);
    lemma_mul_is_associative(a, d, e);
    lemma_mul_is_associative(b, c, e);
}

/// Multiplication is associative.
pub proof fn lemma_mul_assoc(x: (int, int), y: (int, int), z: (int, int))
    ensures
        cmul(cmul(x, y), z) == cmul(x, cmul(y, z)),
{
    let u = x.0 * y.0 - x.1 * y.1;
    let v = x.0 * y.1 + x.1 * y.0;
    let s = y.0 * z.0 - y.1 * z.1;
    let t = y.0 * z.1 + y.1 * z.0;
    lemma_modp_sub_of_products(u, v, z.0, z.1);
    lemma_modp_add_of_products(u, v, z.1, z.0);
    lemma_modp_sub_of_products(s, t, x.0, x.1);
    lemma_modp_add_of_products(t, s, x.0, x.1);
    lemma_ring_assoc(x.0, x.1, y.0, y.1, z.0, z.1);
}

/// The multiplicative identity is neutral.
pub proof fn lemma_mul_one(x: (int, int))
    requires
        canonical_pair(x),
    ensures
        cmul(x, c_one()) == x,
{
    lemma_modp_small(x.0);
    lemma_modp_small(x.1);
}

/// Multiplication distributes over addition.
pub proof fn lemma_mul_distrib(x: (int, int), y: (int, int), z: (int, int))
    ensures
        cmul(x, cadd(y, z)) == cadd(cmul(x, y), cmul(x, z)),
{
    lemma_modp_sub_of_products(y.0 + z.0, y.1 + z.1, x.0, x.1);
    lemma_modp_add_of_products(y.1 + z.1, y.0 + z.0, x.0, x.1);
    lemma_modp_add(x.0 * y.0 - x.1 * y.1, x.0 * z.0 - x.1 * z.1);
    lemma_modp_add(x.0 * y.1 + x.1 * y.0, x.0 * z.1 + x.1 * z.0);
    assert(x.0 * (y.0 + z.0) - x.1 * (y.1 + z.1) == (x.0 * y.0 - x.1 * y.1) + (x.0 * z.0 - x.1
        * z.1)) by (nonlinear_arith);
    assert(x.0 * (y.1 + z.1) + x.1 * (y.0 + z.0) == (x.0 * y.1 + x.1 * y.0) + (x.0 * z.1 + x.1
        * z.0)) by (nonlinear_arith);
}

/// Negating both factors leaves a product unchanged.
pub proof fn lemma_mul_neg_both(x: (int, int), y: (int, int))
    ensures
        cmul(cneg(x), cneg(y)) == cmul(x, y),
{
    lemma_modp_sub_of_products(-x.0, -x.1, modp(-y.0), modp(-y.1));
    lemma_modp_sub_of_products(-y.0, -y.1, -x.0, -x.1);
    lemma_modp_add_of_products(-x.0, -x.1, modp(-y.1), modp(-y.0));
    lemma_modp_add_of_products(-y.1, -y.0, -x.0, -x.1);
    assert((-x.0) * (-y.0) - (-x.1) * (-y.1) == x.0 * y.0 - x.1 * y.1) by (nonlinear_arith);
    assert((-x.0) * (-y.1) + (-x.1) * (-y.0) == x.0 * y.1 + x.1 * y.0) by (nonlinear_arith);
}

/// Every power of an element is a canonical pair.
pub proof fn lemma_cpow_canonical(x: (int, int), n: nat)
    ensures
        canonical_pair(cpow(x, n)),
    decreases n,
{
    if n != 0 {
        lemma_cpow_canonical(x, (n - 1) as nat);
    }
}

/// Raising to a sum of exponents multiplies the powers.
pub proof fn lemma_cpow_add(x: (int, int), m: nat, n: nat)
    ensures
        cpow(x, m + n) == cmul(cpow(x, m), cpow(x, n)),
    decreases n,
{
    if n == 0 {
        lemma_cpow_canonical(x, m);
        lemma_mul_one(cpow(x, m));
    } else {
        lemma_cpow_add(x, m, (n - 1) as nat);
        lemma_mul_assoc(cpow(x, m), cpow(x, (n - 1) as nat), x);
    }
}

/// Raising to a product of exponents iterates the powers.
pub proof fn lemma_cpow_mul(x: (int, int), m: nat, n: nat)
    ensures
        cpow(x, m * n) == cpow(cpow(x, m), n),
    decreases n,
{
    if n == 0 {
        assert(m * n == 0) by (nonlinear_arith)
            requires
                n == 0,
        ;
    } else {
        assert(m * n == m * (n - 1) + m) by (nonlinear_arith);
        lemma_cpow_mul(x, m, (n - 1) as nat);
        lemma_cpow_add(x, m * (n - 1) as nat, m);
        assert(cpow(cpow(x, m), n) == cmul(cpow(cpow(x, m), (n - 1) as nat), cpow(x, m)));
    }
}

/// Every power of the multiplicative identity is the identity.
pub proof fn lemma_cpow_one_base(n: nat)
    ensures
        cpow(c_one(), n) == c_one(),
    decreases n,
{
    if n != 0 {
        lemma_cpow_one_base((n - 1) as nat);
        lemma_mul_one(c_one());
    }
}

/// -1 squares to the multiplicative identity.
pub proof fn lemma_neg_one_sq()
    ensures
        cmul(c_neg_one(), c_neg_one()) == c_one(),
{
    assert(0x7fff_fffe * 0x7fff_fffe == 0x7fff_ffff * 0x7fff_fffd + 1int) by (nonlinear_arith);
    lemma_mod_multiples_vanish(0x7fff_fffd, 1, P as int);
    lemma_modp_small(1);
    lemma_modp_small(0);
}

/// Powers of -1 alternate between the two identities.
pub proof fn lemma_cpow_neg_one(n: nat)
    ensures
        cpow(c_neg_one(), n) == if n % 2 == 0 {
            c_one()
        } else {
            c_neg_one()
        },
    decreases n,
{
    if n != 0 {
        lemma_cpow_neg_one((n - 1) as nat);
        if (n - 1) % 2 == 0 {
            lemma_mul_comm(c_one(), c_neg_one());
            lemma_mul_one(c_neg_one());
        } else {
            lemma_neg_one_sq();
        }
    }
}

/// The first two powers, written out: x^1 = x and x^2 = x * x.
pub proof fn lemma_cpow_two(x: (int, int))
    requires
        canonical_pair(x),
    ensures
        cpow(x, 1) == x,
        cpow(x, 2) == cmul(x, x),
{
    assert(cpow(x, 0) == c_one());
    assert(cpow(x, 1) == cmul(cpow(x, 0), x));
    assert(cpow(x, 2) == cmul(cpow(x, 1), x));
    lemma_mul_comm(c_one(), x);
    lemma_mul_one(x);
}

/// A product of pairs is canonical.
pub proof fn lemma_cmul_canonical(x: (int, int), y: (int, int))
    ensures
        canonical_pair(cmul(x, y)),
{
}

/// A half-order certificate for two-power orders: an element whose
/// 2^i-th power is -1 is a primitive 2^(i+1)-th root of unity. Odd
/// exponents are excluded because they would force (-1)^odd = 1, and
/// even ones by descending to the square of the element.
pub proof fn lemma_half_order_primitive(w: (int, int), i: nat)
    requires
        canonical_pair(w),
        cpow(w, pow2(i)) == c_neg_one(),
    ensures
        is_primitive_root(w, pow2(i + 1)),
    decreases i,
{
    lemma2_to64();
    lemma_pow2_unfold(i + 1);
    lemma_pow2_pos(i);
    lemma_cpow_mul(w, pow2(i), 2);
    assert(pow2(i) * 2 == 2 * pow2(i)) by (nonlinear_arith);
    lemma_cpow_neg_one(2);
    assert(cpow(w, pow2(i + 1)) == c_one());
    assert forall|j: nat| 0 < j < pow2(i + 1) implies cpow(w, j) != c_one() by {
        if cpow(w, j) == c_one() {
            if j % 2 == 1 {
                lemma_cpow_mul(w, j, pow2(i));
                lemma_cpow_one_base(pow2(i));
                lemma_cpow_mul(w, pow2(i), j);
                lemma_cpow_neg_one(j);
                assert(j * pow2(i) == pow2(i) * j) by (nonlinear_arith);
                assert(false);
            } else if i == 0 {
                // 0 < j < 2 leaves no even j
                assert(false);
            } else {
                let j2 = (j / 2) as nat;
                let w2 = cmul(w, w);
                lemma_cpow_two(w);
                lemma_cmul_canonical(w, w);
                lemma_cpow_mul(w, 2, j2);
                lemma_pow2_unfold(i);
                lemma_cpow_mul(w, 2, pow2((i - 1) as nat));
                lemma_half_order_primitive(w2, (i - 1) as nat);
                assert(cpow(w2, j2) == c_one());
                assert(false);
            }
        }
    }
}

/// Each successive power multiplies once more by the base, and the
/// zeroth power is the multiplicative identity. Stated over `cpow` for
/// every exponent, this is the recurrence behind `CF::pow`, whose
/// contract returns exactly `cpow` of its input.
pub proof fn lemma_pow_succ(x: (int, int), n: nat)
    ensures
        cpow(x, 0) == c_one(),
        cpow(x, n + 1) == cmul(cpow(x, n), x),
{
}

/// The fourth-root candidates (0, 1) and (0, P-1) are each other's
/// negation and both square to -1.
pub proof fn lemma_w4_squares()
    ensures
        cneg((0int, 1int)) == (0int, (P - 1) as int),
        cmul((0int, 1int), (0int, 1int)) == c_neg_one(),
        cmul((0int, (P - 1) as int), (0int, (P - 1) as int)) == c_neg_one(),
{
    lemma_mod_add_multiples_vanish(-1, P as int);
    lemma_modp_small((P - 1) as int);
    lemma_modp_small(0);
    lemma_mul_neg_both((0int, 1int), (0int, 1int));
}

/// The eighth-root candidates (±2^15, ±2^15): the same-sign pairs square
/// to the fourth root (0, 1), the mixed pairs to (0, P-1), and negation
/// links the four.
pub proof fn lemma_w8_squares()
    ensures
        cneg((0x8000int, 0x8000int)) == ((P - 0x8000) as int, (P - 0x8000) as int),
        cneg((0x8000int, (P - 0x8000) as int)) == ((P - 0x8000) as int, 0x8000int),
        cmul((0x8000int, 0x8000int), (0x8000int, 0x8000int)) == (0int, 1int),
        cmul(((P - 0x8000) as int, (P - 0x8000) as int), ((P - 0x8000) as int, (P - 0x8000) as int))
            == (0int, 1int),
        cmul((0x8000int, (P - 0x8000) as int), (0x8000int, (P - 0x8000) as int)) == (0int, (P
            - 1) as int),
        cmul(((P - 0x8000) as int, 0x8000int), ((P - 0x8000) as int, 0x8000int)) == (0int, (P
            - 1) as int),
{
    let v = 0x8000int;
    let nv = (P - 0x8000) as int;
    lemma_mod_add_multiples_vanish(-v, P as int);
    lemma_modp_small(nv);
    lemma_mod_add_multiples_vanish(v - P as int, P as int);
    lemma_modp_small(v);
    assert(0x8000int * 0x8000int == 0x4000_0000int) by (nonlinear_arith);
    lemma_mod_add_multiples_vanish(1, P as int);
    lemma_modp_small(1);
    lemma_modp_small(0);
    lemma_modp_sub(v * v, nv * nv);
    lemma_modp_mul(-v, -v);
    assert((-0x8000int) * (-0x8000int) == 0x8000int * 0x8000int) by (nonlinear_arith);
    lemma_modp_add(v * nv, nv * v);
    lemma_modp_mul(v, -v);
    lemma_modp_mul(-v, v);
    assert(0x8000int * (-0x8000int) == -0x4000_0000int && (-0x8000int) * 0x8000int
        == -0x4000_0000int) by (nonlinear_arith);
    lemma_mod_add_multiples_vanish(-0x4000_0000, P as int);
    lemma_modp_small((P - 0x4000_0000) as int);
    lemma_modp_small((P - 1) as int);
    lemma_mul_neg_both((0x8000int, 0x8000int), (0x8000int, 0x8000int));
    lemma_mul_neg_both((0x8000int, (P - 0x8000) as int), (0x8000int, (P - 0x8000) as int));
}

/// The norm of a squared element is the square of its norm; so a
/// square's norm is always a base-field quadratic residue.
pub proof fn lemma_norm_of_square(s: (int, int))
    ensures
        cnorm(cmul(s, s)) == fmul(cnorm(s), cnorm(s)),
{
    let a = s.0;
    let b = s.1;
    let re = a * a - b * b;
    let im = a * b + b * a;
    let n0 = a * a + b * b;
    lemma_modp_add(modp(re) * modp(re), modp(im) * modp(im));
    lemma_modp_mul(re, re);
    lemma_modp_mul(im, im);
    lemma_modp_add(re * re, im * im);
    assert(cnorm(cmul(s, s)) == modp(re * re + im * im));
    lemma_modp_mul(n0, n0);
    assert(fmul(cnorm(s), cnorm(s)) == modp(n0 * n0));
    let u = a * a;
    let v = b * b;
    let w = a * b;
    assert(w * w == u * v) by (nonlinear_arith)
        requires
            u == a * a && v == b * b && w == a * b,
    ;
    assert((u - v) * (u - v) + (w + w) * (w + w) == (u + v) * (u + v)) by (nonlinear_arith)
        requires
            w * w == u * v,
    ;
    assert(a * b == b * a) by (nonlinear_arith);
    assert(re * re + im * im == n0 * n0);
}

/// An element that squares to -1 is a primitive 4th root of unity.
pub proof fn lemma_fourth_root(w: (int, int))
    requires
        canonical_pair(w),
        cmul(w, w) == c_neg_one(),
    ensures
        is_primitive_root(w, 4),
{
    lemma2_to64();
    lemma_cpow_two(w);
    lemma_half_order_primitive(w, 1);
}

/// An element whose square in turn squares to -1 is a primitive 8th
/// root of unity.
pub proof fn lemma_eighth_root(w: (int, int), s: (int, int))
    requires
        canonical_pair(w),
        canonical_pair(s),
        cmul(w, w) == s,
        cmul(s, s) == c_neg_one(),
    ensures
        is_primitive_root(w, 8),
{
    lemma2_to64();
    lemma_cpow_two(w);
    lemma_cpow_mul(w, 2, 2);
    lemma_cpow_two(s);
    lemma_half_order_primitive(w, 2);
}

} // verus!
