use cm31_ntt::cm31::{gen_roots_of_unity, CF};
use cm31_ntt::rm31::{RF, P};
use rand_chacha::rand_core::{RngCore, SeedableRng};
use rand_chacha::ChaCha8Rng;

fn sample(rng: &mut ChaCha8Rng) -> CF {
    CF::new(rng.next_u32(), rng.next_u32())
}

#[test]
fn test_new() {
    assert_eq!(CF::new(0, 0).a.val, 0);
    assert_eq!(CF::new(1, 0).a.val, 1);
    assert_eq!(CF::new(0, 1).b.val, 1);
}

#[test]
fn test_one() {
    assert_eq!(CF::one().a.val, 1);
    assert_eq!(CF::one().b.val, 0);
}

#[test]
fn test_into() {
    let x: CF = 0u32.into();
    assert_eq!(x, CF::new(0, 0));

    let x: CF = 1u32.into();
    assert_eq!(x, CF::new(1, 0));

    let x: CF = (1u32, 2u32).into();
    assert_eq!(x, CF::new(1, 2));

    let y: (u32, u32) = x.into();
    assert_eq!(y, (1, 2));
}

#[test]
fn test_add() {
    assert_eq!(CF::new(1, 0).add(CF::new(1, 0)), CF::new(2, 0));
    assert_eq!(CF::new(0, 1).add(CF::new(0, 1)), CF::new(0, 2));
    assert_eq!(CF::new(P - 1, P - 1).add(CF::new(1, 2)), CF::new(0, 1));
}

#[test]
fn test_neg() {
    let x = CF::new(1, 2);
    assert_eq!(x.neg(), CF::new(P - 1, P - 2));
}

#[test]
fn test_mul() {
    assert_eq!(CF::new(2, 2).mul(CF::new(4, 5)), CF::new(P - 2, 18));
}

#[test]
fn test_inverse() {
    let mut rng = ChaCha8Rng::seed_from_u64(0);
    for _ in 0..1024 {
        let x: CF = sample(&mut rng);
        let x_inv = CF::try_inverse(&x).unwrap();
        assert_eq!(x.mul(x_inv), CF::new(1, 0));
    }
}

#[test]
fn test_pow() {
    let mut rng = ChaCha8Rng::seed_from_u64(0);
    for _ in 0..128 {
        let x: CF = sample(&mut rng);
        let mut r = CF::one();
        for i in 0..1024 {
            assert_eq!(r, x.pow(i));
            r = r.mul(x);
        }
    }
}

fn do_root_of_unity_test(root: CF, n: usize) {
    let mut r = CF::one();
    let one = CF::one();
    for _ in 0..n - 1 {
        r = r.mul(root);
        assert_ne!(r, one);
    }
    r = r.mul(root);
    assert_eq!(r, one);
}

#[test]
fn test_w4() {
    for i in 0..2 {
        do_root_of_unity_test(CF::root_of_unity_4(i), 4);
    }
}

#[test]
fn test_w8() {
    for i in 0..4 {
        do_root_of_unity_test(CF::root_of_unity_8(i), 8);
    }
}

#[test]
fn test_sqrt() {
    let mut rng = ChaCha8Rng::seed_from_u64(1);
    let v: CF = sample(&mut rng);
    let v = v.reduce();
    let v2 = v.mul(v).reduce();
    let s = v2.try_sqrt().unwrap();
    assert_eq!(s.mul(s), v2);
}

#[test]
fn test_w16() {
    let w8 = CF::root_of_unity_8(0);
    let w16 = w8.try_sqrt().unwrap();
    do_root_of_unity_test(w16, 16);
}

#[test]
fn test_w2() {
    let w4 = CF::root_of_unity_4(0);
    let w2 = w4.mul(w4);
    do_root_of_unity_test(w2, 2);
}

#[test]
fn test_w32() {
    let w8 = CF::root_of_unity_8(0);
    let w16 = w8.try_sqrt().unwrap();
    let w32 = w16.try_sqrt().unwrap();
    do_root_of_unity_test(w32, 32);
}

#[test]
fn test_gen_roots_of_unity() {
    let roots_of_unity = gen_roots_of_unity(21).unwrap();
    for i in 0..roots_of_unity.len() {
        let w = roots_of_unity[i];
        do_root_of_unity_test(w, 2usize.pow(i as u32 + 1));
    }
}

#[test]
fn test_opts() {
    // Test the optimized functions.
    let w = CF::root_of_unity_8(0);
    let j = w.pow(2);
    let neg_1 = w.pow(4);

    let v: CF = CF::new(0x12345678, 0x87654321);
    let v_neg_1 = v.mul_neg_1();
    assert_eq!(v.mul(neg_1), v_neg_1);

    let v_j = v.mul_j();
    assert_eq!(v.mul(j), v_j);
}

#[test]
fn test_mul_by_w8() {
    let w_8 = CF::root_of_unity_8(0);
    let mut rng = ChaCha8Rng::seed_from_u64(0);
    for _ in 0..1023 {
        let x: CF = sample(&mut rng);
        let x_w8 = x.mul_by_w8();
        let expected = x.mul(w_8);
        assert_eq!(x_w8, expected);
    }
}

#[test]
fn test_zero_boundaries() {
    // The additive identity is its own square root and has no inverse.
    assert_eq!(CF::zero().try_sqrt(), Some(CF::zero()));
    assert!(CF::zero().try_inverse().is_none());
    assert!(CF::zero().is_zero());
    assert!(RF::new(0).try_inverse().is_none());
}

#[test]
fn test_sqrt_nonresidue() {
    // The norm of (2, 2041534867) is congruent to -1, a non-residue of
    // the base field since P = 3 mod 4, so no square root can exist.
    let v = CF::new(2, 2041534867);
    assert!(v.try_sqrt().is_none());
    // -1 itself is a base-field non-residue.
    assert!(RF::new(P - 1).try_sqrt().is_none());
}

#[test]
fn test_rm31_basics() {
    // P reduces to the additive identity.
    assert_eq!(RF::new(P).val, 0);
    // reduce canonicalizes any word and is idempotent.
    let x = RF { val: 0xffff_ffff };
    let r = x.reduce();
    assert_eq!(r.val, 0xffff_ffff % P);
    assert_eq!(r.reduce(), r);
    // A known square root in the base field.
    let s = RF::new(4).try_sqrt().unwrap();
    assert_eq!(s.mul(s), RF::new(4));
    assert_eq!(s.val, 2);
    // Fixed-shift products agree with general products.
    let y = RF::new(0x1234_5678);
    assert_eq!(y.mul_by_2_15(), y.mul(RF::new(1 << 15)));
    assert_eq!(y.mul_by_2_16(), y.mul(RF::new(1 << 16)));
}

#[test]
fn test_mul_by_f() {
    let x = CF::new(2, 3);
    assert_eq!(x.mul_by_f(RF::new(5)), CF::new(10, 15));
    // Scaling by a base-field element equals multiplying by (f, 0).
    assert_eq!(x.mul_by_f(RF::new(5)), x.mul(CF::new(5, 0)));
}

#[test]
fn test_sub() {
    assert_eq!(CF::new(5, 1).sub(CF::new(2, 3)), CF::new(3, P - 2));
    assert_eq!(CF::new(0, 0).sub(CF::new(1, 1)), CF::new(P - 1, P - 1));
}

#[test]
fn test_tower_squares() {
    // Squaring entry i + 1 of the tower yields entry i.
    let roots = gen_roots_of_unity(10).unwrap();
    assert_eq!(roots.len(), 10);
    assert_eq!(roots[0], CF::new(P - 1, 0));
    for i in 0..roots.len() - 1 {
        let s = roots[i + 1];
        assert_eq!(s.mul(s), roots[i]);
    }
}

#[test]
fn test_real_imag_accessors() {
    let x = CF::new(7, 9);
    assert_eq!(x.real_part(), RF::new(7));
    assert_eq!(x.imag(), RF::new(9));
}

#[test]
fn test_field_laws_concrete() {
    // Associativity, distributivity and inverses on sampled values.
    let mut rng = ChaCha8Rng::seed_from_u64(7);
    for _ in 0..64 {
        let x = sample(&mut rng);
        let y = sample(&mut rng);
        let z = sample(&mut rng);
        assert_eq!(x.add(y).add(z), x.add(y.add(z)));
        assert_eq!(x.mul(y).mul(z), x.mul(y.mul(z)));
        assert_eq!(x.mul(y.add(z)), x.mul(y).add(x.mul(z)));
        assert_eq!(x.add(CF::zero()), x);
        assert_eq!(x.mul(CF::one()), x);
        assert_eq!(x.add(x.neg()), CF::zero());
        if !x.is_zero() {
            assert_eq!(x.mul(x.try_inverse().unwrap()), CF::one());
        }
    }
}

#[test]
fn test_pow_consistency() {
    let mut rng = ChaCha8Rng::seed_from_u64(9);
    let x = sample(&mut rng);
    assert_eq!(x.pow(0), CF::one());
    for n in 0..32 {
        assert_eq!(x.pow(n + 1), x.pow(n).mul(x));
    }
}

#[test]
fn test_sqrt_roundtrip_sampled() {
    let mut rng = ChaCha8Rng::seed_from_u64(3);
    for _ in 0..128 {
        let v = sample(&mut rng);
        if let Some(s) = v.try_sqrt() {
            assert_eq!(s.mul(s), v.reduce());
        }
    }
}
