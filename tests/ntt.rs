use kyber_poly::{
    basemul, invntt, montgomery_reduce, ntt, poly_basemul, poly_invntt_tomont, poly_ntt,
    poly_reduce, Poly, KYBER_N, KYBER_Q, ZETAS,
};

fn modq(x: i64) -> i64 {
    x.rem_euclid(KYBER_Q as i64)
}

fn sample_poly(seed: u32, bound: u32) -> Poly {
    let mut p = Poly::new();
    let mut x = seed;
    for i in 0..KYBER_N {
        x = x.wrapping_mul(1103515245).wrapping_add(12345);
        p.coeffs[i] = (((x >> 8) % (2 * bound + 1)) as i32 - bound as i32) as i16;
    }
    p
}

fn schoolbook(a: &Poly, b: &Poly) -> Vec<i64> {
    let mut c = vec![0i64; KYBER_N];
    for i in 0..KYBER_N {
        for j in 0..KYBER_N {
            let prod = a.coeffs[i] as i64 * b.coeffs[j] as i64;
            if i + j < KYBER_N {
                c[i + j] += prod;
            } else {
                c[i + j - KYBER_N] -= prod;
            }
        }
    }
    c
}

fn multiply_through_transform(a: &Poly, b: &Poly) -> Poly {
    let mut ta = *a;
    let mut tb = *b;
    poly_ntt(&mut ta);
    poly_ntt(&mut tb);
    let mut c = Poly::new();
    poly_basemul(&mut c, &ta, &tb);
    poly_invntt_tomont(&mut c);
    c
}

#[test]
fn zetas_are_montgomery_powers_of_17() {
    let q = KYBER_Q as i64;
    for k in 0..128usize {
        let mut brv = 0usize;
        for bit in 0..7 {
            if k & (1 << bit) != 0 {
                brv |= 1 << (6 - bit);
            }
        }
        let mut pow = 1i64;
        for _ in 0..brv {
            pow = pow * 17 % q;
        }
        assert_eq!(modq(ZETAS[k] as i64), pow * 65536 % q);
    }
}

#[test]
fn ntt_of_one_is_one_in_every_quotient() {
    // 1 modulo each x^2 - zeta is 1 + 0 x
    let mut p = Poly::new();
    p.coeffs[0] = 1;
    poly_ntt(&mut p);
    for i in 0..KYBER_N {
        assert_eq!(p.coeffs[i], if i % 2 == 0 { 1 } else { 0 });
    }
}

#[test]
fn ntt_output_is_reduced() {
    let mut p = sample_poly(3, 9471);
    poly_ntt(&mut p);
    assert!(p.coeffs.iter().all(|&c| -1664 <= c && c <= 1664));
}

#[test]
fn inverse_ntt_undoes_ntt_up_to_montgomery_factor() {
    for seed in 0..5 {
        let p = sample_poly(seed, 3328);
        let mut r = p;
        poly_ntt(&mut r);
        poly_invntt_tomont(&mut r);
        for i in 0..KYBER_N {
            assert_eq!(modq(r.coeffs[i] as i64), modq(p.coeffs[i] as i64 * 65536));
            let back = montgomery_reduce(r.coeffs[i] as i32) as i64;
            assert_eq!(modq(back), modq(p.coeffs[i] as i64));
        }
    }
}

#[test]
fn raw_transforms_round_trip() {
    let p = sample_poly(11, 3000);
    let mut r = p.coeffs;
    ntt(&mut r);
    let mut reduced = Poly { coeffs: r };
    poly_reduce(&mut reduced);
    let mut back = reduced.coeffs;
    invntt(&mut back);
    for i in 0..KYBER_N {
        assert_eq!(modq(back[i] as i64), modq(p.coeffs[i] as i64 * 65536));
    }
}

#[test]
fn basemul_of_monomials_matches_negacyclic_product() {
    for (i, j) in [(0usize, 0usize), (1, 1), (0, 255), (200, 100), (255, 255), (17, 42)] {
        let mut a = Poly::new();
        let mut b = Poly::new();
        a.coeffs[i] = 1;
        b.coeffs[j] = 1;
        let c = multiply_through_transform(&a, &b);
        let expected = schoolbook(&a, &b);
        for k in 0..KYBER_N {
            assert_eq!(modq(c.coeffs[k] as i64), modq(expected[k]), "x^{} * x^{}", i, j);
        }
    }
}

#[test]
fn basemul_matches_schoolbook_on_small_polynomials() {
    for seed in 0..3 {
        let a = sample_poly(seed, 2);
        let b = sample_poly(seed + 100, 3328);
        let c = multiply_through_transform(&a, &b);
        let expected = schoolbook(&a, &b);
        for k in 0..KYBER_N {
            assert_eq!(modq(c.coeffs[k] as i64), modq(expected[k]));
        }
    }
}

#[test]
fn basemul_degree_two_product() {
    let zeta = ZETAS[64];
    let (r0, r1) = basemul(3, 5, 7, 11, zeta);
    assert_eq!((r0, r1), (1772, -1824));
    let zinv = 169i64;
    let z = zeta as i64 * zinv;
    assert_eq!(modq(r0 as i64), modq(zinv * (3 * 7 + 5 * 11 * z)));
    assert_eq!(modq(r1 as i64), modq(zinv * (3 * 11 + 5 * 7)));
}
