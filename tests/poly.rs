use kyber_poly::{
    is_prime, poly_add, poly_cbd, poly_cbd_eta1, poly_cbd_eta2, poly_frommont,
    poly_getnoise_eta1, poly_getnoise_eta2, poly_reduce, poly_sub, prf, Poly, KYBER_N, KYBER_Q,
};

#[test]
fn new_and_default_are_zero() {
    assert!(Poly::new().coeffs.iter().all(|&c| c == 0));
    assert!(Poly::default().coeffs.iter().all(|&c| c == 0));
}

#[test]
fn add_and_sub_coefficientwise() {
    let mut r = Poly::new();
    let mut b = Poly::new();
    for i in 0..KYBER_N {
        r.coeffs[i] = i as i16;
        b.coeffs[i] = 1000 - 3 * i as i16;
    }
    let orig = r;
    poly_add(&mut r, &b);
    for i in 0..KYBER_N {
        assert_eq!(r.coeffs[i], orig.coeffs[i] + b.coeffs[i]);
    }
    let mut s = orig;
    poly_sub(&mut s, &b);
    for i in 0..KYBER_N {
        assert_eq!(s.coeffs[i], b.coeffs[i] - orig.coeffs[i]);
    }
}

#[test]
fn reduce_every_coefficient() {
    let mut r = Poly::new();
    r.coeffs[0] = 32767;
    r.coeffs[1] = -32768;
    r.coeffs[2] = 3329;
    r.coeffs[3] = 5;
    poly_reduce(&mut r);
    assert_eq!(&r.coeffs[0..4], &[-523, 522, 0, 5]);
}

#[test]
fn frommont_every_coefficient() {
    let mut r = Poly::new();
    r.coeffs[0] = 1;
    r.coeffs[1] = -1664;
    r.coeffs[2] = i16::MAX;
    poly_frommont(&mut r);
    assert_eq!(r.coeffs[0], -1044);
    assert_eq!(r.coeffs[1], -522);
    assert_eq!(
        (r.coeffs[2] as i64).rem_euclid(KYBER_Q as i64),
        (i16::MAX as i64 * 65536).rem_euclid(KYBER_Q as i64)
    );
    assert_eq!(r.coeffs[3], 0);
}

#[test]
fn prf_known_answer() {
    let mut out = [0u8; 10];
    out[8] = 0xaa;
    out[9] = 0xbb;
    prf(&mut out, 8, &[0u8; 32], 0);
    assert_eq!(&out[0..8], &[0xc0, 0x3f, 0xcc, 0x81, 0xe7, 0x36, 0x09, 0x87]);
    assert_eq!(&out[8..10], &[0xaa, 0xbb]);
    let seed: Vec<u8> = (0..32).collect();
    prf(&mut out, 8, &seed, 7);
    assert_eq!(&out[0..8], &[0xef, 0x0d, 0xb3, 0x22, 0x86, 0x29, 0xd8, 0xc1]);
}

#[test]
fn cbd_exact_samples() {
    let mut r = Poly::new();
    poly_cbd(&mut r, &[0x33u8; 128], 2);
    assert!(r.coeffs.iter().all(|&c| c == 2));
    poly_cbd_eta1(&mut r, &[0xffu8; 128]);
    assert!(r.coeffs.iter().all(|&c| c == 0));
    poly_cbd_eta2(&mut r, &[0xccu8; 128]);
    assert!(r.coeffs.iter().all(|&c| c == -2));
    let mut buf = Vec::new();
    for _ in 0..64 {
        buf.extend_from_slice(&[0xc7, 0x71, 0x1c]);
    }
    poly_cbd(&mut r, &buf, 3);
    assert!(r.coeffs.iter().all(|&c| c == 3));
}

#[test]
fn getnoise_known_samples() {
    let seed: Vec<u8> = (0..32).collect();
    let mut r = Poly::new();
    poly_getnoise_eta1(&mut r, &seed, 7);
    assert_eq!(&r.coeffs[0..16], &[0, -1, -1, 0, 2, 1, 1, 1, 0, -1, 0, 1, -1, -1, 1, -2]);
    assert!(r.coeffs.iter().all(|&c| -2 <= c && c <= 2));
    let mut again = Poly::new();
    poly_getnoise_eta2(&mut again, &seed, 7);
    assert_eq!(again.coeffs, r.coeffs);
    poly_getnoise_eta2(&mut again, &seed, 8);
    assert_ne!(again.coeffs, r.coeffs);
}

#[test]
fn primality_by_trial_division() {
    assert!(is_prime(0));
    assert!(is_prime(1));
    assert!(is_prime(2));
    assert!(is_prime(3));
    assert!(!is_prime(4));
    assert!(!is_prime(9));
    assert!(is_prime(3329));
    assert!(!is_prime(65537 * 3));
    assert!(is_prime(4294967291));
    assert!(!is_prime(4294967295));
}
