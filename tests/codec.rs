use kyber_poly::{
    poly_compress, poly_compress4, poly_compress5, poly_decompress, poly_decompress4,
    poly_decompress5, poly_frombytes, poly_frommsg, poly_tobytes, poly_tomsg, Poly, KYBER_N,
    KYBER_POLYBYTES, KYBER_POLYCOMPRESSEDBYTES, KYBER_Q,
};

fn sample_poly(seed: u32) -> Poly {
    let mut p = Poly::new();
    let mut x = seed;
    for i in 0..KYBER_N {
        x = x.wrapping_mul(1103515245).wrapping_add(12345);
        p.coeffs[i] = ((x >> 8) % KYBER_Q as u32) as i16;
    }
    p
}

#[test]
fn bytes_round_trip() {
    for seed in 0..20 {
        let p = sample_poly(seed);
        let mut buf = [0u8; KYBER_POLYBYTES];
        poly_tobytes(&mut buf, p);
        let mut back = Poly::new();
        poly_frombytes(&mut back, &buf);
        assert_eq!(back.coeffs, p.coeffs);
    }
}

#[test]
fn bytes_layout_and_negative_coefficients() {
    let mut p = Poly::new();
    p.coeffs[0] = 0xabc;
    p.coeffs[1] = 0x123;
    p.coeffs[2] = -1;
    let mut buf = [0u8; KYBER_POLYBYTES + 2];
    buf[KYBER_POLYBYTES] = 7;
    poly_tobytes(&mut buf, p);
    assert_eq!(&buf[0..3], &[0xbc, 0x3a, 0x12]);
    assert_eq!(buf[KYBER_POLYBYTES], 7);
    let mut back = Poly::new();
    poly_frombytes(&mut back, &buf);
    assert_eq!(back.coeffs[2], KYBER_Q - 1);
}

#[test]
fn compress_zero_polynomial() {
    let p = Poly::new();
    let mut buf = [0u8; KYBER_POLYCOMPRESSEDBYTES];
    poly_compress(&mut buf, p);
    assert!(buf.iter().all(|&b| b == 0));
    let mut back = Poly::new();
    back.coeffs[5] = 99;
    poly_decompress(&mut back, &buf);
    assert!(back.coeffs.iter().all(|&c| c == 0));

    let mut buf5 = [0u8; 160];
    poly_compress5(&mut buf5, p);
    let mut back5 = Poly::new();
    poly_decompress5(&mut back5, &buf5);
    assert!(back5.coeffs.iter().all(|&c| c == 0));
}

#[test]
fn compress_half_q_to_midpoint() {
    let mut p = Poly::new();
    for c in p.coeffs.iter_mut() {
        *c = KYBER_Q / 2;
    }
    let mut buf4 = [0u8; 128];
    poly_compress4(&mut buf4, p);
    assert!(buf4.iter().all(|&b| b == 0x88));
    let mut buf5 = [0u8; 160];
    poly_compress5(&mut buf5, p);
    let mut back5 = Poly::new();
    poly_decompress5(&mut back5, &buf5);
    assert!(back5.coeffs.iter().all(|&c| c as i32 == (16 * 3329 + 16) >> 5));
    let mut back4 = Poly::new();
    poly_decompress4(&mut back4, &buf4);
    assert!(back4.coeffs.iter().all(|&c| c as i32 == (8 * 3329 + 8) >> 4));
}

fn check_error_bound(bits: u32, bound: i32) {
    let q = KYBER_Q as i32;
    for u in 0..q {
        // values that round up to 2^bits wrap to 0 and are left out
        if ((u << bits) + q / 2) / q >= (1 << bits) {
            continue;
        }
        let mut p = Poly::new();
        p.coeffs[3] = u as i16;
        let mut back = Poly::new();
        if bits == 4 {
            let mut buf = [0u8; 128];
            poly_compress4(&mut buf, p);
            poly_decompress4(&mut back, &buf);
        } else {
            let mut buf = [0u8; 160];
            poly_compress5(&mut buf, p);
            poly_decompress5(&mut back, &buf);
        }
        assert!((back.coeffs[3] as i32 - u).abs() <= bound, "u = {}", u);
    }
}

#[test]
fn compress_error_is_bounded() {
    check_error_bound(4, 105);
    check_error_bound(5, 53);
}

#[test]
fn compress_wraps_values_just_below_q() {
    let mut p = Poly::new();
    p.coeffs[0] = KYBER_Q - 1;
    p.coeffs[1] = -1;
    let mut buf = [0u8; 128];
    poly_compress4(&mut buf, p);
    assert_eq!(buf[0], 0);
}

#[test]
fn compress5_exact_bytes() {
    let mut p = Poly::new();
    for j in 0..8 {
        p.coeffs[j] = (j as i16) * 400;
    }
    let mut buf = [0u8; 160];
    poly_compress5(&mut buf, p);
    let t: Vec<u64> = (0..8u64).map(|j| ((j * 400 * 32 + 1664) / 3329) % 32).collect();
    let v: u64 = (0..8).map(|j| t[j] << (5 * j)).sum();
    for m in 0..5 {
        assert_eq!(buf[m] as u64, (v >> (8 * m)) & 0xff);
    }
    let mut back = Poly::new();
    poly_decompress5(&mut back, &buf);
    for j in 0..8 {
        assert_eq!(back.coeffs[j] as u64, (t[j] * 3329 + 16) >> 5);
    }
}

#[test]
fn message_round_trip() {
    let mut msg = [0u8; 32];
    for i in 0..32 {
        msg[i] = (i as u8).wrapping_mul(37).wrapping_add(11);
    }
    msg[0] = 0;
    msg[31] = 0xff;
    let mut p = Poly::new();
    poly_frommsg(&mut p, &msg);
    assert_eq!(p.coeffs[0], 0);
    assert!(p.coeffs[248..256].iter().all(|&c| c == 1665));
    let mut out = [0u8; 32];
    poly_tomsg(&mut out, p);
    assert_eq!(out, msg);
}

#[test]
fn message_decoding_rounds_to_nearest() {
    let mut p = Poly::new();
    p.coeffs[0] = 832;
    p.coeffs[1] = 833;
    p.coeffs[2] = 2496;
    p.coeffs[3] = 2497;
    p.coeffs[4] = -1000;
    let mut out = [0u8; 32];
    poly_tomsg(&mut out, p);
    assert_eq!(out[0], 0b0001_0110);
}

#[test]
fn bytes_reencode_any_string() {
    let mut buf = [0u8; KYBER_POLYBYTES];
    for i in 0..KYBER_POLYBYTES {
        buf[i] = (i as u8).wrapping_mul(151).wrapping_add(89);
    }
    buf[0] = 0xff;
    buf[1] = 0xff;
    let mut p = Poly::new();
    poly_frombytes(&mut p, &buf);
    assert_eq!(p.coeffs[0], 4095);
    let mut out = [0u8; KYBER_POLYBYTES];
    poly_tobytes(&mut out, p);
    assert_eq!(out, buf);
}

#[test]
fn bytes_of_out_of_range_coefficients() {
    let mut p = Poly::new();
    p.coeffs[0] = i16::MAX;
    p.coeffs[1] = i16::MIN;
    p.coeffs[2] = 4095;
    p.coeffs[3] = -1;
    p.coeffs[4] = 5000;
    p.coeffs[5] = 3329;
    let mut buf = [0u8; KYBER_POLYBYTES];
    poly_tobytes(&mut buf, p);
    assert_eq!(&buf[0..9], &[255, 127, 208, 255, 15, 208, 136, 19, 208]);
}
