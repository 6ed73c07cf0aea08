use kyber_poly::{barrett_reduce, fqmul, frommont, montgomery_reduce, KYBER_Q};

const Q: i32 = KYBER_Q as i32;

fn modq(x: i64) -> i64 {
    x.rem_euclid(Q as i64)
}

#[test]
fn montgomery_reduce_fixed_value() {
    assert_eq!(montgomery_reduce(-5423531), 160);
}

#[test]
fn montgomery_reduce_small_values() {
    assert_eq!(montgomery_reduce(0), 0);
    assert_eq!(montgomery_reduce(1), 169);
    assert_eq!(montgomery_reduce(Q * 1000), 0);
}

#[test]
fn montgomery_reduce_congruence_over_safe_range() {
    let bound: i32 = (1 << 15) * Q;
    let mut a: i32 = -bound + 1;
    while a < bound {
        let r = montgomery_reduce(a) as i64;
        assert!(-(Q as i64) < r && r < Q as i64);
        assert_eq!(modq(r * 65536), modq(a as i64));
        a += 9973;
    }
    for a in [bound - 1, -bound + 1, 12345678, -98765432] {
        let r = montgomery_reduce(a) as i64;
        assert_eq!(modq(r * 65536), modq(a as i64));
    }
}

#[test]
fn barrett_reduce_full_range() {
    for a in i16::MIN..=i16::MAX {
        let r = barrett_reduce(a);
        assert!(-1664 <= r && r <= 1664);
        assert_eq!(modq(r as i64), modq(a as i64));
    }
}

#[test]
fn barrett_reduce_exact_values() {
    assert_eq!(barrett_reduce(32767), -523);
    assert_eq!(barrett_reduce(-32768), 522);
    assert_eq!(barrett_reduce(3329), 0);
    assert_eq!(barrett_reduce(1665), -1664);
}

#[test]
fn fqmul_is_montgomery_product() {
    assert_eq!(fqmul(1, 1), 169);
    let r = fqmul(1000, -3000) as i64;
    assert_eq!(modq(r * 65536), modq(-3_000_000));
}

#[test]
fn frommont_multiplies_by_radix() {
    assert_eq!(frommont(1), -1044);
    assert_eq!(frommont(-1664), -522);
    for r in -1664..1664 {
        let v = frommont(r) as i64;
        assert_eq!(modq(v), modq(r as i64 * 65536));
    }
}
