use vstd::prelude::*;
use vstd::arithmetic::div_mod::{
    lemma_fundamental_div_mod, lemma_fundamental_div_mod_converse, lemma_mod_multiples_basic,
};
use crate::params::{congruent, mont_r, q, KYBER_Q, QINV};

verus! {

/// Exclusive bound on the magnitude of an input to Montgomery reduction: `2^15 * q`.
pub open spec fn mont_bound() -> int {
    109084672
}

/// `r` is the Montgomery reduction of `a`.
///
/// `a - r * 2^16` is `u * q` for a `u` in the signed 16-bit range. Since `q` is odd,
/// that `u` is the only one in the range with `u * q == a (mod 2^16)`, so `r` is
/// determined by `a` (see [`lemma_montgomery_reduction_unique`]). It lies in `(-q, q)` and
/// `r * 2^16 == a (mod q)`.
pub open spec fn is_montgomery_reduction(a: int, r: int) -> bool {
    &&& -q() < r < q()
    &&& congruent(r * mont_r(), a)
    &&& -32768 <= (a - r * mont_r()) / q() < 32768
}

/// At most one value is the Montgomery reduction of a given `a`.
pub proof fn lemma_montgomery_reduction_unique(a: int, r1: int, r2: int)
    requires
        is_montgomery_reduction(a, r1),
        is_montgomery_reduction(a, r2),
    ensures
        r1 == r2,
{
    let u1 = (a - r1 * mont_r()) / q();
    let u2 = (a - r2 * mont_r()) / q();
    lemma_fundamental_div_mod(a - r1 * mont_r(), q());
    lemma_fundamental_div_mod(a - r2 * mont_r(), q());
    assert((a - r1 * mont_r()) % q() == 0 && (a - r2 * mont_r()) % q() == 0) by {
        let k1 = lemma_multiple_of_congruent(r1 * mont_r(), a);
        let k2 = lemma_multiple_of_congruent(r2 * mont_r(), a);
        lemma_congruent_by_multiple(a, r1 * mont_r(), -k1);
        lemma_congruent_by_multiple(a, r2 * mont_r(), -k2);
    }
    assert(u1 - u2 == 65536 * (-3160 * (u1 - u2) + 62209 * (r2 - r1)));
}

/// The Montgomery reduction of `a`, for `a` in `(-2^15 q, 2^15 q)`.
pub open spec fn montgomery_value(a: int) -> int {
    choose|r: int| is_montgomery_reduction(a, r)
}

/// A value that is the Montgomery reduction of `a` is [`montgomery_value`] of `a`.
pub proof fn lemma_montgomery_value(a: int, r: int)
    requires
        is_montgomery_reduction(a, r),
    ensures
        montgomery_value(a) == r,
{
    lemma_montgomery_reduction_unique(a, montgomery_value(a), r);
}

/// The Barrett reduction of `a`: `a - q * round(a * v / 2^26)` with `v = floor(2^26 / q) + 1`.
pub open spec fn barrett_value(a: int) -> int {
    a - q() * ((20159 * a + 33554432) / 67108864)
}

/// `2^32 mod q`: multiplying by it and reducing multiplies by `2^16` modulo `q`.
pub const MONT_SQUARE: i32 = 1353;

/// `floor(2^26 / q) + 1`, the fixed-point approximation of `1 / q` used by Barrett reduction.
const BARRETT_V: i32 = 20159;

/// Two values whose difference is a multiple of `q` are congruent.
pub proof fn lemma_congruent_by_multiple(a: int, b: int, k: int)
    requires
        a - b == k * q(),
    ensures
        congruent(a, b),
{
    lemma_mod_multiples_basic(k, q());
}

/// Two congruent values differ by a multiple of `q`.
pub proof fn lemma_multiple_of_congruent(a: int, b: int) -> (k: int)
    requires
        congruent(a, b),
    ensures
        a - b == k * q(),
{
    lemma_fundamental_div_mod(a - b, q());
    (a - b) / q()
}

/// Congruence is transitive.
pub proof fn lemma_congruent_trans(a: int, b: int, c: int)
    requires
        congruent(a, b),
        congruent(b, c),
    ensures
        congruent(a, c),
{
    let k1 = lemma_multiple_of_congruent(a, b);
    let k2 = lemma_multiple_of_congruent(b, c);
    lemma_congruent_by_multiple(a, c, k1 + k2);
}

/// Sums and differences of congruent values are congruent.
pub proof fn lemma_congruent_add_sub(a: int, b: int, c: int, d: int)
    requires
        congruent(a, b),
        congruent(c, d),
    ensures
        congruent(a + c, b + d),
        congruent(a - c, b - d),
{
    let k1 = lemma_multiple_of_congruent(a, b);
    let k2 = lemma_multiple_of_congruent(c, d);
    lemma_congruent_by_multiple(a + c, b + d, k1 + k2);
    lemma_congruent_by_multiple(a - c, b - d, k1 - k2);
}

/// Multiplying congruent values by the same factor keeps them congruent.
pub proof fn lemma_congruent_mul(c: int, x: int, y: int)
    requires
        congruent(x, y),
    ensures
        congruent(c * x, c * y),
{
    let k = lemma_multiple_of_congruent(x, y);
    assert(c * x - c * y == (c * k) * q()) by (nonlinear_arith)
        requires
            x - y == k * q(),
    ;
    lemma_congruent_by_multiple(c * x, c * y, c * k);
}

/// If `t * 2^16 == x (mod q)` then `t == x * 2^(-16) (mod q)`, where `2^(-16) mod q` is 169.
pub proof fn lemma_montgomery_unscale(t: int, x: int)
    requires
        congruent(t * mont_r(), x),
    ensures
        congruent(t, 169 * x),
{
    let k = lemma_multiple_of_congruent(t * mont_r(), x);
    lemma_congruent_by_multiple(t, 169 * x, -3327 * t + 169 * k);
}

/// Montgomery reduction: for `a` in `(-2^15 q, 2^15 q)`, returns `a * 2^(-16) mod q` as a
/// value in `(-q, q)`.
pub fn montgomery_reduce(a: i32) -> (r: i16)
    requires
        -mont_bound() < a < mont_bound(),
    ensures
        is_montgomery_reduction(a as int, r as int),
        r == montgomery_value(a as int),
{
    let lo: u32 = (a as u32) & 0xffff;
    proof {
        assert(lo < 65536) by (bit_vector)
            requires
                lo == (a as u32) & 0xffffu32,
        ;
    }
    let u: i16 = #[verifier::truncate] ((lo * QINV) as i16);
    let t: i32 = a - (u as i32) * (KYBER_Q as i32);
    let r: i16 = (t >> 16) as i16;
    proof {
        assert(t & 0xffffi32 == 0i32) by (bit_vector)
            requires
                lo == (a as u32) & 0xffffu32,
                u == (lo * 62209u32) as i16,
                t == (a - (u as i32) * 3329i32) as i32,
        ;
        assert(t & 0xffffi32 == 0i32 ==> (t >> 16u32) as int * 65536 == t as int) by (bit_vector);
        assert(r * mont_r() == t);
        lemma_congruent_by_multiple(r * mont_r(), a as int, -(u as int));
        lemma_fundamental_div_mod_converse(a - r * mont_r(), q(), u as int, 0);
        lemma_montgomery_value(a as int, r as int);
    }
    r
}

/// Barrett reduction: returns the representative of `a mod q` given by [`barrett_value`],
/// which lies in `[-(q-1)/2, (q-1)/2]`.
pub fn barrett_reduce(a: i16) -> (r: i16)
    ensures
        r == barrett_value(a as int),
        -1664 <= r <= 1664,
        congruent(r as int, a as int),
{
    let x: i32 = BARRETT_V * (a as i32) + 33554432;
    let t: i32 = x >> 26;
    proof {
        assert((t as int) * 67108864 <= x as int) by (bit_vector)
            requires
                t == x >> 26u32,
        ;
        assert((x as int) < (t as int) * 67108864 + 67108864) by (bit_vector)
            requires
                t == x >> 26u32,
        ;
        lemma_fundamental_div_mod_converse(x as int, 67108864, t as int, x - t * 67108864);
        lemma_congruent_by_multiple(a - t * q(), a as int, -(t as int));
    }
    ((a as i32) - t * (KYBER_Q as i32)) as i16
}

/// Multiplication in the Montgomery domain: the Montgomery reduction of `a * b`.
pub fn fqmul(a: i16, b: i16) -> (r: i16)
    requires
        -mont_bound() < a * b < mont_bound(),
    ensures
        is_montgomery_reduction(a * b, r as int),
        r == montgomery_value(a * b),
{
    montgomery_reduce((a as i32) * (b as i32))
}

/// Multiplies by `2^16` modulo `q`: the Montgomery reduction of `r * (2^32 mod q)`.
pub fn frommont(r: i32) -> (res: i16)
    requires
        -mont_bound() < r * MONT_SQUARE < mont_bound(),
    ensures
        is_montgomery_reduction(r * MONT_SQUARE, res as int),
        congruent(res as int, r * mont_r()),
{
    let res = montgomery_reduce(r * MONT_SQUARE);
    proof {
        let k = lemma_multiple_of_congruent(res * mont_r(), r * MONT_SQUARE);
        lemma_congruent_by_multiple(
            res as int,
            r * mont_r(),
            -3327 * res + 169 * k + 49 * r,
        );
    }
    res
}

} // verus!
