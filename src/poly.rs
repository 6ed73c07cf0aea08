use vstd::prelude::*;
use crate::cbd::{cbd_coeff, poly_cbd_eta1, poly_cbd_eta2};
use crate::params::{congruent, mont_r, q, KYBER_ETA1, KYBER_ETA2, KYBER_N, KYBER_SYMBYTES};
use crate::symmetric::{prf, shake256_output};
use crate::ntt::{
    all_congruent, basemul, basemul_coeff, basemul_inputs_bounded, basemul_value, coeffs_int, invntt,
    invntt_exact, invntt_spec, ntt, ntt_exact_layers, ntt_input_bound, ntt_spec, ZETAS,
};
use crate::reduce::{
    barrett_reduce, barrett_value, frommont, is_montgomery_reduction, lemma_congruent_trans,
    mont_bound, MONT_SQUARE,
};

verus! {

/// An element of `Z_q[x]/(x^256 + 1)`: 256 signed 16-bit coefficients.
///
/// Which range the coefficients lie in (unreduced, signed representatives in `(-q, q)`,
/// positive representatives in `[0, q)`) and whether they are in the NTT or the
/// Montgomery domain is stated by the contracts of the functions that use it.
#[derive(Clone, Copy, Debug)]
pub struct Poly {
    pub coeffs: [i16; KYBER_N],
}

/// Every coefficient of `p` lies in `[lo, hi]`.
pub open spec fn coeffs_within(p: Poly, lo: int, hi: int) -> bool {
    forall|i: int| 0 <= i < KYBER_N ==> lo <= #[trigger] p.coeffs[i] <= hi
}

impl Poly {
    /// The zero polynomial.
    pub fn new() -> (p: Self)
        ensures
            forall|i: int| 0 <= i < KYBER_N ==> #[trigger] p.coeffs[i] == 0,
    {
        Poly { coeffs: [0i16; KYBER_N] }
    }
}

impl Default for Poly {
    fn default() -> (p: Self)
        ensures
            forall|i: int| 0 <= i < KYBER_N ==> #[trigger] p.coeffs[i] == 0,
    {
        Poly::new()
    }
}

/// Applies Barrett reduction to every coefficient.
pub fn poly_reduce(r: &mut Poly)
    ensures
        forall|i: int|
            0 <= i < KYBER_N ==> #[trigger] final(r).coeffs[i] == barrett_value(
                old(r).coeffs[i] as int,
            ),
        coeffs_within(*final(r), -1664, 1664),
{
    for i in 0..KYBER_N
        invariant
            forall|k: int| 0 <= k < i ==> #[trigger] r.coeffs[k] == barrett_value(old(r).coeffs[k] as int),
            forall|k: int| 0 <= k < i ==> -1664 <= #[trigger] r.coeffs[k] <= 1664,
            forall|k: int| i <= k < KYBER_N ==> #[trigger] r.coeffs[k] == old(r).coeffs[k],
    {
        r.coeffs[i] = barrett_reduce(r.coeffs[i]);
    }
}

/// Multiplies every coefficient by `2^16` modulo `q` (the Montgomery reduction of
/// `c * (2^32 mod q)`); the results lie in `(-q, q)`.
pub fn poly_frommont(r: &mut Poly)
    ensures
        forall|i: int|
            0 <= i < KYBER_N ==> is_montgomery_reduction(
                old(r).coeffs[i] * MONT_SQUARE,
                #[trigger] final(r).coeffs[i] as int,
            ),
        forall|i: int|
            0 <= i < KYBER_N ==> congruent(
                #[trigger] final(r).coeffs[i] as int,
                old(r).coeffs[i] * mont_r(),
            ),
{
    for i in 0..KYBER_N
        invariant
            forall|k: int|
                0 <= k < i ==> is_montgomery_reduction(
                    old(r).coeffs[k] * MONT_SQUARE,
                    #[trigger] r.coeffs[k] as int,
                ),
            forall|k: int|
                0 <= k < i ==> congruent(#[trigger] r.coeffs[k] as int, old(r).coeffs[k] * mont_r()),
            forall|k: int| i <= k < KYBER_N ==> #[trigger] r.coeffs[k] == old(r).coeffs[k],
    {
        let c = r.coeffs[i];
        assert(-mont_bound() < c * MONT_SQUARE < mont_bound());
        r.coeffs[i] = frommont(c as i32);
    }
}

/// Adds `b` to `r` coefficient by coefficient, without reduction.
pub fn poly_add(r: &mut Poly, b: &Poly)
    requires
        forall|i: int|
            0 <= i < KYBER_N ==> i16::MIN <= #[trigger] old(r).coeffs[i] + b.coeffs[i] <= i16::MAX,
    ensures
        forall|i: int|
            0 <= i < KYBER_N ==> #[trigger] final(r).coeffs[i] == old(r).coeffs[i] + b.coeffs[i],
{
    for i in 0..KYBER_N
        invariant
            forall|k: int|
                0 <= k < KYBER_N ==> i16::MIN <= #[trigger] old(r).coeffs[k] + b.coeffs[k] <= i16::MAX,
            forall|k: int| 0 <= k < i ==> #[trigger] r.coeffs[k] == old(r).coeffs[k] + b.coeffs[k],
            forall|k: int| i <= k < KYBER_N ==> #[trigger] r.coeffs[k] == old(r).coeffs[k],
    {
        r.coeffs[i] = r.coeffs[i] + b.coeffs[i];
    }
}

/// Replaces `r` by `a - r` coefficient by coefficient, without reduction: `r` is the
/// subtrahend and receives the difference.
pub fn poly_sub(r: &mut Poly, a: &Poly)
    requires
        forall|i: int|
            0 <= i < KYBER_N ==> i16::MIN <= a.coeffs[i] - #[trigger] old(r).coeffs[i] <= i16::MAX,
    ensures
        forall|i: int|
            0 <= i < KYBER_N ==> #[trigger] final(r).coeffs[i] == a.coeffs[i] - old(r).coeffs[i],
{
    for i in 0..KYBER_N
        invariant
            forall|k: int|
                0 <= k < KYBER_N ==> i16::MIN <= a.coeffs[k] - #[trigger] old(r).coeffs[k] <= i16::MAX,
            forall|k: int| 0 <= k < i ==> #[trigger] r.coeffs[k] == a.coeffs[k] - old(r).coeffs[k],
            forall|k: int| i <= k < KYBER_N ==> #[trigger] r.coeffs[k] == old(r).coeffs[k],
    {
        r.coeffs[i] = a.coeffs[i] - r.coeffs[i];
    }
}


/// Forward transform of `r` followed by Barrett reduction of every coefficient: the result
/// is congruent to [`ntt_spec`] of the input, coefficient by coefficient, and lies in
/// `[-(q-1)/2, (q-1)/2]`, which holds one representative of each residue.
pub fn poly_ntt(r: &mut Poly)
    requires
        coeffs_within(*old(r), -ntt_input_bound(), ntt_input_bound()),
    ensures
        forall|i: int|
            0 <= i < KYBER_N ==> #[trigger] final(r).coeffs[i] == barrett_value(
                ntt_exact_layers(coeffs_int(old(r).coeffs), 7)[i],
            ),
        all_congruent(coeffs_int(final(r).coeffs), ntt_spec(coeffs_int(old(r).coeffs))),
        coeffs_within(*final(r), -1664, 1664),
{
    ntt(&mut r.coeffs);
    let ghost transformed = coeffs_int(r.coeffs);
    poly_reduce(r);
    proof {
        assert forall|i: int| 0 <= i < 256 implies congruent(
            #[trigger] coeffs_int(r.coeffs)[i],
            ntt_spec(coeffs_int(old(r).coeffs))[i],
        ) by {
            lemma_congruent_trans(
                coeffs_int(r.coeffs)[i],
                transformed[i],
                ntt_spec(coeffs_int(old(r).coeffs))[i],
            );
        }
    }
}

/// Inverse transform of `r`, multiplied by `2^16` (the Montgomery domain): the result is
/// congruent to [`invntt_spec`] of the input and lies in `(-q, q)`.
pub fn poly_invntt_tomont(r: &mut Poly)
    requires
        coeffs_within(*old(r), -16383, 16383),
    ensures
        coeffs_int(final(r).coeffs) == invntt_exact(coeffs_int(old(r).coeffs)),
        all_congruent(coeffs_int(final(r).coeffs), invntt_spec(coeffs_int(old(r).coeffs))),
        coeffs_within(*final(r), -q() + 1, q() - 1),
{
    invntt(&mut r.coeffs);
}

/// Multiplies two polynomials in the transform domain: coefficient `i` of the result is
/// [`basemul_value`], which is congruent to `2^(-16)` times [`basemul_coeff`] and lies in
/// `(-2q, 2q)`.
pub fn poly_basemul(r: &mut Poly, a: &Poly, b: &Poly)
    requires
        basemul_inputs_bounded(coeffs_int(a.coeffs), coeffs_int(b.coeffs)),
    ensures
        forall|i: int|
            0 <= i < KYBER_N ==> #[trigger] final(r).coeffs[i] == basemul_value(
                coeffs_int(a.coeffs),
                coeffs_int(b.coeffs),
                i,
            ),
        forall|i: int|
            0 <= i < KYBER_N ==> congruent(
                #[trigger] final(r).coeffs[i] as int,
                169 * basemul_coeff(coeffs_int(a.coeffs), coeffs_int(b.coeffs), i),
            ),
        coeffs_within(*final(r), -2 * q() + 1, 2 * q() - 1),
{
    let ghost ca = coeffs_int(a.coeffs);
    let ghost cb = coeffs_int(b.coeffs);
    for i in 0..KYBER_N / 4
        invariant
            ca == coeffs_int(a.coeffs),
            cb == coeffs_int(b.coeffs),
            basemul_inputs_bounded(ca, cb),
            forall|k: int| 0 <= k < 4 * i ==> #[trigger] r.coeffs[k] == basemul_value(ca, cb, k),
            forall|k: int|
                0 <= k < 4 * i ==> congruent(
                    #[trigger] r.coeffs[k] as int,
                    169 * basemul_coeff(ca, cb, k),
                ),
            forall|k: int| 0 <= k < 4 * i ==> -2 * q() < #[trigger] r.coeffs[k] < 2 * q(),
    {
        let k = 4 * i;
        let zeta = ZETAS[64 + i];
        proof {
            assert(ca[k as int] * cb[k as int] == a.coeffs[k as int] * b.coeffs[k as int]);
            assert(ca[k as int] * cb[k + 1] == a.coeffs[k as int] * b.coeffs[k + 1]);
            assert(ca[k + 1] * cb[k as int] == a.coeffs[k + 1] * b.coeffs[k as int]);
            assert(ca[k + 1] * cb[k + 1] == a.coeffs[k + 1] * b.coeffs[k + 1]);
            assert(ca[k + 2] * cb[k + 2] == a.coeffs[k + 2] * b.coeffs[k + 2]);
            assert(ca[k + 2] * cb[k + 3] == a.coeffs[k + 2] * b.coeffs[k + 3]);
            assert(ca[k + 3] * cb[k + 2] == a.coeffs[k + 3] * b.coeffs[k + 2]);
            assert(ca[k + 3] * cb[k + 3] == a.coeffs[k + 3] * b.coeffs[k + 3]);
        }
        let (r0, r1) = basemul(
            a.coeffs[k],
            a.coeffs[k + 1],
            b.coeffs[k],
            b.coeffs[k + 1],
            zeta,
        );
        let (r2, r3) = basemul(
            a.coeffs[k + 2],
            a.coeffs[k + 3],
            b.coeffs[k + 2],
            b.coeffs[k + 3],
            -zeta,
        );
        r.coeffs[k] = r0;
        r.coeffs[k + 1] = r1;
        r.coeffs[k + 2] = r2;
        r.coeffs[k + 3] = r3;
        proof {
            assert((-zeta) * 169 == -(zeta * 169));
            assert(basemul_coeff(ca, cb, k as int) == ca[k as int] * cb[k as int] + ca[k + 1]
                * cb[k + 1] * (zeta * 169));
            assert(basemul_coeff(ca, cb, k + 1) == ca[k as int] * cb[k + 1] + ca[k + 1]
                * cb[k as int]);
            assert(basemul_coeff(ca, cb, k + 2) == ca[k + 2] * cb[k + 2] + ca[k + 3] * cb[k + 3]
                * ((-zeta) * 169));
            assert(basemul_coeff(ca, cb, k + 3) == ca[k + 2] * cb[k + 3] + ca[k + 3] * cb[k + 2]);
            assert(basemul_value(ca, cb, k as int) == r0);
            assert(basemul_value(ca, cb, k + 1) == r1);
            assert(basemul_value(ca, cb, k + 2) == r2);
            assert(basemul_value(ca, cb, k + 3) == r3);
        }
    }
}


/// Number of pseudorandom bytes that a sample with parameter `KYBER_ETA1` reads.
pub const NOISE_BYTES_ETA1: usize = KYBER_ETA1 * KYBER_N / 4;

/// Number of pseudorandom bytes that a sample with parameter `KYBER_ETA2` reads.
pub const NOISE_BYTES_ETA2: usize = KYBER_ETA2 * KYBER_N / 4;

/// Samples a polynomial deterministically from a 32-byte `seed` and a `nonce`: the
/// centered binomial sample with parameter `KYBER_ETA1` of the PRF output on them.
pub fn poly_getnoise_eta1(r: &mut Poly, seed: &[u8], nonce: u8)
    requires
        seed@.len() == KYBER_SYMBYTES,
    ensures
        forall|k: int|
            0 <= k < KYBER_N ==> #[trigger] final(r).coeffs[k] == cbd_coeff(
                shake256_output(seed@.push(nonce), NOISE_BYTES_ETA1 as nat),
                KYBER_ETA1 as int,
                k,
            ),
{
    let mut buf = [0u8; NOISE_BYTES_ETA1];
    prf(&mut buf, NOISE_BYTES_ETA1, seed, nonce);
    assert(buf@ =~= buf@.subrange(0, NOISE_BYTES_ETA1 as int));
    poly_cbd_eta1(r, &buf);
}

/// Samples a polynomial deterministically from a 32-byte `seed` and a `nonce`: the
/// centered binomial sample with parameter `KYBER_ETA2` of the PRF output on them.
pub fn poly_getnoise_eta2(r: &mut Poly, seed: &[u8], nonce: u8)
    requires
        seed@.len() == KYBER_SYMBYTES,
    ensures
        forall|k: int|
            0 <= k < KYBER_N ==> #[trigger] final(r).coeffs[k] == cbd_coeff(
                shake256_output(seed@.push(nonce), NOISE_BYTES_ETA2 as nat),
                KYBER_ETA2 as int,
                k,
            ),
{
    let mut buf = [0u8; NOISE_BYTES_ETA2];
    prf(&mut buf, NOISE_BYTES_ETA2, seed, nonce);
    assert(buf@ =~= buf@.subrange(0, NOISE_BYTES_ETA2 as int));
    poly_cbd_eta2(r, &buf);
}

} // verus!
