use vstd::prelude::*;
use vstd::bits::lemma_u16_shr_is_div;
use crate::codec::{byte_bit, lemma_and_one_is_mod};
use crate::params::{KYBER_ETA1, KYBER_ETA2, KYBER_N};
use crate::poly::Poly;

verus! {

/// Bit `n` of a byte string read as a little-endian bit stream.
pub open spec fn stream_bit(buf: Seq<u8>, n: int) -> int {
    byte_bit(buf[n / 8], n % 8)
}

/// Coefficient `k` of the centered binomial sample with parameter `eta` (2 or 3) drawn
/// from `buf`: the sum of the `eta` bits from `2 eta k` on, minus the sum of the next `eta`.
pub open spec fn cbd_coeff(buf: Seq<u8>, eta: int, k: int) -> int {
    if eta == 2 {
        stream_bit(buf, 4 * k) + stream_bit(buf, 4 * k + 1) - stream_bit(buf, 4 * k + 2)
            - stream_bit(buf, 4 * k + 3)
    } else {
        stream_bit(buf, 6 * k) + stream_bit(buf, 6 * k + 1) + stream_bit(buf, 6 * k + 2)
            - stream_bit(buf, 6 * k + 3) - stream_bit(buf, 6 * k + 4) - stream_bit(buf, 6 * k + 5)
    }
}

/// Number of bytes that a sample with parameter `eta` reads: `eta * N / 4`.
pub open spec fn cbd_bytes(eta: int) -> int {
    eta * 64
}

fn bit_at(buf: &[u8], n: usize) -> (b: i16)
    requires
        n / 8 < buf@.len(),
    ensures
        b == stream_bit(buf@, n as int),
        0 <= b <= 1,
{
    let byte = buf[n / 8] as u16;
    let shift = (n % 8) as u16;
    proof {
        lemma_u16_shr_is_div(byte, shift);
        lemma_and_one_is_mod(byte >> shift);
    }
    ((byte >> shift) & 1) as i16
}

/// Samples a polynomial from `buf` with the centered binomial distribution of parameter
/// `eta`, which must be 2 or 3; `buf` holds at least `eta * N / 4` bytes.
pub fn poly_cbd(r: &mut Poly, buf: &[u8], eta: usize)
    requires
        eta == 2 || eta == 3,
        buf@.len() >= cbd_bytes(eta as int),
    ensures
        forall|k: int|
            0 <= k < KYBER_N ==> #[trigger] final(r).coeffs[k] == cbd_coeff(buf@, eta as int, k),
{
    for k in 0..KYBER_N
        invariant
            eta == 2 || eta == 3,
            buf@.len() >= cbd_bytes(eta as int),
            forall|i: int| 0 <= i < k ==> #[trigger] r.coeffs[i] == cbd_coeff(buf@, eta as int, i),
    {
        if eta == 2 {
            let n = 4 * k;
            r.coeffs[k] = bit_at(buf, n) + bit_at(buf, n + 1) - bit_at(buf, n + 2) - bit_at(
                buf,
                n + 3,
            );
        } else {
            let n = 6 * k;
            r.coeffs[k] = bit_at(buf, n) + bit_at(buf, n + 1) + bit_at(buf, n + 2) - bit_at(
                buf,
                n + 3,
            ) - bit_at(buf, n + 4) - bit_at(buf, n + 5);
        }
    }
}

/// Centered binomial sample with parameter `KYBER_ETA1` from `buf`.
pub fn poly_cbd_eta1(r: &mut Poly, buf: &[u8])
    requires
        buf@.len() >= cbd_bytes(KYBER_ETA1 as int),
    ensures
        forall|k: int|
            0 <= k < KYBER_N ==> #[trigger] final(r).coeffs[k] == cbd_coeff(
                buf@,
                KYBER_ETA1 as int,
                k,
            ),
{
    poly_cbd(r, buf, KYBER_ETA1);
}

/// Centered binomial sample with parameter `KYBER_ETA2` from `buf`.
pub fn poly_cbd_eta2(r: &mut Poly, buf: &[u8])
    requires
        buf@.len() >= cbd_bytes(KYBER_ETA2 as int),
    ensures
        forall|k: int|
            0 <= k < KYBER_N ==> #[trigger] final(r).coeffs[k] == cbd_coeff(
                buf@,
                KYBER_ETA2 as int,
                k,
            ),
{
    poly_cbd(r, buf, KYBER_ETA2);
}

} // verus!
