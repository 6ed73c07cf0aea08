use vstd::prelude::*;
use vstd::arithmetic::div_mod::lemma_fundamental_div_mod_converse;
use vstd::arithmetic::power2::{lemma2_to64, lemma2_to64_rest, pow2};
use vstd::bits::{lemma_u16_shl_is_mul, lemma_u16_shr_is_div, lemma_u32_shr_is_div};
use crate::params::{q, KYBER_N, KYBER_POLYBYTES, KYBER_POLYCOMPRESSEDBYTES, KYBER_Q, KYBER_SYMBYTES};
use crate::poly::{coeffs_within, Poly};

verus! {

/// The positive representative of a coefficient in `(-q, q)`: `c + q` for negative `c`.
pub open spec fn positive_rep(c: int) -> int {
    if c < 0 {
        c + q()
    } else {
        c
    }
}

/// `round(u * 16 / q) mod 16`: a value of `[0, q)` compressed to 4 bits.
pub open spec fn compress4_value(u: int) -> int {
    ((u * 16 + 1664) / 3329) % 16
}

/// `round(t * q / 16)`: a 4-bit value decompressed.
pub open spec fn decompress4_value(t: int) -> int {
    (t * 3329 + 8) / 16
}

/// `round(u * 32 / q) mod 32`: a value of `[0, q)` compressed to 5 bits.
pub open spec fn compress5_value(u: int) -> int {
    ((u * 32 + 1664) / 3329) % 32
}

/// `round(t * q / 32)`: a 5-bit value decompressed.
pub open spec fn decompress5_value(t: int) -> int {
    (t * 3329 + 16) / 32
}

proof fn lemma_positive_rep(c: i16)
    by (bit_vector)
    ensures
        c < 0 ==> (c >> 15u32) & 3329i16 == 3329i16,
        c >= 0 ==> (c >> 15u32) & 3329i16 == 0i16,
{
}

/// Maps a coefficient of `(-q, q)` to its representative in `[0, q)` without branching.
fn positive(c: i16) -> (u: u16)
    requires
        -q() < c < q(),
    ensures
        u == positive_rep(c as int),
        u < q(),
{
    proof {
        lemma_positive_rep(c);
    }
    (c + ((c >> 15) & KYBER_Q)) as u16
}

fn compress4(c: i16) -> (t: u8)
    requires
        -q() < c < q(),
    ensures
        t == compress4_value(positive_rep(c as int)),
        t < 16,
{
    let u = positive(c) as u32;
    (((u * 16 + 1664) / 3329) % 16) as u8
}

/// Byte `i` of the 4-bit compressed encoding of `a`: coefficient `2i` in the low nibble,
/// coefficient `2i + 1` in the high one, each mapped to `[0, q)` and compressed.
pub open spec fn compressed4_byte(a: Poly, i: int) -> int {
    compress4_value(positive_rep(a.coeffs[2 * i] as int)) + 16 * compress4_value(
        positive_rep(a.coeffs[2 * i + 1] as int),
    )
}

/// Compresses `a` to 4 bits per coefficient and packs two coefficients per byte, the
/// first in the low nibble, into `r[0..128]`.
pub fn poly_compress4(r: &mut [u8], a: Poly)
    requires
        old(r)@.len() >= 128,
        coeffs_within(a, -q() + 1, q() - 1),
    ensures
        final(r)@.len() == old(r)@.len(),
        forall|i: int| 0 <= i < 128 ==> #[trigger] final(r)@[i] == compressed4_byte(a, i),
        forall|i: int| 128 <= i < old(r)@.len() ==> #[trigger] final(r)@[i] == old(r)@[i],
{
    for i in 0..128
        invariant
            r@.len() == old(r)@.len(),
            r@.len() >= 128,
            coeffs_within(a, -q() + 1, q() - 1),
            forall|k: int| 0 <= k < i ==> #[trigger] r@[k] == compressed4_byte(a, k),
            forall|k: int| i <= k < r@.len() ==> #[trigger] r@[k] == old(r)@[k],
    {
        let t0 = compress4(a.coeffs[2 * i]);
        let t1 = compress4(a.coeffs[2 * i + 1]);
        r[i] = t0 + t1 * 16;
    }
}


/// The pair of coefficients `2i`, `2i+1` of `a` as one 24-bit value, 12 bits each, the
/// first in the low bits; coefficients are first mapped to `[0, q)`.
pub open spec fn packed12_pair(a: Poly, i: int) -> int {
    positive_rep(a.coeffs[2 * i] as int) + 4096 * positive_rep(a.coeffs[2 * i + 1] as int)
}

/// Byte `n` of the 384-byte encoding of `a`: three little-endian bytes per pair of
/// coefficients.
pub open spec fn packed12_byte(a: Poly, n: int) -> int {
    (packed12_pair(a, n / 3) / pow2((8 * (n % 3)) as nat) as int) % 256
}

/// Three bytes starting at `3i` as one little-endian 24-bit value.
pub open spec fn bytes24_value(b: Seq<u8>, i: int) -> int {
    b[3 * i] + 256 * b[3 * i + 1] + 65536 * b[3 * i + 2]
}

/// Coefficient `j` decoded from a 384-byte encoding: 12 bits, little-endian.
pub open spec fn unpacked12_coeff(b: Seq<u8>, j: int) -> int {
    if j % 2 == 0 {
        bytes24_value(b, j / 2) % 4096
    } else {
        bytes24_value(b, j / 2) / 4096
    }
}

proof fn lemma_pack12(t0: u16, t1: u16)
    by (bit_vector)
    requires
        t0 < 4096,
        t1 < 4096,
    ensures
        (t0 as u8) as int == (t0 + 4096 * t1) % 256,
        (((t0 >> 8u16) | (t1 << 4u16)) as u8) as int == ((t0 + 4096 * t1) / 256) % 256,
        ((t1 >> 4u16) as u8) as int == ((t0 + 4096 * t1) / 65536) % 256,
{
}

proof fn lemma_unpack12(b0: u8, b1: u8, b2: u8)
    by (bit_vector)
    ensures
        ((b0 as u16) | (((b1 as u16) << 8u16) & 0xfffu16)) as int == (b0 + 256 * b1 + 65536 * b2)
            % 4096,
        (((b1 >> 4u8) as u16) | (((b2 as u16) << 4u16) & 0xfffu16)) as int == (b0 + 256 * b1
            + 65536 * b2) / 4096,
{
}

/// The 16-bit pattern that serialization packs for coefficient `c`: `c + q` for negative
/// `c`, else `c`, as two's complement bits.
pub open spec fn pattern12(c: i16) -> u16 {
    (if c < 0 {
        c + q()
    } else {
        c as int
    }) as u16
}

/// Byte `n` of the serialization of `a` for any coefficients: with `u0`, `u1` the patterns
/// of the pair of coefficients `2(n / 3)`, `2(n / 3) + 1`, the bytes are the low byte of
/// `u0`, the low byte of `(u0 >> 8) | (u1 << 4)`, and the low byte of `u1 >> 4`.
pub open spec fn tobytes_byte(a: Poly, n: int) -> u8 {
    let u0 = pattern12(a.coeffs[2 * (n / 3)]);
    let u1 = pattern12(a.coeffs[2 * (n / 3) + 1]);
    if n % 3 == 0 {
        u0 as u8
    } else if n % 3 == 1 {
        ((u0 >> 8u16) | (u1 << 4u16)) as u8
    } else {
        (u1 >> 4u16) as u8
    }
}

/// The coefficients `2i` and `2i + 1` of `a` lie in `(-q, 4096)`: each fits 12 bits once
/// negative ones are mapped to `[0, q)`.
pub open spec fn pair_fits12(a: Poly, i: int) -> bool {
    -q() < a.coeffs[2 * i] < 4096 && -q() < a.coeffs[2 * i + 1] < 4096
}

/// The pattern of a coefficient of `(-q, 4096)` is its positive representative.
proof fn lemma_pattern12_fits(c: i16)
    requires
        -q() < c < 4096,
    ensures
        pattern12(c) as int == positive_rep(c as int),
        pattern12(c) < 4096,
{
}

/// Serializes `a` into `r[0..384]`: each coefficient is mapped to `c + q` when negative and
/// packed at 12 bits, two coefficients to three bytes. Where a pair of coefficients lies in
/// `(-q, 4096)` its bytes are the little-endian 24-bit value [`packed12_pair`]; for other
/// values the bytes are those of [`tobytes_byte`].
pub fn poly_tobytes(r: &mut [u8], a: Poly)
    requires
        old(r)@.len() >= KYBER_POLYBYTES,
    ensures
        final(r)@.len() == old(r)@.len(),
        forall|n: int| 0 <= n < KYBER_POLYBYTES ==> #[trigger] final(r)@[n] == tobytes_byte(a, n),
        forall|n: int|
            0 <= n < KYBER_POLYBYTES && pair_fits12(a, n / 3) ==> #[trigger] final(r)@[n]
                == packed12_byte(a, n),
        forall|n: int|
            KYBER_POLYBYTES <= n < old(r)@.len() ==> #[trigger] final(r)@[n] == old(r)@[n],
{
    proof {
        lemma2_to64();
    }
    for i in 0..KYBER_N / 2
        invariant
            r@.len() == old(r)@.len(),
            r@.len() >= KYBER_POLYBYTES,
            pow2(0) == 1 && pow2(8) == 256 && pow2(16) == 65536,
            forall|n: int| 0 <= n < 3 * i ==> #[trigger] r@[n] == tobytes_byte(a, n),
            forall|n: int|
                0 <= n < 3 * i && pair_fits12(a, n / 3) ==> #[trigger] r@[n] == packed12_byte(a, n),
            forall|n: int| 3 * i <= n < r@.len() ==> #[trigger] r@[n] == old(r)@[n],
    {
        let c0 = a.coeffs[2 * i];
        let c1 = a.coeffs[2 * i + 1];
        proof {
            lemma_positive_rep(c0);
            lemma_positive_rep(c1);
        }
        let u0 = (c0 + ((c0 >> 15) & KYBER_Q)) as u16;
        let u1 = (c1 + ((c1 >> 15) & KYBER_Q)) as u16;
        r[3 * i] = #[verifier::truncate] (u0 as u8);
        r[3 * i + 1] = #[verifier::truncate] (((u0 >> 8) | (u1 << 4)) as u8);
        r[3 * i + 2] = #[verifier::truncate] ((u1 >> 4) as u8);
        proof {
            assert(u0 == pattern12(c0) && u1 == pattern12(c1));
            assert((3 * i) as int / 3 == i && (3 * i) as int % 3 == 0);
            assert((3 * i + 1) as int / 3 == i && (3 * i + 1) as int % 3 == 1);
            assert((3 * i + 2) as int / 3 == i && (3 * i + 2) as int % 3 == 2);
            assert(tobytes_byte(a, 3 * i) == r@[3 * i as int]);
            assert(tobytes_byte(a, 3 * i + 1) == r@[3 * i + 1]);
            assert(tobytes_byte(a, 3 * i + 2) == r@[3 * i + 2]);
            if pair_fits12(a, i as int) {
                lemma_pattern12_fits(c0);
                lemma_pattern12_fits(c1);
                lemma_pack12(u0, u1);
                assert(packed12_pair(a, i as int) == u0 + 4096 * u1);
                assert(packed12_pair(a, i as int) / 1 == packed12_pair(a, i as int));
                assert(packed12_byte(a, 3 * i) == r@[3 * i as int]);
                assert(packed12_byte(a, 3 * i + 1) == r@[3 * i + 1]);
                assert(packed12_byte(a, 3 * i + 2) == r@[3 * i + 2]);
            }
        }
    }
}

/// Deserializes a polynomial from `a[0..384]`, 12 bits per coefficient; the results lie in
/// `[0, 4096)`.
pub fn poly_frombytes(r: &mut Poly, a: &[u8])
    requires
        a@.len() >= KYBER_POLYBYTES,
    ensures
        forall|j: int| 0 <= j < KYBER_N ==> #[trigger] final(r).coeffs[j] == unpacked12_coeff(a@, j),
        coeffs_within(*final(r), 0, 4095),
{
    for i in 0..KYBER_N / 2
        invariant
            a@.len() >= KYBER_POLYBYTES,
            forall|j: int| 0 <= j < 2 * i ==> #[trigger] r.coeffs[j] == unpacked12_coeff(a@, j),
            forall|j: int| 0 <= j < 2 * i ==> 0 <= #[trigger] r.coeffs[j] < 4096,
    {
        let b0 = a[3 * i];
        let b1 = a[3 * i + 1];
        let b2 = a[3 * i + 2];
        proof {
            lemma_unpack12(b0, b1, b2);
        }
        r.coeffs[2 * i] = ((b0 as u16) | (((b1 as u16) << 8) & 0xfff)) as i16;
        r.coeffs[2 * i + 1] = (((b1 >> 4) as u16) | (((b2 as u16) << 4) & 0xfff)) as i16;
    }
}


proof fn lemma_bytes24_split(t0: u16, t1: u16)
    by (bit_vector)
    requires
        t0 < 4096,
        t1 < 4096,
    ensures
        ((t0 + 4096 * t1) % 256 + 256 * (((t0 + 4096 * t1) / 256) % 256) + 65536 * (((t0 + 4096
            * t1) / 65536) % 256)) % 4096 == t0,
        ((t0 + 4096 * t1) % 256 + 256 * (((t0 + 4096 * t1) / 256) % 256) + 65536 * (((t0 + 4096
            * t1) / 65536) % 256)) / 4096 == t1,
{
}

proof fn lemma_bytes24_bytes(b0: u8, b1: u8, b2: u8)
    by (bit_vector)
    ensures
        (b0 + 256 * b1 + 65536 * b2) % 256 == b0,
        ((b0 + 256 * b1 + 65536 * b2) / 256) % 256 == b1,
        ((b0 + 256 * b1 + 65536 * b2) / 65536) % 256 == b2,
        (b0 + 256 * b1 + 65536 * b2) / 4096 < 4096,
{
}

/// Encoding the polynomial decoded from any 384 bytes gives those bytes back: decoded
/// coefficients lie in `[0, 4096)`, and each pair packs back to the three bytes it came
/// from.
pub proof fn lemma_bytes_reencode(b: Seq<u8>, a: Poly)
    requires
        b.len() >= KYBER_POLYBYTES,
        forall|j: int| 0 <= j < KYBER_N ==> #[trigger] a.coeffs[j] == unpacked12_coeff(b, j),
    ensures
        forall|n: int|
            0 <= n < KYBER_POLYBYTES ==> pair_fits12(a, n / 3) && #[trigger] packed12_byte(a, n)
                == b[n],
{
    lemma2_to64();
    assert forall|n: int| 0 <= n < KYBER_POLYBYTES implies pair_fits12(a, n / 3)
        && #[trigger] packed12_byte(a, n) == b[n] by {
        let i = n / 3;
        let w = bytes24_value(b, i);
        lemma_bytes24_bytes(b[3 * i], b[3 * i + 1], b[3 * i + 2]);
        assert((2 * i) / 2 == i && (2 * i) % 2 == 0);
        assert((2 * i + 1) / 2 == i && (2 * i + 1) % 2 == 1);
        assert(a.coeffs[2 * i] == w % 4096);
        assert(a.coeffs[2 * i + 1] == w / 4096);
        assert(packed12_pair(a, i) == w);
        assert(w / 1 == w);
    }
}

/// Decoding the 384-byte encoding of a polynomial whose coefficients lie in `[0, q)` gives
/// the polynomial back.
pub proof fn lemma_bytes_round_trip(a: Poly, b: Seq<u8>)
    requires
        coeffs_within(a, 0, q() - 1),
        b.len() >= KYBER_POLYBYTES,
        forall|n: int| 0 <= n < KYBER_POLYBYTES ==> #[trigger] b[n] == packed12_byte(a, n),
    ensures
        forall|j: int| 0 <= j < KYBER_N ==> #[trigger] unpacked12_coeff(b, j) == a.coeffs[j],
{
    lemma2_to64();
    assert forall|j: int| 0 <= j < KYBER_N implies #[trigger] unpacked12_coeff(b, j) == a.coeffs[j] by {
        let i = j / 2;
        let t0 = a.coeffs[2 * i] as u16;
        let t1 = a.coeffs[2 * i + 1] as u16;
        assert(0 <= a.coeffs[2 * i] < q() && 0 <= a.coeffs[2 * i + 1] < q());
        assert(packed12_pair(a, i) == t0 + 4096 * t1);
        assert(b[3 * i] == packed12_byte(a, 3 * i));
        assert(b[3 * i + 1] == packed12_byte(a, 3 * i + 1));
        assert(b[3 * i + 2] == packed12_byte(a, 3 * i + 2));
        assert((3 * i) / 3 == i && (3 * i) % 3 == 0);
        assert((3 * i + 1) / 3 == i && (3 * i + 1) % 3 == 1);
        assert((3 * i + 2) / 3 == i && (3 * i + 2) % 3 == 2);
        assert(packed12_pair(a, i) / 1 == packed12_pair(a, i));
        lemma_bytes24_split(t0, t1);
    }
}


/// Bit `j` (0 the least significant) of byte `b`.
pub open spec fn byte_bit(b: u8, j: int) -> int {
    (b as int / pow2(j as nat) as int) % 2
}

/// Coefficient `k` of the polynomial that encodes message `m`: `ceil(q/2)` where bit
/// `k mod 8` of byte `k / 8` is set, else 0.
pub open spec fn message_coeff(m: Seq<u8>, k: int) -> int {
    1665 * byte_bit(m[k / 8], k % 8)
}

/// The bit that a coefficient of `(-q, q)` decodes to: 1 where its positive representative
/// is nearer to `q/2` than to 0 or `q`, that is `round(2u / q) mod 2`.
pub open spec fn message_bit(c: int) -> int {
    ((positive_rep(c) * 2 + 1664) / 3329) % 2
}

/// The bits of coefficients `8i .. 8i + j` of `a`, the first one least significant.
pub open spec fn message_bits_prefix(a: Poly, i: int, j: int) -> int
    decreases j,
{
    if j <= 0 {
        0
    } else {
        message_bits_prefix(a, i, j - 1) + message_bit(a.coeffs[8 * i + j - 1] as int) * pow2(
            (j - 1) as nat,
        )
    }
}

/// Byte `i` of the message that `a` decodes to: the bits of coefficients `8i .. 8i + 8`.
pub open spec fn message_byte(a: Poly, i: int) -> int {
    message_bits_prefix(a, i, 8)
}

pub(crate) proof fn lemma_and_one_is_mod(x: u16)
    by (bit_vector)
    ensures
        x & 1u16 == x % 2,
{
}

proof fn lemma_or_is_add(x: u16, y: u16, j: u16)
    by (bit_vector)
    requires
        j < 8,
        x < (1u16 << j),
        y <= 1,
    ensures
        x | (y << j) == x + (y << j),
        x + (y << j) < (1u16 << (j + 1)),
{
}

/// Encodes a 32-byte message as a polynomial, one bit per coefficient: bit 1 becomes
/// `ceil(q/2) = 1665`, bit 0 becomes 0.
pub fn poly_frommsg(r: &mut Poly, msg: &[u8])
    requires
        msg@.len() >= KYBER_SYMBYTES,
    ensures
        forall|k: int| 0 <= k < KYBER_N ==> #[trigger] final(r).coeffs[k] == message_coeff(msg@, k),
{
    for i in 0..KYBER_SYMBYTES
        invariant
            msg@.len() >= KYBER_SYMBYTES,
            forall|k: int| 0 <= k < 8 * i ==> #[trigger] r.coeffs[k] == message_coeff(msg@, k),
    {
        let b = msg[i] as u16;
        for j in 0..8u16
            invariant
                0 <= i < KYBER_SYMBYTES,
                msg@.len() >= KYBER_SYMBYTES,
                b == msg@[i as int],
                forall|k: int| 0 <= k < 8 * i + j ==> #[trigger] r.coeffs[k] == message_coeff(msg@, k),
        {
            let bit = (b >> j) & 1;
            proof {
                lemma_u16_shr_is_div(b, j);
                lemma_and_one_is_mod(b >> j);
                assert((8 * i + j) / 8 == i as int && (8 * i + j) % 8 == j as int);
            }
            r.coeffs[8 * i + j as usize] = (bit * 1665) as i16;
        }
    }
}

/// Decodes a polynomial into a 32-byte message in `msg[0..32]`: bit `k` is the bit nearest
/// to coefficient `k` (see [`message_bit`]).
pub fn poly_tomsg(msg: &mut [u8], a: Poly)
    requires
        old(msg)@.len() >= KYBER_SYMBYTES,
        coeffs_within(a, -q() + 1, q() - 1),
    ensures
        final(msg)@.len() == old(msg)@.len(),
        forall|i: int| 0 <= i < KYBER_SYMBYTES ==> #[trigger] final(msg)@[i] == message_byte(a, i),
        forall|i: int|
            KYBER_SYMBYTES <= i < old(msg)@.len() ==> #[trigger] final(msg)@[i] == old(msg)@[i],
{
    for i in 0..KYBER_SYMBYTES
        invariant
            msg@.len() == old(msg)@.len(),
            msg@.len() >= KYBER_SYMBYTES,
            coeffs_within(a, -q() + 1, q() - 1),
            forall|k: int| 0 <= k < i ==> #[trigger] msg@[k] == message_byte(a, k),
            forall|k: int| i <= k < msg@.len() ==> #[trigger] msg@[k] == old(msg)@[k],
    {
        let mut byte: u16 = 0;
        proof {
            lemma2_to64();
        }
        for j in 0..8u16
            invariant
                0 <= i < KYBER_SYMBYTES,
                coeffs_within(a, -q() + 1, q() - 1),
                byte == message_bits_prefix(a, i as int, j as int),
                byte < pow2(j as nat),
        {
            let t = positive(a.coeffs[8 * i + j as usize]);
            let bit: u16 = ((t * 2 + 1664) / 3329) % 2;
            proof {
                lemma2_to64();
                assert(j == 0 || j == 1 || j == 2 || j == 3 || j == 4 || j == 5 || j == 6 || j == 7);
                assert(pow2(j as nat) <= 128 && pow2((j + 1) as nat) == 2 * pow2(j as nat));
                lemma_u16_shl_is_mul(1, j);
                assert(bit * pow2(j as nat) <= 128) by (nonlinear_arith)
                    requires
                        bit <= 1,
                        pow2(j as nat) <= 128,
                ;
                lemma_u16_shl_is_mul(bit, j);
                lemma_or_is_add(byte, bit, j);
                lemma_u16_shl_is_mul(1, (j + 1) as u16);
            }
            byte = byte | (bit << j);
        }
        msg[i] = byte as u8;
    }
}


proof fn lemma_byte_from_bits(b: u8)
    by (bit_vector)
    ensures
        (b / 1) % 2 + 2 * ((b / 2) % 2) + 4 * ((b / 4) % 2) + 8 * ((b / 8) % 2) + 16 * ((b / 16)
            % 2) + 32 * ((b / 32) % 2) + 64 * ((b / 64) % 2) + 128 * ((b / 128) % 2) == b,
{
}

/// Decoding the polynomial that encodes a 32-byte message, with no noise added, gives the
/// message back.
pub proof fn lemma_message_round_trip(m: Seq<u8>, a: Poly)
    requires
        m.len() >= KYBER_SYMBYTES,
        forall|k: int| 0 <= k < KYBER_N ==> #[trigger] a.coeffs[k] == message_coeff(m, k),
    ensures
        forall|i: int| 0 <= i < KYBER_SYMBYTES ==> #[trigger] message_byte(a, i) == m[i],
{
    lemma2_to64();
    assert forall|i: int| 0 <= i < KYBER_SYMBYTES implies #[trigger] message_byte(a, i) == m[i] by {
        assert forall|j: int| 0 <= j < 8 implies #[trigger] message_bit(a.coeffs[8 * i + j] as int)
            == byte_bit(m[i], j) by {
            assert((8 * i + j) / 8 == i && (8 * i + j) % 8 == j);
            assert(a.coeffs[8 * i + j] == message_coeff(m, 8 * i + j));
        }
        assert(message_bit(a.coeffs[8 * i + 0] as int) == (m[i] / 1) % 2);
        assert(message_bit(a.coeffs[8 * i + 1] as int) == (m[i] / 2) % 2);
        assert(message_bit(a.coeffs[8 * i + 2] as int) == (m[i] / 4) % 2);
        assert(message_bit(a.coeffs[8 * i + 3] as int) == (m[i] / 8) % 2);
        assert(message_bit(a.coeffs[8 * i + 4] as int) == (m[i] / 16) % 2);
        assert(message_bit(a.coeffs[8 * i + 5] as int) == (m[i] / 32) % 2);
        assert(message_bit(a.coeffs[8 * i + 6] as int) == (m[i] / 64) % 2);
        assert(message_bit(a.coeffs[8 * i + 7] as int) == (m[i] / 128) % 2);
        assert(message_bits_prefix(a, i, 0) == 0);
        assert(message_bits_prefix(a, i, 1) == message_bits_prefix(a, i, 0) + ((m[i] / 1) % 2) * 1);
        assert(message_bits_prefix(a, i, 2) == message_bits_prefix(a, i, 1) + ((m[i] / 2) % 2) * 2);
        assert(message_bits_prefix(a, i, 3) == message_bits_prefix(a, i, 2) + ((m[i] / 4) % 2) * 4);
        assert(message_bits_prefix(a, i, 4) == message_bits_prefix(a, i, 3) + ((m[i] / 8) % 2) * 8);
        assert(message_bits_prefix(a, i, 5) == message_bits_prefix(a, i, 4) + ((m[i] / 16) % 2) * 16);
        assert(message_bits_prefix(a, i, 6) == message_bits_prefix(a, i, 5) + ((m[i] / 32) % 2) * 32);
        assert(message_bits_prefix(a, i, 7) == message_bits_prefix(a, i, 6) + ((m[i] / 64) % 2) * 64);
        assert(message_bits_prefix(a, i, 8) == message_bits_prefix(a, i, 7) + ((m[i] / 128) % 2) * 128);
        lemma_byte_from_bits(m[i]);
    }
}


/// Coefficient `k` decoded from the 4-bit compressed encoding `b`: the low nibble of byte
/// `k / 2` for even `k`, the high nibble for odd `k`, decompressed.
pub open spec fn decompressed4_coeff(b: Seq<u8>, k: int) -> int {
    if k % 2 == 0 {
        decompress4_value(b[k / 2] as int % 16)
    } else {
        decompress4_value(b[k / 2] as int / 16)
    }
}

/// De-serializes and decompresses a polynomial from `a[0..128]`, 4 bits per coefficient;
/// the approximate inverse of [`poly_compress4`].
pub fn poly_decompress4(r: &mut Poly, a: &[u8])
    requires
        a@.len() >= 128,
    ensures
        forall|k: int| 0 <= k < KYBER_N ==> #[trigger] final(r).coeffs[k] == decompressed4_coeff(a@, k),
        coeffs_within(*final(r), 0, q() - 1),
{
    for i in 0..KYBER_N / 2
        invariant
            a@.len() >= 128,
            forall|k: int| 0 <= k < 2 * i ==> #[trigger] r.coeffs[k] == decompressed4_coeff(a@, k),
            forall|k: int| 0 <= k < 2 * i ==> 0 <= #[trigger] r.coeffs[k] < q(),
    {
        let b = a[i] as u32;
        r.coeffs[2 * i] = (((b % 16) * 3329 + 8) / 16) as i16;
        r.coeffs[2 * i + 1] = (((b / 16) * 3329 + 8) / 16) as i16;
        assert((2 * i) as int / 2 == i && (2 * i) as int % 2 == 0);
        assert((2 * i + 1) as int / 2 == i && (2 * i + 1) as int % 2 == 1);
    }
}

/// Eight coefficients `8g .. 8g + 8` of `a`, mapped to `[0, q)` and compressed to 5 bits,
/// as one 40-bit value, the first in the low bits.
pub open spec fn compressed5_group(a: Poly, g: int) -> int {
    compress5_value(positive_rep(a.coeffs[8 * g] as int))
        + 0x20 * compress5_value(positive_rep(a.coeffs[8 * g + 1] as int))
        + 0x400 * compress5_value(positive_rep(a.coeffs[8 * g + 2] as int))
        + 0x8000 * compress5_value(positive_rep(a.coeffs[8 * g + 3] as int))
        + 0x100000 * compress5_value(positive_rep(a.coeffs[8 * g + 4] as int))
        + 0x2000000 * compress5_value(positive_rep(a.coeffs[8 * g + 5] as int))
        + 0x40000000 * compress5_value(positive_rep(a.coeffs[8 * g + 6] as int))
        + 0x800000000 * compress5_value(positive_rep(a.coeffs[8 * g + 7] as int))
}

/// Byte `n` of the 5-bit compressed encoding of `a`: five little-endian bytes per group of
/// eight coefficients.
pub open spec fn compressed5_byte(a: Poly, n: int) -> int {
    (compressed5_group(a, n / 5) / pow2((8 * (n % 5)) as nat) as int) % 256
}

/// Five bytes starting at `5g` as one little-endian 40-bit value.
pub open spec fn bytes40_value(b: Seq<u8>, g: int) -> int {
    b[5 * g] + 0x100 * b[5 * g + 1] + 0x10000 * b[5 * g + 2] + 0x1000000 * b[5 * g + 3]
        + 0x100000000 * b[5 * g + 4]
}

/// Coefficient `k` decoded from the 5-bit compressed encoding `b`.
pub open spec fn decompressed5_coeff(b: Seq<u8>, k: int) -> int {
    decompress5_value((bytes40_value(b, k / 8) / pow2((5 * (k % 8)) as nat) as int) % 32)
}

fn compress5(c: i16) -> (t: u8)
    requires
        -q() < c < q(),
    ensures
        t == compress5_value(positive_rep(c as int)),
        t < 32,
{
    let u = positive(c) as u32;
    (((u * 32 + 1664) / 3329) % 32) as u8
}

proof fn lemma_pack5(t0: u8, t1: u8, t2: u8, t3: u8, t4: u8, t5: u8, t6: u8, t7: u8)
    by (bit_vector)
    requires
        t0 < 32, t1 < 32, t2 < 32, t3 < 32, t4 < 32, t5 < 32, t6 < 32, t7 < 32,
    ensures
        (t0 | (t1 << 5u8)) as int == (t0 + 0x20 * t1 + 0x400 * t2 + 0x8000 * t3 + 0x100000 * t4
            + 0x2000000 * t5 + 0x40000000 * t6 + 0x800000000 * t7) % 0x100,
        ((t1 >> 3u8) | (t2 << 2u8) | (t3 << 7u8)) as int == ((t0 + 0x20 * t1 + 0x400 * t2 + 0x8000
            * t3 + 0x100000 * t4 + 0x2000000 * t5 + 0x40000000 * t6 + 0x800000000 * t7) / 0x100)
            % 0x100,
        ((t3 >> 1u8) | (t4 << 4u8)) as int == ((t0 + 0x20 * t1 + 0x400 * t2 + 0x8000 * t3
            + 0x100000 * t4 + 0x2000000 * t5 + 0x40000000 * t6 + 0x800000000 * t7) / 0x10000)
            % 0x100,
        ((t4 >> 4u8) | (t5 << 1u8) | (t6 << 6u8)) as int == ((t0 + 0x20 * t1 + 0x400 * t2 + 0x8000
            * t3 + 0x100000 * t4 + 0x2000000 * t5 + 0x40000000 * t6 + 0x800000000 * t7)
            / 0x1000000) % 0x100,
        ((t6 >> 2u8) | (t7 << 3u8)) as int == ((t0 + 0x20 * t1 + 0x400 * t2 + 0x8000 * t3
            + 0x100000 * t4 + 0x2000000 * t5 + 0x40000000 * t6 + 0x800000000 * t7) / 0x100000000)
            % 0x100,
{
}

/// Eight values of 5 bits as one 40-bit value, the first in the low bits.
pub open spec fn group5_value(t: Seq<u8>) -> int {
    t[0] + 0x20 * t[1] + 0x400 * t[2] + 0x8000 * t[3] + 0x100000 * t[4] + 0x2000000 * t[5]
        + 0x40000000 * t[6] + 0x800000000 * t[7]
}

/// Packs eight 5-bit values little-endian into `r[k..k + 5]`.
fn store_group5(r: &mut [u8], k: usize, t: &[u8; 8])
    requires
        k + 5 <= old(r)@.len(),
        forall|j: int| 0 <= j < 8 ==> #[trigger] t[j] < 32,
    ensures
        final(r)@.len() == old(r)@.len(),
        forall|m: int|
            0 <= m < 5 ==> #[trigger] final(r)@[k + m] == (group5_value(t@) / pow2(
                (8 * m) as nat,
            ) as int) % 256,
        forall|n: int|
            0 <= n < old(r)@.len() && !(k <= n < k + 5) ==> #[trigger] final(r)@[n] == old(r)@[n],
{
    proof {
        lemma2_to64();
        lemma_pack5(t[0], t[1], t[2], t[3], t[4], t[5], t[6], t[7]);
    }
    r[k] = t[0] | (t[1] << 5);
    r[k + 1] = (t[1] >> 3) | (t[2] << 2) | (t[3] << 7);
    r[k + 2] = (t[3] >> 1) | (t[4] << 4);
    r[k + 3] = (t[4] >> 4) | (t[5] << 1) | (t[6] << 6);
    r[k + 4] = (t[6] >> 2) | (t[7] << 3);
    proof {
        let v = group5_value(t@);
        assert(v / 1 == v);
        assert(r@[k + 0] == (v / pow2(0) as int) % 256);
        assert(r@[k + 1] == (v / pow2(8) as int) % 256);
        assert(r@[k + 2] == (v / pow2(16) as int) % 256);
        assert(r@[k + 3] == (v / pow2(24) as int) % 256);
        assert(r@[k + 4] == (v / pow2(32) as int) % 256);
        assert forall|m: int| 0 <= m < 5 implies #[trigger] r@[k + m] == (v / pow2(
            (8 * m) as nat,
        ) as int) % 256 by {
            assert(m == 0 || m == 1 || m == 2 || m == 3 || m == 4);
        }
    }
}

/// Compresses `a` to 5 bits per coefficient and packs each group of eight coefficients,
/// little-endian, into five bytes of `r[0..160]`.
pub fn poly_compress5(r: &mut [u8], a: Poly)
    requires
        old(r)@.len() >= 160,
        coeffs_within(a, -q() + 1, q() - 1),
    ensures
        final(r)@.len() == old(r)@.len(),
        forall|n: int| 0 <= n < 160 ==> #[trigger] final(r)@[n] == compressed5_byte(a, n),
        forall|n: int| 160 <= n < old(r)@.len() ==> #[trigger] final(r)@[n] == old(r)@[n],
{
    let mut t = [0u8; 8];
    for g in 0..KYBER_N / 8
        invariant
            r@.len() == old(r)@.len(),
            r@.len() >= 160,
            coeffs_within(a, -q() + 1, q() - 1),
            forall|n: int| 0 <= n < 5 * g ==> #[trigger] r@[n] == compressed5_byte(a, n),
            forall|n: int| 5 * g <= n < r@.len() ==> #[trigger] r@[n] == old(r)@[n],
    {
        for j in 0..8
            invariant
                0 <= g < KYBER_N / 8,
                coeffs_within(a, -q() + 1, q() - 1),
                forall|i: int|
                    0 <= i < j ==> #[trigger] t[i] == compress5_value(
                        positive_rep(a.coeffs[8 * g + i] as int),
                    ),
                forall|i: int| 0 <= i < j ==> #[trigger] t[i] < 32,
        {
            t[j] = compress5(a.coeffs[8 * g + j]);
        }
        assert(compressed5_group(a, g as int) == group5_value(t@));
        store_group5(r, 5 * g, &t);
        assert forall|n: int| 0 <= n < 5 * g + 5 implies #[trigger] r@[n] == compressed5_byte(
            a,
            n,
        ) by {
            if n >= 5 * g {
                assert(r@[5 * g + (n - 5 * g)] == r@[n]);
                assert(n / 5 == g && n % 5 == n - 5 * g);
            }
        }
    }
}

proof fn lemma_unpack5(a0: u8, a1: u8, a2: u8, a3: u8, a4: u8)
    by (bit_vector)
    ensures
        (a0 & 31u8) as int == (a0 + 0x100 * a1 + 0x10000 * a2 + 0x1000000 * a3 + 0x100000000 * a4)
            % 32,
        (((a0 >> 5u8) | (a1 << 3u8)) & 31u8) as int == ((a0 + 0x100 * a1 + 0x10000 * a2
            + 0x1000000 * a3 + 0x100000000 * a4) / 0x20) % 32,
        ((a1 >> 2u8) & 31u8) as int == ((a0 + 0x100 * a1 + 0x10000 * a2 + 0x1000000 * a3
            + 0x100000000 * a4) / 0x400) % 32,
        (((a1 >> 7u8) | (a2 << 1u8)) & 31u8) as int == ((a0 + 0x100 * a1 + 0x10000 * a2
            + 0x1000000 * a3 + 0x100000000 * a4) / 0x8000) % 32,
        (((a2 >> 4u8) | (a3 << 4u8)) & 31u8) as int == ((a0 + 0x100 * a1 + 0x10000 * a2
            + 0x1000000 * a3 + 0x100000000 * a4) / 0x100000) % 32,
        ((a3 >> 1u8) & 31u8) as int == ((a0 + 0x100 * a1 + 0x10000 * a2 + 0x1000000 * a3
            + 0x100000000 * a4) / 0x2000000) % 32,
        (((a3 >> 6u8) | (a4 << 2u8)) & 31u8) as int == ((a0 + 0x100 * a1 + 0x10000 * a2
            + 0x1000000 * a3 + 0x100000000 * a4) / 0x40000000) % 32,
        ((a4 >> 3u8) & 31u8) as int == ((a0 + 0x100 * a1 + 0x10000 * a2 + 0x1000000 * a3
            + 0x100000000 * a4) / 0x800000000) % 32,
{
}

/// Unpacks the eight 5-bit values that bytes `5g .. 5g + 5` of `a` hold, little-endian.
fn load_group5(a: &[u8], g: usize) -> (t: [u8; 8])
    requires
        g < 32,
        160 <= a@.len(),
    ensures
        forall|m: int|
            0 <= m < 8 ==> #[trigger] t[m] == (bytes40_value(a@, g as int) / pow2(
                (5 * m) as nat,
            ) as int) % 32,
{
    let idx = 5 * g;
    let (a0, a1, a2, a3, a4) = (a[idx], a[idx + 1], a[idx + 2], a[idx + 3], a[idx + 4]);
    let t0 = a0 & 31;
    let t1 = ((a0 >> 5) | (a1 << 3)) & 31;
    let t2 = (a1 >> 2) & 31;
    let t3 = ((a1 >> 7) | (a2 << 1)) & 31;
    let t4 = ((a2 >> 4) | (a3 << 4)) & 31;
    let t5 = (a3 >> 1) & 31;
    let t6 = ((a3 >> 6) | (a4 << 2)) & 31;
    let t7 = (a4 >> 3) & 31;
    proof {
        lemma2_to64();
        lemma2_to64_rest();
        lemma_unpack5(a0, a1, a2, a3, a4);
        let w = bytes40_value(a@, g as int);
        assert(w == a0 + 0x100 * a1 + 0x10000 * a2 + 0x1000000 * a3 + 0x100000000 * a4);
        assert(w / 1 == w);
    }
    let t = [t0, t1, t2, t3, t4, t5, t6, t7];
    proof {
        assert forall|m: int| 0 <= m < 8 implies #[trigger] t[m] == (bytes40_value(
            a@,
            g as int,
        ) / pow2((5 * m) as nat) as int) % 32 by {
            assert(m == 0 || m == 1 || m == 2 || m == 3 || m == 4 || m == 5 || m == 6 || m == 7);
        }
    }
    t
}

/// De-serializes and decompresses a polynomial from `a[0..160]`, 5 bits per coefficient;
/// the approximate inverse of [`poly_compress5`].
pub fn poly_decompress5(r: &mut Poly, a: &[u8])
    requires
        a@.len() >= 160,
    ensures
        forall|k: int| 0 <= k < KYBER_N ==> #[trigger] final(r).coeffs[k] == decompressed5_coeff(a@, k),
        coeffs_within(*final(r), 0, q() - 1),
{
    for g in 0..KYBER_N / 8
        invariant
            a@.len() >= 160,
            forall|k: int| 0 <= k < 8 * g ==> #[trigger] r.coeffs[k] == decompressed5_coeff(a@, k),
            forall|k: int| 0 <= k < 8 * g ==> 0 <= #[trigger] r.coeffs[k] < q(),
    {
        let t = load_group5(a, g);
        for j in 0..8
            invariant
                0 <= g < KYBER_N / 8,
                a@.len() >= 160,
                forall|m: int|
                    0 <= m < 8 ==> #[trigger] t[m] == (bytes40_value(a@, g as int) / pow2(
                        (5 * m) as nat,
                    ) as int) % 32,
                forall|k: int| 0 <= k < 8 * g + j ==> #[trigger] r.coeffs[k] == decompressed5_coeff(a@, k),
                forall|k: int| 0 <= k < 8 * g + j ==> 0 <= #[trigger] r.coeffs[k] < q(),
        {
            let w = (t[j] as u32) * 3329 + 16;
            proof {
                lemma_u32_shr_is_div(w, 5);
                lemma2_to64();
                assert((8 * g + j) / 8 == g as int && (8 * g + j) % 8 == j as int);
            }
            r.coeffs[8 * g + j] = (w >> 5) as i16;
        }
    }
}


/// Compresses `a` into `r[0..KYBER_POLYCOMPRESSEDBYTES]`, at 4 bits per coefficient when that
/// size is 128 and at 5 bits when it is 160.
pub fn poly_compress(r: &mut [u8], a: Poly)
    requires
        old(r)@.len() >= KYBER_POLYCOMPRESSEDBYTES,
        coeffs_within(a, -q() + 1, q() - 1),
    ensures
        final(r)@.len() == old(r)@.len(),
        KYBER_POLYCOMPRESSEDBYTES == 128 ==> forall|n: int|
            0 <= n < 128 ==> #[trigger] final(r)@[n] == compressed4_byte(a, n),
        KYBER_POLYCOMPRESSEDBYTES == 160 ==> forall|n: int|
            0 <= n < 160 ==> #[trigger] final(r)@[n] == compressed5_byte(a, n),
        forall|n: int|
            KYBER_POLYCOMPRESSEDBYTES <= n < old(r)@.len() ==> #[trigger] final(r)@[n] == old(r)@[n],
{
    // The wire format is defined for these two sizes only; any other fails verification.
    proof {
        assert(KYBER_POLYCOMPRESSEDBYTES == 128 || KYBER_POLYCOMPRESSEDBYTES == 160);
    }
    if KYBER_POLYCOMPRESSEDBYTES == 128 {
        poly_compress4(r, a);
    } else {
        poly_compress5(r, a);
    }
}

/// Decompresses a polynomial from `a[0..KYBER_POLYCOMPRESSEDBYTES]`, at 4 bits per coefficient
/// when that size is 128 and at 5 bits when it is 160.
pub fn poly_decompress(r: &mut Poly, a: &[u8])
    requires
        a@.len() >= KYBER_POLYCOMPRESSEDBYTES,
    ensures
        KYBER_POLYCOMPRESSEDBYTES == 128 ==> forall|k: int|
            0 <= k < KYBER_N ==> #[trigger] final(r).coeffs[k] == decompressed4_coeff(a@, k),
        KYBER_POLYCOMPRESSEDBYTES == 160 ==> forall|k: int|
            0 <= k < KYBER_N ==> #[trigger] final(r).coeffs[k] == decompressed5_coeff(a@, k),
        coeffs_within(*final(r), 0, q() - 1),
{
    proof {
        assert(KYBER_POLYCOMPRESSEDBYTES == 128 || KYBER_POLYCOMPRESSEDBYTES == 160);
    }
    if KYBER_POLYCOMPRESSEDBYTES == 128 {
        poly_decompress4(r, a);
    } else {
        poly_decompress5(r, a);
    }
}

/// The representative of `x` modulo `q` in `[-(q-1)/2, (q-1)/2]`: the signed distance
/// modulo `q`.
pub open spec fn centered_mod_q(x: int) -> int {
    let m = x % q();
    if m > 1664 {
        m - q()
    } else {
        m
    }
}

/// Compression to 4 bits and back moves a value `u` of `[0, q)` by at most
/// `round(q / 32) + 1 = 105` modulo `q`. Values that round up to 16 and wrap to 0 move by
/// more than that as integers but by `q - u` modulo `q`; all others move by at most 105.
pub proof fn lemma_compress4_error(u: int)
    requires
        0 <= u < q(),
    ensures
        -105 <= centered_mod_q(decompress4_value(compress4_value(u)) - u) <= 105,
        (u * 16 + 1664) / 3329 < 16 ==> -105 <= decompress4_value(compress4_value(u)) - u <= 105,
{
    let c = (u * 16 + 1664) / 3329;
    assert(c * 3329 <= u * 16 + 1664 < c * 3329 + 3329);
    let d = decompress4_value(compress4_value(u)) - u;
    if c < 16 {
        assert(compress4_value(u) == c);
        let x = (c * 3329 + 8) / 16;
        assert(x * 16 <= c * 3329 + 8 < x * 16 + 16);
        assert(-105 <= d <= 105);
        if d < 0 {
            lemma_fundamental_div_mod_converse(d, q(), -1, d + q());
        } else {
            lemma_fundamental_div_mod_converse(d, q(), 0, d);
        }
    } else {
        assert(compress4_value(u) == 0);
        assert(d == -u);
        lemma_fundamental_div_mod_converse(d, q(), -1, q() - u);
    }
}

/// Compression to 5 bits and back moves a value `u` of `[0, q)` by at most
/// `round(q / 64) + 1 = 53` modulo `q`. Values that round up to 32 and wrap to 0 move by
/// more than that as integers but by `q - u` modulo `q`; all others move by at most 53.
pub proof fn lemma_compress5_error(u: int)
    requires
        0 <= u < q(),
    ensures
        -53 <= centered_mod_q(decompress5_value(compress5_value(u)) - u) <= 53,
        (u * 32 + 1664) / 3329 < 32 ==> -53 <= decompress5_value(compress5_value(u)) - u <= 53,
{
    let c = (u * 32 + 1664) / 3329;
    assert(c * 3329 <= u * 32 + 1664 < c * 3329 + 3329);
    let d = decompress5_value(compress5_value(u)) - u;
    if c < 32 {
        assert(compress5_value(u) == c);
        let x = (c * 3329 + 16) / 32;
        assert(x * 32 <= c * 3329 + 16 < x * 32 + 32);
        assert(-53 <= d <= 53);
        if d < 0 {
            lemma_fundamental_div_mod_converse(d, q(), -1, d + q());
        } else {
            lemma_fundamental_div_mod_converse(d, q(), 0, d);
        }
    } else {
        assert(compress5_value(u) == 0);
        assert(d == -u);
        lemma_fundamental_div_mod_converse(d, q(), -1, q() - u);
    }
}

} // verus!
