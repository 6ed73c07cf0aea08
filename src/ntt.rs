use vstd::prelude::*;
use vstd::arithmetic::div_mod::{lemma_fundamental_div_mod, lemma_fundamental_div_mod_converse};
use vstd::arithmetic::power2::{lemma2_to64, lemma_pow2_unfold, pow2};
use crate::params::{congruent, mont_r, q, KYBER_N};
use crate::reduce::{
    barrett_reduce, barrett_value, fqmul, is_montgomery_reduction, lemma_congruent_add_sub,
    lemma_congruent_by_multiple, lemma_congruent_mul,
    lemma_congruent_trans, lemma_montgomery_unscale, mont_bound, montgomery_value,
};

verus! {

/// Twiddle factors: entry `k` is `17^brv(k) * 2^16 mod q`, where `17` is a primitive
/// 256th root of unity modulo `q` and `brv` reverses the 7 bits of `k`. Centered in
/// `(-q/2, q/2)`, in the order in which the iterative transform consumes them.
pub const ZETAS: [i16; 128] = [
    -1044, -758, -359, -1517, 1493, 1422, 287, 202,
    -171, 622, 1577, 182, 962, -1202, -1474, 1468,
    573, -1325, 264, 383, -829, 1458, -1602, -130,
    -681, 1017, 732, 608, -1542, 411, -205, -1571,
    1223, 652, -552, 1015, -1293, 1491, -282, -1544,
    516, -8, -320, -666, -1618, -1162, 126, 1469,
    -853, -90, -271, 830, 107, -1421, -247, -951,
    -398, 961, -1508, -725, 448, -1065, 677, -1275,
    -1103, 430, 555, 843, -1251, 871, 1550, 105,
    422, 587, 177, -235, -291, -460, 1574, 1653,
    -246, 778, 1159, -147, -777, 1483, -602, 1119,
    -1590, 644, -872, 349, 418, 329, -156, -75,
    817, 1097, 603, 610, 1322, -1285, -1465, 384,
    -1215, -136, 1218, -1335, -874, 220, -1187, -1659,
    -1185, -1530, -1278, 794, -1510, -854, -870, 478,
    -108, -308, 996, 991, 958, -1460, 1522, 1628,
];

proof fn lemma_zetas_bounded()
    ensures
        forall|k: int| 0 <= k < 128 ==> -1664 <= #[trigger] ZETAS[k] <= 1664,
{
}


/// Twiddle factor `k` as a field element: `ZETAS[k] * 2^(-16)`, that is `17^brv(k)`
/// up to a multiple of `q`.
pub open spec fn zeta_value(k: int) -> int {
    ZETAS[k] * 169
}

/// The coefficients of an array as mathematical integers.
pub open spec fn coeffs_int(a: [i16; KYBER_N]) -> Seq<int> {
    a@.map_values(|c: i16| c as int)
}

/// Layer `l` (0 to 6) of the forward transform over `Z_q`: blocks of `2 * len` coefficients,
/// `len = 2^(7 - l)`, block `b` using twiddle `2^l + b`, and in each block the butterfly
/// `(x, y) -> (x + z y, x - z y)` on the pairs `len` apart.
pub open spec fn ntt_layer(s: Seq<int>, l: int) -> Seq<int> {
    let len = pow2((7 - l) as nat) as int;
    Seq::new(
        256,
        |i: int|
            {
                let z = zeta_value(pow2(l as nat) + i / (2 * len));
                if i % (2 * len) < len {
                    s[i] + z * s[i + len]
                } else {
                    s[i - len] - z * s[i]
                }
            },
    )
}

/// The first `n` layers of the forward transform.
pub open spec fn ntt_layers(s: Seq<int>, n: int) -> Seq<int>
    decreases n,
{
    if n <= 0 {
        s
    } else {
        ntt_layer(ntt_layers(s, n - 1), n - 1)
    }
}

/// The forward number-theoretic transform over `Z_q`: seven layers, output in bit-reversed
/// order.
pub open spec fn ntt_spec(s: Seq<int>) -> Seq<int> {
    ntt_layers(s, 7)
}

/// Layer `l` of the forward transform exactly as [`ntt`] computes it: the product
/// `z y` of the butterfly is the Montgomery reduction of `ZETAS[k] * y`.
pub open spec fn ntt_exact_layer(s: Seq<int>, l: int) -> Seq<int> {
    let len = pow2((7 - l) as nat) as int;
    Seq::new(
        256,
        |i: int|
            {
                let zeta = ZETAS[pow2(l as nat) + i / (2 * len)] as int;
                if i % (2 * len) < len {
                    s[i] + montgomery_value(zeta * s[i + len])
                } else {
                    s[i - len] - montgomery_value(zeta * s[i])
                }
            },
    )
}

/// The first `n` layers of the forward transform exactly as [`ntt`] computes them.
pub open spec fn ntt_exact_layers(s: Seq<int>, n: int) -> Seq<int>
    decreases n,
{
    if n <= 0 {
        s
    } else {
        ntt_exact_layer(ntt_exact_layers(s, n - 1), n - 1)
    }
}

/// Largest input magnitude of [`ntt`]: each of the seven layers adds less than `q` to a
/// magnitude, and the result must stay within 16 bits.
pub open spec fn ntt_input_bound() -> int {
    9471
}

/// Entries `0..256` of `s` and `t` are congruent modulo `q`.
pub open spec fn all_congruent(s: Seq<int>, t: Seq<int>) -> bool {
    forall|i: int| 0 <= i < 256 ==> congruent(#[trigger] s[i], t[i])
}

/// Sizes of layer `l`: `2^l` blocks of `2 * 2^(7 - l)` coefficients.
proof fn lemma_layer_sizes(l: int)
    requires
        0 <= l < 7,
    ensures
        1 <= pow2(l as nat) <= 64,
        2 <= pow2((7 - l) as nat) <= 128,
        pow2(l as nat) * (2 * pow2((7 - l) as nat)) == 256,
        pow2((l + 1) as nat) == 2 * pow2(l as nat),
        128nat / pow2((7 - l) as nat) == pow2(l as nat),
{
    lemma2_to64();
    if l == 0 {
        assert(pow2(l as nat) == 1 && pow2((7 - l) as nat) == 128 && pow2((l + 1) as nat)
            == 2);
        assert(pow2(l as nat) * pow2((7 - l) as nat) == 128 && 128nat / pow2((7 - l) as nat) == 1)
            by (nonlinear_arith)
            requires
                pow2(l as nat) == 1,
                pow2((7 - l) as nat) == 128,
        ;
    } else if l == 1 {
        assert(pow2(l as nat) == 2 && pow2((7 - l) as nat) == 64 && pow2((l + 1) as nat)
            == 4);
        assert(pow2(l as nat) * pow2((7 - l) as nat) == 128 && 128nat / pow2((7 - l) as nat) == 2)
            by (nonlinear_arith)
            requires
                pow2(l as nat) == 2,
                pow2((7 - l) as nat) == 64,
        ;
    } else if l == 2 {
        assert(pow2(l as nat) == 4 && pow2((7 - l) as nat) == 32 && pow2((l + 1) as nat)
            == 8);
        assert(pow2(l as nat) * pow2((7 - l) as nat) == 128 && 128nat / pow2((7 - l) as nat) == 4)
            by (nonlinear_arith)
            requires
                pow2(l as nat) == 4,
                pow2((7 - l) as nat) == 32,
        ;
    } else if l == 3 {
        assert(pow2(l as nat) == 8 && pow2((7 - l) as nat) == 16 && pow2((l + 1) as nat)
            == 16);
        assert(pow2(l as nat) * pow2((7 - l) as nat) == 128 && 128nat / pow2((7 - l) as nat) == 8)
            by (nonlinear_arith)
            requires
                pow2(l as nat) == 8,
                pow2((7 - l) as nat) == 16,
        ;
    } else if l == 4 {
        assert(pow2(l as nat) == 16 && pow2((7 - l) as nat) == 8 && pow2((l + 1) as nat)
            == 32);
        assert(pow2(l as nat) * pow2((7 - l) as nat) == 128 && 128nat / pow2((7 - l) as nat) == 16)
            by (nonlinear_arith)
            requires
                pow2(l as nat) == 16,
                pow2((7 - l) as nat) == 8,
        ;
    } else if l == 5 {
        assert(pow2(l as nat) == 32 && pow2((7 - l) as nat) == 4 && pow2((l + 1) as nat)
            == 64);
        assert(pow2(l as nat) * pow2((7 - l) as nat) == 128 && 128nat / pow2((7 - l) as nat) == 32)
            by (nonlinear_arith)
            requires
                pow2(l as nat) == 32,
                pow2((7 - l) as nat) == 4,
        ;
    } else {
        assert(pow2(l as nat) == 64 && pow2((7 - l) as nat) == 2 && pow2((l + 1) as nat)
            == 128);
        assert(pow2(l as nat) * pow2((7 - l) as nat) == 128 && 128nat / pow2((7 - l) as nat) == 64)
            by (nonlinear_arith)
            requires
                pow2(l as nat) == 64,
                pow2((7 - l) as nat) == 2,
        ;
    }
    assert(pow2(l as nat) * (2 * pow2((7 - l) as nat)) == 256) by (nonlinear_arith)
        requires
            pow2(l as nat) * pow2((7 - l) as nat) == 128,
    ;
}

/// Where coefficient `i` stands in a layer of `nb` blocks of `2 * len`: its block, its
/// offset, and its partner `len` away in the same block.
proof fn lemma_block_position(i: int, len: int, nb: int)
    requires
        0 <= i < 256,
        1 <= len,
        nb * (2 * len) == 256,
    ensures
        0 <= i / (2 * len) < nb,
        0 <= i % (2 * len) < 2 * len,
        i == (i / (2 * len)) * (2 * len) + i % (2 * len),
        i % (2 * len) < len ==> i + len < 256 && (i + len) / (2 * len) == i / (2 * len) && (i
            + len) % (2 * len) == i % (2 * len) + len,
        i % (2 * len) >= len ==> i - len >= 0 && (i - len) / (2 * len) == i / (2 * len) && (i
            - len) % (2 * len) == i % (2 * len) - len,
{
    let d = 2 * len;
    let blk = i / d;
    let off = i % d;
    lemma_fundamental_div_mod(i, d);
    assert(i == blk * d + off) by (nonlinear_arith)
        requires
            i == d * blk + off,
    ;
    assert(0 <= blk < nb) by (nonlinear_arith)
        requires
            i == blk * d + off,
            0 <= off < d,
            0 <= i < 256,
            nb * d == 256,
            d >= 2,
    ;
    assert(blk * d + d <= 256) by (nonlinear_arith)
        requires
            blk < nb,
            nb * d == 256,
            d >= 2,
    ;
    if off < len {
        lemma_fundamental_div_mod_converse(i + len, d, blk, off + len);
    } else {
        lemma_fundamental_div_mod_converse(i - len, d, blk, off - len);
    }
}

/// A layer maps congruent inputs to congruent outputs.
proof fn lemma_ntt_layer_congruent(s: Seq<int>, t: Seq<int>, l: int)
    requires
        0 <= l < 7,
        s.len() == 256,
        t.len() == 256,
        all_congruent(s, t),
    ensures
        all_congruent(ntt_layer(s, l), ntt_layer(t, l)),
{
    lemma_layer_sizes(l);
    let len = pow2((7 - l) as nat) as int;
    assert forall|i: int| 0 <= i < 256 implies congruent(
        #[trigger] ntt_layer(s, l)[i],
        ntt_layer(t, l)[i],
    ) by {
        let z = zeta_value(pow2(l as nat) + i / (2 * len));
        lemma_block_position(i, len, pow2(l as nat) as int);
        if i % (2 * len) < len {
            lemma_congruent_mul(z, s[i + len], t[i + len]);
            lemma_congruent_add_sub(s[i], t[i], z * s[i + len], z * t[i + len]);
        } else {
            lemma_congruent_mul(z, s[i], t[i]);
            lemma_congruent_add_sub(s[i - len], t[i - len], z * s[i], z * t[i]);
        }
    }
}


/// The butterfly of a forward layer, on residues: from `t == zeta * y * 2^(-16)` follow the
/// two outputs of the layer's spec.
proof fn lemma_butterfly(x: int, y: int, zeta: int, t: int)
    requires
        congruent(t * mont_r(), zeta * y),
    ensures
        congruent(x + t, x + (zeta * 169) * y),
        congruent(x - t, x - (zeta * 169) * y),
{
    lemma_montgomery_unscale(t, zeta * y);
    assert(169 * (zeta * y) == (zeta * 169) * y) by (nonlinear_arith);
    lemma_congruent_add_sub(x, x, t, (zeta * 169) * y);
}

/// One layer of the forward transform, in place.
fn ntt_layer_step(r: &mut [i16; KYBER_N], l: usize, len: usize, Ghost(bound): Ghost<int>)
    requires
        l < 7,
        len == pow2((7 - l) as nat),
        0 <= bound,
        bound + 3328 <= 32767,
        forall|i: int| 0 <= i < 256 ==> -bound <= #[trigger] old(r)[i] <= bound,
    ensures
        coeffs_int(*final(r)) == ntt_exact_layer(coeffs_int(*old(r)), l as int),
        all_congruent(coeffs_int(*final(r)), ntt_layer(coeffs_int(*old(r)), l as int)),
        forall|i: int| 0 <= i < 256 ==> -bound - 3328 <= #[trigger] final(r)[i] <= bound + 3328,
{
    let ghost prev = coeffs_int(*r);
    let ghost target = ntt_layer(prev, l as int);
    let ghost exact = ntt_exact_layer(prev, l as int);
    proof {
        lemma_layer_sizes(l as int);
    }
    let nblocks: usize = 128 / len;
    assert(nblocks == pow2(l as nat) && nblocks * (2 * len) == 256 && 2 <= len <= 128);
    let mut b: usize = 0;
    let mut start: usize = 0;
    while start < 256
        invariant
            l < 7,
            len == pow2((7 - l) as nat),
            2 <= len <= 128,
            nblocks == pow2(l as nat),
            nblocks <= 64,
            nblocks * (2 * len) == 256,
            start == 2 * len * b,
            start <= 256,
            bound + 3328 <= 32767,
            prev == coeffs_int(*old(r)),
            target == ntt_layer(prev, l as int),
            exact == ntt_exact_layer(prev, l as int),
            forall|i: int| 0 <= i < 256 ==> -bound <= #[trigger] prev[i] <= bound,
            forall|i: int|
                0 <= i < start ==> congruent(#[trigger] r[i] as int, target[i]) && -bound - 3328
                    <= r[i] <= bound + 3328 && r[i] as int == exact[i],
            forall|i: int| start <= i < 256 ==> #[trigger] r[i] as int == prev[i],
        decreases 256 - start,
    {
        assert(b < nblocks && 2 * len * b + 2 * len <= 256) by (nonlinear_arith)
            requires
                start == 2 * len * b,
                start < 256,
                nblocks * (2 * len) == 256,
                len >= 2,
        ;
        let zeta = ZETAS[nblocks + b];
        for jj in 0..len
            invariant
                2 <= len <= 128,
                start == 2 * len * b,
                start + 2 * len <= 256,
                nblocks * (2 * len) == 256,
                zeta == ZETAS[nblocks + b],
                b < nblocks,
                nblocks <= 64,
                nblocks == pow2(l as nat),
                len == pow2((7 - l) as nat),
                bound + 3328 <= 32767,
                target == ntt_layer(prev, l as int),
                exact == ntt_exact_layer(prev, l as int),
                forall|i: int| 0 <= i < 256 ==> -bound <= #[trigger] prev[i] <= bound,
                forall|i: int|
                    (0 <= i < start + jj || start + len <= i < start + len + jj) ==> congruent(
                        #[trigger] r[i] as int,
                        target[i],
                    ) && -bound - 3328 <= r[i] <= bound + 3328 && r[i] as int == exact[i],
                forall|i: int|
                    (start + jj <= i < start + len || start + len + jj <= i < 256) ==> #[trigger] r[i]
                        as int == prev[i],
        {
            let j = start + jj;
            proof {
                lemma_zetas_bounded();
                assert(-mont_bound() < zeta * r[j + len as int] < mont_bound()) by (nonlinear_arith)
                    requires
                        -1664 <= zeta <= 1664,
                ;
            }
            let t = fqmul(zeta, r[j + len]);
            proof {
                let x = prev[j as int];
                let y = prev[j + len];
                lemma_butterfly(x, y, zeta as int, t as int);
                assert(start == b * (2 * len)) by (nonlinear_arith)
                    requires
                        start == 2 * len * b,
                ;
                lemma_fundamental_div_mod_converse(j as int, 2 * len, b as int, jj as int);
                lemma_fundamental_div_mod_converse(j + len, 2 * len, b as int, jj + len);
                assert(target[j as int] == x + zeta_value(nblocks + b) * y);
                assert(target[j + len] == x - zeta_value(nblocks + b) * y);
                assert(exact[j as int] == x + t);
                assert(exact[j + len] == x - t);
            }
            r[j + len] = r[j] - t;
            r[j] = r[j] + t;
        }
        assert(start + 2 * len == 2 * len * (b + 1)) by (nonlinear_arith)
            requires
                start == 2 * len * b,
        ;
        start = start + 2 * len;
        b = b + 1;
    }
    assert(coeffs_int(*r) =~= exact);
}


/// Forward number-theoretic transform in place: natural order in, bit-reversed order out.
/// Each output coefficient is congruent modulo `q` to [`ntt_spec`] of the input and its
/// magnitude stays within 16 bits.
pub fn ntt(r: &mut [i16; KYBER_N])
    requires
        forall|i: int|
            0 <= i < 256 ==> -ntt_input_bound() <= #[trigger] old(r)[i] <= ntt_input_bound(),
    ensures
        coeffs_int(*final(r)) == ntt_exact_layers(coeffs_int(*old(r)), 7),
        all_congruent(coeffs_int(*final(r)), ntt_spec(coeffs_int(*old(r)))),
        forall|i: int| 0 <= i < 256 ==> -32767 <= #[trigger] final(r)[i] <= 32767,
{
    let ghost input = coeffs_int(*r);
    let mut len: usize = 128;
    proof {
        lemma2_to64();
    }
    for l in 0..7
        invariant
            len == pow2((7 - l) as nat),
            input == coeffs_int(*old(r)),
            input.len() == 256,
            all_congruent(coeffs_int(*r), ntt_layers(input, l as int)),
            coeffs_int(*r) == ntt_exact_layers(input, l as int),
            forall|i: int|
                0 <= i < 256 ==> -9471 - 3328 * l <= #[trigger] r[i] <= 9471 + 3328 * l,
    {
        let ghost before = coeffs_int(*r);
        ntt_layer_step(r, l, len, Ghost(9471 + 3328 * l));
        proof {
            lemma_pow2_unfold((7 - l) as nat);
            lemma_ntt_layer_congruent(before, ntt_layers(input, l as int), l as int);
            assert forall|i: int| 0 <= i < 256 implies congruent(
                #[trigger] coeffs_int(*r)[i],
                ntt_layers(input, l + 1)[i],
            ) by {
                lemma_congruent_trans(
                    coeffs_int(*r)[i],
                    ntt_layer(before, l as int)[i],
                    ntt_layer(ntt_layers(input, l as int), l as int)[i],
                );
            }
        }
        len = len / 2;
    }
}


/// Layer `m` (0 to 6) of the inverse transform over `Z_q`: blocks of `2 * len` coefficients,
/// `len = 2^(m + 1)`, block `b` using twiddle `2^(7 - m) - 1 - b`, and in each block the
/// butterfly `(x, y) -> (x + y, z (y - x))` on the pairs `len` apart.
pub open spec fn invntt_layer(s: Seq<int>, m: int) -> Seq<int> {
    let len = pow2((m + 1) as nat) as int;
    Seq::new(
        256,
        |i: int|
            {
                let z = zeta_value(pow2((7 - m) as nat) - 1 - i / (2 * len));
                if i % (2 * len) < len {
                    s[i] + s[i + len]
                } else {
                    z * (s[i] - s[i - len])
                }
            },
    )
}

/// The first `n` layers of the inverse transform.
pub open spec fn invntt_layers(s: Seq<int>, n: int) -> Seq<int>
    decreases n,
{
    if n <= 0 {
        s
    } else {
        invntt_layer(invntt_layers(s, n - 1), n - 1)
    }
}

/// The inverse number-theoretic transform over `Z_q`, bit-reversed order in, natural order
/// out: seven layers, then every coefficient times `1441 * 2^(-16)`, which is `2^16 / 128`
/// modulo `q` and so both divides by the 128 of the layers and leaves the result in the
/// Montgomery domain.
pub open spec fn invntt_spec(s: Seq<int>) -> Seq<int> {
    Seq::new(256, |i: int| invntt_layers(s, 7)[i] * (1441 * 169))
}

/// Layer `m` of the inverse transform exactly as [`invntt`] computes it: sums are Barrett
/// reduced, and `z (y - x)` is the Montgomery reduction of `ZETAS[k] * (y - x)`.
pub open spec fn invntt_exact_layer(s: Seq<int>, m: int) -> Seq<int> {
    let len = pow2((m + 1) as nat) as int;
    Seq::new(
        256,
        |i: int|
            {
                let zeta = ZETAS[pow2((7 - m) as nat) - 1 - i / (2 * len)] as int;
                if i % (2 * len) < len {
                    barrett_value(s[i] + s[i + len])
                } else {
                    montgomery_value(zeta * (s[i] - s[i - len]))
                }
            },
    )
}

/// The first `n` layers of the inverse transform exactly as [`invntt`] computes them.
pub open spec fn invntt_exact_layers(s: Seq<int>, n: int) -> Seq<int>
    decreases n,
{
    if n <= 0 {
        s
    } else {
        invntt_exact_layer(invntt_exact_layers(s, n - 1), n - 1)
    }
}

/// The inverse transform exactly as [`invntt`] computes it: the seven layers, then the
/// Montgomery reduction of every coefficient times 1441.
pub open spec fn invntt_exact(s: Seq<int>) -> Seq<int> {
    Seq::new(256, |i: int| montgomery_value(invntt_exact_layers(s, 7)[i] * 1441))
}

/// A layer of the inverse transform maps congruent inputs to congruent outputs.
proof fn lemma_invntt_layer_congruent(s: Seq<int>, t: Seq<int>, m: int)
    requires
        0 <= m < 7,
        s.len() == 256,
        t.len() == 256,
        all_congruent(s, t),
    ensures
        all_congruent(invntt_layer(s, m), invntt_layer(t, m)),
{
    lemma_layer_sizes(6 - m);
    let len = pow2((m + 1) as nat) as int;
    assert forall|i: int| 0 <= i < 256 implies congruent(
        #[trigger] invntt_layer(s, m)[i],
        invntt_layer(t, m)[i],
    ) by {
        let z = zeta_value(pow2((7 - m) as nat) - 1 - i / (2 * len));
        lemma_block_position(i, len, pow2((6 - m) as nat) as int);
        if i % (2 * len) < len {
            lemma_congruent_add_sub(s[i], t[i], s[i + len], t[i + len]);
        } else {
            lemma_congruent_add_sub(s[i], t[i], s[i - len], t[i - len]);
            lemma_congruent_mul(z, s[i] - s[i - len], t[i] - t[i - len]);
        }
    }
}

/// One layer of the inverse transform, in place.
fn invntt_layer_step(r: &mut [i16; KYBER_N], m: usize, len: usize)
    requires
        m < 7,
        len == pow2((m + 1) as nat),
        forall|i: int| 0 <= i < 256 ==> -16383 <= #[trigger] old(r)[i] <= 16383,
    ensures
        coeffs_int(*final(r)) == invntt_exact_layer(coeffs_int(*old(r)), m as int),
        all_congruent(coeffs_int(*final(r)), invntt_layer(coeffs_int(*old(r)), m as int)),
        forall|i: int| 0 <= i < 256 ==> -3328 <= #[trigger] final(r)[i] <= 3328,
{
    let ghost prev = coeffs_int(*r);
    let ghost target = invntt_layer(prev, m as int);
    let ghost exact = invntt_exact_layer(prev, m as int);
    proof {
        lemma_layer_sizes(6 - m);
    }
    let nblocks: usize = 128 / len;
    assert(nblocks == pow2((6 - m) as nat) && 2 * nblocks == pow2((7 - m) as nat) && nblocks * (2
        * len) == 256 && 2 <= len <= 128);
    let mut b: usize = 0;
    let mut start: usize = 0;
    while start < 256
        invariant
            m < 7,
            len == pow2((m + 1) as nat),
            2 <= len <= 128,
            nblocks == pow2((6 - m) as nat),
            2 * nblocks == pow2((7 - m) as nat),
            1 <= nblocks <= 64,
            nblocks * (2 * len) == 256,
            start == 2 * len * b,
            start <= 256,
            prev == coeffs_int(*old(r)),
            target == invntt_layer(prev, m as int),
            exact == invntt_exact_layer(prev, m as int),
            forall|i: int| 0 <= i < 256 ==> -16383 <= #[trigger] prev[i] <= 16383,
            forall|i: int|
                0 <= i < start ==> congruent(#[trigger] r[i] as int, target[i]) && -3328 <= r[i]
                    <= 3328 && r[i] as int == exact[i],
            forall|i: int| start <= i < 256 ==> #[trigger] r[i] as int == prev[i],
        decreases 256 - start,
    {
        assert(b < nblocks && 2 * len * b + 2 * len <= 256) by (nonlinear_arith)
            requires
                start == 2 * len * b,
                start < 256,
                nblocks * (2 * len) == 256,
                len >= 2,
        ;
        let zeta = ZETAS[2 * nblocks - 1 - b];
        for jj in 0..len
            invariant
                2 <= len <= 128,
                start == 2 * len * b,
                start + 2 * len <= 256,
                nblocks * (2 * len) == 256,
                zeta == ZETAS[2 * nblocks - 1 - b],
                b < nblocks,
                nblocks <= 64,
                2 * nblocks == pow2((7 - m) as nat),
                len == pow2((m + 1) as nat),
                target == invntt_layer(prev, m as int),
                exact == invntt_exact_layer(prev, m as int),
                forall|i: int| 0 <= i < 256 ==> -16383 <= #[trigger] prev[i] <= 16383,
                forall|i: int|
                    (0 <= i < start + jj || start + len <= i < start + len + jj) ==> congruent(
                        #[trigger] r[i] as int,
                        target[i],
                    ) && -3328 <= r[i] <= 3328 && r[i] as int == exact[i],
                forall|i: int|
                    (start + jj <= i < start + len || start + len + jj <= i < 256) ==> #[trigger] r[i]
                        as int == prev[i],
        {
            let j = start + jj;
            let t = r[j];
            r[j] = barrett_reduce(t + r[j + len]);
            let d = r[j + len] - t;
            proof {
                lemma_zetas_bounded();
                assert(-mont_bound() < zeta * d < mont_bound()) by (nonlinear_arith)
                    requires
                        -1664 <= zeta <= 1664,
                        -32766 <= d <= 32766,
                ;
            }
            let u = fqmul(zeta, d);
            proof {
                let x = prev[j as int];
                let y = prev[j + len];
                lemma_montgomery_unscale(u as int, zeta * d);
                assert(169 * (zeta * d) == (zeta * 169) * (y - x)) by (nonlinear_arith)
                    requires
                        d == y - x,
                ;
                assert(start == b * (2 * len)) by (nonlinear_arith)
                    requires
                        start == 2 * len * b,
                ;
                lemma_fundamental_div_mod_converse(j as int, 2 * len, b as int, jj as int);
                lemma_fundamental_div_mod_converse(j + len, 2 * len, b as int, jj + len);
                assert(target[j as int] == x + y);
                assert(target[j + len] == zeta_value(2 * nblocks - 1 - b) * (y - x));
                assert(exact[j as int] == r[j as int]);
                assert(exact[j + len] == u);
            }
            r[j + len] = u;
        }
        assert(start + 2 * len == 2 * len * (b + 1)) by (nonlinear_arith)
            requires
                start == 2 * len * b,
        ;
        start = start + 2 * len;
        b = b + 1;
    }
    assert(coeffs_int(*r) =~= exact);
}

/// Inverse number-theoretic transform in place: bit-reversed order in, natural order out,
/// multiplied by `2^16` so that the result is in the Montgomery domain. Each output
/// coefficient is congruent modulo `q` to [`invntt_spec`] of the input and lies in `(-q, q)`.
pub fn invntt(r: &mut [i16; KYBER_N])
    requires
        forall|i: int| 0 <= i < 256 ==> -16383 <= #[trigger] old(r)[i] <= 16383,
    ensures
        coeffs_int(*final(r)) == invntt_exact(coeffs_int(*old(r))),
        all_congruent(coeffs_int(*final(r)), invntt_spec(coeffs_int(*old(r)))),
        forall|i: int| 0 <= i < 256 ==> -q() < #[trigger] final(r)[i] < q(),
{
    let ghost input = coeffs_int(*r);
    let mut len: usize = 2;
    proof {
        lemma2_to64();
    }
    for m in 0..7
        invariant
            len == pow2((m + 1) as nat),
            input == coeffs_int(*old(r)),
            input.len() == 256,
            all_congruent(coeffs_int(*r), invntt_layers(input, m as int)),
            coeffs_int(*r) == invntt_exact_layers(input, m as int),
            forall|i: int| 0 <= i < 256 ==> -16383 <= #[trigger] r[i] <= 16383,
    {
        let ghost before = coeffs_int(*r);
        invntt_layer_step(r, m, len);
        proof {
            lemma_pow2_unfold((m + 2) as nat);
            lemma_layer_sizes(6 - m);
            lemma_invntt_layer_congruent(before, invntt_layers(input, m as int), m as int);
            assert forall|i: int| 0 <= i < 256 implies congruent(
                #[trigger] coeffs_int(*r)[i],
                invntt_layers(input, m + 1)[i],
            ) by {
                lemma_congruent_trans(
                    coeffs_int(*r)[i],
                    invntt_layer(before, m as int)[i],
                    invntt_layer(invntt_layers(input, m as int), m as int)[i],
                );
            }
        }
        len = len * 2;
    }
    let ghost layered = coeffs_int(*r);
    for j in 0..KYBER_N
        invariant
            input == coeffs_int(*old(r)),
            all_congruent(layered, invntt_layers(input, 7)),
            layered == invntt_exact_layers(input, 7),
            forall|i: int| 0 <= i < j ==> #[trigger] r[i] as int == invntt_exact(input)[i],
            forall|i: int| 0 <= i < j ==> congruent(#[trigger] r[i] as int, invntt_spec(input)[i]),
            forall|i: int| 0 <= i < j ==> -q() < #[trigger] r[i] < q(),
            forall|i: int| j <= i < 256 ==> #[trigger] r[i] as int == layered[i],
            forall|i: int| j <= i < 256 ==> -16383 <= #[trigger] r[i] <= 16383,
    {
        let c = r[j];
        assert(-mont_bound() < c * 1441 < mont_bound());
        r[j] = fqmul(c, 1441);
        proof {
            lemma_montgomery_unscale(r[j as int] as int, c * 1441);
            lemma_congruent_mul(1441int * 169, layered[j as int], invntt_layers(input, 7)[j as int]);
            assert(169 * (c * 1441) == (1441 * 169) * c);
            lemma_congruent_trans(
                r[j as int] as int,
                (1441 * 169) * layered[j as int],
                (1441 * 169) * invntt_layers(input, 7)[j as int],
            );
        }
    }
}


/// Multiplication in `Z_q[x]/(x^2 - zeta)`, with `zeta` in Montgomery form: the product of
/// `a0 + a1 x` and `b0 + b1 x` is `(a0 b0 + a1 b1 zeta') + (a0 b1 + a1 b0) x` with
/// `zeta' = zeta * 2^(-16)`; the results are that times `2^(-16)` modulo `q`, in `(-2q, 2q)`.
pub fn basemul(a0: i16, a1: i16, b0: i16, b1: i16, zeta: i16) -> (r: (i16, i16))
    requires
        -mont_bound() < a0 * b0 < mont_bound(),
        -mont_bound() < a0 * b1 < mont_bound(),
        -mont_bound() < a1 * b0 < mont_bound(),
        -mont_bound() < a1 * b1 < mont_bound(),
        -1664 <= zeta <= 1664,
    ensures
        r.0 == montgomery_value(montgomery_value(a1 * b1) * zeta) + montgomery_value(a0 * b0),
        r.1 == montgomery_value(a0 * b1) + montgomery_value(a1 * b0),
        congruent(r.0 as int, 169 * (a0 * b0 + a1 * b1 * (zeta * 169))),
        congruent(r.1 as int, 169 * (a0 * b1 + a1 * b0)),
        -2 * q() < r.0 < 2 * q(),
        -2 * q() < r.1 < 2 * q(),
{
    let t = fqmul(a1, b1);
    assert(-mont_bound() < t * zeta < mont_bound()) by (nonlinear_arith)
        requires
            -q() < t < q(),
            -1664 <= zeta <= 1664,
    ;
    let r0 = fqmul(t, zeta);
    let p00 = fqmul(a0, b0);
    let p01 = fqmul(a0, b1);
    let p10 = fqmul(a1, b0);
    proof {
        lemma_montgomery_unscale(t as int, a1 * b1);
        lemma_montgomery_unscale(r0 as int, t * zeta);
        lemma_montgomery_unscale(p00 as int, a0 * b0);
        lemma_montgomery_unscale(p01 as int, a0 * b1);
        lemma_montgomery_unscale(p10 as int, a1 * b0);
        lemma_congruent_mul(169 * zeta, t as int, 169 * (a1 * b1));
        assert(169 * (t * zeta) == (169 * zeta) * t) by (nonlinear_arith);
        lemma_congruent_trans(r0 as int, 169 * (t * zeta), (169 * zeta) * (169 * (a1 * b1)));
        assert((169 * zeta) * (169 * (a1 * b1)) == 169 * (a1 * b1 * (zeta * 169)))
            by (nonlinear_arith);
        lemma_congruent_add_sub(r0 as int, 169 * (a1 * b1 * (zeta * 169)), p00 as int, 169 * (a0 * b0));
        lemma_congruent_add_sub(p01 as int, 169 * (a0 * b1), p10 as int, 169 * (a1 * b0));
        assert(169 * (a1 * b1 * (zeta * 169)) + 169 * (a0 * b0) == 169 * (a0 * b0 + a1 * b1 * (zeta
            * 169))) by (nonlinear_arith);
        assert(169 * (a0 * b1) + 169 * (a1 * b0) == 169 * (a0 * b1 + a1 * b0)) by (nonlinear_arith);
    }
    (r0 + p00, p01 + p10)
}

/// The twiddle of coefficient `i` in a base multiplication: blocks of four coefficients,
/// block `j` holding a pair modulo `x^2 - zeta` and a pair modulo `x^2 + zeta`, with
/// `zeta = ZETAS[64 + j] * 2^(-16)`.
pub open spec fn basemul_zeta(i: int) -> int {
    if i % 4 < 2 {
        zeta_value(64 + i / 4)
    } else {
        -zeta_value(64 + i / 4)
    }
}

/// Coefficient `i` of the product of `a` and `b` in the transform domain, before the
/// factor `2^(-16)`: the product of the degree-1 pairs that hold coefficient `i`.
pub open spec fn basemul_coeff(a: Seq<int>, b: Seq<int>, i: int) -> int {
    let e = i - i % 2;
    if i % 2 == 0 {
        a[e] * b[e] + a[e + 1] * b[e + 1] * basemul_zeta(i)
    } else {
        a[e] * b[e + 1] + a[e + 1] * b[e]
    }
}

/// Coefficient `i` of the product of `a` and `b` in the transform domain exactly as base
/// multiplication computes it: `fqmul(fqmul(a1, b1), zeta) + fqmul(a0, b0)` and
/// `fqmul(a0, b1) + fqmul(a1, b0)` on the pair that holds it, with `zeta = ZETAS[64 + i / 4]`
/// for the first pair of a block and its negation for the second.
pub open spec fn basemul_value(a: Seq<int>, b: Seq<int>, i: int) -> int {
    let e = i - i % 2;
    let zeta = if i % 4 < 2 {
        ZETAS[64 + i / 4] as int
    } else {
        -ZETAS[64 + i / 4]
    };
    if i % 2 == 0 {
        montgomery_value(montgomery_value(a[e + 1] * b[e + 1]) * zeta) + montgomery_value(
            a[e] * b[e],
        )
    } else {
        montgomery_value(a[e] * b[e + 1]) + montgomery_value(a[e + 1] * b[e])
    }
}

/// Each product of two coefficients of `a` and `b` that share a pair lies in the
/// Montgomery range.
pub open spec fn basemul_inputs_bounded(a: Seq<int>, b: Seq<int>) -> bool {
    forall|i: int, j: int|
        0 <= i < 256 && 0 <= j < 256 && i / 2 == j / 2 ==> -mont_bound() < #[trigger] a[i]
            * #[trigger] b[j] < mont_bound()
}


/// The twiddle that the inverse transform pairs with twiddle `c` of the forward one: for
/// `2^l <= c < 2^(l + 1)`, the index `3 * 2^l - 1 - c`.
pub open spec fn twiddle_partner(c: int) -> int {
    if c < 2 {
        1
    } else if c < 4 {
        5 - c
    } else if c < 8 {
        11 - c
    } else if c < 16 {
        23 - c
    } else if c < 32 {
        47 - c
    } else if c < 64 {
        95 - c
    } else {
        191 - c
    }
}

/// Twiddle `2^l + b` of forward layer `l` is paired with twiddle `2^(l + 1) - 1 - b`.
proof fn lemma_twiddle_partner(l: int, b: int)
    requires
        0 <= l < 7,
        0 <= b < pow2(l as nat),
    ensures
        twiddle_partner(pow2(l as nat) + b) == pow2((l + 1) as nat) - 1 - b,
{
    lemma2_to64();
    if l == 0 {
        assert(pow2(l as nat) == 1 && pow2((l + 1) as nat) == 2);
    } else if l == 1 {
        assert(pow2(l as nat) == 2 && pow2((l + 1) as nat) == 4);
    } else if l == 2 {
        assert(pow2(l as nat) == 4 && pow2((l + 1) as nat) == 8);
    } else if l == 3 {
        assert(pow2(l as nat) == 8 && pow2((l + 1) as nat) == 16);
    } else if l == 4 {
        assert(pow2(l as nat) == 16 && pow2((l + 1) as nat) == 32);
    } else if l == 5 {
        assert(pow2(l as nat) == 32 && pow2((l + 1) as nat) == 64);
    } else {
        assert(pow2(l as nat) == 64 && pow2((l + 1) as nat) == 128);
    }
}

/// Each twiddle times its partner is `-1` modulo `q`: the inverse layer undoes the
/// forward one.
proof fn lemma_twiddle_pairs()
    ensures
        forall|c: int|
            1 <= c < 128 ==> congruent(#[trigger] zeta_value(c) * zeta_value(twiddle_partner(c)), -1),
{
    assert(zeta_value(0) == -1044 * 169);
    assert(zeta_value(1) == -758 * 169);
    assert(zeta_value(2) == -359 * 169);
    assert(zeta_value(3) == -1517 * 169);
    assert(zeta_value(4) == 1493 * 169);
    assert(zeta_value(5) == 1422 * 169);
    assert(zeta_value(6) == 287 * 169);
    assert(zeta_value(7) == 202 * 169);
    assert(zeta_value(8) == -171 * 169);
    assert(zeta_value(9) == 622 * 169);
    assert(zeta_value(10) == 1577 * 169);
    assert(zeta_value(11) == 182 * 169);
    assert(zeta_value(12) == 962 * 169);
    assert(zeta_value(13) == -1202 * 169);
    assert(zeta_value(14) == -1474 * 169);
    assert(zeta_value(15) == 1468 * 169);
    assert(zeta_value(16) == 573 * 169);
    assert(zeta_value(17) == -1325 * 169);
    assert(zeta_value(18) == 264 * 169);
    assert(zeta_value(19) == 383 * 169);
    assert(zeta_value(20) == -829 * 169);
    assert(zeta_value(21) == 1458 * 169);
    assert(zeta_value(22) == -1602 * 169);
    assert(zeta_value(23) == -130 * 169);
    assert(zeta_value(24) == -681 * 169);
    assert(zeta_value(25) == 1017 * 169);
    assert(zeta_value(26) == 732 * 169);
    assert(zeta_value(27) == 608 * 169);
    assert(zeta_value(28) == -1542 * 169);
    assert(zeta_value(29) == 411 * 169);
    assert(zeta_value(30) == -205 * 169);
    assert(zeta_value(31) == -1571 * 169);
    assert(zeta_value(32) == 1223 * 169);
    assert(zeta_value(33) == 652 * 169);
    assert(zeta_value(34) == -552 * 169);
    assert(zeta_value(35) == 1015 * 169);
    assert(zeta_value(36) == -1293 * 169);
    assert(zeta_value(37) == 1491 * 169);
    assert(zeta_value(38) == -282 * 169);
    assert(zeta_value(39) == -1544 * 169);
    assert(zeta_value(40) == 516 * 169);
    assert(zeta_value(41) == -8 * 169);
    assert(zeta_value(42) == -320 * 169);
    assert(zeta_value(43) == -666 * 169);
    assert(zeta_value(44) == -1618 * 169);
    assert(zeta_value(45) == -1162 * 169);
    assert(zeta_value(46) == 126 * 169);
    assert(zeta_value(47) == 1469 * 169);
    assert(zeta_value(48) == -853 * 169);
    assert(zeta_value(49) == -90 * 169);
    assert(zeta_value(50) == -271 * 169);
    assert(zeta_value(51) == 830 * 169);
    assert(zeta_value(52) == 107 * 169);
    assert(zeta_value(53) == -1421 * 169);
    assert(zeta_value(54) == -247 * 169);
    assert(zeta_value(55) == -951 * 169);
    assert(zeta_value(56) == -398 * 169);
    assert(zeta_value(57) == 961 * 169);
    assert(zeta_value(58) == -1508 * 169);
    assert(zeta_value(59) == -725 * 169);
    assert(zeta_value(60) == 448 * 169);
    assert(zeta_value(61) == -1065 * 169);
    assert(zeta_value(62) == 677 * 169);
    assert(zeta_value(63) == -1275 * 169);
    assert(zeta_value(64) == -1103 * 169);
    assert(zeta_value(65) == 430 * 169);
    assert(zeta_value(66) == 555 * 169);
    assert(zeta_value(67) == 843 * 169);
    assert(zeta_value(68) == -1251 * 169);
    assert(zeta_value(69) == 871 * 169);
    assert(zeta_value(70) == 1550 * 169);
    assert(zeta_value(71) == 105 * 169);
    assert(zeta_value(72) == 422 * 169);
    assert(zeta_value(73) == 587 * 169);
    assert(zeta_value(74) == 177 * 169);
    assert(zeta_value(75) == -235 * 169);
    assert(zeta_value(76) == -291 * 169);
    assert(zeta_value(77) == -460 * 169);
    assert(zeta_value(78) == 1574 * 169);
    assert(zeta_value(79) == 1653 * 169);
    assert(zeta_value(80) == -246 * 169);
    assert(zeta_value(81) == 778 * 169);
    assert(zeta_value(82) == 1159 * 169);
    assert(zeta_value(83) == -147 * 169);
    assert(zeta_value(84) == -777 * 169);
    assert(zeta_value(85) == 1483 * 169);
    assert(zeta_value(86) == -602 * 169);
    assert(zeta_value(87) == 1119 * 169);
    assert(zeta_value(88) == -1590 * 169);
    assert(zeta_value(89) == 644 * 169);
    assert(zeta_value(90) == -872 * 169);
    assert(zeta_value(91) == 349 * 169);
    assert(zeta_value(92) == 418 * 169);
    assert(zeta_value(93) == 329 * 169);
    assert(zeta_value(94) == -156 * 169);
    assert(zeta_value(95) == -75 * 169);
    assert(zeta_value(96) == 817 * 169);
    assert(zeta_value(97) == 1097 * 169);
    assert(zeta_value(98) == 603 * 169);
    assert(zeta_value(99) == 610 * 169);
    assert(zeta_value(100) == 1322 * 169);
    assert(zeta_value(101) == -1285 * 169);
    assert(zeta_value(102) == -1465 * 169);
    assert(zeta_value(103) == 384 * 169);
    assert(zeta_value(104) == -1215 * 169);
    assert(zeta_value(105) == -136 * 169);
    assert(zeta_value(106) == 1218 * 169);
    assert(zeta_value(107) == -1335 * 169);
    assert(zeta_value(108) == -874 * 169);
    assert(zeta_value(109) == 220 * 169);
    assert(zeta_value(110) == -1187 * 169);
    assert(zeta_value(111) == -1659 * 169);
    assert(zeta_value(112) == -1185 * 169);
    assert(zeta_value(113) == -1530 * 169);
    assert(zeta_value(114) == -1278 * 169);
    assert(zeta_value(115) == 794 * 169);
    assert(zeta_value(116) == -1510 * 169);
    assert(zeta_value(117) == -854 * 169);
    assert(zeta_value(118) == -870 * 169);
    assert(zeta_value(119) == 478 * 169);
    assert(zeta_value(120) == -108 * 169);
    assert(zeta_value(121) == -308 * 169);
    assert(zeta_value(122) == 996 * 169);
    assert(zeta_value(123) == 991 * 169);
    assert(zeta_value(124) == 958 * 169);
    assert(zeta_value(125) == -1460 * 169);
    assert(zeta_value(126) == 1522 * 169);
    assert(zeta_value(127) == 1628 * 169);
    assert((-758 * 169) * (-758 * 169) - (-1) == 3329 * 4929445);
    assert((-359 * 169) * (-1517 * 169) - (-1) == 3329 * 4672396);
    assert((-1517 * 169) * (-359 * 169) - (-1) == 3329 * 4672396);
    assert((1493 * 169) * (202 * 169) - (-1) == 3329 * 2587443);
    assert((1422 * 169) * (287 * 169) - (-1) == 3329 * 3501395);
    assert((287 * 169) * (1422 * 169) - (-1) == 3329 * 3501395);
    assert((202 * 169) * (1493 * 169) - (-1) == 3329 * 2587443);
    assert((-171 * 169) * (1468 * 169) - (-1) == 3329 * -2153683);
    assert((622 * 169) * (-1474 * 169) - (-1) == 3329 * -7865883);
    assert((1577 * 169) * (-1202 * 169) - (-1) == 3329 * -16262817);
    assert((182 * 169) * (962 * 169) - (-1) == 3329 * 1502125);
    assert((962 * 169) * (182 * 169) - (-1) == 3329 * 1502125);
    assert((-1202 * 169) * (1577 * 169) - (-1) == 3329 * -16262817);
    assert((-1474 * 169) * (622 * 169) - (-1) == 3329 * -7865883);
    assert((1468 * 169) * (-171 * 169) - (-1) == 3329 * -2153683);
    assert((573 * 169) * (-1571 * 169) - (-1) == 3329 * -7723078);
    assert((-1325 * 169) * (-205 * 169) - (-1) == 3329 * 2330394);
    assert((264 * 169) * (411 * 169) - (-1) == 3329 * 930905);
    assert((383 * 169) * (-1542 * 169) - (-1) == 3329 * -5066905);
    assert((-829 * 169) * (608 * 169) - (-1) == 3329 * -4324319);
    assert((1458 * 169) * (732 * 169) - (-1) == 3329 * 9156473);
    assert((-1602 * 169) * (1017 * 169) - (-1) == 3329 * -13977937);
    assert((-130 * 169) * (-681 * 169) - (-1) == 3329 * 759539);
    assert((-681 * 169) * (-130 * 169) - (-1) == 3329 * 759539);
    assert((1017 * 169) * (-1602 * 169) - (-1) == 3329 * -13977937);
    assert((732 * 169) * (1458 * 169) - (-1) == 3329 * 9156473);
    assert((608 * 169) * (-829 * 169) - (-1) == 3329 * -4324319);
    assert((-1542 * 169) * (383 * 169) - (-1) == 3329 * -5066905);
    assert((411 * 169) * (264 * 169) - (-1) == 3329 * 930905);
    assert((-205 * 169) * (-1325 * 169) - (-1) == 3329 * 2330394);
    assert((-1571 * 169) * (573 * 169) - (-1) == 3329 * -7723078);
    assert((1223 * 169) * (-1275 * 169) - (-1) == 3329 * -13378156);
    assert((652 * 169) * (677 * 169) - (-1) == 3329 * 3787005);
    assert((-552 * 169) * (-1065 * 169) - (-1) == 3329 * 5043689);
    assert((1015 * 169) * (448 * 169) - (-1) == 3329 * 3901249);
    assert((-1293 * 169) * (-725 * 169) - (-1) == 3329 * 8042594);
    assert((1491 * 169) * (-1508 * 169) - (-1) == 3329 * -19290283);
    assert((-282 * 169) * (961 * 169) - (-1) == 3329 * -2325049);
    assert((-1544 * 169) * (-398 * 169) - (-1) == 3329 * 5272177);
    assert((516 * 169) * (-951 * 169) - (-1) == 3329 * -4210075);
    assert((-8 * 169) * (-247 * 169) - (-1) == 3329 * 16953);
    assert((-320 * 169) * (-1421 * 169) - (-1) == 3329 * 3901249);
    assert((-666 * 169) * (107 * 169) - (-1) == 3329 * -611389);
    assert((-1618 * 169) * (830 * 169) - (-1) == 3329 * -11521691);
    assert((-1162 * 169) * (-271 * 169) - (-1) == 3329 * 2701687);
    assert((126 * 169) * (-90 * 169) - (-1) == 3329 * -97291);
    assert((1469 * 169) * (-853 * 169) - (-1) == 3329 * -10750544);
    assert((-853 * 169) * (1469 * 169) - (-1) == 3329 * -10750544);
    assert((-90 * 169) * (126 * 169) - (-1) == 3329 * -97291);
    assert((-271 * 169) * (-1162 * 169) - (-1) == 3329 * 2701687);
    assert((830 * 169) * (-1618 * 169) - (-1) == 3329 * -11521691);
    assert((107 * 169) * (-666 * 169) - (-1) == 3329 * -611389);
    assert((-1421 * 169) * (-320 * 169) - (-1) == 3329 * 3901249);
    assert((-247 * 169) * (-8 * 169) - (-1) == 3329 * 16953);
    assert((-951 * 169) * (516 * 169) - (-1) == 3329 * -4210075);
    assert((-398 * 169) * (-1544 * 169) - (-1) == 3329 * 5272177);
    assert((961 * 169) * (-282 * 169) - (-1) == 3329 * -2325049);
    assert((-1508 * 169) * (1491 * 169) - (-1) == 3329 * -19290283);
    assert((-725 * 169) * (-1293 * 169) - (-1) == 3329 * 8042594);
    assert((448 * 169) * (1015 * 169) - (-1) == 3329 * 3901249);
    assert((-1065 * 169) * (-552 * 169) - (-1) == 3329 * 5043689);
    assert((677 * 169) * (652 * 169) - (-1) == 3329 * 3787005);
    assert((-1275 * 169) * (1223 * 169) - (-1) == 3329 * -13378156);
    assert((-1103 * 169) * (1628 * 169) - (-1) == 3329 * -15405987);
    assert((430 * 169) * (1522 * 169) - (-1) == 3329 * 5614909);
    assert((555 * 169) * (-1460 * 169) - (-1) == 3329 * -6951931);
    assert((843 * 169) * (958 * 169) - (-1) == 3329 * 6928715);
    assert((-1251 * 169) * (991 * 169) - (-1) == 3329 * -10636300);
    assert((871 * 169) * (996 * 169) - (-1) == 3329 * 7442813);
    assert((1550 * 169) * (-308 * 169) - (-1) == 3329 * -4095831);
    assert((105 * 169) * (-108 * 169) - (-1) == 3329 * -97291);
    assert((422 * 169) * (478 * 169) - (-1) == 3329 * 1730613);
    assert((587 * 169) * (-870 * 169) - (-1) == 3329 * -4381441);
    assert((177 * 169) * (-854 * 169) - (-1) == 3329 * -1296853);
    assert((-235 * 169) * (-1510 * 169) - (-1) == 3329 * 3044419);
    assert((-291 * 169) * (794 * 169) - (-1) == 3329 * -1982317);
    assert((-460 * 169) * (-1278 * 169) - (-1) == 3329 * 5043689);
    assert((1574 * 169) * (-1530 * 169) - (-1) == 3329 * -20661211);
    assert((1653 * 169) * (-1185 * 169) - (-1) == 3329 * -16805476);
    assert((-246 * 169) * (-1659 * 169) - (-1) == 3329 * 3501395);
    assert((778 * 169) * (-1187 * 169) - (-1) == 3329 * -7923005);
    assert((1159 * 169) * (220 * 169) - (-1) == 3329 * 2187589);
    assert((-147 * 169) * (-874 * 169) - (-1) == 3329 * 1102271);
    assert((-777 * 169) * (-1335 * 169) - (-1) == 3329 * 8899424);
    assert((1483 * 169) * (1218 * 169) - (-1) == 3329 * 15497015);
    assert((-602 * 169) * (-136 * 169) - (-1) == 3329 * 702417);
    assert((1119 * 169) * (-1215 * 169) - (-1) == 3329 * -11664496);
    assert((-1590 * 169) * (384 * 169) - (-1) == 3329 * -5238271);
    assert((644 * 169) * (-1465 * 169) - (-1) == 3329 * -8094371);
    assert((-872 * 169) * (-1285 * 169) - (-1) == 3329 * 9613449);
    assert((349 * 169) * (1322 * 169) - (-1) == 3329 * 3958371);
    assert((418 * 169) * (610 * 169) - (-1) == 3329 * 2187589);
    assert((329 * 169) * (603 * 169) - (-1) == 3329 * 1702052);
    assert((-156 * 169) * (1097 * 169) - (-1) == 3329 * -1468219);
    assert((-75 * 169) * (817 * 169) - (-1) == 3329 * -525706);
    assert((817 * 169) * (-75 * 169) - (-1) == 3329 * -525706);
    assert((1097 * 169) * (-156 * 169) - (-1) == 3329 * -1468219);
    assert((603 * 169) * (329 * 169) - (-1) == 3329 * 1702052);
    assert((610 * 169) * (418 * 169) - (-1) == 3329 * 2187589);
    assert((1322 * 169) * (349 * 169) - (-1) == 3329 * 3958371);
    assert((-1285 * 169) * (-872 * 169) - (-1) == 3329 * 9613449);
    assert((-1465 * 169) * (644 * 169) - (-1) == 3329 * -8094371);
    assert((384 * 169) * (-1590 * 169) - (-1) == 3329 * -5238271);
    assert((-1215 * 169) * (1119 * 169) - (-1) == 3329 * -11664496);
    assert((-136 * 169) * (-602 * 169) - (-1) == 3329 * 702417);
    assert((1218 * 169) * (1483 * 169) - (-1) == 3329 * 15497015);
    assert((-1335 * 169) * (-777 * 169) - (-1) == 3329 * 8899424);
    assert((-874 * 169) * (-147 * 169) - (-1) == 3329 * 1102271);
    assert((220 * 169) * (1159 * 169) - (-1) == 3329 * 2187589);
    assert((-1187 * 169) * (778 * 169) - (-1) == 3329 * -7923005);
    assert((-1659 * 169) * (-246 * 169) - (-1) == 3329 * 3501395);
    assert((-1185 * 169) * (1653 * 169) - (-1) == 3329 * -16805476);
    assert((-1530 * 169) * (1574 * 169) - (-1) == 3329 * -20661211);
    assert((-1278 * 169) * (-460 * 169) - (-1) == 3329 * 5043689);
    assert((794 * 169) * (-291 * 169) - (-1) == 3329 * -1982317);
    assert((-1510 * 169) * (-235 * 169) - (-1) == 3329 * 3044419);
    assert((-854 * 169) * (177 * 169) - (-1) == 3329 * -1296853);
    assert((-870 * 169) * (587 * 169) - (-1) == 3329 * -4381441);
    assert((478 * 169) * (422 * 169) - (-1) == 3329 * 1730613);
    assert((-108 * 169) * (105 * 169) - (-1) == 3329 * -97291);
    assert((-308 * 169) * (1550 * 169) - (-1) == 3329 * -4095831);
    assert((996 * 169) * (871 * 169) - (-1) == 3329 * 7442813);
    assert((991 * 169) * (-1251 * 169) - (-1) == 3329 * -10636300);
    assert((958 * 169) * (843 * 169) - (-1) == 3329 * 6928715);
    assert((-1460 * 169) * (555 * 169) - (-1) == 3329 * -6951931);
    assert((1522 * 169) * (430 * 169) - (-1) == 3329 * 5614909);
    assert((1628 * 169) * (-1103 * 169) - (-1) == 3329 * -15405987);
    assert forall|c: int| 1 <= c < 128 implies congruent(
        #[trigger] zeta_value(c) * zeta_value(twiddle_partner(c)),
        -1,
    ) by {
        assert(c == 1 || c == 2 || c == 3 || c == 4 || c == 5 || c == 6 || c == 7 || c == 8
            || c == 9 || c == 10 || c == 11 || c == 12 || c == 13 || c == 14 || c == 15 || c == 16
            || c == 17 || c == 18 || c == 19 || c == 20 || c == 21 || c == 22 || c == 23 || c == 24
            || c == 25 || c == 26 || c == 27 || c == 28 || c == 29 || c == 30 || c == 31 || c == 32
            || c == 33 || c == 34 || c == 35 || c == 36 || c == 37 || c == 38 || c == 39 || c == 40
            || c == 41 || c == 42 || c == 43 || c == 44 || c == 45 || c == 46 || c == 47 || c == 48
            || c == 49 || c == 50 || c == 51 || c == 52 || c == 53 || c == 54 || c == 55 || c == 56
            || c == 57 || c == 58 || c == 59 || c == 60 || c == 61 || c == 62 || c == 63 || c == 64
            || c == 65 || c == 66 || c == 67 || c == 68 || c == 69 || c == 70 || c == 71 || c == 72
            || c == 73 || c == 74 || c == 75 || c == 76 || c == 77 || c == 78 || c == 79 || c == 80
            || c == 81 || c == 82 || c == 83 || c == 84 || c == 85 || c == 86 || c == 87 || c == 88
            || c == 89 || c == 90 || c == 91 || c == 92 || c == 93 || c == 94 || c == 95 || c == 96
            || c == 97 || c == 98 || c == 99 || c == 100 || c == 101 || c == 102 || c == 103 || c == 104
            || c == 105 || c == 106 || c == 107 || c == 108 || c == 109 || c == 110 || c == 111 || c == 112
            || c == 113 || c == 114 || c == 115 || c == 116 || c == 117 || c == 118 || c == 119 || c == 120
            || c == 121 || c == 122 || c == 123 || c == 124 || c == 125 || c == 126 || c == 127);
        lemma_congruent_by_multiple(
            zeta_value(c) * zeta_value(twiddle_partner(c)),
            -1,
            (zeta_value(c) * zeta_value(twiddle_partner(c)) + 1) / 3329,
        );
    }
}


/// Every entry of `s` times `c`.
pub open spec fn scale(c: int, s: Seq<int>) -> Seq<int> {
    s.map_values(|x: int| c * x)
}

/// Layer `6 - l` of the inverse transform undoes layer `l` of the forward one, up to a
/// factor 2.
proof fn lemma_layer_inverse(s: Seq<int>, l: int)
    requires
        s.len() == 256,
        0 <= l < 7,
    ensures
        all_congruent(invntt_layer(ntt_layer(s, l), 6 - l), scale(2, s)),
{
    lemma_layer_sizes(l);
    lemma_twiddle_pairs();
    let len = pow2((7 - l) as nat) as int;
    let t = ntt_layer(s, l);
    assert forall|i: int| 0 <= i < 256 implies congruent(
        #[trigger] invntt_layer(t, 6 - l)[i],
        scale(2, s)[i],
    ) by {
        let blk = i / (2 * len);
        let off = i % (2 * len);
        lemma_block_position(i, len, pow2(l as nat) as int);
        let c = pow2(l as nat) + blk;
        lemma_twiddle_partner(l, blk);
        let z = zeta_value(c);
        let zp = zeta_value(twiddle_partner(c));
        if off < len {
            assert(t[i] == s[i] + z * s[i + len]);
            assert(t[i + len] == s[i] - z * s[i + len]);
            assert(invntt_layer(t, 6 - l)[i] == t[i] + t[i + len]);
        } else {
            assert(t[i] == s[i - len] - z * s[i]);
            assert(t[i - len] == s[i - len] + z * s[i]);
            assert(invntt_layer(t, 6 - l)[i] == zp * (t[i] - t[i - len]));
            lemma_congruent_mul(-2 * s[i], z * zp, -1);
            assert(zp * (t[i] - t[i - len]) == (-2 * s[i]) * (z * zp)) by (nonlinear_arith)
                requires
                    t[i] - t[i - len] == -2 * (z * s[i]),
            ;
        }
    }
}

/// A layer of the inverse transform is linear: scaling its input scales its output.
proof fn lemma_invntt_layer_scale(c: int, s: Seq<int>, m: int)
    requires
        s.len() == 256,
        0 <= m < 7,
    ensures
        invntt_layer(scale(c, s), m) == scale(c, invntt_layer(s, m)),
{
    lemma_layer_sizes(6 - m);
    let len = pow2((m + 1) as nat) as int;
    let lhs = invntt_layer(scale(c, s), m);
    let rhs = scale(c, invntt_layer(s, m));
    assert forall|i: int| 0 <= i < 256 implies #[trigger] lhs[i] == rhs[i] by {
        let z = zeta_value(pow2((7 - m) as nat) - 1 - i / (2 * len));
        lemma_block_position(i, len, pow2((6 - m) as nat) as int);
        if i % (2 * len) < len {
            assert(c * s[i] + c * s[i + len] == c * (s[i] + s[i + len])) by (nonlinear_arith);
        } else {
            assert(z * (c * s[i] - c * s[i - len]) == c * (z * (s[i] - s[i - len])))
                by (nonlinear_arith);
        }
    }
    assert(lhs =~= rhs);
}

/// The first `n` inverse layers after the whole forward transform give `2^n` times the
/// first `7 - n` forward layers.
proof fn lemma_inverse_layers(s: Seq<int>, n: int)
    requires
        s.len() == 256,
        0 <= n <= 7,
    ensures
        all_congruent(invntt_layers(ntt_spec(s), n), scale(pow2(n as nat) as int, ntt_layers(s, 7 - n))),
    decreases n,
{
    lemma2_to64();
    if n == 0 {
        assert forall|i: int| 0 <= i < 256 implies congruent(
            #[trigger] invntt_layers(ntt_spec(s), 0)[i],
            scale(1, ntt_layers(s, 7))[i],
        ) by {
            lemma_congruent_by_multiple(ntt_spec(s)[i], 1 * ntt_spec(s)[i], 0);
        }
    } else {
        lemma_inverse_layers(s, n - 1);
        let m = n - 1;
        let y = ntt_layers(s, 6 - m);
        let x = ntt_layers(s, 7 - m);
        let c = pow2(m as nat) as int;
        let prev = invntt_layers(ntt_spec(s), m);
        assert(x == ntt_layer(y, 6 - m));
        lemma_invntt_layer_congruent(prev, scale(c, x), m);
        lemma_invntt_layer_scale(c, x, m);
        lemma_layer_inverse(y, 6 - m);
        lemma_pow2_unfold(n as nat);
        assert forall|i: int| 0 <= i < 256 implies congruent(
            #[trigger] invntt_layers(ntt_spec(s), n)[i],
            scale(pow2(n as nat) as int, y)[i],
        ) by {
            lemma_congruent_mul(c, invntt_layer(x, m)[i], 2 * y[i]);
            assert(c * (2 * y[i]) == (2 * c) * y[i]) by (nonlinear_arith);
            lemma_congruent_trans(
                invntt_layers(ntt_spec(s), n)[i],
                invntt_layer(scale(c, x), m)[i],
                c * invntt_layer(x, m)[i],
            );
            lemma_congruent_trans(
                invntt_layers(ntt_spec(s), n)[i],
                c * invntt_layer(x, m)[i],
                scale(pow2(n as nat) as int, y)[i],
            );
        }
    }
}


/// The inverse transform maps congruent inputs to congruent outputs.
proof fn lemma_invntt_spec_congruent(x: Seq<int>, y: Seq<int>)
    requires
        x.len() == 256,
        y.len() == 256,
        all_congruent(x, y),
    ensures
        all_congruent(invntt_spec(x), invntt_spec(y)),
{
    lemma_invntt_layers_congruent(x, y, 7);
    assert forall|i: int| 0 <= i < 256 implies congruent(
        #[trigger] invntt_spec(x)[i],
        invntt_spec(y)[i],
    ) by {
        lemma_congruent_mul(1441int * 169, invntt_layers(x, 7)[i], invntt_layers(y, 7)[i]);
        assert(invntt_layers(x, 7)[i] * (1441 * 169) == (1441 * 169) * invntt_layers(x, 7)[i]);
        assert(invntt_layers(y, 7)[i] * (1441 * 169) == (1441 * 169) * invntt_layers(y, 7)[i]);
    }
}

proof fn lemma_invntt_layers_congruent(x: Seq<int>, y: Seq<int>, n: int)
    requires
        x.len() == 256,
        y.len() == 256,
        all_congruent(x, y),
        0 <= n <= 7,
    ensures
        invntt_layers(x, n).len() == 256,
        invntt_layers(y, n).len() == 256,
        all_congruent(invntt_layers(x, n), invntt_layers(y, n)),
    decreases n,
{
    if n > 0 {
        lemma_invntt_layers_congruent(x, y, n - 1);
        lemma_invntt_layer_congruent(invntt_layers(x, n - 1), invntt_layers(y, n - 1), n - 1);
    }
}

/// The inverse transform undoes the forward one up to the Montgomery factor: for every
/// polynomial `s`, `invntt_spec(ntt_spec(s))` is `s * 2^16` modulo `q`, coefficient by
/// coefficient.
pub proof fn lemma_ntt_round_trip(s: Seq<int>)
    requires
        s.len() == 256,
    ensures
        forall|i: int|
            0 <= i < 256 ==> congruent(#[trigger] invntt_spec(ntt_spec(s))[i], s[i] * mont_r()),
{
    lemma2_to64();
    lemma_inverse_layers(s, 7);
    assert forall|i: int| 0 <= i < 256 implies congruent(
        #[trigger] invntt_spec(ntt_spec(s))[i],
        s[i] * mont_r(),
    ) by {
        let v = invntt_layers(ntt_spec(s), 7)[i];
        assert(scale(128, ntt_layers(s, 0))[i] == 128 * s[i]);
        lemma_congruent_mul(1441int * 169, v, 128 * s[i]);
        assert(v * (1441 * 169) == (1441 * 169) * v);
        lemma_congruent_by_multiple((1441 * 169) * (128 * s[i]), s[i] * mont_r(), 9344 * s[i]);
        lemma_congruent_trans(v * (1441 * 169), (1441 * 169) * (128 * s[i]), s[i] * mont_r());
    }
}

/// Transforming a polynomial `p` (as [`poly_ntt`] does) and transforming the result back
/// (as [`poly_invntt_tomont`] does) gives `p * 2^16` modulo `q`: `x` is any result congruent
/// to the forward transform of `p`, and `y` any result congruent to the inverse transform
/// of `x`.
pub proof fn lemma_transform_round_trip(p: Seq<int>, x: Seq<int>, y: Seq<int>)
    requires
        p.len() == 256,
        x.len() == 256,
        all_congruent(x, ntt_spec(p)),
        all_congruent(y, invntt_spec(x)),
    ensures
        forall|i: int| 0 <= i < 256 ==> congruent(#[trigger] y[i], p[i] * mont_r()),
{
    lemma_ntt_layers_len(p, 7);
    lemma_invntt_spec_congruent(x, ntt_spec(p));
    lemma_ntt_round_trip(p);
    assert forall|i: int| 0 <= i < 256 implies congruent(#[trigger] y[i], p[i] * mont_r()) by {
        lemma_congruent_trans(y[i], invntt_spec(x)[i], invntt_spec(ntt_spec(p))[i]);
        lemma_congruent_trans(y[i], invntt_spec(ntt_spec(p))[i], p[i] * mont_r());
    }
}

proof fn lemma_ntt_layers_len(s: Seq<int>, n: int)
    requires
        s.len() == 256,
        0 <= n,
    ensures
        ntt_layers(s, n).len() == 256,
    decreases n,
{
    if n > 0 {
        lemma_ntt_layers_len(s, n - 1);
    }
}

} // verus!
