use vstd::prelude::*;

verus! {

/// Degree of the ring `Z_q[x]/(x^N + 1)`: the number of coefficients of a polynomial.
pub const KYBER_N: usize = 256;

/// The prime field modulus `q`.
pub const KYBER_Q: i16 = 3329;

/// `q^(-1) mod 2^16`.
pub const QINV: u32 = 62209;

/// Size in bytes of a message, of a seed, and of a shared secret.
pub const KYBER_SYMBYTES: usize = 32;

/// Size in bytes of a polynomial packed at 12 bits per coefficient.
pub const KYBER_POLYBYTES: usize = 384;

/// Size in bytes of a compressed polynomial: 128 (4 bits per coefficient) or 160 (5 bits).
pub const KYBER_POLYCOMPRESSEDBYTES: usize = 128;

/// Parameter of the centered binomial distribution of secrets.
pub const KYBER_ETA1: usize = 2;

/// Parameter of the centered binomial distribution of errors.
pub const KYBER_ETA2: usize = 2;

/// The modulus as a mathematical integer.
pub open spec fn q() -> int {
    3329
}

/// The Montgomery radix `R = 2^16`.
pub open spec fn mont_r() -> int {
    65536
}

/// `a` and `b` are equal modulo `q`.
pub open spec fn congruent(a: int, b: int) -> bool {
    (a - b) % q() == 0
}

} // verus!
