//! Polynomial arithmetic over `Z_q[x]/(x^256 + 1)`, `q = 3329`: modular reduction,
//! the number-theoretic transform, base multiplication, centered binomial sampling, and
//! the byte encodings of polynomials and messages, each with a verified contract.

pub mod params;
pub mod reduce;
pub mod poly;
pub mod codec;
pub mod ntt;
pub mod cbd;
pub mod symmetric;
pub mod primality;

pub use cbd::{poly_cbd, poly_cbd_eta1, poly_cbd_eta2};
pub use codec::{
    poly_compress, poly_compress4, poly_compress5, poly_decompress, poly_decompress4,
    poly_decompress5, poly_frombytes, poly_frommsg, poly_tobytes, poly_tomsg,
};
pub use ntt::{basemul, invntt, ntt, ZETAS};
pub use params::{
    KYBER_ETA1, KYBER_ETA2, KYBER_N, KYBER_POLYBYTES, KYBER_POLYCOMPRESSEDBYTES, KYBER_Q,
    KYBER_SYMBYTES, QINV,
};
pub use poly::{
    poly_add, poly_basemul, poly_frommont, poly_getnoise_eta1, poly_getnoise_eta2,
    poly_invntt_tomont, poly_ntt, poly_reduce, poly_sub, Poly,
};
pub use primality::is_prime;
pub use reduce::{barrett_reduce, fqmul, frommont, montgomery_reduce, MONT_SQUARE};
pub use symmetric::prf;
