use vstd::prelude::*;
use sha3::digest::ExtendableOutput;
use sha3::Shake256;
use crate::params::KYBER_SYMBYTES;

verus! {

/// The first `len` bytes of the SHAKE256 output stream on `input`.
pub uninterp spec fn shake256_output(input: Seq<u8>, len: nat) -> Seq<u8>;

/// Relies on `sha3::Shake256` through `digest::ExtendableOutput::digest_xof`: absorbs
/// `input` and fills the whole output buffer from the output stream.
#[verifier::external_body]
fn shake256(input: &[u8], len: usize) -> (out: Vec<u8>)
    ensures
        out@.len() == len,
        out@ == shake256_output(input@, len as nat),
{
    let mut out = vec![0u8; len];
    Shake256::digest_xof(input, &mut out);
    out
}

/// The pseudorandom function: `outbytes` bytes of SHAKE256 on the 32-byte `key` followed by
/// the one-byte `nonce`, written to `out[0..outbytes]`.
pub fn prf(out: &mut [u8], outbytes: usize, key: &[u8], nonce: u8)
    requires
        key@.len() == KYBER_SYMBYTES,
        outbytes <= old(out)@.len(),
    ensures
        final(out)@.len() == old(out)@.len(),
        final(out)@.subrange(0, outbytes as int) == shake256_output(
            key@.push(nonce),
            outbytes as nat,
        ),
        final(out)@.subrange(outbytes as int, old(out)@.len() as int) == old(out)@.subrange(
            outbytes as int,
            old(out)@.len() as int,
        ),
{
    let mut extkey: Vec<u8> = Vec::new();
    for i in 0..KYBER_SYMBYTES
        invariant
            key@.len() == KYBER_SYMBYTES,
            extkey@ == key@.subrange(0, i as int),
    {
        extkey.push(key[i]);
    }
    extkey.push(nonce);
    assert(extkey@ == key@.push(nonce));
    let stream = shake256(extkey.as_slice(), outbytes);
    for i in 0..outbytes
        invariant
            outbytes <= out@.len(),
            out@.len() == old(out)@.len(),
            stream@.len() == outbytes,
            forall|k: int| 0 <= k < i ==> #[trigger] out@[k] == stream@[k],
            forall|k: int| i <= k < out@.len() ==> #[trigger] out@[k] == old(out)@[k],
    {
        out[i] = stream[i];
    }
    assert(out@.subrange(0, outbytes as int) =~= stream@);
    assert(out@.subrange(outbytes as int, old(out)@.len() as int) =~= old(out)@.subrange(
        outbytes as int,
        old(out)@.len() as int,
    ));
}

} // verus!
