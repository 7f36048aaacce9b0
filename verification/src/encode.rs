//! Canonical transcript encoding for the Fiat--Shamir transform, and the
//! derivation of a prime challenge from a hashed transcript. An unsigned
//! integer is encoded as an eight-byte big-endian length followed by its
//! big-endian magnitude (a single zero byte for zero), so that equal
//! transcripts are byte-for-byte equal and different splits of a transcript
//! cannot collide.

use vstd::prelude::*;
use num_bigint_dig::BigUint;
use crate::bigint::{big_from_bytes_be, big_to_bytes_be, next_prime, next_prime_of, uval};
use crate::nt::{be_val, bytes_be};

verus! {

/// Eight-byte big-endian encoding of a length.
pub open spec fn len8(l: nat) -> Seq<u8> {
    seq![
        ((l / 0x100000000000000nat) % 256) as u8,
        ((l / 0x1000000000000nat) % 256) as u8,
        ((l / 0x10000000000nat) % 256) as u8,
        ((l / 0x100000000nat) % 256) as u8,
        ((l / 0x1000000nat) % 256) as u8,
        ((l / 0x10000nat) % 256) as u8,
        ((l / 0x100nat) % 256) as u8,
        (l % 256) as u8,
    ]
}

/// The magnitude bytes of an unsigned integer: big-endian, one zero byte
/// for zero.
pub open spec fn uint_bytes(x: nat) -> Seq<u8> {
    if x == 0 {
        seq![0u8]
    } else {
        bytes_be(x)
    }
}

/// Length-prefixed canonical encoding of an unsigned integer.
pub open spec fn enc_uint(x: nat) -> Seq<u8> {
    len8(uint_bytes(x).len() as nat) + uint_bytes(x)
}

/// The digest that SHA-256 assigns to a byte string.
pub uninterp spec fn sha_digest_of(data: Seq<u8>) -> Seq<u8>;

/// Relies on `sha2::Sha256`: the 32-byte digest of the input, a function of
/// the input alone.
#[verifier::external_body]
pub fn sha256(data: &Vec<u8>) -> (r: Vec<u8>)
    ensures
        r@ == sha_digest_of(data@),
        r@.len() == 32,
{
    <sha2::Sha256 as sha2::Digest>::digest(data.as_slice()).to_vec()
}

/// The prime challenge that a transcript determines: the next prime at or
/// above the hashed transcript read as a big-endian integer. The prime
/// search always returns at least two; the floor keeps that visible here.
pub open spec fn challenge_of(data: Seq<u8>) -> nat {
    let p = next_prime_of(be_val(sha_digest_of(data)));
    if p >= 2 {
        p
    } else {
        2
    }
}

/// Appends the canonical encoding of `v` to the transcript.
pub fn push_uint(buf: &mut Vec<u8>, v: &BigUint)
    ensures
        final(buf)@ == old(buf)@ + enc_uint(uval(*v)),
{
    let bytes = big_to_bytes_be(v);
    let len64: u64 = bytes.len() as u64;
    let ghost mark = buf@;
    buf.push(((len64 / 0x100000000000000u64) % 256) as u8);
    buf.push(((len64 / 0x1000000000000u64) % 256) as u8);
    buf.push(((len64 / 0x10000000000u64) % 256) as u8);
    buf.push(((len64 / 0x100000000u64) % 256) as u8);
    buf.push(((len64 / 0x1000000u64) % 256) as u8);
    buf.push(((len64 / 0x10000u64) % 256) as u8);
    buf.push(((len64 / 0x100u64) % 256) as u8);
    buf.push((len64 % 256) as u8);
    proof {
        assert(bytes@ == uint_bytes(uval(*v)));
        assert(buf@ =~= mark + len8(bytes@.len() as nat));
    }
    let mut j: usize = 0;
    while j < bytes.len()
        invariant
            0 <= j <= bytes@.len(),
            buf@ == mark + len8(bytes@.len() as nat) + bytes@.subrange(0, j as int),
        decreases bytes@.len() - j,
    {
        buf.push(bytes[j]);
        proof {
            assert(buf@ =~= mark + len8(bytes@.len() as nat) + bytes@.subrange(0, j + 1));
        }
        j = j + 1;
    }
    proof {
        assert(bytes@.subrange(0, bytes@.len() as int) =~= bytes@);
        assert(buf@ =~= mark + enc_uint(uval(*v)));
    }
}

/// Derives the prime challenge of a finished transcript.
pub fn hash_to_prime(data: &Vec<u8>) -> (r: BigUint)
    ensures
        uval(r) == challenge_of(data@),
        uval(r) >= 2,
{
    let digest = sha256(data);
    let seed = big_from_bytes_be(&digest);
    next_prime(&seed)
}

} // verus!
