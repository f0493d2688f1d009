//! Signed integers of any size, as the decoder meets them in INTEGER
//! contents. The arithmetic on the octets is done by `num`'s `BigInt`.

use crate::octets::{be_signed, bit_length, is_minimal_signed, signed_octets};
use num::BigInt;
use vstd::math::abs;
use vstd::prelude::*;

verus! {

/// A signed integer of any size, kept as its two's-complement spelling
/// with no octet to spare, most significant octet first. Two values are
/// equal exactly when they stand for the same number.
#[derive(Debug, PartialEq, Eq)]
pub struct BigInteger {
    bytes: Vec<u8>,
}

impl View for BigInteger {
    type V = int;

    /// The number that this value stands for.
    closed spec fn view(&self) -> int {
        be_signed(self.bytes@)
    }
}

/// Reads `digits` with `BigInt::from_signed_bytes_be` and writes the number
/// back with `BigInt::to_signed_bytes_be`. Claimed: the octets returned
/// spell, in two's complement, the number that `digits` spell, and hold no
/// octet to spare.
#[verifier::external_body]
fn canonical_signed_bytes(digits: &[u8]) -> (r: Vec<u8>)
    ensures
        be_signed(r@) == be_signed(digits@),
        is_minimal_signed(r@),
{
    BigInt::from_signed_bytes_be(digits).to_signed_bytes_be()
}

/// Reads `digits` with `BigInt::from_signed_bytes_be` and asks
/// `BigInt::bits` of the result. Claimed: the count returned is the number
/// of binary digits of the absolute value of the number that `digits`
/// spell in two's complement.
#[verifier::external_body]
fn magnitude_bits(digits: &[u8]) -> (r: u64)
    ensures
        r == bit_length(abs(be_signed(digits@)) as nat),
{
    BigInt::from_signed_bytes_be(digits).bits()
}

impl Clone for BigInteger {
    fn clone(&self) -> (r: Self)
        ensures
            r@ == self@,
    {
        proof {
            use_type_invariant(self);
        }
        BigInteger { bytes: self.bytes.clone() }
    }
}

impl BigInteger {
    #[verifier::type_invariant]
    spec fn canonical(self) -> bool {
        is_minimal_signed(self.bytes@)
    }

    /// The number that `digits` spell in two's complement, most significant
    /// octet first. No octets spell zero.
    pub fn from_signed_bytes_be(digits: &[u8]) -> (r: BigInteger)
        ensures
            r@ == be_signed(digits@),
    {
        BigInteger { bytes: canonical_signed_bytes(digits) }
    }

    /// The number `z`.
    pub fn from_i64(z: i64) -> (r: BigInteger)
        ensures
            r@ == z,
    {
        BigInteger { bytes: signed_octets(z) }
    }

    /// The two's-complement spelling of the number with no octet to spare.
    pub fn to_signed_bytes_be(&self) -> (r: Vec<u8>)
        ensures
            be_signed(r@) == self@,
            is_minimal_signed(r@),
    {
        proof {
            use_type_invariant(self);
        }
        self.bytes.clone()
    }

    /// The fewest binary digits that spell the number without its sign.
    pub fn bits(&self) -> (r: u64)
        ensures
            r == bit_length(abs(self@) as nat),
    {
        magnitude_bits(self.bytes.as_slice())
    }
}

} // verus!
