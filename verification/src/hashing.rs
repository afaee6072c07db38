//! Content hashing: a streaming 128-bit XXH3 accumulator from the `twox_hash`
//! crate, wrapped so that verified code can track exactly which bytes have
//! been absorbed, plus the decimal rendering used to store a digest.

use vstd::prelude::*;

verus! {

/// The 128-bit XXH3 digest (default seed and secret) of a byte sequence, as
/// `twox_hash` computes it. The digest depends on the bytes alone; its value
/// is stated only by name, never spelled out.
pub uninterp spec fn xxh3_128_of(bytes: Seq<u8>) -> u128;

/// The bytes fed so far into a streaming XXH3 accumulator.
pub uninterp spec fn absorbed(h: &twox_hash::XxHash3_128) -> Seq<u8>;

#[verifier::external_type_specification]
#[verifier::external_body]
pub struct ExXxHash3_128(twox_hash::XxHash3_128);

/// Relies on `twox_hash::XxHash3_128::new`: a fresh accumulator has absorbed
/// no bytes yet.
#[verifier::external_body]
pub(crate) fn hasher_new() -> (h: twox_hash::XxHash3_128)
    ensures
        absorbed(&h) == Seq::<u8>::empty(),
{
    twox_hash::XxHash3_128::new()
}

/// Relies on `twox_hash::XxHash3_128::write`: appends the input to the
/// absorbed byte stream.
#[verifier::external_body]
pub(crate) fn hasher_write(h: &mut twox_hash::XxHash3_128, input: &[u8])
    ensures
        absorbed(final(h)) == absorbed(old(h)) + input@,
{
    h.write(input)
}

/// Relies on `twox_hash::XxHash3_128::finish_128`: returns the 128-bit XXH3
/// digest of all bytes written so far.
#[verifier::external_body]
pub(crate) fn hasher_finish(h: &twox_hash::XxHash3_128) -> (r: u128)
    ensures
        r == xxh3_128_of(absorbed(h)),
{
    h.finish_128()
}

/// The decimal digit character for a value below ten.
pub open spec fn decimal_digit(d: int) -> char {
    ((48 + d) as u8) as char
}

/// The decimal rendering of a natural number: most significant digit first,
/// no leading zeroes, a single `'0'` for zero.
pub open spec fn decimal_of(v: nat) -> Seq<char>
    decreases v,
{
    if v < 10 {
        seq![decimal_digit(v as int)]
    } else {
        decimal_of(v / 10).push(decimal_digit((v % 10) as int))
    }
}

/// Relies on `u128`'s `Display` implementation, through `to_string`: the
/// decimal digits of the value, without leading zeroes.
#[verifier::external_body]
pub(crate) fn u128_to_string(v: u128) -> (r: String)
    ensures
        r@ == decimal_of(v as nat),
{
    v.to_string()
}

/// The stored text form of a content digest: the XXH3-128 value of the bytes,
/// rendered in decimal.
pub open spec fn hash_text(bytes: Seq<u8>) -> Seq<char> {
    decimal_of(xxh3_128_of(bytes) as nat)
}

} // verus!
