//! Streaming 64-bit content hashing, carried out by the `xxhash_rust` crate.
//!
//! A hasher is modelled by the sequence of bytes it has consumed so far; its
//! digest is an uninterpreted function of that sequence alone. The xxh3
//! algorithm is deterministic (`Xxh3::new` uses a fixed seed and secret), so
//! two hashers fed the same bytes always agree on the digest.

use vstd::prelude::*;
use xxhash_rust::xxh3::Xxh3;

verus! {

#[verifier::external_type_specification]
#[verifier::external_body]
pub struct ExXxh3(Xxh3);

/// The bytes a streaming hasher has consumed since it was created.
pub uninterp spec fn consumed(h: Xxh3) -> Seq<u8>;

/// The 64-bit xxh3 digest of a byte sequence (default seed and secret).
pub uninterp spec fn xxh3_of(bytes: Seq<u8>) -> u64;

/// Relies on `xxhash_rust::xxh3::Xxh3::new`: a fresh hasher has consumed
/// no bytes.
#[verifier::external_body]
pub(crate) fn hasher_new() -> (h: Xxh3)
    ensures
        consumed(h) == Seq::<u8>::empty(),
{
    Xxh3::new()
}

/// Relies on `xxhash_rust::xxh3::Xxh3::update`: feeding a chunk appends it
/// to the consumed stream.
#[verifier::external_body]
pub(crate) fn hasher_update(h: &mut Xxh3, chunk: &[u8])
    ensures
        consumed(*final(h)) == consumed(*old(h)) + chunk@,
{
    h.update(chunk)
}

/// Relies on `xxhash_rust::xxh3::Xxh3::digest`: the digest is a function of
/// the consumed bytes alone.
#[verifier::external_body]
pub(crate) fn hasher_digest(h: &Xxh3) -> (d: u64)
    ensures
        d == xxh3_of(consumed(*h)),
{
    h.digest()
}

} // verus!
