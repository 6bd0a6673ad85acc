//! Trusted surface over the xxHash-64 hasher of the `twox_hash` crate.
//!
//! The coverage database is keyed by the rolling xxHash-64 of coverage-sample
//! prefixes, under a seed shared with the guest. The digest itself is named,
//! not restated: `xxh64_digest` stands for whatever the crate computes from a
//! seed and a word stream, and every contract speaks through that name.

use vstd::prelude::*;

verus! {

#[verifier::external_type_specification]
#[verifier::external_body]
pub struct ExXxHash64(twox_hash::XxHash64);

/// The seed a hasher was created with.
pub uninterp spec fn xxh64_seed_of(h: twox_hash::XxHash64) -> u64;

/// The words fed to a hasher so far, in order.
pub uninterp spec fn xxh64_words_of(h: twox_hash::XxHash64) -> Seq<u64>;

/// The xxHash-64 digest of a word stream hashed under a seed, each word
/// contributing its 8 little-endian bytes.
pub uninterp spec fn xxh64_digest(seed: u64, words: Seq<u64>) -> u64;

/// Relies on twox_hash::XxHash64::with_seed: a fresh hasher holds the given
/// seed and an empty stream.
#[verifier::external_body]
pub(crate) fn xxh64_with_seed(seed: u64) -> (h: twox_hash::XxHash64)
    ensures
        xxh64_seed_of(h) == seed,
        xxh64_words_of(h) == Seq::<u64>::empty(),
{
    twox_hash::XxHash64::with_seed(seed)
}

/// Relies on core::hash::Hasher::write for twox_hash::XxHash64: writing bytes
/// appends them to the hashed stream and changes nothing else.
#[verifier::external_body]
pub(crate) fn xxh64_write_word(h: &mut twox_hash::XxHash64, w: u64)
    ensures
        xxh64_seed_of(*final(h)) == xxh64_seed_of(*old(h)),
        xxh64_words_of(*final(h)) == xxh64_words_of(*old(h)).push(w),
{
    core::hash::Hasher::write(h, &w.to_le_bytes())
}

/// Relies on core::hash::Hasher::finish for twox_hash::XxHash64: the digest
/// is a function of the seed and the written stream alone, and reading it
/// does not disturb the hasher.
#[verifier::external_body]
pub(crate) fn xxh64_finish(h: &twox_hash::XxHash64) -> (d: u64)
    ensures
        d == xxh64_digest(xxh64_seed_of(*h), xxh64_words_of(*h)),
{
    core::hash::Hasher::finish(h)
}

} // verus!
