//! Content fingerprints.
//!
//! A fingerprint is the 64-bit xxh3 digest of a byte stream derived from the
//! file: the whole content for files at or below [`LARGE_FILE_THRESHOLD`],
//! and, for larger files, the first [`SAMPLE_SIZE`] bytes, then the last
//! [`SAMPLE_SIZE`] bytes, then the 8-byte little-endian encoding of the file
//! size. Sampling bounds I/O on huge files at the price of a documented
//! false-positive risk: files agreeing on head, tail and size are conflated.

use vstd::prelude::*;
use vstd::bytes::spec_u64_to_le_bytes;
use vstd::bytes::u64_to_le_bytes;
use vstd::slice::slice_subrange;
use crate::config::LARGE_FILE_THRESHOLD;
use crate::config::SAMPLE_SIZE;
use crate::hash::consumed;
use crate::hash::hasher_digest;
use crate::hash::hasher_new;
use crate::hash::hasher_update;
use crate::hash::xxh3_of;

verus! {

/// How many bytes of a small file are fed to the hasher at a time.
pub const CHUNK_SIZE: usize = 16384;

/// The byte stream hashed for a large file: head sample, tail sample, then
/// the little-endian file size.
pub open spec fn sampled_stream(head: Seq<u8>, tail: Seq<u8>, size: u64) -> Seq<u8> {
    head + tail + spec_u64_to_le_bytes(size)
}

/// The byte stream hashed for a file with the given content: the content
/// itself when small, the sampled stream when large.
pub open spec fn file_stream(content: Seq<u8>) -> Seq<u8> {
    if content.len() <= LARGE_FILE_THRESHOLD {
        content
    } else {
        sampled_stream(
            content.take(SAMPLE_SIZE as int),
            content.skip(content.len() - SAMPLE_SIZE as int),
            content.len() as u64,
        )
    }
}

/// The fingerprint of a file with the given content.
pub open spec fn file_fingerprint(content: Seq<u8>) -> u64 {
    xxh3_of(file_stream(content))
}

/// Fingerprint a file at or below the large-file threshold from its full
/// content, feeding the hasher in bounded chunks.
pub fn fingerprint_small(content: &[u8]) -> (fp: u64)
    requires
        content@.len() <= LARGE_FILE_THRESHOLD,
    ensures
        fp == xxh3_of(content@),
        fp == file_fingerprint(content@),
{
    let mut h = hasher_new();
    let len = content.len();
    let mut i: usize = 0;
    proof {
        assert(consumed(h) =~= content@.take(0));
    }
    while i < len
        invariant
            i <= len,
            len == content@.len(),
            consumed(h) == content@.take(i as int),
        decreases len - i,
    {
        let end = if len - i < CHUNK_SIZE {
            len
        } else {
            i + CHUNK_SIZE
        };
        let chunk = slice_subrange(content, i, end);
        hasher_update(&mut h, chunk);
        proof {
            assert(content@.take(i as int) + content@.subrange(i as int, end as int) =~= content@.take(
                end as int,
            ));
        }
        i = end;
    }
    proof {
        assert(content@.take(len as int) =~= content@);
    }
    hasher_digest(&h)
}

/// Fingerprint a file above the large-file threshold from its head sample,
/// tail sample and exact size.
pub fn fingerprint_large(head: &[u8], tail: &[u8], size: u64) -> (fp: u64)
    requires
        size > LARGE_FILE_THRESHOLD,
        head@.len() == SAMPLE_SIZE,
        tail@.len() == SAMPLE_SIZE,
    ensures
        fp == xxh3_of(sampled_stream(head@, tail@, size)),
{
    let mut h = hasher_new();
    hasher_update(&mut h, head);
    hasher_update(&mut h, tail);
    let size_bytes = u64_to_le_bytes(size);
    hasher_update(&mut h, size_bytes.as_slice());
    proof {
        assert(consumed(h) =~= sampled_stream(head@, tail@, size));
    }
    hasher_digest(&h)
}

/// Fingerprint a file of any size from its full content, choosing the
/// full-content or sampled strategy as the size dictates. The sampled branch
/// hashes exactly what [`fingerprint_large`] hashes when handed the file's
/// own head and tail.
pub fn fingerprint_whole(content: &[u8]) -> (fp: u64)
    ensures
        fp == file_fingerprint(content@),
{
    let len = content.len();
    if len as u64 <= LARGE_FILE_THRESHOLD {
        fingerprint_small(content)
    } else {
        let head = slice_subrange(content, 0, SAMPLE_SIZE);
        let tail = slice_subrange(content, len - SAMPLE_SIZE, len);
        let fp = fingerprint_large(head, tail, len as u64);
        proof {
            assert(head@ =~= content@.take(SAMPLE_SIZE as int));
            assert(tail@ =~= content@.skip(content@.len() - SAMPLE_SIZE as int));
        }
        fp
    }
}

/// The little-endian byte encoding of a fingerprint, the form in which it is
/// reported.
pub fn encode_fingerprint(fp: u64) -> (b: Vec<u8>)
    ensures
        b@ == spec_u64_to_le_bytes(fp),
        b@.len() == 8,
{
    u64_to_le_bytes(fp)
}

/// Two byte-identical contents at or below the large-file threshold receive
/// equal fingerprints. (Distinct contents receive distinct fingerprints only
/// with high probability; a collision of the 64-bit hash is accepted by
/// design and cannot be excluded.)
pub proof fn lemma_identical_content_same_fingerprint(c1: Seq<u8>, c2: Seq<u8>)
    requires
        c1 == c2,
        c1.len() <= LARGE_FILE_THRESHOLD,
    ensures
        file_fingerprint(c1) == file_fingerprint(c2),
{
}

/// Sampled hashing ignores interior bytes: two contents above the threshold
/// with equal length, equal first `SAMPLE_SIZE` bytes and equal last
/// `SAMPLE_SIZE` bytes fingerprint identically, whatever lies in between.
/// This is the design's accepted false-positive case.
pub proof fn lemma_sampled_ignores_interior(c1: Seq<u8>, c2: Seq<u8>)
    requires
        c1.len() == c2.len(),
        c1.len() > LARGE_FILE_THRESHOLD,
        c1.take(SAMPLE_SIZE as int) == c2.take(SAMPLE_SIZE as int),
        c1.skip(c1.len() - SAMPLE_SIZE as int) == c2.skip(c2.len() - SAMPLE_SIZE as int),
    ensures
        file_fingerprint(c1) == file_fingerprint(c2),
{
}

} // verus!
