//! Content-based duplicate file detection.
//!
//! The library finds groups of presumed-identical files: each candidate file
//! is reduced to a fixed-size fingerprint (a 64-bit hash, full-content for
//! small files, sampled head/tail/size for large ones), and files sharing a
//! fingerprint form a duplicate group. Directory walking, parallel scheduling
//! and all user interaction live outside the library; it works on plain
//! values and hands back plain values.

mod config;
mod fingerprint;
mod hash;
mod hex;
mod index;

pub use config::LARGE_FILE_THRESHOLD;
pub use config::MIN_FILE_SIZE;
pub use config::SAMPLE_SIZE;
pub use config::filter_scannable;
pub use config::lemma_scannable_paths_scanned;
pub use config::needs_sampling;
pub use config::scannable_paths;
pub use config::should_scan;
pub use config::tail_offset;
pub use fingerprint::encode_fingerprint;
pub use fingerprint::file_fingerprint;
pub use fingerprint::file_stream;
pub use fingerprint::fingerprint_large;
pub use fingerprint::fingerprint_small;
pub use fingerprint::fingerprint_whole;
pub use fingerprint::lemma_identical_content_same_fingerprint;
pub use fingerprint::lemma_sampled_ignores_interior;
pub use fingerprint::sampled_stream;
pub use hash::xxh3_of;
pub use hex::byte_hex;
pub use hex::bytes_hex;
pub use hex::fingerprint_hex;
pub use hex::hex_digit;
pub use index::GroupIndex;
pub use index::add_path;
pub use index::build_index;
pub use index::group_of;
pub use index::grouping_of_pairs;
pub use index::groups_nonempty;
pub use index::lemma_group_of_merged;
pub use index::lemma_grouping_concat;
pub use index::lemma_grouping_count;
pub use index::lemma_grouping_nonempty;
pub use index::lemma_grouping_permutation;
pub use index::lemma_rescan_reproduces_grouping;
pub use index::lemma_merged_associative;
pub use index::lemma_merged_commutative;
pub use index::lemma_merged_empty;
pub use index::merged;
pub use index::pair_views;
pub use index::paths_ms;
pub use index::scan_pairs;
