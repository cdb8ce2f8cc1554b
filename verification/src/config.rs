//! Size thresholds and the policy decisions derived from them.

use vstd::prelude::*;

verus! {

/// The paths of the discovered files that take part in duplicate detection:
/// those above the size filter, in discovery order.
pub open spec fn scannable_paths(files: Seq<(String, u64)>) -> Seq<String> {
    files.filter(|f: (String, u64)| f.1 > MIN_FILE_SIZE).map_values(|f: (String, u64)| f.0)
}

/// Files whose size is at or below this many bytes are skipped entirely:
/// their hash collisions are high-probability and low-value.
pub const MIN_FILE_SIZE: u64 = 1024;

/// Files larger than this many bytes are fingerprinted from samples
/// (head, tail, size) instead of their full content.
pub const LARGE_FILE_THRESHOLD: u64 = 1048576;

/// How many bytes each of the head and tail samples of a large file holds.
pub const SAMPLE_SIZE: usize = 65536;

/// Whether a regular file of the given size takes part in duplicate
/// detection at all.
pub fn should_scan(size: u64) -> (r: bool)
    ensures
        r <==> size > MIN_FILE_SIZE,
{
    size > MIN_FILE_SIZE
}

/// Whether a file of the given size is fingerprinted from samples rather
/// than from its full content.
pub fn needs_sampling(size: u64) -> (r: bool)
    ensures
        r <==> size > LARGE_FILE_THRESHOLD,
{
    size > LARGE_FILE_THRESHOLD
}

/// The position where the tail sample of a file of the given size begins:
/// `SAMPLE_SIZE` bytes before the end. The subtraction is clamped at zero so
/// it never underflows, even if the file shrank between discovery and
/// hashing; above the large-file threshold the clamp can never bite.
pub fn tail_offset(size: u64) -> (off: u64)
    ensures
        off == if size >= SAMPLE_SIZE as u64 { size - SAMPLE_SIZE as u64 } else { 0int },
        size > LARGE_FILE_THRESHOLD ==> off == size - SAMPLE_SIZE as u64,
{
    if size >= SAMPLE_SIZE as u64 {
        size - SAMPLE_SIZE as u64
    } else {
        0
    }
}

/// Keep, of the discovered files, the paths of those that pass the size
/// filter. Files at or below [`MIN_FILE_SIZE`] bytes are dropped here and so
/// never reach fingerprinting nor any duplicate group.
pub fn filter_scannable(files: &Vec<(String, u64)>) -> (r: Vec<String>)
    ensures
        r@ == scannable_paths(files@),
{
    let mut r: Vec<String> = Vec::new();
    let mut i: usize = 0;
    proof {
        reveal(Seq::filter);
        assert(files@.take(0) =~= Seq::<(String, u64)>::empty());
        assert(scannable_paths(files@.take(0)) =~= Seq::<String>::empty());
    }
    while i < files.len()
        invariant
            i <= files@.len(),
            r@ == scannable_paths(files@.take(i as int)),
        decreases files@.len() - i,
    {
        let ghost r0 = r@;
        if should_scan(files[i].1) {
            r.push(files[i].0.clone());
        }
        proof {
            reveal(Seq::filter);
            let pred = |f: (String, u64)| f.1 > MIN_FILE_SIZE;
            let pick = |f: (String, u64)| f.0;
            let prev = files@.take(i as int);
            let cur = files@.take(i + 1 as int);
            assert(cur.drop_last() =~= prev);
            assert(cur.last() == files@[i as int]);
            if files@[i as int].1 > MIN_FILE_SIZE {
                assert(cur.filter(pred) == prev.filter(pred).push(files@[i as int]));
                assert(cur.filter(pred).map_values(pick) =~= prev.filter(pred).map_values(
                    pick,
                ).push(files@[i as int].0));
                assert(r@ == r0.push(files@[i as int].0));
            } else {
                assert(cur.filter(pred) == prev.filter(pred));
            }
            assert(r@ == scannable_paths(cur));
        }
        i = i + 1;
    }
    proof {
        assert(files@.take(files@.len() as int) =~= files@);
    }
    r
}

/// Every path that passes the walk filter belongs to a discovered file whose
/// size is above the filter threshold: files at or below it never enter the
/// pipeline, and so never appear in any produced group.
pub proof fn lemma_scannable_paths_scanned(files: Seq<(String, u64)>, k: int)
    requires
        0 <= k < scannable_paths(files).len(),
    ensures
        exists|j: int|
            #![trigger files[j]]
            0 <= j < files.len() && files[j].1 > MIN_FILE_SIZE && files[j].0 == scannable_paths(
                files,
            )[k],
    decreases files.len(),
{
    reveal(Seq::filter);
    let pred = |f: (String, u64)| f.1 > MIN_FILE_SIZE;
    let pick = |f: (String, u64)| f.0;
    let filtered = files.filter(pred);
    if files.len() > 0 {
        let prev = files.drop_last();
        let e = files.last();
        if pred(e) {
            assert(filtered == prev.filter(pred).push(e));
            if k == filtered.len() - 1 {
                let j = files.len() - 1;
                assert(0 <= j < files.len() && files[j].1 > MIN_FILE_SIZE && files[j].0
                    == scannable_paths(files)[k]);
            } else {
                lemma_scannable_paths_scanned(prev, k);
                let j = choose|j: int|
                    #![trigger prev[j]]
                    0 <= j < prev.len() && prev[j].1 > MIN_FILE_SIZE && prev[j].0
                        == scannable_paths(prev)[k];
                assert(files[j] == prev[j]);
                assert(scannable_paths(files)[k] == scannable_paths(prev)[k]);
            }
        } else {
            assert(filtered == prev.filter(pred));
            lemma_scannable_paths_scanned(prev, k);
            let j = choose|j: int|
                #![trigger prev[j]]
                0 <= j < prev.len() && prev[j].1 > MIN_FILE_SIZE && prev[j].0 == scannable_paths(
                    prev,
                )[k];
            assert(files[j] == prev[j]);
            assert(scannable_paths(files)[k] == scannable_paths(prev)[k]);
        }
    }
}

} // verus!
