//! Grouping of fingerprinted files.
//!
//! A group index maps each fingerprint to the multiset of paths of the files
//! that produced it. Worker-local partial indexes built over disjoint subsets
//! of the files are merged into one final index; merging is commutative and
//! associative, so the final grouping does not depend on how the files were
//! batched, in which order the batches were combined, or in which order the
//! files were fingerprinted. Groups of two or more paths are the duplicate
//! groups worth reporting.

use vstd::prelude::*;
use vstd::multiset::Multiset;
use vstd::seq_lib::lemma_multiset_commutative;
use vstd::seq_lib::group_to_multiset_ensures;
use vstd::multiset::group_multiset_axioms;
use vstd::multiset::lemma_multiset_empty_len;
use crate::fingerprint::file_fingerprint;

verus! {

/// The multiset of paths a grouping holds for a fingerprint; empty when the
/// fingerprint is absent.
pub open spec fn group_of(m: Map<u64, Multiset<Seq<char>>>, fp: u64) -> Multiset<Seq<char>> {
    if m.dom().contains(fp) {
        m[fp]
    } else {
        Multiset::empty()
    }
}

/// One (fingerprint, path) pair folded into a grouping.
pub open spec fn add_path(m: Map<u64, Multiset<Seq<char>>>, fp: u64, path: Seq<char>) -> Map<
    u64,
    Multiset<Seq<char>>,
> {
    m.insert(fp, group_of(m, fp).insert(path))
}

/// Two groupings combined: the path multisets of each fingerprint united.
pub open spec fn merged(
    a: Map<u64, Multiset<Seq<char>>>,
    b: Map<u64, Multiset<Seq<char>>>,
) -> Map<u64, Multiset<Seq<char>>> {
    Map::new(
        |fp: u64| a.dom().contains(fp) || b.dom().contains(fp),
        |fp: u64| group_of(a, fp).add(group_of(b, fp)),
    )
}

/// The grouping of a sequence of (fingerprint, path) pairs, folded in order.
pub open spec fn grouping_of_pairs(pairs: Seq<(u64, Seq<char>)>) -> Map<u64, Multiset<Seq<char>>>
    decreases pairs.len(),
{
    if pairs.len() == 0 {
        Map::empty()
    } else {
        add_path(grouping_of_pairs(pairs.drop_last()), pairs.last().0, pairs.last().1)
    }
}

/// A grouping never maps a fingerprint to an empty path multiset.
pub open spec fn groups_nonempty(m: Map<u64, Multiset<Seq<char>>>) -> bool {
    forall|fp: u64| #[trigger] m.dom().contains(fp) ==> m[fp].len() > 0
}

/// The merge of two groupings holds, for each fingerprint, the union of the
/// path multisets the two sides hold for it.
pub proof fn lemma_group_of_merged(
    a: Map<u64, Multiset<Seq<char>>>,
    b: Map<u64, Multiset<Seq<char>>>,
    fp: u64,
)
    ensures
        group_of(merged(a, b), fp) == group_of(a, fp).add(group_of(b, fp)),
{
    broadcast use group_multiset_axioms;

    if !a.dom().contains(fp) && !b.dom().contains(fp) {
        assert(group_of(merged(a, b), fp) =~= group_of(a, fp).add(group_of(b, fp)));
    }
}

/// How a grouping counts pairs: the count of a path within a fingerprint's
/// group equals the number of times the (fingerprint, path) pair was folded
/// in.
pub proof fn lemma_grouping_count(pairs: Seq<(u64, Seq<char>)>, fp: u64, path: Seq<char>)
    ensures
        group_of(grouping_of_pairs(pairs), fp).count(path) == pairs.to_multiset().count(
            (fp, path),
        ),
    decreases pairs.len(),
{
    broadcast use group_multiset_axioms;
    broadcast use group_to_multiset_ensures;

    if pairs.len() == 0 {
        assert(pairs.to_multiset() =~= Multiset::<(u64, Seq<char>)>::empty()) by {
            lemma_multiset_empty_len(pairs.to_multiset());
        }
    } else {
        let rest = pairs.drop_last();
        let last = pairs.last();
        lemma_grouping_count(rest, fp, path);
        assert(pairs =~= rest.push(last));
        assert(pairs.to_multiset() == rest.to_multiset().insert(last));
        let m = grouping_of_pairs(rest);
        assert(grouping_of_pairs(pairs) == add_path(m, last.0, last.1));
        if last.0 == fp {
            assert(group_of(add_path(m, fp, last.1), fp) == group_of(m, fp).insert(last.1));
        } else {
            assert(group_of(add_path(m, last.0, last.1), fp) == group_of(m, fp));
        }
    }
}

/// Every fingerprint a folded grouping holds has at least one path.
pub proof fn lemma_grouping_nonempty(pairs: Seq<(u64, Seq<char>)>)
    ensures
        groups_nonempty(grouping_of_pairs(pairs)),
    decreases pairs.len(),
{
    broadcast use group_multiset_axioms;

    if pairs.len() > 0 {
        lemma_grouping_nonempty(pairs.drop_last());
    }
}

/// A path found with positive count in every fingerprint's group a
/// nonempty-valued grouping holds.
spec fn some_path(m: Map<u64, Multiset<Seq<char>>>, fp: u64) -> Seq<char> {
    choose|p: Seq<char>| 0 < group_of(m, fp).count(p)
}

/// A nonempty-valued grouping counts some path under every fingerprint it
/// holds.
proof fn lemma_some_path(m: Map<u64, Multiset<Seq<char>>>, fp: u64)
    requires
        groups_nonempty(m),
        m.dom().contains(fp),
    ensures
        0 < group_of(m, fp).count(some_path(m, fp)),
{
    broadcast use group_multiset_axioms;

    lemma_multiset_empty_len(m[fp]);
    let v = choose|v: Seq<char>| 0 < m[fp].count(v);
    assert(0 < group_of(m, fp).count(v));
}

/// A fingerprint under which a path is counted is held by the grouping.
proof fn lemma_count_in_dom(m: Map<u64, Multiset<Seq<char>>>, fp: u64, p: Seq<char>)
    requires
        0 < group_of(m, fp).count(p),
    ensures
        m.dom().contains(fp),
{
    broadcast use group_multiset_axioms;

    if !m.dom().contains(fp) {
        assert(group_of(m, fp).count(p) == Multiset::<Seq<char>>::empty().count(p));
    }
}

/// Order independence: two pair sequences holding the same pairs the same
/// number of times — however they are ordered — fold to the same grouping.
/// Rerunning the pipeline over an unchanged file set therefore reproduces
/// the same index, whatever order discovery and hashing delivered the pairs
/// in.
pub proof fn lemma_grouping_permutation(p1: Seq<(u64, Seq<char>)>, p2: Seq<(u64, Seq<char>)>)
    requires
        p1.to_multiset() == p2.to_multiset(),
    ensures
        grouping_of_pairs(p1) == grouping_of_pairs(p2),
{
    broadcast use group_multiset_axioms;

    let m1 = grouping_of_pairs(p1);
    let m2 = grouping_of_pairs(p2);
    lemma_grouping_nonempty(p1);
    lemma_grouping_nonempty(p2);
    assert forall|fp: u64| m1.dom().contains(fp) <==> m2.dom().contains(fp) by {
        if m1.dom().contains(fp) {
            lemma_some_path(m1, fp);
            let p = some_path(m1, fp);
            lemma_grouping_count(p1, fp, p);
            lemma_grouping_count(p2, fp, p);
            lemma_count_in_dom(m2, fp, p);
        }
        if m2.dom().contains(fp) {
            lemma_some_path(m2, fp);
            let p = some_path(m2, fp);
            lemma_grouping_count(p1, fp, p);
            lemma_grouping_count(p2, fp, p);
            lemma_count_in_dom(m1, fp, p);
        }
    }
    assert forall|fp: u64| #[trigger] m1.dom().contains(fp) implies m1[fp] == m2[fp] by {
        assert forall|p: Seq<char>| #[trigger] m1[fp].count(p) == m2[fp].count(p) by {
            lemma_grouping_count(p1, fp, p);
            lemma_grouping_count(p2, fp, p);
            assert(group_of(m1, fp).count(p) == group_of(m2, fp).count(p));
        }
        assert(m1[fp] =~= m2[fp]);
    }
    assert(m1 =~~= m2);
}

/// Grouping distributes over concatenation: the grouping of two batches run
/// together is the merge of the batches' own groupings. With commutativity
/// and associativity of the merge, any partition of the file set into
/// batches, merged in any order, yields the same final grouping.
pub proof fn lemma_grouping_concat(p1: Seq<(u64, Seq<char>)>, p2: Seq<(u64, Seq<char>)>)
    ensures
        grouping_of_pairs(p1 + p2) == merged(grouping_of_pairs(p1), grouping_of_pairs(p2)),
{
    broadcast use group_multiset_axioms;

    let mc = grouping_of_pairs(p1 + p2);
    let m1 = grouping_of_pairs(p1);
    let m2 = grouping_of_pairs(p2);
    let mm = merged(m1, m2);
    lemma_grouping_nonempty(p1 + p2);
    lemma_grouping_nonempty(p1);
    lemma_grouping_nonempty(p2);
    lemma_multiset_commutative(p1, p2);
    assert forall|fp: u64| mc.dom().contains(fp) <==> mm.dom().contains(fp) by {
        lemma_group_of_merged(m1, m2, fp);
        if mc.dom().contains(fp) {
            lemma_some_path(mc, fp);
            let p = some_path(mc, fp);
            lemma_grouping_count(p1 + p2, fp, p);
            lemma_grouping_count(p1, fp, p);
            lemma_grouping_count(p2, fp, p);
            assert(0 < group_of(m1, fp).count(p) || 0 < group_of(m2, fp).count(p));
            if 0 < group_of(m1, fp).count(p) {
                lemma_count_in_dom(m1, fp, p);
            } else {
                lemma_count_in_dom(m2, fp, p);
            }
        }
        if mm.dom().contains(fp) {
            if m1.dom().contains(fp) {
                lemma_some_path(m1, fp);
                let p = some_path(m1, fp);
                lemma_grouping_count(p1, fp, p);
                lemma_grouping_count(p1 + p2, fp, p);
                lemma_count_in_dom(mc, fp, p);
            } else {
                lemma_some_path(m2, fp);
                let p = some_path(m2, fp);
                lemma_grouping_count(p2, fp, p);
                lemma_grouping_count(p1 + p2, fp, p);
                lemma_count_in_dom(mc, fp, p);
            }
        }
    }
    assert forall|fp: u64| #[trigger] mc.dom().contains(fp) implies mc[fp] == mm[fp] by {
        lemma_group_of_merged(m1, m2, fp);
        assert forall|p: Seq<char>| #[trigger] mc[fp].count(p) == mm[fp].count(p) by {
            lemma_grouping_count(p1 + p2, fp, p);
            lemma_grouping_count(p1, fp, p);
            lemma_grouping_count(p2, fp, p);
            assert(group_of(mc, fp).count(p) == group_of(mm, fp).count(p));
        }
        assert(mc[fp] =~= mm[fp]);
    }
    assert(mc =~~= mm);
}

/// The (fingerprint, path) pairs a scan over the given files hands to the
/// aggregator: each file's path under its content's fingerprint.
pub open spec fn scan_pairs(files: Seq<(Seq<char>, Seq<u8>)>) -> Seq<(u64, Seq<char>)> {
    files.map_values(|f: (Seq<char>, Seq<u8>)| (file_fingerprint(f.1), f.0))
}

/// Scanning the same files in another order hands the aggregator the same
/// pairs, as a multiset.
proof fn lemma_scan_pairs_multiset(a: Seq<(Seq<char>, Seq<u8>)>, b: Seq<(Seq<char>, Seq<u8>)>)
    requires
        a.to_multiset() == b.to_multiset(),
    ensures
        scan_pairs(a).to_multiset() == scan_pairs(b).to_multiset(),
    decreases a.len(),
{
    broadcast use group_multiset_axioms;
    broadcast use group_to_multiset_ensures;

    if a.len() == 0 {
        assert(a.to_multiset().len() == a.len());
        assert(b.to_multiset().len() == b.len());
        assert(b.len() == 0);
        assert(scan_pairs(a) =~= scan_pairs(b));
    } else {
        let e = a.last();
        let p = (file_fingerprint(e.1), e.0);
        assert(a =~= a.drop_last().push(e));
        assert(a.to_multiset() == a.drop_last().to_multiset().insert(e));
        assert(b.to_multiset().count(e) > 0);
        assert(b.contains(e));
        let i = choose|i: int| 0 <= i < b.len() && b[i] == e;
        assert(b.remove(i).to_multiset() == b.to_multiset().remove(e));
        assert(a.drop_last().to_multiset() =~= b.remove(i).to_multiset());
        lemma_scan_pairs_multiset(a.drop_last(), b.remove(i));
        assert(scan_pairs(a) =~= scan_pairs(a.drop_last()).push(p));
        assert(scan_pairs(a).to_multiset() == scan_pairs(a.drop_last()).to_multiset().insert(p));
        assert(scan_pairs(b.remove(i)) =~= scan_pairs(b).remove(i));
        assert(scan_pairs(b).remove(i).to_multiset() == scan_pairs(b).to_multiset().remove(
            scan_pairs(b)[i],
        ));
        assert(scan_pairs(b)[i] == p);
        assert(scan_pairs(b).contains(p));
        assert(scan_pairs(b).to_multiset().count(p) > 0);
        assert(scan_pairs(a).to_multiset() =~= scan_pairs(b).to_multiset());
    }
}

/// Rescanning an unchanged file set reproduces the same grouping: the pairs
/// handed to the aggregator are, as a multiset, a function of the files
/// alone, and grouping is insensitive to the order in which discovery and
/// hashing deliver them.
pub proof fn lemma_rescan_reproduces_grouping(
    files1: Seq<(Seq<char>, Seq<u8>)>,
    files2: Seq<(Seq<char>, Seq<u8>)>,
)
    requires
        files1.to_multiset() == files2.to_multiset(),
    ensures
        grouping_of_pairs(scan_pairs(files1)) == grouping_of_pairs(scan_pairs(files2)),
{
    lemma_scan_pairs_multiset(files1, files2);
    lemma_grouping_permutation(scan_pairs(files1), scan_pairs(files2));
}

/// Merging groupings is commutative.
pub proof fn lemma_merged_commutative(
    a: Map<u64, Multiset<Seq<char>>>,
    b: Map<u64, Multiset<Seq<char>>>,
)
    ensures
        merged(a, b) == merged(b, a),
{
    broadcast use group_multiset_axioms;

    assert forall|fp: u64| #[trigger] merged(a, b).dom().contains(fp) implies merged(a, b)[fp]
        == merged(b, a)[fp] by {
        assert(merged(a, b)[fp] =~= merged(b, a)[fp]);
    }
    assert(merged(a, b) =~~= merged(b, a));
}

/// Merging groupings is associative.
pub proof fn lemma_merged_associative(
    a: Map<u64, Multiset<Seq<char>>>,
    b: Map<u64, Multiset<Seq<char>>>,
    c: Map<u64, Multiset<Seq<char>>>,
)
    ensures
        merged(merged(a, b), c) == merged(a, merged(b, c)),
{
    broadcast use group_multiset_axioms;

    let l = merged(merged(a, b), c);
    let r = merged(a, merged(b, c));
    assert forall|fp: u64| #[trigger] l.dom().contains(fp) implies l[fp] == r[fp] by {
        lemma_group_of_merged(a, b, fp);
        lemma_group_of_merged(b, c, fp);
        assert(l[fp] =~= r[fp]);
    }
    assert(l =~~= r);
}

/// The empty grouping is the identity of the merge.
pub proof fn lemma_merged_empty(a: Map<u64, Multiset<Seq<char>>>)
    ensures
        merged(Map::empty(), a) == a,
        merged(a, Map::empty()) == a,
{
    broadcast use group_multiset_axioms;

    assert forall|fp: u64| #[trigger] merged(Map::<u64, Multiset<Seq<char>>>::empty(), a)
        .dom()
        .contains(fp) implies merged(Map::<u64, Multiset<Seq<char>>>::empty(), a)[fp] == a[fp] by {
        assert(merged(Map::<u64, Multiset<Seq<char>>>::empty(), a)[fp] =~= a[fp]);
    }
    assert(merged(Map::<u64, Multiset<Seq<char>>>::empty(), a) =~~= a);
    assert forall|fp: u64| #[trigger] merged(a, Map::<u64, Multiset<Seq<char>>>::empty())
        .dom()
        .contains(fp) implies merged(a, Map::<u64, Multiset<Seq<char>>>::empty())[fp] == a[fp] by {
        assert(merged(a, Map::<u64, Multiset<Seq<char>>>::empty())[fp] =~= a[fp]);
    }
    assert(merged(a, Map::<u64, Multiset<Seq<char>>>::empty()) =~~= a);
}

/// The multiset of path views a vector of paths holds.
pub open spec fn paths_ms(v: Seq<String>) -> Multiset<Seq<char>> {
    v.map_values(|p: String| p@).to_multiset()
}

/// No two entries share a fingerprint.
spec fn distinct_keys(s: Seq<(u64, Vec<String>)>) -> bool {
    forall|i: int, j: int| 0 <= i < j < s.len() ==> (#[trigger] s[i]).0 != (#[trigger] s[j]).0
}

/// Some entry carries the fingerprint.
spec fn has_key(s: Seq<(u64, Vec<String>)>, fp: u64) -> bool {
    exists|i: int| 0 <= i < s.len() && (#[trigger] s[i]).0 == fp
}

/// The position of the entry carrying the fingerprint.
spec fn key_index(s: Seq<(u64, Vec<String>)>, fp: u64) -> int {
    choose|i: int| 0 <= i < s.len() && (#[trigger] s[i]).0 == fp
}

/// The grouping a sequence of entries stands for.
spec fn entries_view(s: Seq<(u64, Vec<String>)>) -> Map<u64, Multiset<Seq<char>>> {
    Map::new(|fp: u64| has_key(s, fp), |fp: u64| paths_ms(s[key_index(s, fp)].1@))
}

/// With distinct keys, the entry found for a fingerprint is the one and only
/// entry carrying it.
proof fn lemma_key_index_of(s: Seq<(u64, Vec<String>)>, fp: u64, j: int)
    requires
        distinct_keys(s),
        0 <= j < s.len(),
        s[j].0 == fp,
    ensures
        has_key(s, fp),
        key_index(s, fp) == j,
{
    assert(has_key(s, fp));
    let i = key_index(s, fp);
    assert(0 <= i < s.len() && s[i].0 == fp);
}

/// Appending one path to a vector of paths inserts its view into the
/// multiset the vector holds.
proof fn lemma_paths_ms_push(v: Seq<String>, p: String)
    ensures
        paths_ms(v.push(p)) == paths_ms(v).insert(p@),
{
    broadcast use group_to_multiset_ensures;

    let f = |q: String| q@;
    assert(v.push(p).map_values(f) =~= v.map_values(f).push(p@));
}

/// An empty vector of paths holds the empty multiset.
proof fn lemma_paths_ms_empty()
    ensures
        paths_ms(Seq::<String>::empty()) == Multiset::<Seq<char>>::empty(),
{
    broadcast use group_to_multiset_ensures;

    let f = |q: String| q@;
    let s = Seq::<String>::empty();
    assert(s.map_values(f).len() == 0);
    lemma_multiset_empty_len(s.map_values(f).to_multiset());
}

/// A vector of paths holds as many path views as it has paths.
proof fn lemma_paths_ms_len(v: Seq<String>)
    ensures
        paths_ms(v).len() == v.len(),
{
    broadcast use group_to_multiset_ensures;

    let f = |q: String| q@;
    assert(v.map_values(f).len() == v.len());
}

/// Appending an entry with a fresh fingerprint adds exactly that group to
/// the grouping the entries stand for.
proof fn lemma_view_push_fresh(s: Seq<(u64, Vec<String>)>, e: (u64, Vec<String>))
    requires
        distinct_keys(s),
        !has_key(s, e.0),
    ensures
        distinct_keys(s.push(e)),
        entries_view(s.push(e)) == entries_view(s).insert(e.0, paths_ms(e.1@)),
{
    let t = s.push(e);
    let n = s.len() as int;
    assert forall|i: int, j: int| 0 <= i < j < t.len() implies (#[trigger] t[i]).0 != (
    #[trigger] t[j]).0 by {
        if j < n {
            assert(t[i] == s[i] && t[j] == s[j]);
        } else {
            assert(t[j] == e && t[i] == s[i]);
            if s[i].0 == e.0 {
                assert(has_key(s, e.0));
            }
        }
    }
    let lhs = entries_view(t);
    let rhs = entries_view(s).insert(e.0, paths_ms(e.1@));
    assert forall|fp: u64| lhs.dom().contains(fp) <==> rhs.dom().contains(fp) by {
        if has_key(t, fp) {
            let i = key_index(t, fp);
            assert(0 <= i < t.len() && t[i].0 == fp);
            if i < n {
                assert(s[i].0 == fp);
                assert(has_key(s, fp));
            }
        }
        if has_key(s, fp) {
            let i = key_index(s, fp);
            assert(0 <= i < s.len() && s[i].0 == fp);
            assert(t[i].0 == fp);
            assert(has_key(t, fp));
        }
        if fp == e.0 {
            assert(t[n].0 == fp);
            assert(has_key(t, fp));
        }
    }
    assert forall|fp: u64| #[trigger] lhs.dom().contains(fp) implies lhs[fp] == rhs[fp] by {
        if fp == e.0 {
            lemma_key_index_of(t, fp, n);
        } else {
            let i = key_index(t, fp);
            assert(0 <= i < t.len() && t[i].0 == fp);
            assert(i < n);
            assert(s[i].0 == fp);
            lemma_key_index_of(s, fp, i);
            lemma_key_index_of(t, fp, i);
        }
    }
    assert(lhs =~~= rhs);
}

/// Swapping the last entry into a position and dropping the tail removes
/// exactly that position's group from the grouping the entries stand for.
proof fn lemma_view_swap_remove(s: Seq<(u64, Vec<String>)>, i: int)
    requires
        distinct_keys(s),
        0 <= i < s.len(),
    ensures
        distinct_keys(s.update(i, s.last()).drop_last()),
        entries_view(s.update(i, s.last()).drop_last()) == entries_view(s).remove(s[i].0),
        forall|j: int|
            0 <= j < s.update(i, s.last()).drop_last().len() ==> exists|k: int|
                0 <= k < s.len() && #[trigger] s.update(i, s.last()).drop_last()[j] == s[k],
{
    let t = s.update(i, s.last()).drop_last();
    let n = s.len() as int;
    assert(t.len() == n - 1);
    assert forall|j: int| 0 <= j < n - 1 implies #[trigger] t[j] == (if j == i {
        s[n - 1]
    } else {
        s[j]
    }) by {}
    assert forall|j: int| 0 <= j < t.len() implies exists|k: int|
        0 <= k < s.len() && #[trigger] t[j] == s[k] by {
        if j == i {
            assert(t[j] == s[n - 1]);
        } else {
            assert(t[j] == s[j]);
        }
    }
    assert forall|j: int, k: int| 0 <= j < k < t.len() implies (#[trigger] t[j]).0 != (
    #[trigger] t[k]).0 by {
        if j == i {
            assert(t[j] == s[n - 1] && t[k] == s[k]);
        } else if k == i {
            assert(t[j] == s[j] && t[k] == s[n - 1]);
        } else {
            assert(t[j] == s[j] && t[k] == s[k]);
        }
    }
    let lhs = entries_view(t);
    let rhs = entries_view(s).remove(s[i].0);
    assert forall|fp: u64| lhs.dom().contains(fp) <==> rhs.dom().contains(fp) by {
        if has_key(t, fp) {
            let j = key_index(t, fp);
            assert(0 <= j < t.len() && t[j].0 == fp);
            let k: int = if j == i {
                n - 1
            } else {
                j
            };
            assert(s[k].0 == fp);
            assert(has_key(s, fp));
            assert(k != i);
        }
        if has_key(s, fp) && fp != s[i].0 {
            let k = key_index(s, fp);
            assert(0 <= k < s.len() && s[k].0 == fp);
            assert(k != i);
            if k == n - 1 {
                assert(i < n - 1);
                assert(t[i].0 == fp);
            } else {
                assert(t[k].0 == fp);
            }
            assert(has_key(t, fp));
        }
    }
    assert forall|fp: u64| #[trigger] lhs.dom().contains(fp) implies lhs[fp] == rhs[fp] by {
        let j = key_index(t, fp);
        assert(0 <= j < t.len() && t[j].0 == fp);
        lemma_key_index_of(t, fp, j);
        let k: int = if j == i {
            n - 1
        } else {
            j
        };
        assert(t[j] == s[k]);
        lemma_key_index_of(s, fp, k);
    }
    assert(lhs =~~= rhs);
}

/// A sequence of paths folded into a grouping under one fingerprint.
pub open spec fn add_paths(
    m: Map<u64, Multiset<Seq<char>>>,
    fp: u64,
    ps: Seq<Seq<char>>,
) -> Map<u64, Multiset<Seq<char>>>
    decreases ps.len(),
{
    if ps.len() == 0 {
        m
    } else {
        add_path(add_paths(m, fp, ps.drop_last()), fp, ps.last())
    }
}

/// Folding a pair into the right-hand side of a merge is folding it into the
/// merge.
proof fn lemma_merged_add_path(
    a: Map<u64, Multiset<Seq<char>>>,
    b: Map<u64, Multiset<Seq<char>>>,
    fp: u64,
    p: Seq<char>,
)
    ensures
        merged(a, add_path(b, fp, p)) == add_path(merged(a, b), fp, p),
{
    broadcast use group_multiset_axioms;

    let l = merged(a, add_path(b, fp, p));
    let r = add_path(merged(a, b), fp, p);
    assert forall|g: u64| #[trigger] l.dom().contains(g) implies l[g] == r[g] by {
        if g == fp {
            assert(l[g] =~= r[g]);
        } else {
            assert(group_of(add_path(b, fp, p), g) == group_of(b, g));
            assert(group_of(merged(a, b), g) == l[g]);
        }
    }
    assert(l =~~= r);
}

/// Folding paths into the right-hand side of a merge is folding them into
/// the merge.
proof fn lemma_merged_add_paths(
    a: Map<u64, Multiset<Seq<char>>>,
    b: Map<u64, Multiset<Seq<char>>>,
    fp: u64,
    ps: Seq<Seq<char>>,
)
    ensures
        merged(a, add_paths(b, fp, ps)) == add_paths(merged(a, b), fp, ps),
    decreases ps.len(),
{
    if ps.len() > 0 {
        lemma_merged_add_paths(a, b, fp, ps.drop_last());
        lemma_merged_add_path(a, add_paths(b, fp, ps.drop_last()), fp, ps.last());
    }
}

/// Folding paths under a fingerprint the grouping does not yet hold creates
/// exactly that group.
proof fn lemma_add_paths_fresh(m: Map<u64, Multiset<Seq<char>>>, fp: u64, ps: Seq<Seq<char>>)
    requires
        !m.dom().contains(fp),
        ps.len() > 0,
    ensures
        add_paths(m, fp, ps) == m.insert(fp, ps.to_multiset()),
    decreases ps.len(),
{
    broadcast use group_multiset_axioms;
    broadcast use group_to_multiset_ensures;

    assert(ps =~= ps.drop_last().push(ps.last()));
    assert(ps.to_multiset() == ps.drop_last().to_multiset().insert(ps.last()));
    if ps.len() == 1 {
        assert(ps.drop_last().len() == 0);
        lemma_multiset_empty_len(ps.drop_last().to_multiset());
        assert(add_paths(m, fp, ps.drop_last()) == m);
        assert(add_paths(m, fp, ps) == add_path(m, fp, ps.last()));
        assert(group_of(m, fp) == Multiset::<Seq<char>>::empty());
        assert(ps.to_multiset() =~= Multiset::<Seq<char>>::empty().insert(ps.last()));
    } else {
        lemma_add_paths_fresh(m, fp, ps.drop_last());
        let m1 = m.insert(fp, ps.drop_last().to_multiset());
        assert(add_paths(m, fp, ps) == add_path(m1, fp, ps.last()));
        assert(group_of(m1, fp) == ps.drop_last().to_multiset());
        assert(add_path(m1, fp, ps.last()) =~~= m.insert(fp, ps.to_multiset()));
    }
}

/// A fingerprint-to-paths index under construction: one entry per
/// fingerprint seen so far, each holding the paths of the files that
/// produced it.
pub struct GroupIndex {
    entries: Vec<(u64, Vec<String>)>,
}

impl View for GroupIndex {
    type V = Map<u64, Multiset<Seq<char>>>;

    closed spec fn view(&self) -> Map<u64, Multiset<Seq<char>>> {
        entries_view(self.entries@)
    }
}

impl GroupIndex {
    /// Entries carry distinct fingerprints and are never empty.
    pub closed spec fn wf(&self) -> bool {
        &&& distinct_keys(self.entries@)
        &&& forall|i: int|
            0 <= i < self.entries@.len() ==> (#[trigger] self.entries@[i]).1@.len() > 0
    }

    /// An index starts empty.
    pub fn new() -> (r: GroupIndex)
        ensures
            r.wf(),
            r@ == Map::<u64, Multiset<Seq<char>>>::empty(),
    {
        let r = GroupIndex { entries: Vec::new() };
        proof {
            assert(r@ =~= Map::<u64, Multiset<Seq<char>>>::empty());
        }
        r
    }

    /// Record that the file at `path` produced fingerprint `fp`: the path
    /// joins the fingerprint's group, and no other group changes.
    pub fn insert(&mut self, fp: u64, path: String)
        requires
            old(self).wf(),
        ensures
            final(self).wf(),
            final(self)@ == add_path(old(self)@, fp, path@),
    {
        let ghost s0 = self.entries@;
        let n = self.entries.len();
        let mut i: usize = 0;
        while i < n && self.entries[i].0 != fp
            invariant
                i <= n,
                n == self.entries@.len(),
                self.entries@ == s0,
                forall|j: int| 0 <= j < i ==> (#[trigger] s0[j]).0 != fp,
            decreases n - i,
        {
            i = i + 1;
        }
        if i < n {
            let e = self.entries.swap_remove(i);
            let fp0 = e.0;
            let mut ps = e.1;
            let ghost ps0 = ps@;
            ps.push(path);
            proof {
                lemma_view_swap_remove(s0, i as int);
                lemma_key_index_of(s0, fp, i as int);
                let mid = s0.update(i as int, s0.last()).drop_last();
                assert(!has_key(mid, fp)) by {
                    if has_key(mid, fp) {
                        let j = key_index(mid, fp);
                        assert(0 <= j < mid.len() && mid[j].0 == fp);
                        assert(!entries_view(s0).remove(fp).dom().contains(fp));
                        assert(entries_view(mid).dom().contains(fp));
                    }
                }
                lemma_view_push_fresh(mid, (fp0, ps));
                lemma_paths_ms_push(ps0, path);
                assert(entries_view(s0)[fp] == paths_ms(ps0));
                assert(entries_view(mid.push((fp0, ps))) =~~= add_path(entries_view(s0), fp, path@));
            }
            self.entries.push((fp0, ps));
            proof {
                let t = self.entries@;
                let mid = s0.update(i as int, s0.last()).drop_last();
                assert(t =~= mid.push((fp0, ps)));
                assert forall|k: int| 0 <= k < t.len() implies (#[trigger] t[k]).1@.len() > 0 by {
                    if k < t.len() - 1 {
                        let w = choose|w: int| 0 <= w < s0.len() && #[trigger] mid[k] == s0[w];
                        assert(t[k] == s0[w]);
                    }
                }
            }
        } else {
            let mut ps: Vec<String> = Vec::new();
            ps.push(path);
            proof {
                assert(!has_key(s0, fp)) by {
                    if has_key(s0, fp) {
                        let j = key_index(s0, fp);
                        assert(0 <= j < s0.len() && s0[j].0 == fp);
                    }
                }
                lemma_view_push_fresh(s0, (fp, ps));
                lemma_paths_ms_empty();
                lemma_paths_ms_push(Seq::<String>::empty(), path);
                assert(ps@ =~= Seq::<String>::empty().push(path));
                assert(!entries_view(s0).dom().contains(fp));
                assert(entries_view(s0.push((fp, ps))) =~~= add_path(entries_view(s0), fp, path@));
            }
            self.entries.push((fp, ps));
            proof {
                let t = self.entries@;
                assert forall|k: int| 0 <= k < t.len() implies (#[trigger] t[k]).1@.len() > 0 by {
                    if k < t.len() - 1 {
                        assert(t[k] == s0[k]);
                    }
                }
            }
        }
    }

    /// Fold another index into this one: afterwards each fingerprint's group
    /// unites the paths both indexes held for it. Merging partial indexes
    /// built by independent workers in any grouping and order yields the same
    /// final index (see [`lemma_merged_commutative`],
    /// [`lemma_merged_associative`] and [`lemma_grouping_concat`]).
    pub fn merge(&mut self, other: &GroupIndex)
        requires
            old(self).wf(),
            other.wf(),
        ensures
            final(self).wf(),
            final(self)@ == merged(old(self)@, other@),
    {
        let ghost a0 = self@;
        let ghost os = other.entries@;
        let n = other.entries.len();
        let mut oi: usize = 0;
        proof {
            assert(os.take(0) =~= Seq::<(u64, Vec<String>)>::empty());
            assert(entries_view(os.take(0)) =~= Map::<u64, Multiset<Seq<char>>>::empty());
            lemma_merged_empty(a0);
        }
        while oi < n
            invariant
                self.wf(),
                oi <= n,
                n == os.len(),
                other.entries@ == os,
                distinct_keys(os),
                forall|i: int| 0 <= i < os.len() ==> (#[trigger] os[i]).1@.len() > 0,
                self@ == merged(a0, entries_view(os.take(oi as int))),
            decreases n - oi,
        {
            let fp = other.entries[oi].0;
            let m = other.entries[oi].1.len();
            let ghost base = self@;
            let ghost psv = os[oi as int].1@.map_values(|q: String| q@);
            let mut pj: usize = 0;
            proof {
                assert(psv.take(0) =~= Seq::<Seq<char>>::empty());
            }
            while pj < m
                invariant
                    self.wf(),
                    pj <= m,
                    oi < n,
                    n == os.len(),
                    other.entries@ == os,
                    fp == os[oi as int].0,
                    m == os[oi as int].1@.len(),
                    psv == os[oi as int].1@.map_values(|q: String| q@),
                    self@ == add_paths(base, fp, psv.take(pj as int)),
                decreases m - pj,
            {
                let path = other.entries[oi].1[pj].clone();
                self.insert(fp, path);
                proof {
                    assert(psv.take(pj + 1 as int).drop_last() =~= psv.take(pj as int));
                    assert(psv.take(pj + 1 as int).last() == path@);
                }
                pj = pj + 1;
            }
            proof {
                assert(psv.take(m as int) =~= psv);
                let bv = entries_view(os.take(oi as int));
                lemma_merged_add_paths(a0, bv, fp, psv);
                assert(distinct_keys(os.take(oi as int))) by {
                    assert forall|i: int, j: int|
                        0 <= i < j < os.take(oi as int).len() implies (#[trigger] os.take(
                        oi as int,
                    )[i]).0 != (#[trigger] os.take(oi as int)[j]).0 by {
                        assert(os.take(oi as int)[i] == os[i] && os.take(oi as int)[j] == os[j]);
                    }
                }
                assert(!has_key(os.take(oi as int), fp)) by {
                    if has_key(os.take(oi as int), fp) {
                        let j = key_index(os.take(oi as int), fp);
                        assert(0 <= j < oi && os.take(oi as int)[j].0 == fp);
                        assert(os[j].0 == os[oi as int].0);
                    }
                }
                assert(psv.len() > 0);
                lemma_add_paths_fresh(bv, fp, psv);
                lemma_view_push_fresh(os.take(oi as int), os[oi as int]);
                assert(os.take(oi + 1 as int) =~= os.take(oi as int).push(os[oi as int]));
                assert(paths_ms(os[oi as int].1@) == psv.to_multiset());
                assert(self@ == merged(a0, entries_view(os.take(oi + 1 as int))));
            }
            oi = oi + 1;
        }
        proof {
            assert(os.take(n as int) =~= os);
        }
    }

    /// The groups worth reporting: each fingerprint held by two or more
    /// paths, with exactly the paths of its group, each fingerprint once.
    /// Singleton groups are discarded.
    pub fn duplicate_groups(&self) -> (r: Vec<(u64, Vec<String>)>)
        requires
            self.wf(),
        ensures
            forall|k: int|
                0 <= k < r@.len() ==> {
                    &&& (#[trigger] r@[k]).1@.len() >= 2
                    &&& self@.dom().contains(r@[k].0)
                    &&& paths_ms(r@[k].1@) == self@[r@[k].0]
                },
            forall|fp: u64|
                #[trigger] self@.dom().contains(fp) && self@[fp].len() >= 2 ==> exists|k: int|
                    0 <= k < r@.len() && (#[trigger] r@[k]).0 == fp,
            forall|k1: int, k2: int|
                0 <= k1 < k2 < r@.len() ==> (#[trigger] r@[k1]).0 != (#[trigger] r@[k2]).0,
    {
        let ghost s = self.entries@;
        let n = self.entries.len();
        let mut r: Vec<(u64, Vec<String>)> = Vec::new();
        let mut i: usize = 0;
        while i < n
            invariant
                i <= n,
                n == s.len(),
                self.entries@ == s,
                self.wf(),
                dup_sound(r@, s, i as int),
                dup_complete(r@, s, i as int),
                dup_distinct(r@),
            decreases n - i,
        {
            let ghost r0 = r@;
            if self.entries[i].1.len() >= 2 {
                let fp = self.entries[i].0;
                let ps = clone_paths(&self.entries[i].1);
                r.push((fp, ps));
                proof {
                    lemma_dup_push(s, r0, r@, i as int, (fp, ps));
                }
            } else {
                proof {
                    lemma_dup_skip(s, r@, i as int);
                }
            }
            i = i + 1;
        }
        proof {
            assert forall|k: int| 0 <= k < r@.len() implies {
                &&& (#[trigger] r@[k]).1@.len() >= 2
                &&& self@.dom().contains(r@[k].0)
                &&& paths_ms(r@[k].1@) == self@[r@[k].0]
            } by {
                let entry = r@[k];
                assert(dup_witness(r@, s, i as int, k));
                let j = choose|j: int|
                    #![trigger s[j]]
                    0 <= j < i as int && r@[k].0 == s[j].0 && r@[k].1@ == s[j].1@ && s[j].1@.len()
                        >= 2;
                lemma_key_index_of(s, r@[k].0, j);
            }
            assert forall|fp: u64|
                #[trigger] self@.dom().contains(fp) && self@[fp].len() >= 2 implies exists|k: int|
                0 <= k < r@.len() && (#[trigger] r@[k]).0 == fp by {
                let j = key_index(s, fp);
                assert(0 <= j < s.len() && s[j].0 == fp);
                assert(self@[fp] == paths_ms(s[j].1@));
                lemma_paths_ms_len(s[j].1@);
                assert(s[j].1@.len() >= 2);
                assert(dup_reported(r@, s, j));
                let k = choose|k: int| #![trigger r@[k]] 0 <= k < r@.len() && r@[k].0 == s[j].0;
                assert(0 <= k < r@.len() && r@[k].0 == fp);
            }
        }
        r
    }
}

/// The `k`-th reported group copies some qualifying entry among the first
/// `i`.
spec fn dup_witness(r: Seq<(u64, Vec<String>)>, s: Seq<(u64, Vec<String>)>, i: int, k: int) -> bool {
    exists|j: int|
        #![trigger s[j]]
        0 <= j < i && r[k].0 == s[j].0 && r[k].1@ == s[j].1@ && s[j].1@.len() >= 2
}

/// Every reported group copies a qualifying entry among the first `i`.
spec fn dup_sound(r: Seq<(u64, Vec<String>)>, s: Seq<(u64, Vec<String>)>, i: int) -> bool {
    forall|k: int| #![trigger r[k]] 0 <= k < r.len() ==> dup_witness(r, s, i, k)
}

/// The `j`-th entry's fingerprint is reported somewhere.
spec fn dup_reported(r: Seq<(u64, Vec<String>)>, s: Seq<(u64, Vec<String>)>, j: int) -> bool {
    exists|k: int| #![trigger r[k]] 0 <= k < r.len() && r[k].0 == s[j].0
}

/// Every qualifying entry among the first `i` is reported.
spec fn dup_complete(r: Seq<(u64, Vec<String>)>, s: Seq<(u64, Vec<String>)>, i: int) -> bool {
    forall|j: int| 0 <= j < i && (#[trigger] s[j]).1@.len() >= 2 ==> dup_reported(r, s, j)
}

/// No fingerprint is reported twice.
spec fn dup_distinct(r: Seq<(u64, Vec<String>)>) -> bool {
    forall|k1: int, k2: int| 0 <= k1 < k2 < r.len() ==> (#[trigger] r[k1]).0 != (#[trigger] r[k2]).0
}

/// Reporting a qualifying entry preserves the reporting invariants.
proof fn lemma_dup_push(
    s: Seq<(u64, Vec<String>)>,
    r0: Seq<(u64, Vec<String>)>,
    r1: Seq<(u64, Vec<String>)>,
    i: int,
    e: (u64, Vec<String>),
)
    requires
        distinct_keys(s),
        0 <= i < s.len(),
        e.0 == s[i].0,
        e.1@ == s[i].1@,
        s[i].1@.len() >= 2,
        r1 == r0.push(e),
        dup_sound(r0, s, i),
        dup_complete(r0, s, i),
        dup_distinct(r0),
    ensures
        dup_sound(r1, s, i + 1),
        dup_complete(r1, s, i + 1),
        dup_distinct(r1),
{
    assert forall|k: int| #![trigger dup_witness(r1, s, i + 1, k)] 0 <= k < r1.len() implies dup_witness(
        r1,
        s,
        i + 1,
        k,
    ) by {
        if k < r0.len() {
            assert(r1[k] == r0[k]);
            assert(dup_witness(r0, s, i, k));
            let j = choose|j: int|
                #![trigger s[j]]
                0 <= j < i && r0[k].0 == s[j].0 && r0[k].1@ == s[j].1@ && s[j].1@.len() >= 2;
            assert(0 <= j < i + 1 && r1[k].0 == s[j].0 && r1[k].1@ == s[j].1@ && s[j].1@.len()
                >= 2);
        } else {
            assert(r1[k] == e);
            assert(0 <= i < i + 1 && r1[k].0 == s[i].0 && r1[k].1@ == s[i].1@ && s[i].1@.len()
                >= 2);
        }
    }
    assert forall|j: int| 0 <= j < i + 1 && (#[trigger] s[j]).1@.len() >= 2 implies dup_reported(
        r1,
        s,
        j,
    ) by {
        if j < i {
            assert(dup_reported(r0, s, j));
            let k = choose|k: int| #![trigger r0[k]] 0 <= k < r0.len() && r0[k].0 == s[j].0;
            assert(r1[k] == r0[k]);
            assert(0 <= k < r1.len() && r1[k].0 == s[j].0);
        } else {
            let k = r1.len() - 1;
            assert(r1[k] == e);
            assert(0 <= k < r1.len() && r1[k].0 == s[j].0);
        }
    }
    assert forall|k1: int, k2: int| 0 <= k1 < k2 < r1.len() implies (#[trigger] r1[k1]).0 != (
    #[trigger] r1[k2]).0 by {
        if k2 < r0.len() {
            assert(r1[k1] == r0[k1] && r1[k2] == r0[k2]);
        } else {
            assert(r1[k2] == e);
            assert(r1[k1] == r0[k1]);
            assert(dup_witness(r0, s, i, k1));
            let j = choose|j: int|
                #![trigger s[j]]
                0 <= j < i && r0[k1].0 == s[j].0 && r0[k1].1@ == s[j].1@ && s[j].1@.len() >= 2;
            assert(s[j].0 != s[i].0);
        }
    }
}

/// Passing over a non-qualifying entry preserves the reporting invariants.
proof fn lemma_dup_skip(s: Seq<(u64, Vec<String>)>, r: Seq<(u64, Vec<String>)>, i: int)
    requires
        0 <= i < s.len(),
        s[i].1@.len() < 2,
        dup_sound(r, s, i),
        dup_complete(r, s, i),
    ensures
        dup_sound(r, s, i + 1),
        dup_complete(r, s, i + 1),
{
    assert forall|k: int| #![trigger dup_witness(r, s, i + 1, k)] 0 <= k < r.len() implies dup_witness(
        r,
        s,
        i + 1,
        k,
    ) by {
        let entry = r[k];
        assert(dup_witness(r, s, i, k));
        let j = choose|j: int|
            #![trigger s[j]]
            0 <= j < i && r[k].0 == s[j].0 && r[k].1@ == s[j].1@ && s[j].1@.len() >= 2;
        assert(0 <= j < i + 1 && r[k].0 == s[j].0 && r[k].1@ == s[j].1@ && s[j].1@.len() >= 2);
    }
    assert forall|j: int| 0 <= j < i + 1 && (#[trigger] s[j]).1@.len() >= 2 implies dup_reported(
        r,
        s,
        j,
    ) by {
        assert(j < i);
    }
}

/// Copy a vector of paths.
fn clone_paths(v: &Vec<String>) -> (r: Vec<String>)
    ensures
        r@ == v@,
{
    let mut r: Vec<String> = Vec::new();
    let mut i: usize = 0;
    while i < v.len()
        invariant
            i <= v@.len(),
            r@ == v@.take(i as int),
        decreases v@.len() - i,
    {
        r.push(v[i].clone());
        proof {
            assert(v@.take(i as int).push(v@[i as int]) =~= v@.take(i + 1 as int));
        }
        i = i + 1;
    }
    proof {
        assert(v@.take(v@.len() as int) =~= v@);
    }
    r
}

/// The (fingerprint, path view) pairs a vector of fingerprinted files
/// stands for.
pub open spec fn pair_views(pairs: Seq<(u64, String)>) -> Seq<(u64, Seq<char>)> {
    pairs.map_values(|pr: (u64, String)| (pr.0, pr.1@))
}

/// Build a worker-local index over one batch of fingerprinted files, folding
/// the pairs in order.
pub fn build_index(pairs: &Vec<(u64, String)>) -> (r: GroupIndex)
    ensures
        r.wf(),
        r@ == grouping_of_pairs(pair_views(pairs@)),
{
    let ghost pv = pair_views(pairs@);
    let mut r = GroupIndex::new();
    let n = pairs.len();
    let mut i: usize = 0;
    proof {
        assert(pv.take(0) =~= Seq::<(u64, Seq<char>)>::empty());
    }
    while i < n
        invariant
            i <= n,
            n == pairs@.len(),
            pv == pair_views(pairs@),
            pv.len() == n,
            r.wf(),
            r@ == grouping_of_pairs(pv.take(i as int)),
        decreases n - i,
    {
        let fp = pairs[i].0;
        let path = pairs[i].1.clone();
        r.insert(fp, path);
        proof {
            assert(pv.take(i + 1 as int).drop_last() =~= pv.take(i as int));
            assert(pv.take(i + 1 as int).last() == (fp, path@));
        }
        i = i + 1;
    }
    proof {
        assert(pv.take(n as int) =~= pv);
    }
    r
}

} // verus!
