use file_dedup::{build_index, fingerprint_small, should_scan, GroupIndex};

/// Bring a reported group list into a canonical form: sorted paths within
/// each group, groups sorted by fingerprint.
fn canonical(mut groups: Vec<(u64, Vec<String>)>) -> Vec<(u64, Vec<String>)> {
    for (_, paths) in groups.iter_mut() {
        paths.sort();
    }
    groups.sort_by_key(|g| g.0);
    groups
}

fn pairs_of(files: &[(&str, &[u8])]) -> Vec<(u64, String)> {
    files
        .iter()
        .filter(|(_, content)| should_scan(content.len() as u64))
        .map(|(name, content)| (fingerprint_small(content), name.to_string()))
        .collect()
}

#[test]
fn empty_directory_has_no_duplicates() {
    let pairs: Vec<(u64, String)> = Vec::new();
    let index = build_index(&pairs);
    assert!(index.duplicate_groups().is_empty());
}

#[test]
fn end_to_end_two_duplicates_one_unique_one_tiny() {
    let x: Vec<u8> = vec![42u8; 2000];
    let y: Vec<u8> = vec![43u8; 2000];
    let tiny: Vec<u8> = vec![42u8; 500];
    let files: Vec<(&str, &[u8])> = vec![
        ("a.txt", &x),
        ("b.txt", &x),
        ("c.txt", &y),
        ("tiny.txt", &tiny),
    ];
    let pairs = pairs_of(&files);
    let index = build_index(&pairs);
    let groups = canonical(index.duplicate_groups());
    assert_eq!(groups.len(), 1);
    assert_eq!(groups[0].0, fingerprint_small(&x));
    assert_eq!(groups[0].1, vec!["a.txt".to_string(), "b.txt".to_string()]);
}

#[test]
fn singleton_groups_are_discarded() {
    let mut index = GroupIndex::new();
    index.insert(10, "one".to_string());
    index.insert(20, "two".to_string());
    assert!(index.duplicate_groups().is_empty());
    index.insert(10, "three".to_string());
    let groups = canonical(index.duplicate_groups());
    assert_eq!(groups.len(), 1);
    assert_eq!(groups[0].0, 10);
    assert_eq!(groups[0].1, vec!["one".to_string(), "three".to_string()]);
}

#[test]
fn rerun_in_different_order_same_groups() {
    let x: Vec<u8> = vec![1u8; 3000];
    let y: Vec<u8> = vec![2u8; 3000];
    let files: Vec<(&str, &[u8])> =
        vec![("a", &x), ("b", &y), ("c", &x), ("d", &y), ("e", &x)];
    let mut reversed: Vec<(&str, &[u8])> = files.clone();
    reversed.reverse();
    let first = canonical(build_index(&pairs_of(&files)).duplicate_groups());
    let second = canonical(build_index(&pairs_of(&reversed)).duplicate_groups());
    assert_eq!(first, second);
    assert_eq!(first.len(), 2);
}

#[test]
fn merge_is_insensitive_to_batching_and_order() {
    let pairs: Vec<(u64, String)> = vec![
        (1, "p1".to_string()),
        (2, "p2".to_string()),
        (1, "p3".to_string()),
        (3, "p4".to_string()),
        (2, "p5".to_string()),
        (1, "p6".to_string()),
    ];

    // One worker takes everything.
    let whole = canonical(build_index(&pairs).duplicate_groups());

    // Three workers, merged left to right.
    let batches: Vec<Vec<(u64, String)>> = vec![
        pairs[0..2].to_vec(),
        pairs[2..5].to_vec(),
        pairs[5..6].to_vec(),
    ];
    let mut left = build_index(&batches[0]);
    left.merge(&build_index(&batches[1]));
    left.merge(&build_index(&batches[2]));
    let left_groups = canonical(left.duplicate_groups());

    // Same workers, merged in the opposite order into an empty index.
    let mut right = GroupIndex::new();
    right.merge(&build_index(&batches[2]));
    right.merge(&build_index(&batches[1]));
    right.merge(&build_index(&batches[0]));
    let right_groups = canonical(right.duplicate_groups());

    assert_eq!(whole, left_groups);
    assert_eq!(whole, right_groups);
    assert_eq!(whole.len(), 2);
    assert_eq!(whole[0].0, 1);
    assert_eq!(
        whole[0].1,
        vec!["p1".to_string(), "p3".to_string(), "p6".to_string()]
    );
    assert_eq!(whole[1].0, 2);
    assert_eq!(whole[1].1, vec!["p2".to_string(), "p5".to_string()]);
}

#[test]
fn merge_concatenates_groups_without_deduplication() {
    let mut a = GroupIndex::new();
    a.insert(7, "left".to_string());
    let mut b = GroupIndex::new();
    b.insert(7, "right".to_string());
    a.merge(&b);
    let groups = canonical(a.duplicate_groups());
    assert_eq!(groups.len(), 1);
    assert_eq!(groups[0].1, vec!["left".to_string(), "right".to_string()]);
}
