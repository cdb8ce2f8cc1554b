use file_dedup::{
    encode_fingerprint, filter_scannable, fingerprint_hex, fingerprint_large, fingerprint_small,
    fingerprint_whole, needs_sampling, should_scan, tail_offset, LARGE_FILE_THRESHOLD,
    MIN_FILE_SIZE, SAMPLE_SIZE,
};
use xxhash_rust::xxh3::xxh3_64;

#[test]
fn size_filter_boundary() {
    assert_eq!(MIN_FILE_SIZE, 1024);
    assert!(!should_scan(0));
    assert!(!should_scan(500));
    assert!(!should_scan(1024));
    assert!(should_scan(1025));
    assert!(should_scan(2000));
}

#[test]
fn walk_filter_keeps_only_files_above_threshold() {
    let files = vec![
        ("big".to_string(), 2000u64),
        ("at_threshold".to_string(), 1024u64),
        ("just_above".to_string(), 1025u64),
        ("tiny".to_string(), 500u64),
        ("big_too".to_string(), 5000u64),
    ];
    assert_eq!(
        filter_scannable(&files),
        vec![
            "big".to_string(),
            "just_above".to_string(),
            "big_too".to_string()
        ]
    );
    assert_eq!(filter_scannable(&Vec::new()), Vec::<String>::new());
}

#[test]
fn sampling_threshold_boundary() {
    assert_eq!(LARGE_FILE_THRESHOLD, 1_048_576);
    assert!(!needs_sampling(1_048_576));
    assert!(needs_sampling(1_048_577));
    assert!(!needs_sampling(2000));
}

#[test]
fn tail_offset_clamps() {
    assert_eq!(tail_offset(2_000_000), 2_000_000 - 65_536);
    assert_eq!(tail_offset(65_536), 0);
    assert_eq!(tail_offset(65_537), 1);
    assert_eq!(tail_offset(100), 0);
    assert_eq!(tail_offset(0), 0);
}

#[test]
fn identical_small_content_same_fingerprint() {
    let x: Vec<u8> = (0..2000u32).map(|i| (i % 251) as u8).collect();
    let y = x.clone();
    assert_eq!(fingerprint_small(&x), fingerprint_small(&y));
}

#[test]
fn differing_small_content_distinct_fingerprint() {
    let x: Vec<u8> = vec![7u8; 2000];
    let mut y = x.clone();
    y[1000] = 8;
    assert_ne!(fingerprint_small(&x), fingerprint_small(&y));
}

#[test]
fn small_fingerprint_matches_streamed_hash() {
    let content: Vec<u8> = (0..100_000u32).map(|i| (i * 31 % 256) as u8).collect();
    assert_eq!(fingerprint_small(&content), xxh3_64(&content));
    assert_eq!(fingerprint_small(&[]), xxh3_64(&[]));
}

#[test]
fn large_fingerprint_matches_sampled_hash() {
    let head: Vec<u8> = vec![1u8; SAMPLE_SIZE];
    let tail: Vec<u8> = vec![2u8; SAMPLE_SIZE];
    let size: u64 = 2_097_152;
    let mut stream = Vec::new();
    stream.extend_from_slice(&head);
    stream.extend_from_slice(&tail);
    stream.extend_from_slice(&size.to_le_bytes());
    assert_eq!(fingerprint_large(&head, &tail, size), xxh3_64(&stream));
}

#[test]
fn sampled_fingerprint_ignores_interior_bytes() {
    // Two 2 MiB files differing only at offset 1,000,000 must fingerprint
    // identically: the accepted false-positive case of sampled hashing.
    let mut a: Vec<u8> = (0..2_097_152u32).map(|i| (i % 253) as u8).collect();
    let mut b = a.clone();
    b[1_000_000] = a[1_000_000].wrapping_add(1);
    assert_eq!(fingerprint_whole(&a), fingerprint_whole(&b));

    // A difference inside the tail sample is seen.
    let tail_byte = a.len() - 10;
    a[tail_byte] = a[tail_byte].wrapping_add(1);
    assert_ne!(fingerprint_whole(&a), fingerprint_whole(&b));
}

#[test]
fn whole_fingerprint_dispatches_on_size() {
    let small: Vec<u8> = vec![5u8; 4096];
    assert_eq!(fingerprint_whole(&small), fingerprint_small(&small));

    let large: Vec<u8> = (0..1_500_000u32).map(|i| (i % 241) as u8).collect();
    let head = &large[..SAMPLE_SIZE];
    let tail = &large[large.len() - SAMPLE_SIZE..];
    assert_eq!(
        fingerprint_whole(&large),
        fingerprint_large(head, tail, large.len() as u64)
    );
}

#[test]
fn fingerprint_encoding_is_little_endian() {
    assert_eq!(
        encode_fingerprint(0x0102030405060708),
        vec![8, 7, 6, 5, 4, 3, 2, 1]
    );
    assert_eq!(encode_fingerprint(0), vec![0; 8]);
}

#[test]
fn fingerprint_hex_exact_values() {
    assert_eq!(fingerprint_hex(0), "0000000000000000");
    assert_eq!(fingerprint_hex(0x0123456789abcdef), "efcdab8967452301");
    assert_eq!(fingerprint_hex(0xff), "ff00000000000000");
}
