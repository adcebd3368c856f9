use dupscan::digest::{
    full_hash, partial_fingerprint, partial_hash, tail_window, ContentHasher, CHUNK, WINDOW,
};
use dupscan::group::{duplicates_by_key, member_mask, partition_by_key, retain_multiple};
use dupscan::metrics::{
    bytes_read, collect_metrics, count_members, reclaimable_bytes, scan_totals, Metrics,
};
use dupscan::pipeline::find_duplicates;
use dupscan::stages::{
    candidates_by_size, confirm_with_full_hash, filter_by_partial_hash, group_by_size,
};

const EMPTY_DIGEST: &str = "af1349b9f5f9a1a6a0404dea36dcc9499bcb25c9adc112b7cc9a93cae41f3262";

fn patterned(len: usize, seed: u8) -> Vec<u8> {
    let mut v = Vec::with_capacity(len);
    for i in 0..len {
        v.push((i % 251) as u8 ^ seed);
    }
    v
}

fn some(s: &str) -> Option<String> {
    Some(s.to_string())
}

#[test]
fn identical_pair_among_three_of_one_size() {
    let files = vec![b"hello".to_vec(), b"hello".to_vec(), b"world".to_vec()];
    let report = find_duplicates(&files);
    assert_eq!(report.candidates, vec![vec![0, 1, 2]]);
    assert_eq!(report.partial_groups, vec![vec![0, 1]]);
    assert_eq!(report.duplicates, vec![vec![0, 1]]);
    assert_eq!(
        report.metrics,
        Metrics {
            total_files: 3,
            total_bytes: 15,
            candidate_groups: 1,
            partial_groups: 1,
            duplicate_groups: 1,
            duplicate_files: 2,
            reclaimable_bytes: 5,
            bytes_hashed_partial: 15,
            bytes_hashed_full: 10,
        }
    );
}

#[test]
fn empty_files_are_never_grouped() {
    let files = vec![Vec::new(), Vec::new()];
    let report = find_duplicates(&files);
    assert!(report.candidates.is_empty());
    assert!(report.partial_groups.is_empty());
    assert!(report.duplicates.is_empty());
    assert_eq!(report.metrics.total_files, 0);
    assert_eq!(report.metrics.total_bytes, 0);
    assert_eq!(report.metrics.candidate_groups, 0);
    assert_eq!(report.metrics.duplicate_groups, 0);
}

#[test]
fn many_empty_files_beside_a_pair() {
    let files = vec![Vec::new(), b"x".to_vec(), Vec::new(), Vec::new(), b"x".to_vec()];
    let report = find_duplicates(&files);
    assert_eq!(report.candidates, vec![vec![1, 4]]);
    assert_eq!(report.duplicates, vec![vec![1, 4]]);
    assert_eq!(report.metrics.total_files, 2);
}

#[test]
fn no_files_at_all() {
    let report = find_duplicates(&Vec::new());
    assert!(report.duplicates.is_empty());
    assert_eq!(
        report.metrics,
        Metrics {
            total_files: 0,
            total_bytes: 0,
            candidate_groups: 0,
            partial_groups: 0,
            duplicate_groups: 0,
            duplicate_files: 0,
            reclaimable_bytes: 0,
            bytes_hashed_partial: 0,
            bytes_hashed_full: 0,
        }
    );
}

#[test]
fn same_ends_different_middle_is_rejected_by_the_full_hash() {
    let a = patterned(10000, 0);
    let mut b = a.clone();
    b[5000] ^= 0xff;
    assert_eq!(partial_hash(&a), partial_hash(&b));
    assert_ne!(full_hash(&a), full_hash(&b));
    let report = find_duplicates(&vec![a, b]);
    assert_eq!(report.candidates, vec![vec![0, 1]]);
    assert_eq!(report.partial_groups, vec![vec![0, 1]]);
    assert!(report.duplicates.is_empty());
    assert_eq!(report.metrics.partial_groups, 1);
    assert_eq!(report.metrics.duplicate_groups, 0);
    assert_eq!(report.metrics.duplicate_files, 0);
    assert_eq!(report.metrics.reclaimable_bytes, 0);
    assert_eq!(report.metrics.bytes_hashed_partial, 16384);
    assert_eq!(report.metrics.bytes_hashed_full, 20000);
}

#[test]
fn unreadable_file_drops_its_pair() {
    let sizes = vec![7u64, 7];
    let candidates = candidates_by_size(&sizes);
    assert_eq!(candidates, vec![vec![0, 1]]);
    let fingerprints = vec![some("f"), some("f")];
    let partial = filter_by_partial_hash(&candidates, &fingerprints);
    assert_eq!(partial, vec![vec![0, 1]]);
    let hashes = vec![some("h"), None];
    let duplicates = confirm_with_full_hash(&partial, &hashes);
    assert!(duplicates.is_empty());
    let m = collect_metrics(&sizes, &candidates, &partial, &duplicates);
    assert_eq!(m.duplicate_groups, 0);
    assert_eq!(m.partial_groups, 1);
    assert_eq!(m.bytes_hashed_full, 14);
}

#[test]
fn unreadable_at_fingerprint_leaves_the_rest_of_the_group() {
    let sizes = vec![7u64, 7, 7];
    let candidates = candidates_by_size(&sizes);
    let fingerprints = vec![some("f"), None, some("f")];
    let partial = filter_by_partial_hash(&candidates, &fingerprints);
    assert_eq!(partial, vec![vec![0, 2]]);
}

#[test]
fn digests_of_files_outside_the_groups_are_ignored() {
    let candidates = vec![vec![0usize, 2]];
    let digests = vec![some("d"), some("d"), some("d"), some("d")];
    assert_eq!(filter_by_partial_hash(&candidates, &digests), vec![vec![0, 2]]);
    assert_eq!(confirm_with_full_hash(&candidates, &digests), vec![vec![0, 2]]);
}

#[test]
fn one_size_group_can_hold_two_groups_of_duplicates() {
    let files = vec![b"aaaa".to_vec(), b"bbbb".to_vec(), b"aaaa".to_vec(), b"bbbb".to_vec()];
    let report = find_duplicates(&files);
    assert_eq!(report.candidates, vec![vec![0, 1, 2, 3]]);
    assert_eq!(report.duplicates, vec![vec![0, 2], vec![1, 3]]);
    assert_eq!(report.metrics.candidate_groups, 1);
    assert_eq!(report.metrics.partial_groups, 2);
    assert_eq!(report.metrics.duplicate_groups, 2);
    assert_eq!(report.metrics.duplicate_files, 4);
    assert_eq!(report.metrics.reclaimable_bytes, 8);
}

#[test]
fn fingerprints_group_across_sizes() {
    let a = patterned(10000, 0);
    let mut b = Vec::new();
    b.extend_from_slice(&a[..4096]);
    b.extend_from_slice(&patterned(3000, 9));
    b.extend_from_slice(&a[10000 - 4096..]);
    let files = vec![a.clone(), b.clone(), a, b];
    let report = find_duplicates(&files);
    assert_eq!(report.candidates, vec![vec![0, 2], vec![1, 3]]);
    assert_eq!(report.partial_groups, vec![vec![0, 1, 2, 3]]);
    assert_eq!(report.duplicates, vec![vec![0, 2], vec![1, 3]]);
    assert_eq!(report.metrics.reclaimable_bytes, 10000 + 11192);
}

#[test]
fn two_runs_give_the_same_groups() {
    let files = vec![
        b"one".to_vec(),
        b"two".to_vec(),
        b"one".to_vec(),
        b"three".to_vec(),
        b"two".to_vec(),
        b"one".to_vec(),
    ];
    let first = find_duplicates(&files);
    let second = find_duplicates(&files);
    assert_eq!(first.duplicates, second.duplicates);
    assert_eq!(first.metrics, second.metrics);
    assert_eq!(first.duplicates, vec![vec![0, 2, 5], vec![1, 4]]);
    assert_eq!(first.metrics.reclaimable_bytes, 6 + 3);
    assert_eq!(first.metrics.duplicate_files, 5);
}

#[test]
fn discovery_order_does_not_change_membership() {
    let forward = vec![b"p".to_vec(), b"q".to_vec(), b"p".to_vec(), b"r".to_vec()];
    let backward = vec![b"r".to_vec(), b"p".to_vec(), b"q".to_vec(), b"p".to_vec()];
    let f = find_duplicates(&forward).duplicates;
    let b = find_duplicates(&backward).duplicates;
    assert_eq!(f, vec![vec![0, 2]]);
    assert_eq!(b, vec![vec![1, 3]]);
    assert_eq!(forward[f[0][0]], backward[b[0][0]]);
    assert_eq!(forward[f[0][1]], backward[b[0][1]]);
}

#[test]
fn group_by_size_keeps_single_files_and_drops_empty_ones() {
    let sizes = vec![3u64, 0, 5, 3, 5, 7, 0];
    let groups = group_by_size(&sizes);
    assert_eq!(groups, vec![vec![0, 3], vec![2, 4], vec![5]]);
    assert_eq!(retain_multiple(&groups), vec![vec![0, 3], vec![2, 4]]);
    assert_eq!(candidates_by_size(&sizes), vec![vec![0, 3], vec![2, 4]]);
}

#[test]
fn partition_respects_the_live_mask() {
    let keys = vec![Some(1u64), Some(1), None, Some(2), Some(1)];
    let live = vec![true, false, true, true, true];
    assert_eq!(partition_by_key(&keys, &live), vec![vec![0, 4], vec![3]]);
    assert_eq!(duplicates_by_key(&keys, &live), vec![vec![0, 4]]);
    let short = vec![true];
    assert_eq!(partition_by_key(&keys, &short), vec![vec![0]]);
}

#[test]
fn member_mask_marks_members_below_the_bound() {
    let groups = vec![vec![0usize, 3], vec![9]];
    assert_eq!(member_mask(&groups, 5), vec![true, false, false, true, false]);
    assert_eq!(member_mask(&groups, 0), Vec::<bool>::new());
}

#[test]
fn tail_window_values() {
    assert_eq!(WINDOW, 4096);
    assert_eq!(tail_window(10000, 4096), 4096);
    assert_eq!(tail_window(5000, 4096), 904);
    assert_eq!(tail_window(8192, 4096), 4096);
    assert_eq!(tail_window(4096, 4096), 0);
    assert_eq!(tail_window(100, 100), 0);
    assert_eq!(tail_window(0, 0), 0);
    assert_eq!(tail_window(100, 40), 60);
    assert_eq!(tail_window(10, 20), 0);
    assert_eq!(tail_window(u64::MAX, 0), 4096);
}

#[test]
fn digest_of_nothing() {
    assert_eq!(full_hash(b""), EMPTY_DIGEST);
    assert_eq!(partial_hash(b""), EMPTY_DIGEST);
    assert_eq!(partial_fingerprint(b"", b""), EMPTY_DIGEST);
}

#[test]
fn full_hash_is_the_blake3_digest_in_hex() {
    let h = full_hash(b"hello");
    assert_eq!(h.len(), 64);
    assert_ne!(h, "hello");
    assert_eq!(h, blake3::hash(b"hello").to_hex().to_string());
    let big = patterned(200_000, 3);
    assert_eq!(full_hash(&big), blake3::hash(&big).to_hex().to_string());
}

#[test]
fn fingerprint_is_the_digest_of_head_then_tail() {
    let mut hasher = blake3::Hasher::new();
    hasher.update(b"head");
    hasher.update(b"tail");
    assert_eq!(partial_fingerprint(b"head", b"tail"), hasher.finalize().to_hex().to_string());
    assert_eq!(partial_fingerprint(b"head", b"tail"), full_hash(b"headtail"));
    assert_ne!(partial_fingerprint(b"head", b"tail"), partial_fingerprint(b"tail", b"head"));
}

#[test]
fn partial_hash_samples_both_ends_without_overlap() {
    let small = patterned(100, 1);
    assert_eq!(partial_hash(&small), full_hash(&small));
    let exact = patterned(4096, 1);
    assert_eq!(partial_hash(&exact), full_hash(&exact));
    let mid = patterned(5000, 1);
    assert_eq!(partial_hash(&mid), full_hash(&mid));
    let two = patterned(8192, 1);
    assert_eq!(partial_hash(&two), full_hash(&two));
    let big = patterned(10000, 1);
    assert_eq!(partial_hash(&big), partial_fingerprint(&big[..4096], &big[10000 - 4096..]));
    assert_ne!(partial_hash(&big), full_hash(&big));
}

#[test]
fn scan_totals_count_only_files_with_content() {
    assert_eq!(scan_totals(&vec![5, 0, 7, 0]), (2, 12));
    assert_eq!(scan_totals(&vec![]), (0, 0));
    assert_eq!(scan_totals(&vec![u64::MAX, 5]), (2, u64::MAX));
}

#[test]
fn bytes_read_caps_each_file() {
    let sizes = vec![100u64, 9000, 9000, 100];
    let groups = vec![vec![0usize, 3], vec![1, 2]];
    assert_eq!(bytes_read(&groups, &sizes, 8192), 200 + 2 * 8192);
    assert_eq!(bytes_read(&groups, &sizes, u64::MAX), 18200);
    assert_eq!(bytes_read(&vec![vec![7usize]], &sizes, 8192), 0);
}

#[test]
fn reclaimable_bytes_is_size_times_all_but_one() {
    let sizes = vec![10u64, 10, 10, 4, 4];
    let groups = vec![vec![0usize, 1, 2], vec![3, 4]];
    assert_eq!(reclaimable_bytes(&groups, &sizes), 10 * 2 + 4);
    assert_eq!(count_members(&groups), 5);
    assert_eq!(reclaimable_bytes(&vec![vec![]], &sizes), 0);
    let huge = vec![u64::MAX, u64::MAX, u64::MAX];
    assert_eq!(reclaimable_bytes(&vec![vec![0usize, 1, 2]], &huge), u64::MAX);
}

#[test]
fn content_hasher_takes_pieces_in_order() {
    let data = patterned(150_000, 5);
    let mut h = ContentHasher::new();
    assert_eq!(h.finish(), EMPTY_DIGEST);
    h.update(&data[..10]);
    h.update(&data[10..70_000]);
    h.update(&[]);
    h.update(&data[70_000..]);
    assert_eq!(h.finish(), full_hash(&data));
    assert_eq!(h.finish(), blake3::hash(&data).to_hex().to_string());
    let mut swapped = ContentHasher::new();
    swapped.update(&data[10..20]);
    swapped.update(&data[..10]);
    let mut straight = ContentHasher::new();
    straight.update(&data[..20]);
    assert_ne!(swapped.finish(), straight.finish());
}

#[test]
fn full_hash_at_chunk_boundaries() {
    assert_eq!(CHUNK, 65536);
    for len in [65535usize, 65536, 65537, 131072] {
        let data = patterned(len, 7);
        assert_eq!(full_hash(&data), blake3::hash(&data).to_hex().to_string());
    }
}

#[test]
fn text_keys_that_share_their_first_characters_stay_apart() {
    let keys = vec![
        some("aaaaaaaa-one"),
        some("aaaaaaaa-two"),
        some("aaaaaaaa-one"),
        some("short"),
        some("aaaaaaaa-two"),
        some("short"),
        some(""),
        some("\u{e9}t\u{e9}-\u{4e2d}\u{6587}-x"),
        some("\u{e9}t\u{e9}-\u{4e2d}\u{6587}-x"),
        some("\u{e9}t\u{e9}-\u{4e2d}\u{6587}-y"),
    ];
    let live = vec![true; 10];
    assert_eq!(
        partition_by_key(&keys, &live),
        vec![vec![0, 2], vec![1, 4], vec![3, 5], vec![6], vec![7, 8], vec![9]]
    );
    assert_eq!(
        duplicates_by_key(&keys, &live),
        vec![vec![0, 2], vec![1, 4], vec![3, 5], vec![7, 8]]
    );
}

#[test]
fn many_files_of_many_sizes() {
    let mut sizes = Vec::new();
    for i in 0..3000u64 {
        sizes.push(1 + i % 1000);
    }
    let groups = group_by_size(&sizes);
    assert_eq!(groups.len(), 1000);
    for (a, g) in groups.iter().enumerate() {
        assert_eq!(g, &vec![a, a + 1000, a + 2000]);
    }
    let contents: Vec<Vec<u8>> = (0..600usize).map(|i| patterned(10 + i % 7, (i % 200) as u8)).collect();
    let report = find_duplicates(&contents);
    for g in &report.duplicates {
        assert!(g.len() >= 2);
        for &m in g {
            assert_eq!(contents[m], contents[g[0]]);
        }
    }
    for i in 0..600 {
        for j in (i + 1)..600 {
            if contents[i] == contents[j] {
                assert!(report.duplicates.iter().any(|g| g.contains(&i) && g.contains(&j)));
            }
        }
    }
}
