use diskdeck::file_review::{
    compare_reads, duplicate_group, exact_groups, fingerprint_chunk, finish_review, keyed_groups, qualifies_large_old, skipped_dir,
    standard_roots, DuplicateGroup, EntryInfo, LargeOldFile, ReviewConfig, ReviewWalk, FNV_OFFSET, LARGE_FLOOR,
    MAX_VISITED, OLD_SECONDS,
};

#[test]
fn large_old_needs_size_and_an_old_known_access() {
    assert!(qualifies_large_old(LARGE_FLOOR, 100, 200, LARGE_FLOOR));
    assert!(!qualifies_large_old(LARGE_FLOOR - 1, 100, 200, LARGE_FLOOR));
    assert!(!qualifies_large_old(LARGE_FLOOR, 201, 200, LARGE_FLOOR));
    assert!(!qualifies_large_old(LARGE_FLOOR, 0, 200, LARGE_FLOOR));
}

#[test]
fn review_skips_hidden_node_modules_and_bundles() {
    assert!(skipped_dir(b"/Users/me/.git"));
    assert!(skipped_dir(b"/Users/me/work/node_modules"));
    assert!(skipped_dir(b"/Users/me/Pictures/Photos Library.photoslibrary"));
    assert!(skipped_dir(b"/Applications/Tool.app"));
    assert!(skipped_dir(b"/Users/me/\xff"));
    assert!(skipped_dir(b"/"));
    assert!(!skipped_dir(b"/Users/me/Documents"));
    assert!(!skipped_dir(b"/Users/me/report.final"));
    assert!(!skipped_dir(b"/Users/me/app"));
}

#[test]
fn standard_roots_are_the_user_folders() {
    let roots = standard_roots(b"/Users/me");
    assert_eq!(roots[0], b"/Users/me/Desktop".to_vec());
    assert_eq!(roots[5], b"/Users/me/Pictures".to_vec());
    assert_eq!(roots.len(), 6);
}

#[test]
fn duplicate_groups_are_in_path_order_and_count_waste() {
    let group = duplicate_group(vec![(b"/b".to_vec(), 7), (b"/a".to_vec(), 5), (b"/c".to_vec(), 5)]);
    assert_eq!(group.paths, vec![b"/a".to_vec(), b"/b".to_vec(), b"/c".to_vec()]);
    assert_eq!(group.bytes_each, 5);
    assert_eq!(group.wasted_bytes, 10);
    let huge = duplicate_group(vec![(b"/a".to_vec(), i64::MAX), (b"/b".to_vec(), i64::MAX), (b"/c".to_vec(), 1)]);
    assert_eq!(huge.wasted_bytes, i64::MAX);
}

#[test]
fn review_results_are_ranked_and_bounded() {
    let groups: Vec<DuplicateGroup> = (0..60)
        .map(|k| DuplicateGroup { paths: vec![], bytes_each: k, wasted_bytes: k })
        .collect();
    let large: Vec<LargeOldFile> = vec![
        LargeOldFile { path: b"/b".to_vec(), bytes: 5, accessed_at: 1 },
        LargeOldFile { path: b"/a".to_vec(), bytes: 5, accessed_at: 1 },
        LargeOldFile { path: b"/c".to_vec(), bytes: 9, accessed_at: 1 },
    ];
    let result = finish_review(3, groups, large);
    assert_eq!(result.files_visited, 3);
    assert_eq!(result.duplicate_groups.len(), 50);
    assert_eq!(result.duplicate_groups[0].wasted_bytes, 59);
    let paths: Vec<Vec<u8>> = result.large_old.iter().map(|f| f.path.clone()).collect();
    assert_eq!(paths, vec![b"/c".to_vec(), b"/a".to_vec(), b"/b".to_vec()]);
}

fn file(dev: u64, ino: u64, len: u64, blocks: u64, accessed_at: i64) -> EntryInfo {
    EntryInfo { dev, ino, is_symlink: false, is_dir: false, is_file: true, len, blocks, accessed_at }
}

fn dir(dev: u64, ino: u64) -> EntryInfo {
    EntryInfo { dev, ino, is_symlink: false, is_dir: true, is_file: false, len: 0, blocks: 0, accessed_at: 0 }
}

fn small_config() -> ReviewConfig {
    ReviewConfig { duplicate_floor: 1, large_floor: i64::MAX, old_seconds: 1, max_visited: 100 }
}

#[test]
fn sparse_large_file_uses_on_disk_bytes_for_large_old() {
    assert!(qualifies_large_old(LARGE_FLOOR, 100, 200, LARGE_FLOOR));
    assert!(!qualifies_large_old(LARGE_FLOOR - 1, 100, 200, LARGE_FLOOR));
    assert!(!qualifies_large_old(LARGE_FLOOR, 201, 200, LARGE_FLOOR));
    let config = ReviewConfig { duplicate_floor: 1, large_floor: LARGE_FLOOR, old_seconds: 100, max_visited: 10 };
    let mut walk = ReviewWalk::new(config, 1_000);
    // Two billion bytes long, but only a few blocks on disk.
    walk.visit(b"/r/sparse".to_vec(), 1, file(1, 1, 2_000_000_001, 8, 10));
    assert!(walk.large_old.is_empty());
    assert_eq!(walk.candidates[0].on_disk, 4096);
    // Two million blocks on disk is large.
    walk.visit(b"/r/dense".to_vec(), 1, file(1, 2, 1_024_000_000, 2_000_000, 10));
    assert_eq!(walk.large_old.len(), 1);
    assert_eq!(walk.large_old[0].bytes, 1_024_000_000);
}

#[test]
fn default_review_limits() {
    let config = ReviewConfig::default();
    assert_eq!(config.duplicate_floor, 10 * 1024 * 1024);
    assert_eq!(config.large_floor, 1_000_000_000);
    assert_eq!(config.old_seconds, 180 * 24 * 60 * 60);
    assert_eq!(config.old_seconds, OLD_SECONDS);
    assert_eq!(config.max_visited, MAX_VISITED);
}

#[test]
fn fingerprint_is_fnv1a_and_independent_of_chunking() {
    assert_eq!(fingerprint_chunk(FNV_OFFSET, b""), 0xcbf29ce484222325);
    assert_eq!(fingerprint_chunk(FNV_OFFSET, b"a"), 0xaf63dc4c8601ec8c);
    assert_eq!(fingerprint_chunk(FNV_OFFSET, b"foobar"), 0x85944171f73967e8);
    let whole = fingerprint_chunk(FNV_OFFSET, b"same payload");
    let split = fingerprint_chunk(fingerprint_chunk(FNV_OFFSET, b"same "), b"payload");
    assert_eq!(whole, split);
    assert_ne!(whole, fingerprint_chunk(FNV_OFFSET, b"other bytes!"));
}

#[test]
fn reads_decide_equality_only_when_they_differ_or_both_end() {
    assert_eq!(compare_reads(b"abc", b"abd"), Some(false));
    assert_eq!(compare_reads(b"abc", b"ab"), Some(false));
    assert_eq!(compare_reads(b"", b""), Some(true));
    assert_eq!(compare_reads(b"abc", b"abc"), None);
}

#[test]
fn keyed_groups_keep_shared_keys_in_key_order() {
    let groups = keyed_groups(vec![(5, 0), (3, 1), (5, 2), (3, 3), (7, 4), (3, 5)]);
    assert_eq!(groups, vec![vec![1, 3, 5], vec![0, 2]]);
    assert!(keyed_groups(vec![(1, 0), (2, 1)]).is_empty());
    assert!(keyed_groups(Vec::new()).is_empty());
}

#[test]
fn hardlinks_are_one_physical_file_not_duplicates() {
    let mut walk = ReviewWalk::new(small_config(), 1_000);
    walk.add_root(b"/r".to_vec(), Some(dir(1, 1)));
    let (root, dev) = walk.next_dir().unwrap();
    assert_eq!(root, b"/r".to_vec());
    walk.visit(b"/r/a".to_vec(), dev, file(1, 7, 4, 8, 10));
    walk.visit(b"/r/b".to_vec(), dev, file(1, 7, 4, 8, 10));
    assert_eq!(walk.visited, 1);
    assert_eq!(walk.candidates.len(), 1);
    let keys: Vec<(u64, usize)> = walk.candidates.iter().enumerate().map(|(i, c)| (c.logical, i)).collect();
    assert!(keyed_groups(keys).is_empty());
}

#[test]
fn skips_hidden_node_modules_and_bundle_directories() {
    let mut walk = ReviewWalk::new(small_config(), 1_000);
    walk.add_root(b"/r".to_vec(), Some(dir(1, 1)));
    let (_, dev) = walk.next_dir().unwrap();
    for name in [&b"/r/.hidden"[..], b"/r/node_modules", b"/r/Photos.photoslibrary"] {
        walk.visit(name.to_vec(), dev, dir(1, 2));
    }
    assert!(walk.next_dir().is_none());
    assert_eq!(walk.visited, 0);
    walk.visit(b"/r/Work".to_vec(), dev, dir(1, 3));
    assert_eq!(walk.next_dir(), Some((b"/r/Work".to_vec(), 1)));
}

#[test]
fn review_stays_on_the_root_device_and_ignores_links() {
    let mut walk = ReviewWalk::new(small_config(), 1_000);
    walk.add_root(b"/missing".to_vec(), None);
    walk.add_root(b"/r/file".to_vec(), Some(file(1, 9, 1, 1, 1)));
    assert!(walk.next_dir().is_none());
    walk.visit(b"/r/other-disk".to_vec(), 1, file(2, 1, 4, 8, 10));
    let mut link = file(1, 2, 4, 8, 10);
    link.is_symlink = true;
    link.is_file = false;
    walk.visit(b"/r/link".to_vec(), 1, link);
    assert_eq!(walk.visited, 0);
    assert!(walk.candidates.is_empty());
}

#[test]
fn review_stops_at_its_file_limit() {
    let config = ReviewConfig { duplicate_floor: 1, large_floor: i64::MAX, old_seconds: 1, max_visited: 2 };
    let mut walk = ReviewWalk::new(config, 1_000);
    walk.add_root(b"/r".to_vec(), Some(dir(1, 1)));
    walk.add_root(b"/s".to_vec(), Some(dir(1, 2)));
    let (_, dev) = walk.next_dir().unwrap();
    for ino in 10..20 {
        walk.visit(format!("/s/{ino}").into_bytes(), dev, file(1, ino, 4, 8, 10));
    }
    assert_eq!(walk.visited, 2);
    assert!(walk.is_full());
    assert!(walk.next_dir().is_none());
}

#[test]
fn review_cutoff_is_now_minus_the_age_limit() {
    let walk = ReviewWalk::new(ReviewConfig::default(), 100_000_000);
    assert_eq!(walk.cutoff, 100_000_000 - OLD_SECONDS);
    let walk = ReviewWalk::new(ReviewConfig::default(), i64::MIN + 5);
    assert_eq!(walk.cutoff, i64::MIN);
}

#[test]
fn proves_exact_duplicates_and_separates_same_size_content() {
    // a.bin and b.bin hold the same payload; c.bin has other bytes of the same length.
    let contents: [&[u8]; 3] = [b"same payload", b"same payload", b"other bytes!"];
    let keys: Vec<(u64, usize)> = contents.iter().enumerate().map(|(i, c)| (c.len() as u64, i)).collect();
    let same_size = keyed_groups(keys);
    assert_eq!(same_size, vec![vec![0, 1, 2]]);
    let hashed: Vec<(u64, usize)> = same_size[0].iter().map(|i| (fingerprint_chunk(FNV_OFFSET, contents[*i]), *i)).collect();
    let same_hash = keyed_groups(hashed);
    assert_eq!(same_hash, vec![vec![0, 1]]);
    let members = &same_hash[0];
    let groups = exact_groups(members.len(), |a, b| contents[members[a]] == contents[members[b]]);
    let duplicates: Vec<&Vec<usize>> = groups.iter().filter(|g| g.len() > 1).collect();
    assert_eq!(duplicates.len(), 1);
    let names = ["/t/a.bin", "/t/b.bin", "/t/c.bin"];
    let files = duplicates[0].iter().map(|k| (names[members[*k]].as_bytes().to_vec(), 4096)).collect();
    let group = duplicate_group(files);
    assert_eq!(group.paths, vec![b"/t/a.bin".to_vec(), b"/t/b.bin".to_vec()]);
}

#[test]
fn exact_groups_join_the_first_equal_group() {
    let values = [1, 2, 1, 3, 2, 1];
    let groups = exact_groups(values.len(), |a, b| values[a] == values[b]);
    assert_eq!(groups, vec![vec![0, 2, 5], vec![1, 4], vec![3]]);
    assert!(exact_groups(0, |_, _| true).is_empty());
}
