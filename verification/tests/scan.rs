use diskdeck::scan::{
    compact, find_dirs_named, lookup, plan_entry, size_of, EntryPlan, ScanEntryInfo, ScanState, ScanTree, KEEP_DIR_BYTES,
    KEEP_FILE_BYTES,
};

fn tree_with_root() -> ScanTree {
    ScanTree::with_root("tmp".to_string(), b"/tmp/fixture".to_vec(), 0, 0)
}

#[test]
fn compact_folds_small_dirs() {
    let mut tree = tree_with_root();
    let tiny = tree.add_child(0, "tiny".to_string(), true, 1024, 1, false);
    let big = tree.add_child(0, "big".to_string(), true, KEEP_DIR_BYTES, 3, false);
    let bigger = tree.add_child(0, "bigger".to_string(), true, KEEP_DIR_BYTES * 2, 5, false);
    let inner_small = tree.add_child(big, "inner".to_string(), true, 10, 2, false);
    let denied = tree.add_child(0, "locked".to_string(), true, 0, 0, true);
    compact(&mut tree, 0);
    assert!(lookup(&tree, 0, b"/tmp/fixture/tiny").is_none());
    assert!(tree.node(0).small_count >= 1);
    assert_eq!(tree.node(0).small_bytes, 1024);
    assert_eq!(tree.node(0).children, vec![bigger, big, denied]);
    assert!(tree.node(big).children.is_empty());
    assert_eq!(tree.node(big).small_count, 2);
    assert_eq!(lookup(&tree, 0, b"/tmp/fixture/locked"), Some(denied));
    let _ = (tiny, inner_small);
}

#[test]
fn nested_dirs_named_skipped() {
    let mut tree = tree_with_root();
    let a = tree.add_child(0, "a".to_string(), true, 0, 0, false);
    let anm = tree.add_child(a, "node_modules".to_string(), true, 4096, 1, false);
    let p = tree.add_child(anm, "p".to_string(), true, 4096, 1, false);
    tree.add_child(p, "node_modules".to_string(), true, 4096, 1, false);
    let b = tree.add_child(0, "b".to_string(), true, 0, 0, false);
    let bnm = tree.add_child(b, "node_modules".to_string(), true, 8192, 1, false);
    let found = find_dirs_named(&tree, 0, "node_modules");
    assert_eq!(found.len(), 2, "nested node_modules must not double-report");
    assert_eq!(found, vec![bnm, anm]);
}

#[test]
fn lookup_walks_segments_and_size_defaults_to_zero() {
    let mut tree = tree_with_root();
    let a = tree.add_child(0, "a".to_string(), true, 7, 1, false);
    assert_eq!(lookup(&tree, 0, b"/tmp/fixture"), Some(0));
    assert_eq!(lookup(&tree, 0, b"/tmp/fixture/a"), Some(a));
    assert_eq!(size_of(&tree, 0, b"/tmp/fixture/a"), 7);
    assert_eq!(size_of(&tree, 0, b"/tmp/fixture/missing"), 0);
    assert_eq!(size_of(&tree, 0, b"/elsewhere"), 0);
}

#[test]
fn scan_state_reads_stored_codes() {
    assert_eq!(ScanState::from_code(1), ScanState::Running);
    assert_eq!(ScanState::from_code(2), ScanState::Done);
    assert_eq!(ScanState::from_code(3), ScanState::Aborted);
    assert_eq!(ScanState::from_code(0), ScanState::Idle);
    assert_eq!(ScanState::Done.code(), 2);
}

fn file_info(ino: u64, nlink: u64, blocks: u64) -> diskdeck::scan::ScanEntryInfo {
    diskdeck::scan::ScanEntryInfo { dev: 1, is_dir: false, blocks, nlink, ino }
}

#[test]
fn hardlinks_counted_once() {
    let mut seen = std::collections::HashSet::new();
    assert_eq!(plan_entry(1, file_info(9, 2, 8), &mut seen), EntryPlan::Small(4096));
    assert_eq!(plan_entry(1, file_info(9, 2, 8), &mut seen), EntryPlan::Skip);
    // A file with one name is never remembered.
    assert_eq!(plan_entry(1, file_info(10, 1, 8), &mut seen), EntryPlan::Small(4096));
    assert_eq!(plan_entry(1, file_info(10, 1, 8), &mut seen), EntryPlan::Small(4096));
    assert_eq!(seen.len(), 1);
}

#[test]
fn scan_plans_stay_on_the_volume_and_keep_large_files_as_leaves() {
    let mut seen = std::collections::HashSet::new();
    let other = ScanEntryInfo { dev: 2, is_dir: false, blocks: 8, nlink: 1, ino: 3 };
    assert_eq!(plan_entry(1, other, &mut seen), EntryPlan::Skip);
    let dir = ScanEntryInfo { dev: 1, is_dir: true, blocks: 8, nlink: 3, ino: 4 };
    assert_eq!(plan_entry(1, dir, &mut seen), EntryPlan::Descend);
    let blocks = (KEEP_FILE_BYTES / 512) as u64;
    assert_eq!(plan_entry(1, file_info(5, 1, blocks), &mut seen), EntryPlan::Leaf(KEEP_FILE_BYTES));
    assert_eq!(plan_entry(1, file_info(6, 1, blocks - 1), &mut seen), EntryPlan::Small(KEEP_FILE_BYTES - 512));
    assert!(seen.is_empty());
}

#[test]
fn a_size_of_i64_min_cannot_be_ranked() {
    let mut tree = tree_with_root();
    assert!(diskdeck::scan::sizes_can_be_negated(&tree));
    tree.set_size(0, i64::MIN, 0);
    assert!(!diskdeck::scan::sizes_can_be_negated(&tree));
}

#[test]
fn compacting_again_changes_nothing() {
    let mut tree = tree_with_root();
    tree.add_child(0, "tiny".to_string(), true, 2048, 2, false);
    let big = tree.add_child(0, "big".to_string(), true, KEEP_DIR_BYTES * 3, 4, false);
    let mid = tree.add_child(0, "mid".to_string(), true, KEEP_DIR_BYTES * 2, 3, false);
    tree.add_child(big, "inner".to_string(), true, 100, 1, false);
    let deep = tree.add_child(big, "deep".to_string(), true, KEEP_DIR_BYTES, 1, false);
    tree.add_child(deep, "leaf".to_string(), true, 5, 1, false);
    compact(&mut tree, 0);
    let snapshot: Vec<(Vec<usize>, i64, i64)> =
        (0..tree.len()).map(|j| (tree.node(j).children.clone(), tree.node(j).small_bytes, tree.node(j).small_count)).collect();
    assert_eq!(snapshot[0], (vec![big, mid], 2048, 2));
    assert_eq!(snapshot[big], (vec![deep], 100, 1));
    assert_eq!(snapshot[deep], (vec![], 5, 1));
    compact(&mut tree, 0);
    for (j, before) in snapshot.iter().enumerate() {
        let node = tree.node(j);
        assert_eq!(&(node.children.clone(), node.small_bytes, node.small_count), before, "node {j} changed");
    }
}
