use diskdeck::scan::{Node, ScanTree};
use diskdeck::search::{
    crumbs_for, largest_files, scan_coverage, search_tree, CoverageKind,
    DEFAULT_COVERAGE_LIMIT, DEFAULT_LARGEST_FILE_LIMIT, DEFAULT_RESULT_LIMIT,
};

fn root(path: &str) -> ScanTree {
    let name = path.rsplit('/').next().unwrap_or("").to_string();
    ScanTree::with_root(name, path.as_bytes().to_vec(), 90_000_000_000, 12_000)
}

fn child(tree: &mut ScanTree, parent: usize, name: &str, is_dir: bool, bytes: i64, denied: bool) -> usize {
    tree.add_child(parent, name.to_string(), is_dir, bytes, if is_dir { 20 } else { 1 }, denied)
}

struct Fixture {
    tree: ScanTree,
    users: usize,
    project: usize,
    exact: usize,
    prefix: usize,
    nested: usize,
    path_only: usize,
}

fn fixture() -> Fixture {
    let mut tree = root("/System/Volumes/Data");
    let users = child(&mut tree, 0, "Users", true, 40_000_000_000, false);
    let project = child(&mut tree, users, "WardenUI", true, 5_000_000_000, false);
    let exact = child(&mut tree, project, "node_modules", true, 2_000_000_000, false);
    let prefix = child(&mut tree, project, "node_modules-old", true, 3_000_000_000, false);
    let nested = child(&mut tree, users, "archive-node_modules-copy", true, 4_000_000_000, false);
    let path_only = child(&mut tree, exact, "cache", true, 1_000_000_000, false);
    Fixture { tree, users, project, exact, prefix, nested, path_only }
}

fn path_of(tree: &ScanTree, i: usize) -> Vec<u8> {
    tree.node(i).path.clone()
}

#[test]
fn storage_search_ranks_exact_prefix_name_and_path_matches() {
    let f = fixture();
    let summary = search_tree(&f.tree, 0, "node_modules", DEFAULT_RESULT_LIMIT);
    let paths: Vec<_> = summary.results.iter().map(|r| path_of(&f.tree, r.node)).collect();
    assert_eq!(summary.total_matches, 4);
    assert_eq!(
        paths,
        vec![
            path_of(&f.tree, f.exact),
            path_of(&f.tree, f.prefix),
            path_of(&f.tree, f.nested),
            path_of(&f.tree, f.path_only),
        ]
    );
    assert!(summary.results[0].display_path.ends_with("node_modules"));
}

#[test]
fn storage_search_requires_all_terms_and_ignores_short_queries() {
    let f = fixture();
    let summary = search_tree(&f.tree, 0, "  WARDEN   node  ", DEFAULT_RESULT_LIMIT);
    assert_eq!(summary.total_matches, 3);
    assert!(summary.results.iter().all(|r| {
        r.display_path.to_lowercase().contains("warden") && r.display_path.to_lowercase().contains("node")
    }));
    assert_eq!(search_tree(&f.tree, 0, "n", 80).total_matches, 0);
    assert_eq!(search_tree(&f.tree, 0, "   ", 80).total_matches, 0);
}

#[test]
fn storage_search_caps_rows_but_reports_every_match() {
    let f = fixture();
    let summary = search_tree(&f.tree, 0, "node_modules", 2);
    assert_eq!(summary.total_matches, 4);
    assert_eq!(summary.results.len(), 2);
}

#[test]
fn storage_search_is_stable_and_preserves_denied_nodes() {
    let mut f = fixture();
    let denied = child(&mut f.tree, f.users, "SecretCache", true, 600_000_000, true);
    let denied_summary = search_tree(&f.tree, 0, "secret", 80);
    assert_eq!(denied_summary.results.len(), 1);
    assert_eq!(denied_summary.results[0].node, denied);
    assert!(f.tree.node(denied_summary.results[0].node).denied);

    let alpha_mirror = child(&mut f.tree, f.users, "alpha-mirror", true, 500, false);
    let alpha_copy = child(&mut f.tree, f.users, "alpha-copy", true, 500, false);
    let stable = search_tree(&f.tree, 0, "alpha", 80);
    assert_eq!(stable.results.len(), 2);
    assert_eq!(stable.results[0].node, alpha_copy);
    assert_eq!(stable.results[1].node, alpha_mirror);
    assert!(stable.results.iter().all(|r| r.node != 0));
}

#[test]
fn storage_search_reconstructs_only_attached_breadcrumbs() {
    let mut f = fixture();
    let crumbs = crumbs_for(&f.tree, 0, f.exact).unwrap();
    assert_eq!(
        crumbs.iter().map(|&i| f.tree.node(i).name.as_str()).collect::<Vec<_>>(),
        vec!["Users", "WardenUI", "node_modules"]
    );
    assert!(crumbs_for(&f.tree, 0, 0).unwrap().is_empty());
    let unrelated = f.tree.push_node(Node {
        name: "OtherRoot".to_string(),
        path: b"/fixture/OtherRoot".to_vec(),
        is_dir: true,
        bytes: 90_000_000_000,
        files: 12_000,
        small_bytes: 0,
        small_count: 0,
        denied: false,
        parent: None,
        children: Vec::new(),
    });
    assert!(crumbs_for(&f.tree, 0, unrelated).is_none());
    assert_eq!(f.tree.node(f.project).name, "WardenUI");
}

#[test]
fn storage_search_breadcrumbs_fail_closed_on_a_cycle() {
    let mut f = fixture();
    let own = f.tree.len();
    let cyclic = f.tree.push_node(Node {
        name: "cycle".to_string(),
        path: b"/cycle".to_vec(),
        is_dir: true,
        bytes: 1,
        files: 0,
        small_bytes: 0,
        small_count: 0,
        denied: false,
        parent: Some(own),
        children: Vec::new(),
    });
    assert_eq!(cyclic, own);
    assert!(crumbs_for(&f.tree, 0, cyclic).is_none());
}

#[test]
fn largest_files_keeps_only_files_and_orders_size_then_raw_path() {
    let mut f = fixture();
    let biggest = child(&mut f.tree, f.project, "movie.mov", false, 900_000_000, false);
    let tie_z = child(&mut f.tree, f.users, "zeta.dmg", false, 500_000_000, false);
    let tie_a = child(&mut f.tree, f.users, "alpha.dmg", false, 500_000_000, false);
    let _larger_directory = child(&mut f.tree, f.users, "not-a-file", true, 9_000_000_000, false);

    let summary = largest_files(&f.tree, 0, DEFAULT_LARGEST_FILE_LIMIT);

    assert_eq!(summary.total_files, 3);
    assert_eq!(summary.results.len(), 3);
    assert_eq!(summary.results[0].node, biggest);
    assert_eq!(summary.results[1].node, tie_a);
    assert_eq!(summary.results[2].node, tie_z);
    assert!(summary.results[0].display_path.ends_with("movie.mov"));
}

#[test]
fn largest_files_caps_rows_reports_total_and_handles_empty_maps() {
    let mut f = fixture();
    for index in 0..(DEFAULT_LARGEST_FILE_LIMIT + 2) {
        child(
            &mut f.tree,
            f.users,
            &format!("file-{index:03}.bin"),
            false,
            200_000_000 + index as i64,
            false,
        );
    }

    let capped = largest_files(&f.tree, 0, DEFAULT_LARGEST_FILE_LIMIT + 20);
    assert_eq!(capped.total_files, DEFAULT_LARGEST_FILE_LIMIT + 2);
    assert_eq!(capped.results.len(), DEFAULT_LARGEST_FILE_LIMIT);

    let one = largest_files(&f.tree, 0, 1);
    assert_eq!(one.total_files, DEFAULT_LARGEST_FILE_LIMIT + 2);
    assert_eq!(one.results.len(), 1);

    let empty_tree = root("/empty");
    let empty = largest_files(&empty_tree, 0, DEFAULT_LARGEST_FILE_LIMIT);
    assert_eq!(empty.total_files, 0);
    assert!(empty.results.is_empty());
}

#[test]
fn scan_coverage_classifies_personal_paths_and_orders_raw_paths() {
    let mut f = fixture();
    let alice = child(&mut f.tree, f.users, "alice", true, 1, false);
    let personal_z = child(&mut f.tree, alice, "Documents", true, 0, true);
    let personal_a = child(&mut f.tree, alice, "Desktop", true, 0, true);
    let shared = child(&mut f.tree, f.users, "Shared", true, 0, true);
    let system = child(&mut f.tree, 0, ".Spotlight-V100", true, 0, true);
    let _readable = child(&mut f.tree, 0, "Library", true, 1, false);
    let _denied_file = child(&mut f.tree, 0, "locked.bin", false, 200_000_000, true);

    let summary = scan_coverage(&f.tree, 0, DEFAULT_COVERAGE_LIMIT);

    assert_eq!(summary.total_denied, 4);
    assert_eq!(summary.personal_denied, 2);
    assert_eq!(summary.system_denied, 2);
    assert_eq!(summary.results.len(), 4);
    assert_eq!(summary.results[0].kind, CoverageKind::Personal);
    assert_eq!(summary.results[0].path, path_of(&f.tree, personal_a));
    assert_eq!(summary.results[1].path, path_of(&f.tree, personal_z));
    assert_eq!(summary.results[2].kind, CoverageKind::System);
    assert_eq!(summary.results[2].path, path_of(&f.tree, system));
    assert_eq!(summary.results[3].path, path_of(&f.tree, shared));
    assert!(summary.results[0].display_path.ends_with("Desktop"));
}

#[test]
fn scan_coverage_caps_rows_reports_every_denial_and_handles_empty_maps() {
    let mut f = fixture();
    for index in 0..(DEFAULT_COVERAGE_LIMIT + 2) {
        child(&mut f.tree, 0, &format!("locked-{index:03}"), true, 0, true);
    }

    let capped = scan_coverage(&f.tree, 0, DEFAULT_COVERAGE_LIMIT + 20);
    assert_eq!(capped.total_denied, DEFAULT_COVERAGE_LIMIT + 2);
    assert_eq!(capped.system_denied, DEFAULT_COVERAGE_LIMIT + 2);
    assert_eq!(capped.results.len(), DEFAULT_COVERAGE_LIMIT);

    let empty_tree = root("/empty");
    let empty = scan_coverage(&empty_tree, 0, DEFAULT_COVERAGE_LIMIT);
    assert_eq!(empty.total_denied, 0);
    assert!(empty.results.is_empty());
}

#[test]
fn lookup_walks_named_segments_and_sizes_missing_paths_as_zero() {
    let f = fixture();
    let found = diskdeck::scan::lookup(&f.tree, 0, b"/System/Volumes/Data/Users/WardenUI/node_modules");
    assert_eq!(found, Some(f.exact));
    assert_eq!(diskdeck::scan::lookup(&f.tree, 0, b"/System/Volumes/Data/"), Some(0));
    assert_eq!(diskdeck::scan::lookup(&f.tree, 0, b"/System/Volumes/Data/Users/nobody"), None);
    assert_eq!(diskdeck::scan::lookup(&f.tree, 0, b"/elsewhere"), None);
    assert_eq!(diskdeck::scan::size_of(&f.tree, 0, b"/System/Volumes/Data/Users/WardenUI"), 5_000_000_000);
    assert_eq!(diskdeck::scan::size_of(&f.tree, 0, b"/System/Volumes/Data/missing"), 0);
}
