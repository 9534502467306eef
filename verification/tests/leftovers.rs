use diskdeck::leftovers::{
    bundle_id_shaped, candidate, container_candidates, detect, spotlight_lists_app, Container, MIN_LEFTOVER_BYTES, installed_id, known_installed, spotlight_query};
use diskdeck::scan::ScanTree;

#[test]
fn bundle_identifier_policy_is_conservative() {
    assert!(bundle_id_shaped("com.example.Editor"));
    assert!(bundle_id_shaped("io.vendor.tool-helper"));
    assert!(!bundle_id_shaped("com.apple.Safari"));
    assert!(!bundle_id_shaped("NoDots"));
    assert!(!bundle_id_shaped("com.example.bad_name"));
    assert!(!bundle_id_shaped("com..broken"));
}

#[test]
fn bundle_identifier_edges() {
    assert!(!bundle_id_shaped(""));
    assert!(!bundle_id_shaped(".com.example"));
    assert!(!bundle_id_shaped("com.example."));
    assert!(!bundle_id_shaped("com.exämple.tool"));
    assert!(bundle_id_shaped(&format!("a.{}", "b".repeat(253))));
    assert!(!bundle_id_shaped(&format!("a.{}", "b".repeat(254))));
}

#[test]
fn candidate_requires_size_and_a_successful_absence_proof() {
    assert!(candidate("com.example.Editor", MIN_LEFTOVER_BYTES, Ok(false)));
    assert!(!candidate("com.example.Editor", MIN_LEFTOVER_BYTES - 1, Ok(false)));
    assert!(!candidate("com.example.Editor", MIN_LEFTOVER_BYTES, Ok(true)));
    assert!(!candidate("com.example.Editor", MIN_LEFTOVER_BYTES, Err("lookup failed".into())));
}

#[test]
fn app_search_output_names_apps_by_line() {
    assert!(spotlight_lists_app("/Applications/Editor.app\n"));
    assert!(spotlight_lists_app("/Applications/Editor.app"));
    assert!(spotlight_lists_app("/x/Host.app/Contents/PlugIns/Ext.appex\n"));
    assert!(!spotlight_lists_app("/Users/me/Editor.application\n"));
    assert!(!spotlight_lists_app(""));
}

#[test]
fn containers_are_measured_sorted_and_filtered() {
    let mut tree = ScanTree::with_root("Data".to_string(), b"/System/Volumes/Data".to_vec(), 0, 0);
    let users = tree.add_child(0, "Users".to_string(), true, 0, 0, false);
    let me = tree.add_child(users, "me".to_string(), true, 0, 0, false);
    let library = tree.add_child(me, "Library".to_string(), true, 0, 0, false);
    let containers = tree.add_child(library, "Containers".to_string(), true, 0, 0, false);
    tree.add_child(containers, "com.example.Small".to_string(), true, MIN_LEFTOVER_BYTES - 1, 1, false);
    tree.add_child(containers, "com.example.B".to_string(), true, MIN_LEFTOVER_BYTES, 1, false);
    tree.add_child(containers, "com.apple.Mail".to_string(), true, 1 << 40, 1, false);
    tree.add_child(containers, "com.example.A".to_string(), true, MIN_LEFTOVER_BYTES, 1, false);
    tree.add_child(containers, "com.example.Big".to_string(), true, 1 << 33, 1, false);

    let found = container_candidates(&tree, 0, b"/Users/me");
    let ids: Vec<&str> = found.iter().map(|c| c.bundle_id.as_str()).collect();
    assert_eq!(ids, vec!["com.example.Big", "com.example.A", "com.example.B"]);
    assert_eq!(found[0].path, b"/Users/me/Library/Containers/com.example.Big".to_vec());
    assert!(container_candidates(&tree, 0, b"/Users/other").is_empty());
}

#[test]
fn detect_reports_only_proven_absent_apps() {
    let container = |id: &str| Container { bundle_id: id.to_string(), path: b"/x".to_vec(), bytes: MIN_LEFTOVER_BYTES };
    let findings = detect(vec![
        (container("com.example.Gone"), Ok(false)),
        (container("com.example.Here"), Ok(true)),
        (container("com.example.Unknown"), Err("lookup failed".to_string())),
    ]);
    assert_eq!(findings.len(), 1);
    assert_eq!(findings[0].bundle_id, "com.example.Gone");
    assert_eq!(
        findings[0].evidence,
        "Sandbox container is named for bundle ID com.example.Gone; no matching installed app or extension was found."
    );
}

#[test]
fn installed_ids_are_trimmed_and_kept_when_shaped_or_apple() {
    assert_eq!(installed_id("com.example.Editor\n"), Some("com.example.Editor".to_string()));
    assert_eq!(installed_id("  com.apple.Safari \n"), Some("com.apple.Safari".to_string()));
    assert_eq!(installed_id("NoDots\n"), None);
    assert_eq!(installed_id(""), None);
}

#[test]
fn installed_lookup_needs_no_search_for_unshaped_or_listed_ids() {
    let installed = vec!["com.example.Editor".to_string(), "com.apple.Safari".to_string()];
    assert!(known_installed("com.example.Editor", &installed));
    assert!(known_installed("com.apple.Notes", &installed));
    assert!(known_installed("NoDots", &installed));
    assert!(!known_installed("com.example.Gone", &installed));
    assert!(!known_installed("com.example.Gone", &[]));
}

#[test]
fn spotlight_query_matches_the_identifier_in_any_case() {
    assert_eq!(spotlight_query("com.example.Editor"), "kMDItemCFBundleIdentifier == 'com.example.Editor'c");
}
