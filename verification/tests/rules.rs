use diskdeck::rules::{build_recommendations, display, Action, Rec, RecInputs, Tier, Tools};
use diskdeck::scan::ScanTree;

const HOME: &str = "/Users/tester";

fn no_tools() -> Tools {
    Tools { docker: false, go: false, npm: false, brew: false, xcrun: false }
}

fn inputs() -> RecInputs {
    RecInputs { home: Some(HOME.as_bytes().to_vec()), tools: no_tools(), codesign_clones: None, trash_bytes: 0 }
}

fn dir(tree: &mut ScanTree, parent: usize, name: &str, bytes: i64) -> usize {
    tree.add_child(parent, name.to_string(), true, bytes, 1, false)
}

/// A synthetic tree mirroring a home folder; every path segment is a node.
fn fake_tree() -> ScanTree {
    let mut tree = ScanTree::with_root("Data".to_string(), b"/System/Volumes/Data".to_vec(), 0, 0);
    let users = dir(&mut tree, 0, "Users", 0);
    let hd = dir(&mut tree, users, "tester", 0);
    let lib = dir(&mut tree, hd, "Library", 0);
    let caches = dir(&mut tree, lib, "Caches", 0);
    dir(&mut tree, caches, "pip", 200 << 20);
    dir(&mut tree, caches, "ms-playwright", 1 << 30);
    dir(&mut tree, caches, "BigToolCache", 60 << 20);
    dir(&mut tree, caches, "SmallCache", 10 << 20);
    let devx = dir(&mut tree, lib, "Developer", 0);
    let xc = dir(&mut tree, devx, "Xcode", 0);
    dir(&mut tree, xc, "DerivedData", 2 << 30);
    let some_app = dir(&mut tree, lib, "SomeApp", 0);
    dir(&mut tree, some_app, "node_modules", 100 << 20);
    dir(&mut tree, hd, ".Trash", 500 << 20);
    let work = dir(&mut tree, hd, "work", 0);
    let pa = dir(&mut tree, work, "projA", 0);
    dir(&mut tree, pa, "node_modules", 300 << 20);
    let pb = dir(&mut tree, work, "projB", 0);
    dir(&mut tree, pb, "node_modules", 30 << 20);
    tree
}

fn by_id<'a>(recs: &'a [Rec], id: &str) -> Option<&'a Rec> {
    recs.iter().find(|r| r.id == id)
}

#[test]
fn knowledge_base_doctrine() {
    let tree = fake_tree();
    let recs = build_recommendations(&tree, 0, &inputs());

    let dd = by_id(&recs, "xcode-derived").expect("DerivedData rec");
    assert!(dd.tier == Tier::Safe && dd.action == Action::Trash && dd.allow_delete);

    let pw = by_id(&recs, "playwright").expect("playwright rec");
    assert!(pw.tier == Tier::Caution && !pw.note.is_empty());

    let tr = by_id(&recs, "trash").expect("trash rec");
    assert!(tr.action == Action::Empty && !tr.allow_trash);

    assert!(by_id(&recs, "cache-BigToolCache").is_some());
    assert!(by_id(&recs, "cache-pip").is_none(), "pip must not double-report");
    assert!(by_id(&recs, "cache-SmallCache").is_none(), "<50MB excluded");

    let nm: Vec<_> = recs.iter().filter(|r| r.id.starts_with("nm-")).collect();
    assert_eq!(nm.len(), 2, "Library node_modules excluded, projects kept");
    for r in &nm {
        assert!(r.tier == Tier::Caution);
        assert!(!String::from_utf8_lossy(&r.path).contains("/Library/"));
    }

    let first_caution = recs.iter().position(|r| r.tier == Tier::Caution);
    let last_safe = recs.iter().rposition(|r| r.tier == Tier::Safe);
    if let (Some(fc), Some(ls)) = (first_caution, last_safe) {
        assert!(ls < fc, "safe before caution");
    }

    for r in &recs {
        assert!(!r.desc.is_empty() && !r.restore.is_empty() && !r.display.is_empty());
    }
}

#[test]
fn recommendations_are_ordered_and_named() {
    let tree = fake_tree();
    let recs = build_recommendations(&tree, 0, &inputs());
    let ids: Vec<&str> = recs.iter().map(|r| r.id.as_str()).collect();
    assert_eq!(
        ids,
        vec!["xcode-derived", "trash", "pip-cache", "cache-BigToolCache", "playwright", "nm-1", "nm-2"]
    );
    let nm1 = by_id(&recs, "nm-1").unwrap();
    assert_eq!(nm1.title, "node_modules — projA");
    assert_eq!(nm1.display, "~/work/projA/node_modules");
    assert_eq!(by_id(&recs, "cache-BigToolCache").unwrap().title, "BigToolCache cache");
}

#[test]
fn recommendations_need_a_home_folder() {
    let tree = fake_tree();
    let mut none = inputs();
    none.home = None;
    assert!(build_recommendations(&tree, 0, &none).is_empty());
}

#[test]
fn tool_rules_need_their_tool_and_clones_their_size() {
    let mut tree = ScanTree::with_root("Data".to_string(), b"/System/Volumes/Data".to_vec(), 0, 0);
    let users = dir(&mut tree, 0, "Users", 0);
    let hd = dir(&mut tree, users, "tester", 0);
    let go = dir(&mut tree, hd, "go", 0);
    let pkg = dir(&mut tree, go, "pkg", 0);
    dir(&mut tree, pkg, "mod", 5 << 20);
    let lib = dir(&mut tree, hd, "Library", 0);
    let containers = dir(&mut tree, lib, "Containers", 0);
    dir(&mut tree, containers, "com.docker.docker", 600 << 20);

    let without = build_recommendations(&tree, 0, &inputs());
    assert!(by_id(&without, "go-modcache").is_none());
    assert!(by_id(&without, "docker-prune").is_none());

    let mut with = inputs();
    with.tools = Tools { docker: true, go: true, npm: false, brew: false, xcrun: false };
    with.codesign_clones = Some((b"/private/var/folders/ab/X".to_vec(), 700 << 20));
    with.trash_bytes = 42;
    let recs = build_recommendations(&tree, 0, &with);
    let go = by_id(&recs, "go-modcache").unwrap();
    assert_eq!(go.command, Some("go clean -modcache"));
    assert_eq!(go.action, Action::Command);
    let docker = by_id(&recs, "docker-prune").unwrap();
    assert!(docker.estimate && !docker.allow_trash && !docker.allow_delete);
    let clones = by_id(&recs, "codesign-clones").unwrap();
    assert_eq!(clones.action, Action::Empty);
    assert_eq!(clones.bytes, 700 << 20);
    let trash = by_id(&recs, "trash").unwrap();
    assert_eq!(trash.bytes, 42);
}

#[test]
fn display_prettifies() {
    let home = b"/Users/tester";
    assert_eq!(display(b"/System/Volumes/Data", home), "/");
    assert_eq!(display(b"/System/Volumes/Data/Users/tester/go/pkg", home), "~/go/pkg");
    assert_eq!(display(b"/System/Volumes/Data/private/var/log", home), "/private/var/log");
}
