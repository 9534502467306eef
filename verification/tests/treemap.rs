use diskdeck::scan::ScanTree;
use diskdeck::treemap::{collect_items, MAX_RECTS};

#[test]
fn collect_items_keeps_the_largest_and_combines_the_rest() {
    let mut tree = ScanTree::with_root("root".to_string(), b"/r".to_vec(), 0, 0);
    let mut expected_overflow = 0i64;
    for k in 0..45i64 {
        let c = tree.add_child(0, format!("c{k}"), k % 2 == 0, 1000 + k, 2, false);
        let _ = c;
        if k < 5 {
            expected_overflow += 1000 + k;
        }
    }
    tree.add_child(0, "empty".to_string(), true, 0, 0, false);
    let items = collect_items(&tree, 0);
    assert_eq!(items.len(), MAX_RECTS + 1);
    assert_eq!(items[0].label, "c44");
    assert_eq!(items[0].bytes, 1044);
    assert!(items[..MAX_RECTS].iter().all(|i| !i.synthetic && i.node.is_some()));
    let last = items.last().unwrap();
    assert!(last.synthetic && last.node.is_none());
    assert_eq!(last.bytes, expected_overflow);
    assert_eq!(last.files, 10);
    assert_eq!(last.label, "10 smaller items");
}

#[test]
fn the_combined_label_counts_files_in_the_short_form() {
    let mut tree = ScanTree::with_root("root".to_string(), b"/r".to_vec(), 0, 0);
    tree.add_small(0, 4096, 1500);
    let items = collect_items(&tree, 0);
    assert_eq!(items.len(), 1);
    assert_eq!(items[0].label, "1.5K smaller items");
    assert_eq!(items[0].files, 1500);
}

#[test]
fn collect_items_without_small_things_has_no_combined_item() {
    let mut tree = ScanTree::with_root("root".to_string(), b"/r".to_vec(), 0, 0);
    tree.add_child(0, "a".to_string(), true, 10, 1, false);
    tree.add_child(0, "b".to_string(), false, 20, 1, false);
    let items = collect_items(&tree, 0);
    assert_eq!(items.len(), 2);
    assert_eq!(items[0].label, "b");
    assert!(!items[0].is_dir);
    assert!(items.iter().all(|i| !i.synthetic));
}
