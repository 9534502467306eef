use diskdeck::apfs::{load, plist_integer, snapshot_count, ApfsError};

#[test]
fn parses_bounded_container_values() {
    let xml = "<dict><key>APFSContainerSize</key><integer>245000</integer><key>APFSContainerFree</key><integer>82000</integer></dict>";
    assert_eq!(plist_integer(xml, "APFSContainerSize"), Some(245000));
    assert_eq!(plist_integer(xml, "APFSContainerFree"), Some(82000));
    assert_eq!(plist_integer(xml, "Missing"), None);
}

#[test]
fn counts_only_snapshot_dicts_inside_the_snapshot_array() {
    let xml = "<dict><key>Other</key><dict></dict><key>Snapshots</key><array><dict></dict><dict></dict></array><key>Tail</key><dict></dict></dict>";
    assert_eq!(snapshot_count(xml), Some(2));
    assert_eq!(snapshot_count("<dict><key>Snapshots</key><array/></dict>"), Some(0));
    assert_eq!(snapshot_count("<dict></dict>"), None);
}

#[test]
fn accounting_requires_positive_size_and_bounded_free_space() {
    let good = "<key>APFSContainerSize</key><integer>100</integer><key>APFSContainerFree</key><integer>40</integer>";
    let a = load(good, Some("<key>Snapshots</key> <array/>")).ok().unwrap();
    assert_eq!(a.container_size, 100);
    assert_eq!(a.container_free, 40);
    assert_eq!(a.snapshot_count, Some(0));
    let over = "<key>APFSContainerSize</key><integer>100</integer><key>APFSContainerFree</key><integer>140</integer>";
    assert!(matches!(load(over, None), Err(ApfsError::FreeUnavailable)));
    assert!(matches!(load("<dict/>", None), Err(ApfsError::SizeUnavailable)));
}
