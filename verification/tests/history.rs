use diskdeck::history::{capacity_reading, capture};
use diskdeck::scan::ScanTree;
use diskdeck::history::{
    build_growth_watch, compare, decode, decode_watchlist, encode, encode_watchlist, normalized_relative_path,
    percentage_tenths, set_folder_watched, snapshot_key, Entry, HistoryError, Snapshot, WatchError,
};
use diskdeck::history::{
    growth_snapshots, latest_same_root, newest_first, snapshot_file_name, stale_snapshots, watchlist_path,
    KEPT_SNAPSHOTS,
};

const MB: i64 = 1 << 20;

fn entry(path: &str, bytes: i64) -> Entry {
    Entry { path: path.as_bytes().to_vec(), bytes, files: 1, is_dir: true }
}

fn snapshot_with_capacity(captured_at_ms: i64, total_bytes: i64, capacity: Option<(i64, i64)>) -> Snapshot {
    Snapshot {
        captured_at_ms,
        root: b"/System/Volumes/Data".to_vec(),
        total_bytes,
        volume_total_bytes: capacity.map(|value| value.0),
        volume_free_bytes: capacity.map(|value| value.1),
        entries: vec![],
    }
}

fn push_path(out: &mut Vec<u8>, path: &[u8]) {
    out.extend_from_slice(&(path.len() as u32).to_le_bytes());
    out.extend_from_slice(path);
}

fn encode_v1_for_test(snapshot: &Snapshot) -> Vec<u8> {
    let mut out = Vec::new();
    out.extend_from_slice(b"DDHIST1\0");
    out.extend_from_slice(&snapshot.captured_at_ms.to_le_bytes());
    out.extend_from_slice(&snapshot.total_bytes.to_le_bytes());
    push_path(&mut out, &snapshot.root);
    out.extend_from_slice(&(snapshot.entries.len() as u32).to_le_bytes());
    for entry in &snapshot.entries {
        push_path(&mut out, &entry.path);
        out.extend_from_slice(&entry.bytes.to_le_bytes());
        out.extend_from_slice(&entry.files.to_le_bytes());
        out.push(u8::from(entry.is_dir));
    }
    out
}

#[test]
fn v2_codec_round_trips_capacity_observation() {
    let snapshot = Snapshot {
        captured_at_ms: 123,
        root: b"/System/Volumes/Data".to_vec(),
        total_bytes: 456,
        volume_total_bytes: Some(250_000_000_000),
        volume_free_bytes: Some(80_000_000_000),
        entries: vec![entry("Users", 789)],
    };
    assert_eq!(decode(&encode(&snapshot).unwrap()).unwrap(), snapshot);
}

#[test]
fn v1_codec_remains_readable_without_capacity_evidence() {
    let bytes = encode_v1_for_test(&Snapshot {
        captured_at_ms: 123,
        root: b"/System/Volumes/Data".to_vec(),
        total_bytes: 456,
        volume_total_bytes: None,
        volume_free_bytes: None,
        entries: vec![],
    });
    let decoded = decode(&bytes).unwrap();
    assert_eq!(decoded.volume_total_bytes, None);
    assert_eq!(decoded.volume_free_bytes, None);
}

#[test]
fn growth_watch_exposes_only_complete_capacity_pairs() {
    let snapshots = vec![
        snapshot_with_capacity(10, 100, Some((250, 80))),
        snapshot_with_capacity(20, 110, None),
        snapshot_with_capacity(30, 120, Some((250, 70))),
    ];
    let watch = build_growth_watch(&snapshots, &[]);
    assert_eq!(watch.capacity.len(), 2);
    assert_eq!(watch.capacity[0].free_bytes, 80);
    assert_eq!(watch.capacity[1].free_bytes, 70);
}

#[test]
fn compare_orders_large_positive_growers_and_keeps_total_change() {
    let previous = Snapshot {
        captured_at_ms: 100,
        root: b"/System/Volumes/Data".to_vec(),
        total_bytes: 200 * MB,
        volume_total_bytes: None,
        volume_free_bytes: None,
        entries: vec![entry("a", 50 * MB), entry("gone", 100 * MB), entry("small", 10 * MB)],
    };
    let current = Snapshot {
        captured_at_ms: 200,
        root: previous.root.clone(),
        total_bytes: 159 * MB,
        volume_total_bytes: None,
        volume_free_bytes: None,
        entries: vec![entry("a", 70 * MB), entry("new", 30 * MB), entry("small", 19 * MB)],
    };
    let summary = compare(&previous, &current).unwrap();
    assert_eq!(summary.previous_at_ms, 100);
    assert_eq!(summary.total_delta, -41 * MB);
    assert_eq!(summary.growers.len(), 2);
    assert_eq!(summary.growers[0].path, b"new".to_vec());
    assert_eq!(summary.growers[0].bytes_delta, 30 * MB);
    assert_eq!(summary.growers[1].path, b"a".to_vec());
    assert_eq!(summary.growers[1].bytes_delta, 20 * MB);
}

#[test]
fn compare_rejects_incompatible_roots() {
    let previous = Snapshot {
        captured_at_ms: 1,
        root: b"/one".to_vec(),
        total_bytes: 1,
        volume_total_bytes: None,
        volume_free_bytes: None,
        entries: vec![],
    };
    let current = Snapshot {
        captured_at_ms: 2,
        root: b"/two".to_vec(),
        total_bytes: 2,
        volume_total_bytes: None,
        volume_free_bytes: None,
        entries: vec![],
    };
    assert_eq!(compare(&previous, &current), None);
}

#[test]
fn codec_round_trips_raw_path_bytes() {
    let snapshot = Snapshot {
        captured_at_ms: 123,
        root: b"/System/Volumes/Data".to_vec(),
        total_bytes: 456,
        volume_total_bytes: None,
        volume_free_bytes: None,
        entries: vec![Entry { path: vec![b'f', b'o', 0xff], bytes: 789, files: 3, is_dir: false }],
    };
    let decoded = decode(&encode(&snapshot).unwrap()).unwrap();
    assert_eq!(decoded, snapshot);
    assert_eq!(decoded.entries[0].path, vec![b'f', b'o', 0xff]);
}

#[test]
fn codec_rejects_wrong_truncated_and_trailing_payloads() {
    let snapshot = Snapshot {
        captured_at_ms: 1,
        root: b"/System/Volumes/Data".to_vec(),
        total_bytes: 2,
        volume_total_bytes: None,
        volume_free_bytes: None,
        entries: vec![entry("Users", 3)],
    };
    let bytes = encode(&snapshot).unwrap();
    let mut wrong = bytes.clone();
    wrong[0] = b'X';
    assert!(decode(&wrong).is_err());
    assert!(decode(&bytes[..bytes.len() - 1]).is_err());
    let mut trailing = bytes;
    trailing.push(0);
    assert!(decode(&trailing).is_err());
}

#[test]
fn codec_errors_name_their_cause() {
    assert_eq!(decode(b"DDHIST9\0"), Err(HistoryError::Unsupported));
    assert_eq!(decode(b"DDHI"), Err(HistoryError::Truncated));
    assert_eq!(HistoryError::Trailing.message(), "snapshot contains trailing data");
}

fn dir_snapshot(at: i64, total: i64, entries: Vec<Entry>) -> Snapshot {
    Snapshot {
        captured_at_ms: at,
        root: b"/System/Volumes/Data".to_vec(),
        total_bytes: total,
        volume_total_bytes: None,
        volume_free_bytes: None,
        entries,
    }
}

#[test]
fn growth_watch_orders_timeline_and_ranks_recurring_growth() {
    let snapshots = vec![
        dir_snapshot(10, 100 * MB, vec![entry("Users/project", 20 * MB), entry("Users/new", 0)]),
        dir_snapshot(20, 140 * MB, vec![entry("Users/project", 35 * MB), entry("Users/new", 25 * MB)]),
        dir_snapshot(30, 180 * MB, vec![entry("Users/project", 50 * MB), entry("Users/new", 30 * MB)]),
    ];
    let watch = build_growth_watch(&snapshots, &[b"Users/project".to_vec()]);
    assert_eq!(watch.timeline.iter().map(|p| p.captured_at_ms).collect::<Vec<_>>(), vec![10, 20, 30]);
    assert_eq!(watch.recurring[0].path, b"Users/project".to_vec());
    assert_eq!(watch.recurring[0].positive_intervals, 2);
    assert_eq!(watch.recurring[0].bytes_delta, 30 * MB);
    assert_eq!(watch.recurring[0].percent_tenths, Some(1500));
    assert!(watch.recurring[0].watched);
    assert_eq!(watch.watched[0].points.len(), 3);
}

#[test]
fn recurring_growth_reports_net_change_after_a_later_shrink() {
    let snapshots = vec![
        dir_snapshot(10, 20 * MB, vec![entry("Users/project", 20 * MB)]),
        dir_snapshot(20, 40 * MB, vec![entry("Users/project", 40 * MB)]),
        dir_snapshot(30, 60 * MB, vec![entry("Users/project", 60 * MB)]),
        dir_snapshot(40, 35 * MB, vec![entry("Users/project", 35 * MB)]),
    ];
    let watch = build_growth_watch(&snapshots, &[]);
    assert_eq!(watch.recurring[0].positive_intervals, 2);
    assert_eq!(watch.recurring[0].bytes_delta, 15 * MB);
    assert_eq!(watch.recurring[0].percent_tenths, Some(750));
}

#[test]
fn recurring_growth_omits_net_negative_and_correlated_ancestor_noise() {
    let snapshots = vec![
        dir_snapshot(
            10,
            100 * MB,
            vec![entry("Users", 50 * MB), entry("Users/project", 45 * MB), entry("private", 40 * MB)],
        ),
        dir_snapshot(
            20,
            130 * MB,
            vec![entry("Users", 80 * MB), entry("Users/project", 73 * MB), entry("private", 20 * MB)],
        ),
        dir_snapshot(
            30,
            160 * MB,
            vec![entry("Users", 110 * MB), entry("Users/project", 101 * MB), entry("private", 10 * MB)],
        ),
    ];
    let watch = build_growth_watch(&snapshots, &[]);
    assert_eq!(watch.recurring.len(), 1);
    assert_eq!(watch.recurring[0].path, b"Users/project".to_vec());
    assert_eq!(watch.recurring[0].bytes_delta, 56 * MB);
}

#[test]
fn watchlist_round_trips_raw_paths_sorted_without_repeats() {
    let raw = b"Users/project-\xff".to_vec();
    let bytes = encode_watchlist(&[raw.clone()]).unwrap();
    assert_eq!(decode_watchlist(&bytes).unwrap(), vec![raw.clone()]);
    let next = set_folder_watched(&[raw.clone()], b"Users/a", true).unwrap();
    assert_eq!(decode_watchlist(&next).unwrap(), vec![b"Users/a".to_vec(), raw.clone()]);
    let removed = set_folder_watched(&[raw.clone(), b"Users/a".to_vec()], b"Users/a/", false).unwrap();
    assert_eq!(decode_watchlist(&removed).unwrap(), vec![raw]);
    assert!(decode_watchlist(b"broken").is_err());
}

#[test]
fn watchlist_rejects_absolute_and_parent_traversal_paths() {
    assert_eq!(encode_watchlist(&[b"/Users/project".to_vec()]), Err(WatchError::NotNormalized));
    assert_eq!(set_folder_watched(&[], b"Users/../private", true), Err(WatchError::NotNormalized));
    assert!(normalized_relative_path(b"Users/project"));
    assert!(!normalized_relative_path(b""));
}

#[test]
fn snapshot_names_carry_time_and_process() {
    assert_eq!(snapshot_key(b"/h/snapshot-00000000000000000123-45.ddhist"), Some((123, 45)));
    assert_eq!(snapshot_key(b"/h/snapshot-12-x.ddhist"), None);
    assert_eq!(snapshot_key(b"/h/snapshot-1-99999999999.ddhist"), None);
    assert_eq!(snapshot_key(b"/h/other.txt"), None);
    assert_eq!(percentage_tenths(20, 30), Some(1500));
    assert_eq!(percentage_tenths(0, 30), None);
    assert_eq!(percentage_tenths(3, -1), Some(-333));
}

#[test]
fn capture_records_the_tree_relative_to_its_root() {
    let mut tree = ScanTree::with_root("Data".to_string(), b"/System/Volumes/Data".to_vec(), 300, 3);
    let users = tree.add_child(0, "Users".to_string(), true, 200, 2, false);
    tree.add_child(users, "big.bin".to_string(), false, 150, 1, false);
    tree.add_child(0, "Library".to_string(), true, 100, 1, false);
    let snapshot = capture(&tree, 0, 42, Some((1000, 400)));
    assert_eq!(snapshot.captured_at_ms, 42);
    assert_eq!(snapshot.total_bytes, 300);
    assert_eq!(snapshot.volume_total_bytes, Some(1000));
    assert_eq!(snapshot.volume_free_bytes, Some(400));
    let paths: Vec<Vec<u8>> = snapshot.entries.iter().map(|e| e.path.clone()).collect();
    assert_eq!(paths, vec![b"Users".to_vec(), b"Users/big.bin".to_vec(), b"Library".to_vec()]);
    assert!(!snapshot.entries[1].is_dir);
}

fn rooted(at: i64, root: &str) -> Snapshot {
    Snapshot {
        captured_at_ms: at,
        root: root.as_bytes().to_vec(),
        total_bytes: at,
        volume_total_bytes: None,
        volume_free_bytes: None,
        entries: vec![],
    }
}

#[test]
fn snapshot_files_are_listed_newest_first() {
    let found = vec![
        ((5, 1), b"/h/five-one".to_vec()),
        ((9, 0), b"/h/nine".to_vec()),
        ((5, 2), b"/h/five-two".to_vec()),
        ((1, 7), b"/h/one".to_vec()),
    ];
    assert_eq!(
        newest_first(found),
        vec![b"/h/nine".to_vec(), b"/h/five-two".to_vec(), b"/h/five-one".to_vec(), b"/h/one".to_vec()]
    );
}

#[test]
fn history_keeps_the_newest_twelve_snapshots() {
    assert_eq!(KEPT_SNAPSHOTS, 12);
    let names: Vec<Vec<u8>> = (0..15).map(|i| format!("s{i}").into_bytes()).collect();
    assert_eq!(stale_snapshots(names.clone()), names[12..].to_vec());
    assert!(stale_snapshots(names[..12].to_vec()).is_empty());
}

#[test]
fn the_newest_snapshot_of_the_same_root_is_compared() {
    let newest = vec![rooted(30, "/Other"), rooted(20, "/System/Volumes/Data/"), rooted(10, "/System/Volumes/Data")];
    let previous = latest_same_root(newest, b"/System/Volumes/Data").unwrap();
    assert_eq!(previous.captured_at_ms, 20);
    assert!(latest_same_root(vec![rooted(30, "/Other")], b"/System/Volumes/Data").is_none());
}

#[test]
fn growth_watch_reads_same_root_snapshots_oldest_first() {
    let found = vec![rooted(30, "/Data"), rooted(10, "/Other"), rooted(5, "/Data"), rooted(20, "/Data")];
    let times: Vec<i64> = growth_snapshots(found, b"/Data").iter().map(|s| s.captured_at_ms).collect();
    assert_eq!(times, vec![5, 20, 30]);
}

#[test]
fn snapshot_file_names_pad_the_time_to_twenty_digits() {
    assert_eq!(snapshot_file_name(1234, 77), "snapshot-00000000000000001234-77.ddhist");
    assert_eq!(snapshot_file_name(-5, 1), "snapshot-00000000000000000000-1.ddhist");
    assert_eq!(snapshot_file_name(i64::MAX, 0), "snapshot-09223372036854775807-0.ddhist");
    assert_eq!(snapshot_key(format!("/h/{}", snapshot_file_name(1234, 77)).as_bytes()), Some((1234, 77)));
    assert_eq!(watchlist_path(b"/h/History"), b"/h/History/watchlist.ddwatch".to_vec());
}

#[test]
fn storage_record_skips_a_corrupt_newest_snapshot() {
    let previous = Snapshot {
        captured_at_ms: 10,
        root: b"/System/Volumes/Data".to_vec(),
        total_bytes: 100,
        volume_total_bytes: None,
        volume_free_bytes: None,
        entries: vec![],
    };
    let stored = encode(&previous).unwrap();
    let files = vec![((10, 7), b"/h/snapshot-10-7.ddhist".to_vec()), ((999, 1), b"/h/snapshot-999-1.ddhist".to_vec())];
    let contents = |path: &Vec<u8>| -> Vec<u8> {
        if path.ends_with(b"999-1.ddhist") { b"broken".to_vec() } else { stored.clone() }
    };
    // Newest first; the unreadable file is passed over.
    let ordered = newest_first(files);
    assert_eq!(ordered[0], b"/h/snapshot-999-1.ddhist".to_vec());
    let readable: Vec<Snapshot> = ordered.iter().filter_map(|path| decode(&contents(path)).ok()).collect();
    let current = Snapshot {
        captured_at_ms: 1_000,
        root: previous.root.clone(),
        total_bytes: 125,
        volume_total_bytes: None,
        volume_free_bytes: None,
        entries: vec![],
    };
    let found = latest_same_root(readable, &current.root).unwrap();
    let summary = compare(&found, &current).unwrap();
    assert_eq!(summary.previous_at_ms, 10);
    assert_eq!(summary.total_delta, 25);
}

#[test]
fn storage_record_retains_twelve_matching_files_and_unrelated_contents() {
    let found: Vec<((i64, u32), Vec<u8>)> =
        (1..=14).map(|at| ((at, 1), snapshot_file_name(at, 1).into_bytes())).collect();
    let newest = newest_first(found);
    let stale = stale_snapshots(newest.clone());
    assert_eq!(newest.len() - stale.len(), 12);
    assert_eq!(stale, vec![snapshot_file_name(2, 1).into_bytes(), snapshot_file_name(1, 1).into_bytes()]);
}

#[test]
fn checked_compare_refuses_changes_beyond_i64() {
    let small = snapshot_with_capacity(1, 10, None);
    let big = snapshot_with_capacity(2, 40, None);
    assert_eq!(diskdeck::history::compare_checked(&small, &big).unwrap().unwrap().total_delta, 30);
    let low = snapshot_with_capacity(1, i64::MIN, None);
    let high = snapshot_with_capacity(2, 1, None);
    assert!(!diskdeck::history::deltas_fit_exec(&low, &high));
    assert!(diskdeck::history::compare_checked(&low, &high).is_none());
}

#[test]
fn every_cut_of_a_written_snapshot_and_every_extra_byte_is_refused() {
    let snapshot = Snapshot {
        captured_at_ms: 5,
        root: b"/System/Volumes/Data".to_vec(),
        total_bytes: 9,
        volume_total_bytes: Some(100),
        volume_free_bytes: Some(40),
        entries: vec![entry("Users", 3), entry("Library", 4)],
    };
    let bytes = encode(&snapshot).unwrap();
    assert_eq!(decode(&bytes).unwrap(), snapshot);
    for cut in 0..bytes.len() {
        assert!(decode(&bytes[..cut]).is_err(), "a cut at {cut} was accepted");
    }
    for extra in [0u8, 1, 0x7f, 0xff] {
        let mut longer = bytes.clone();
        longer.push(extra);
        assert_eq!(decode(&longer), Err(HistoryError::Trailing));
    }
}

#[test]
fn capacity_readings_need_a_positive_total_and_free_space_within_it() {
    assert_eq!(capacity_reading(500, 200), Some((500, 200)));
    assert_eq!(capacity_reading(500, 0), Some((500, 0)));
    assert_eq!(capacity_reading(500, 500), Some((500, 500)));
    assert_eq!(capacity_reading(0, 0), None);
    assert_eq!(capacity_reading(-5, 0), None);
    assert_eq!(capacity_reading(500, -1), None);
    assert_eq!(capacity_reading(500, 501), None);
}
