use diskdeck::moves::{
    load_records, decode_registry, encode_registry, mark_restored, registry_path_for_home, upsert_record, MoveRecord, MAX_RECORDS,
};

fn record(index: i64) -> MoveRecord {
    MoveRecord {
        origin: format!("/Users/<user>/item-{index}").into_bytes(),
        dest: format!("/Volumes/<external>/DiskDeck Offload/item-{index}").into_bytes(),
        moved_at: index,
        bytes: index,
        symlinked: false,
        restored_at: None,
    }
}

#[test]
fn registry_round_trips_raw_paths_and_restore_state() {
    let record = MoveRecord {
        origin: b"/Users/<user>/clip-\xff".to_vec(),
        dest: b"/Volumes/<external>/DiskDeck Offload/Users/<user>/clip".to_vec(),
        moved_at: 42,
        bytes: 7,
        symlinked: true,
        restored_at: Some(84),
    };
    let encoded = encode_registry(&[record.clone()]).unwrap();
    assert_eq!(decode_registry(&encoded).unwrap(), vec![record]);
}

#[test]
fn registry_rejects_wrong_truncated_and_trailing_payloads() {
    let encoded = encode_registry(&[record(1)]).unwrap();
    let mut wrong_magic = encoded.clone();
    wrong_magic[0] = b'X';
    assert!(decode_registry(&wrong_magic).is_err());
    assert!(decode_registry(&encoded[..encoded.len() - 1]).is_err());
    let mut trailing = encoded;
    trailing.push(0);
    assert!(decode_registry(&trailing).is_err());
}

#[test]
fn empty_registry_round_trips() {
    let encoded = encode_registry(&[]).unwrap();
    assert_eq!(decode_registry(&encoded).unwrap(), Vec::<MoveRecord>::new());
}

#[test]
fn upsert_deduplicates_and_keeps_newest_first_within_bound() {
    let mut records = Vec::new();
    for i in 0..520 {
        records = upsert_record(records, record(i));
    }
    assert_eq!(records.len(), MAX_RECORDS);
    assert_eq!(records[0].moved_at, 519);
    let mut newest = record(519);
    newest.moved_at = 999;
    newest.bytes = 123;
    newest.symlinked = true;
    let records = upsert_record(records, newest);
    assert_eq!(records.len(), MAX_RECORDS);
    assert_eq!(records[0].moved_at, 999);
    assert_eq!(records[0].bytes, 123);
    assert_eq!(records.iter().filter(|r| r.origin == record(519).origin).count(), 1);
}

#[test]
fn mark_restored_sets_restore_time_or_reports_missing() {
    let mut records = vec![record(1), record(2)];
    assert_eq!(mark_restored(&mut records, &record(2), 77), Ok(()));
    assert_eq!(records[1].restored_at, Some(77));
    assert_eq!(records[0].restored_at, None);
    let before = records.clone();
    assert_eq!(
        mark_restored(&mut records, &record(3), 5),
        Err("move record is no longer in the registry".to_string())
    );
    assert_eq!(records, before);
}

#[test]
fn registry_lives_under_the_home_directory() {
    assert_eq!(
        registry_path_for_home(b"/Users/me"),
        b"/Users/me/Library/Application Support/DiskDeck/Moves/index.ddmoves".to_vec()
    );
}

#[test]
fn a_missing_registry_holds_no_records_and_a_corrupt_one_is_refused() {
    assert_eq!(load_records(None), Ok(Vec::new()));
    let encoded = encode_registry(&[record(3)]).unwrap();
    assert_eq!(load_records(Some(&encoded)), Ok(vec![record(3)]));
    assert!(load_records(Some(b"nonsense")).is_err());
}

#[test]
fn moves_are_matched_as_paths_not_as_bytes() {
    let mut stored = record(1);
    stored.origin = b"/Users/<user>/item-1/".to_vec();
    stored.dest = b"/Volumes/<external>//DiskDeck Offload/item-1".to_vec();
    let mut again = record(1);
    again.moved_at = 50;
    let records = upsert_record(vec![stored.clone()], again.clone());
    assert_eq!(records, vec![again.clone()]);
    let mut records = vec![stored.clone(), record(2)];
    assert_eq!(mark_restored(&mut records, &record(1), 9), Ok(()));
    assert_eq!(records[0].restored_at, Some(9));
    assert_eq!(records[0].origin, stored.origin);
}
