use diskdeck::reclaim_history::{
    ancestor_probe, append_receipt, can_confirm_restore, clamp_millis, classify, decode, device_state, encode, history_path_for_home,
    load_receipts, mark_restored, now_ms, preflight_restore, refresh_history, AncestorProbe, AncestorStep, FileIdentity, FileKind,
    OriginProbe, Receipt, ReceiptAction, ReceiptError, ReceiptField, ReceiptState, RestoreBlock, RestoreProbe,
    RestoreAction, RestoreRun, RestoreStage, RestoreStep, TrashEvidence, TrashProbe,
};

fn fixture_receipt(origin: Vec<u8>, action: ReceiptAction) -> Receipt {
    Receipt {
        event_id: 7,
        completed_at_ms: 42,
        rec_id: "fixture-rule".to_string(),
        title: "Fixture cache".to_string(),
        origin,
        action,
        freed_bytes: 11,
        pending_bytes: 13,
        trash: if action == ReceiptAction::Trash {
            Some(TrashEvidence {
                path: b"/tmp/home/.Trash/cache".to_vec(),
                identity: FileIdentity { dev: 17, ino: 19, kind: FileKind::Directory },
            })
        } else {
            None
        },
        finder_managed: false,
        restored_at_ms: None,
    }
}

fn fixture_receipt_with_id(id: u128) -> Receipt {
    let mut receipt = fixture_receipt(format!("/tmp/cache-{id}").into_bytes(), ReceiptAction::Delete);
    receipt.event_id = id;
    receipt
}

const HOME: &[u8] = b"/Users/me";

fn identity() -> FileIdentity {
    FileIdentity { dev: 1, ino: 2, kind: FileKind::File }
}

fn trash_receipt() -> Receipt {
    Receipt {
        event_id: 101,
        completed_at_ms: 42,
        rec_id: "fixture-rule".to_string(),
        title: "Fixture cache".to_string(),
        origin: b"/Users/me/Library/Caches/cache".to_vec(),
        action: ReceiptAction::Trash,
        freed_bytes: 0,
        pending_bytes: 7,
        trash: Some(TrashEvidence { path: b"/Users/me/.Trash/cache".to_vec(), identity: identity() }),
        finder_managed: false,
        restored_at_ms: None,
    }
}

fn ready_probe() -> RestoreProbe {
    RestoreProbe { trash: TrashProbe::Found(identity()), origin: OriginProbe::Free, ancestors: AncestorProbe::Device(1) }
}

#[test]
fn codec_rejects_wrong_truncated_invalid_and_trailing_payloads() {
    let bytes = encode(&[fixture_receipt(b"/tmp/a".to_vec(), ReceiptAction::Delete)]).unwrap();
    assert!(decode(b"NOPE1").is_err());
    assert!(decode(&bytes[..bytes.len() - 1]).is_err());

    let mut invalid_action = bytes.clone();
    let action_offset = invalid_action
        .windows(b"Fixture cache".len())
        .position(|window| window == b"Fixture cache")
        .unwrap()
        + b"Fixture cache".len()
        + 4
        + b"/tmp/a".len();
    invalid_action[action_offset] = 99;
    assert!(decode(&invalid_action).is_err());

    let mut trailing = bytes;
    trailing.push(0);
    assert!(decode(&trailing).is_err());
}

#[test]
fn ddrh1_round_trips_raw_paths_and_all_actions() {
    let receipts = vec![
        fixture_receipt(b"/tmp/cache-\xff".to_vec(), ReceiptAction::Trash),
        fixture_receipt(b"/tmp/delete".to_vec(), ReceiptAction::Delete),
        fixture_receipt(b"/tmp/empty".to_vec(), ReceiptAction::Empty),
        fixture_receipt(b"/tmp/command".to_vec(), ReceiptAction::Command),
    ];
    assert_eq!(decode(&encode(&receipts).unwrap()).unwrap(), receipts);
}

#[test]
fn codec_errors_name_the_failure() {
    let bytes = encode(&[fixture_receipt(b"/tmp/a".to_vec(), ReceiptAction::Delete)]).unwrap();
    assert_eq!(&bytes[..5], b"DDRH1");
    assert_eq!(decode(b"NOPE1"), Err(ReceiptError::Unsupported));
    assert_eq!(decode(b"DDR"), Err(ReceiptError::Truncated));
    assert_eq!(decode(&bytes[..bytes.len() - 1]), Err(ReceiptError::Truncated));
    let mut trailing = bytes.clone();
    trailing.push(0);
    assert_eq!(decode(&trailing), Err(ReceiptError::Trailing));
    let mut too_many = b"DDRH1".to_vec();
    too_many.extend_from_slice(&201u32.to_le_bytes());
    assert_eq!(decode(&too_many), Err(ReceiptError::TooMany));

    let mut long_title = fixture_receipt(b"/tmp/a".to_vec(), ReceiptAction::Delete);
    long_title.title = "x".repeat(513);
    assert_eq!(encode(&[long_title]), Err(ReceiptError::TooLong(ReceiptField::Title)));
    let mut negative = fixture_receipt(b"/tmp/a".to_vec(), ReceiptAction::Delete);
    negative.freed_bytes = -1;
    assert_eq!(encode(&[negative]), Err(ReceiptError::NegativeValue));
    let mut both = fixture_receipt(b"/tmp/a".to_vec(), ReceiptAction::Trash);
    both.finder_managed = true;
    assert_eq!(encode(&[both]), Err(ReceiptError::OutcomeMismatch));
    let mut restored_delete = fixture_receipt(b"/tmp/a".to_vec(), ReceiptAction::Delete);
    restored_delete.restored_at_ms = Some(1);
    assert_eq!(encode(&[restored_delete]), Err(ReceiptError::PermanentWithTrashState));
    assert_eq!(ReceiptError::TooLong(ReceiptField::Title).message(), "title is too long");
    assert_eq!(ReceiptError::Truncated.message(), "reclaim history is truncated");
}

#[test]
fn codec_rejects_text_that_is_not_utf8() {
    let mut bytes = encode(&[fixture_receipt(b"/tmp/a".to_vec(), ReceiptAction::Delete)]).unwrap();
    let at = bytes.windows(b"Fixture cache".len()).position(|window| window == b"Fixture cache").unwrap();
    bytes[at] = 0xff;
    assert_eq!(decode(&bytes), Err(ReceiptError::NotUtf8(ReceiptField::Title)));
}

#[test]
fn append_is_bounded_and_refuses_corrupt_overwrite() {
    let mut stored: Option<Vec<u8>> = None;
    for index in 0..205 {
        stored = Some(append_receipt(stored.as_deref(), fixture_receipt_with_id(index)).unwrap());
    }
    let receipts = load_receipts(stored.as_deref()).unwrap();
    assert_eq!(receipts.len(), 200);
    assert_eq!(receipts.first().unwrap().event_id, 5);
    assert_eq!(receipts.last().unwrap().event_id, 204);

    assert!(append_receipt(Some(b"corrupt"), fixture_receipt_with_id(999)).is_err());
    assert!(load_receipts(None).unwrap().is_empty());
}

#[test]
fn mark_restored_updates_only_the_matching_receipt() {
    let mut receipt = fixture_receipt(b"/tmp/cache-7".to_vec(), ReceiptAction::Trash);
    receipt.event_id = 7;
    let first = append_receipt(None, receipt).unwrap();
    let second = append_receipt(Some(&first), fixture_receipt_with_id(8)).unwrap();
    let marked = mark_restored(Some(&second), 7, 42).unwrap();
    let receipts = load_receipts(Some(&marked)).unwrap();
    assert_eq!(receipts[0].restored_at_ms, Some(42));
    assert_eq!(receipts[1].restored_at_ms, None);
    assert_eq!(mark_restored(Some(&second), 999, 84), Err(ReceiptError::ReceiptGone));
    assert_eq!(mark_restored(Some(&second), 8, 84), Err(ReceiptError::NotTrashReceipt));
    assert_eq!(mark_restored(Some(&second), 7, -1), Err(ReceiptError::NegativeRestoredAt));
}

#[test]
fn history_path_uses_diskdeck_application_support() {
    assert_eq!(
        history_path_for_home(b"/fixture/home"),
        b"/fixture/home/Library/Application Support/DiskDeck/reclaim-history.ddrh".to_vec()
    );
}

#[test]
fn classification_distinguishes_every_state() {
    let ready = trash_receipt();
    assert_eq!(classify(&ready, HOME, ready_probe()), ReceiptState::Ready);

    let mut probe = ready_probe();
    probe.trash = TrashProbe::NotFound;
    assert_eq!(classify(&ready, HOME, probe), ReceiptState::Missing);
    probe.trash = TrashProbe::OtherKind;
    assert_eq!(classify(&ready, HOME, probe), ReceiptState::Changed);
    probe.trash = TrashProbe::Found(FileIdentity { dev: 1, ino: 3, kind: FileKind::File });
    assert_eq!(classify(&ready, HOME, probe), ReceiptState::Changed);
    probe.trash = TrashProbe::Unreadable;
    assert_eq!(classify(&ready, HOME, probe), ReceiptState::Unavailable);

    let mut occupied = ready_probe();
    occupied.origin = OriginProbe::Occupied;
    assert_eq!(classify(&ready, HOME, occupied), ReceiptState::OriginOccupied);

    let mut linked = ready_probe();
    linked.ancestors = AncestorProbe::SymlinkAncestor;
    assert_eq!(classify(&ready, HOME, linked), ReceiptState::SymlinkAncestor);

    let mut other_volume = ready_probe();
    other_volume.ancestors = AncestorProbe::Device(2);
    assert_eq!(classify(&ready, HOME, other_volume), ReceiptState::CrossDevice);

    let mut manual = trash_receipt();
    manual.trash = None;
    manual.finder_managed = true;
    assert_eq!(classify(&manual, HOME, ready_probe()), ReceiptState::ManualOnly);

    let mut restored = trash_receipt();
    restored.restored_at_ms = Some(84);
    assert_eq!(classify(&restored, HOME, ready_probe()), ReceiptState::Restored);

    let mut permanent = trash_receipt();
    permanent.action = ReceiptAction::Delete;
    permanent.trash = None;
    assert_eq!(classify(&permanent, HOME, ready_probe()), ReceiptState::Permanent);
}

#[test]
fn classification_blocks_protected_origins_and_cross_device() {
    for origin in [
        &b"/System/cache"[..],
        b"/Applications/Tool.app",
        b"/",
        b"/Library",
        b"/Users",
        b"/Users/me",
        b"/Users/me/Library",
        b"/Users/me/.Trash/cache",
        b"/Users/me/../cache",
        b"relative/cache",
    ] {
        let mut receipt = trash_receipt();
        receipt.origin = origin.to_vec();
        assert_eq!(classify(&receipt, HOME, ready_probe()), ReceiptState::UnsafeOrigin);
    }
    let mut elsewhere = trash_receipt();
    elsewhere.trash.as_mut().unwrap().path = b"/Users/other/.Trash/cache".to_vec();
    assert_eq!(classify(&elsewhere, HOME, ready_probe()), ReceiptState::UnsafeOrigin);
    let mut nested = trash_receipt();
    nested.trash.as_mut().unwrap().path = b"/Users/me/.Trash/a/cache".to_vec();
    assert_eq!(classify(&nested, HOME, ready_probe()), ReceiptState::UnsafeOrigin);

    assert_eq!(device_state(1, 2), Some(ReceiptState::CrossDevice));
    assert_eq!(device_state(1, 1), None);
}

#[test]
fn refresh_summarizes_only_current_receipt_evidence() {
    let mut permanent = trash_receipt();
    permanent.action = ReceiptAction::Delete;
    permanent.trash = None;
    permanent.event_id = 102;
    permanent.freed_bytes = 11;
    permanent.pending_bytes = 0;
    let history = refresh_history(vec![(trash_receipt(), ready_probe()), (permanent, ready_probe())], HOME);
    assert_eq!(history.items.len(), 2);
    assert_eq!(history.freed_bytes, 11);
    assert_eq!(history.pending_bytes, 7);
    assert_eq!(history.recoverable_count, 1);
    assert_eq!(history.items[0].receipt.event_id, 102);
    assert_eq!(history.items[1].state, ReceiptState::Ready);
}

#[test]
fn refresh_orders_newest_first() {
    let mut older = trash_receipt();
    older.completed_at_ms = 10;
    older.event_id = 500;
    let mut newer = trash_receipt();
    newer.completed_at_ms = 20;
    newer.event_id = 1;
    let history = refresh_history(vec![(older, ready_probe()), (newer, ready_probe())], HOME);
    assert_eq!(history.items[0].receipt.event_id, 1);
    assert_eq!(history.items[1].receipt.event_id, 500);
    assert_eq!(history.pending_bytes, 14);
    assert_eq!(history.recoverable_count, 2);
}

#[test]
fn restore_confirmation_is_fail_closed() {
    assert!(can_confirm_restore(true, &ReceiptState::Ready));
    assert!(!can_confirm_restore(false, &ReceiptState::Ready));
    assert!(!can_confirm_restore(true, &ReceiptState::Changed));
}

#[test]
fn preflight_plans_only_a_ready_restore() {
    let plan = preflight_restore(&trash_receipt(), HOME, ready_probe()).unwrap();
    assert_eq!(plan.trash, b"/Users/me/.Trash/cache".to_vec());
    assert_eq!(plan.origin, b"/Users/me/Library/Caches/cache".to_vec());
    assert_eq!(plan.identity, identity());
    assert_eq!(plan.bytes, 7);
    let mut occupied = ready_probe();
    occupied.origin = OriginProbe::Occupied;
    assert!(matches!(
        preflight_restore(&trash_receipt(), HOME, occupied),
        Err(RestoreBlock::OriginOccupied)
    ));
    assert_eq!(
        RestoreBlock::OriginOccupied.message(),
        "The original path is occupied; DiskDeck will not overwrite it."
    );
}

#[test]
fn identity_exists_only_for_files_and_directories() {
    assert_eq!(FileIdentity::at(true, false, 3, 4), Some(FileIdentity { dev: 3, ino: 4, kind: FileKind::File }));
    assert_eq!(FileIdentity::at(false, true, 3, 4), Some(FileIdentity { dev: 3, ino: 4, kind: FileKind::Directory }));
    assert_eq!(FileIdentity::at(false, false, 3, 4), None);
}

#[test]
fn timestamps_are_clamped() {
    assert_eq!(clamp_millis(Some(5)), 5);
    assert_eq!(clamp_millis(Some(u128::MAX)), i64::MAX);
    assert_eq!(clamp_millis(None), 0);
    assert!(now_ms() > 0);
}

#[test]
fn the_first_link_or_unreadable_folder_above_an_origin_decides() {
    let dir = Some(AncestorStep { is_symlink: false, is_dir: true });
    let link = Some(AncestorStep { is_symlink: true, is_dir: false });
    let file = Some(AncestorStep { is_symlink: false, is_dir: false });
    assert_eq!(ancestor_probe(&[dir, dir], Some(7)), AncestorProbe::Device(7));
    assert_eq!(ancestor_probe(&[dir, link, None], Some(7)), AncestorProbe::SymlinkAncestor);
    assert_eq!(ancestor_probe(&[dir, None, link], Some(7)), AncestorProbe::Unavailable);
    assert_eq!(ancestor_probe(&[file], Some(7)), AncestorProbe::Unavailable);
    assert_eq!(ancestor_probe(&[dir], None), AncestorProbe::Unavailable);
}

#[test]
fn restore_moves_exact_item_back_and_marks_only_its_receipt() {
    let receipt = trash_receipt();
    let (mut run, first) = RestoreRun::start(&receipt, HOME, ready_probe()).unwrap();
    assert!(matches!(first, RestoreAction::MoveBack));
    assert_eq!(run.plan.trash, b"/Users/me/.Trash/cache".to_vec());
    assert_eq!(run.plan.origin, b"/Users/me/Library/Caches/cache".to_vec());
    assert!(matches!(run.step(RestoreStep::Moved(Ok(()))), RestoreAction::CheckIdentity));
    assert!(matches!(run.step(RestoreStep::Identity(TrashProbe::Found(identity()))), RestoreAction::MarkRestored));
    match run.step(RestoreStep::Marked(Ok(()))) {
        RestoreAction::Finish { bytes, origin, warning } => {
            assert_eq!(bytes, 7);
            assert_eq!(origin, b"/Users/me/Library/Caches/cache".to_vec());
            assert!(warning.is_none());
        }
        _ => panic!("the restore should finish"),
    }
    assert_eq!(run.stage, RestoreStage::Finished);
}

#[test]
fn restore_refuses_occupied_or_replaced_paths_before_mutation() {
    let receipt = trash_receipt();
    let occupied = RestoreProbe { origin: OriginProbe::Occupied, ..ready_probe() };
    assert!(matches!(RestoreRun::start(&receipt, HOME, occupied), Err(RestoreBlock::OriginOccupied)));
    let replaced = RestoreProbe {
        trash: TrashProbe::Found(FileIdentity { dev: 1, ino: 99, kind: FileKind::File }),
        ..ready_probe()
    };
    assert!(RestoreRun::start(&receipt, HOME, replaced).is_err());
    // What arrived at the origin is not the item: it goes back to the Trash.
    let (mut run, _) = RestoreRun::start(&receipt, HOME, ready_probe()).unwrap();
    run.step(RestoreStep::Moved(Ok(())));
    let other = TrashProbe::Found(FileIdentity { dev: 1, ino: 3, kind: FileKind::File });
    assert!(matches!(run.step(RestoreStep::Identity(other)), RestoreAction::ReturnToTrash));
    match run.step(RestoreStep::Returned(Ok(()))) {
        RestoreAction::Fail(message) => {
            assert_eq!(message, "restored item identity changed; item returned to Trash")
        }
        _ => panic!("a changed identity must fail"),
    }
}

#[test]
fn restore_success_survives_history_write_failure_as_a_warning() {
    let (mut run, _) = RestoreRun::start(&trash_receipt(), HOME, ready_probe()).unwrap();
    run.step(RestoreStep::Moved(Ok(())));
    run.step(RestoreStep::Identity(TrashProbe::Found(identity())));
    match run.step(RestoreStep::Marked(Err("disk full".to_string()))) {
        RestoreAction::Finish { warning, .. } => assert_eq!(
            warning,
            Some("restored, but reclaim history could not be updated — disk full".to_string())
        ),
        _ => panic!("the restore should finish"),
    }
}

#[test]
fn a_restore_that_cannot_move_or_return_says_so() {
    let (mut run, _) = RestoreRun::start(&trash_receipt(), HOME, ready_probe()).unwrap();
    match run.step(RestoreStep::Moved(Err("File exists".to_string()))) {
        RestoreAction::Fail(message) => assert_eq!(message, "restore item to original path: File exists"),
        _ => panic!("a failed move must fail"),
    }
    let (mut run, _) = RestoreRun::start(&trash_receipt(), HOME, ready_probe()).unwrap();
    run.step(RestoreStep::Moved(Ok(())));
    run.step(RestoreStep::Identity(TrashProbe::NotFound));
    match run.step(RestoreStep::Returned(Err("busy".to_string()))) {
        RestoreAction::Fail(message) => assert_eq!(
            message,
            "restored item identity changed; return it to Trash manually from /Users/me/Library/Caches/cache (busy)"
        ),
        _ => panic!("a failed return must fail"),
    }
}
