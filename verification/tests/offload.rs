use diskdeck::offload::{
    can_confirm_offload, classify_movable, dest_for, eligible_volume, has_room, json_str, movable_probes,
    movable_verdict, offload_targets, ledger_line, ledger_path, MoveAction, MoveEvent, MoveRun, MoveStage,
    OffloadBlock, Volume, MARGIN_BYTES,
};

#[test]
fn dest_mirrors_absolute_path_under_offload_root() {
    let d = dest_for(b"/Users/<user>/Movies/Big.mov", b"/Volumes/<external>");
    assert_eq!(d, b"/Volumes/<external>/DiskDeck Offload/Users/<user>/Movies/Big.mov".to_vec());
}

#[test]
fn movable_policy_allows_normal_and_custom_home_folders() {
    let home: &[u8] = b"/Users/<user>";
    assert_eq!(classify_movable(b"/Users/<user>/Movies/Big.mov", home), Ok(()));
    assert_eq!(classify_movable(b"/Users/<user>/Projects/DiskDeck", home), Ok(()));
}

#[test]
fn movable_policy_blocks_protected_home_roots() {
    let home: &[u8] = b"/Users/<user>";
    for path in [
        "/Users/<user>",
        "/Users/<user>/Library/Caches/App",
        "/Users/<user>/.ssh",
        "/Users/<user>/Applications/Tool.app",
        "/Users/<user>/Public",
        "/Users/<user>/.Trash/file",
    ] {
        assert!(classify_movable(path.as_bytes(), home).is_err(), "{path}");
    }
}

#[test]
fn movable_policy_blocks_cloud_roots_and_managed_bundles() {
    let home: &[u8] = b"/Users/<user>";
    for path in [
        "/Users/<user>/Dropbox/archive",
        "/Users/<user>/OneDrive - Example/archive",
        "/Users/<user>/Google Drive/archive",
        "/Users/<user>/Pictures/Library.photoslibrary",
        "/Users/<user>/Movies/Edit.fcpbundle",
    ] {
        assert!(classify_movable(path.as_bytes(), home).is_err(), "{path}");
    }
}

#[test]
fn movable_policy_blocks_non_normalized_external_and_outside_paths() {
    let home: &[u8] = b"/Users/<user>";
    assert_eq!(classify_movable(b"relative/file", home), Err(OffloadBlock::NotAbsolute));
    assert_eq!(classify_movable(b"/Users/<user>/Movies/../Library", home), Err(OffloadBlock::NotNormalized));
    assert_eq!(classify_movable(b"/Volumes/<external>/file", home), Err(OffloadBlock::AlreadyExternal));
    assert_eq!(classify_movable(b"/System/Library/file", home), Err(OffloadBlock::OutsideHome));
}

#[test]
fn room_requires_size_plus_margin() {
    assert!(!has_room(1_000, 1_000 + MARGIN_BYTES - 1));
    assert!(has_room(1_000, 1_000 + MARGIN_BYTES));
}

#[test]
fn confirmation_requires_acknowledgement_room_and_a_movable_source() {
    assert!(can_confirm_offload(true, true, true));
    assert!(!can_confirm_offload(false, true, true));
    assert!(!can_confirm_offload(true, false, true));
    assert!(!can_confirm_offload(true, true, false));
}

#[test]
fn eligible_accepts_writable_local_disk() {
    assert!(eligible_volume("exfat", false, false));
    assert!(eligible_volume("apfs", false, false));
}

#[test]
fn eligible_rejects_readonly_symlink_and_network() {
    assert!(!eligible_volume("apfs", true, false));
    assert!(!eligible_volume("apfs", false, true));
    assert!(!eligible_volume("smbfs", false, false));
}

#[test]
fn json_strings_escape_quotes_and_control_characters() {
    assert_eq!(json_str("a\"b\\c\n"), "\"a\\\"b\\\\c\\n\"");
}

#[test]
fn movable_items_are_checked_from_the_home_folder_down() {
    let home = b"/Users/me";
    let probes = movable_probes(b"/Users/me/Movies/Trips/Big.mov", home).unwrap();
    assert_eq!(
        probes,
        vec![
            b"/Users/me/Movies".to_vec(),
            b"/Users/me/Movies/Trips".to_vec(),
            b"/Users/me/Movies/Trips/Big.mov".to_vec(),
        ]
    );
    assert_eq!(movable_probes(b"/Users/me/.ssh/key", home), Err(OffloadBlock::HiddenRoot));
    assert_eq!(movable_probes(b"/Users/other/file", home), Err(OffloadBlock::OutsideHome));
}

#[test]
fn first_failed_check_on_disk_decides() {
    assert_eq!(movable_verdict(&[Some(false), Some(false)]), Ok(()));
    assert_eq!(movable_verdict(&[]), Ok(()));
    assert_eq!(movable_verdict(&[Some(false), None, Some(true)]), Err(OffloadBlock::Missing));
    assert_eq!(movable_verdict(&[Some(true), Some(false)]), Err(OffloadBlock::SymlinkAncestor));
    assert_eq!(movable_verdict(&[Some(false), Some(true)]), Err(OffloadBlock::Symlink));
}

fn target(name: &str, fs_type: &str) -> Volume {
    Volume {
        name: name.to_string(),
        mount_path: format!("/Volumes/{name}").into_bytes(),
        fs_type: fs_type.to_string(),
        free_bytes: 10,
    }
}

#[test]
fn offload_targets_are_eligible_volumes_by_name() {
    let found = vec![
        (target("Zeta", "apfs"), false, false),
        (target("Share", "smbfs"), false, false),
        (target("Alpha", "exfat"), false, false),
        (target("Locked", "apfs"), true, false),
        (target("Link", "apfs"), false, true),
        (target("Beta", "hfs"), false, false),
    ];
    let names: Vec<String> = offload_targets(found).into_iter().map(|v| v.name).collect();
    assert_eq!(names, vec!["Alpha".to_string(), "Beta".to_string(), "Zeta".to_string()]);
}

#[test]
fn ledger_lives_in_the_offload_folder_and_records_each_move() {
    assert_eq!(
        ledger_path(b"/Volumes/Drive"),
        b"/Volumes/Drive/DiskDeck Offload/.diskdeck-offload.json".to_vec()
    );
    assert_eq!(
        ledger_line(b"/Users/me/a\"b", b"/Volumes/Drive/DiskDeck Offload/Users/me/a\"b", -42, true),
        "{\"origin\":\"/Users/me/a\\\"b\",\"dest\":\"/Volumes/Drive/DiskDeck Offload/Users/me/a\\\"b\",\"moved_at\":-42,\"symlinked\":true}\n"
    );
    assert_eq!(
        ledger_line(b"/x", b"/y", 1700000000, false),
        "{\"origin\":\"/x\",\"dest\":\"/y\",\"moved_at\":1700000000,\"symlinked\":false}\n"
    );
    assert!(ledger_line(b"/x", b"/y", i64::MIN, false).contains("\"moved_at\":-9223372036854775808,"));
}

#[test]
fn a_move_copies_verifies_deletes_links_and_records_in_order() {
    let (mut run, first) = MoveRun::start(b"/Users/me/Movies/Big.mov", b"/Volumes/Drive", 5000, 4000, true);
    assert!(matches!(first, MoveAction::Copy));
    assert_eq!(run.dest, b"/Volumes/Drive/DiskDeck Offload/Users/me/Movies/Big.mov".to_vec());
    assert!(matches!(run.step(MoveEvent::Copied(Ok(()))), MoveAction::MeasureCopy));
    assert!(matches!(run.step(MoveEvent::Measured(4000)), MoveAction::DeleteOriginal));
    assert!(matches!(run.step(MoveEvent::Deleted(Ok(()))), MoveAction::LeaveSymlink));
    assert!(matches!(run.step(MoveEvent::Linked(true)), MoveAction::AppendLedger { symlinked: true }));
    match run.step(MoveEvent::Recorded) {
        MoveAction::Finish(outcome) => {
            assert_eq!(outcome.reclaimed, 5000);
            assert!(outcome.symlinked);
            assert_eq!(outcome.dest, b"/Volumes/Drive/DiskDeck Offload/Users/me/Movies/Big.mov".to_vec());
        }
        _ => panic!("the move should finish"),
    }
    assert_eq!(run.stage, MoveStage::Finished);
}

#[test]
fn a_short_copy_stops_the_move_before_the_original_is_deleted() {
    let (mut run, _) = MoveRun::start(b"/Users/me/a", b"/Volumes/Drive", 10, 4000, false);
    run.step(MoveEvent::Copied(Ok(())));
    match run.step(MoveEvent::Measured(3999)) {
        MoveAction::Fail(message) => {
            assert_eq!(message, "verify failed: copied 3999 < source 4000 bytes; original left intact")
        }
        _ => panic!("a short copy must fail"),
    }
    assert_eq!(run.stage, MoveStage::Failed);
}

#[test]
fn failed_steps_stop_the_move_with_their_message() {
    let (mut run, _) = MoveRun::start(b"/Users/me/a", b"/Volumes/Drive", 10, 10, false);
    assert!(matches!(run.step(MoveEvent::Copied(Err("copy failed: disk full".into()))), MoveAction::Fail(m) if m == "copy failed: disk full"));
    let (mut run, _) = MoveRun::start(b"/Users/me/a", b"/Volumes/Drive", 10, 10, false);
    run.step(MoveEvent::Copied(Ok(())));
    run.step(MoveEvent::Measured(10));
    assert!(matches!(run.step(MoveEvent::Deleted(Err("busy".into()))), MoveAction::Fail(m) if m == "busy"));
    let (mut run, _) = MoveRun::start(b"/Users/me/a", b"/Volumes/Drive", 10, 10, false);
    run.step(MoveEvent::Copied(Ok(())));
    run.step(MoveEvent::Measured(11));
    assert!(matches!(run.step(MoveEvent::Deleted(Ok(()))), MoveAction::AppendLedger { symlinked: false }));
}

#[test]
fn movable_filesystem_accepts_a_regular_home_file_and_rejects_a_source_symlink() {
    let home = b"/tmp/t/home";
    let regular = movable_probes(b"/tmp/t/home/Movies/clip.mov", home).unwrap();
    assert_eq!(regular, vec![b"/tmp/t/home/Movies".to_vec(), b"/tmp/t/home/Movies/clip.mov".to_vec()]);
    // Neither is a link.
    assert_eq!(movable_verdict(&[Some(false), Some(false)]), Ok(()));
    // `link.mov` itself is a link.
    let link = movable_probes(b"/tmp/t/home/Movies/link.mov", home).unwrap();
    assert_eq!(link.len(), 2);
    assert_eq!(movable_verdict(&[Some(false), Some(true)]), Err(OffloadBlock::Symlink));
}

#[test]
fn movable_filesystem_rejects_a_symlinked_ancestor() {
    let probes = movable_probes(b"/tmp/t/home/Movies/clip.mov", b"/tmp/t/home").unwrap();
    assert_eq!(probes[0], b"/tmp/t/home/Movies".to_vec());
    // `Movies` is a link to another folder.
    assert_eq!(movable_verdict(&[Some(true), Some(false)]), Err(OffloadBlock::SymlinkAncestor));
}

#[test]
fn clean_move_relocates_and_removes_original() {
    let (mut run, first) = MoveRun::start(b"/tmp/t/src/data.txt", b"/tmp/t/vol", 4096, 13, false);
    assert!(matches!(first, MoveAction::Copy));
    assert!(matches!(run.step(MoveEvent::Copied(Ok(()))), MoveAction::MeasureCopy));
    assert!(matches!(run.step(MoveEvent::Measured(13)), MoveAction::DeleteOriginal));
    assert!(matches!(run.step(MoveEvent::Deleted(Ok(()))), MoveAction::AppendLedger { symlinked: false }));
    match run.step(MoveEvent::Recorded) {
        MoveAction::Finish(out) => {
            assert!(!out.symlinked);
            assert!(out.reclaimed > 0);
        }
        _ => panic!("the move should finish"),
    }
    let line = ledger_line(b"/tmp/t/src/data.txt", &run.dest, 0, false);
    assert!(line.contains("data.txt"));
}

#[test]
fn symlink_move_leaves_a_link_at_the_origin() {
    let (mut run, _) = MoveRun::start(b"/tmp/t/src/data.txt", b"/tmp/t/vol", 4096, 7, true);
    run.step(MoveEvent::Copied(Ok(())));
    run.step(MoveEvent::Measured(7));
    assert!(matches!(run.step(MoveEvent::Deleted(Ok(()))), MoveAction::LeaveSymlink));
    run.step(MoveEvent::Linked(true));
    match run.step(MoveEvent::Recorded) {
        MoveAction::Finish(out) => assert!(out.symlinked),
        _ => panic!("the move should finish"),
    }
}
