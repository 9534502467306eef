use diskdeck::folder_lens::{
    classify_filesystem, classify_folder_shape, has_raw_dot_component, inspect_folder, is_same_folder,
    parse_picker_output, FolderBlock, FolderEntry, FolderProbe, FolderTarget, PickerError,
};
use diskdeck::volumes::LocalFilesystem;

fn local_filesystem(read_only: bool) -> LocalFilesystem {
    LocalFilesystem { fs_type: "apfs".to_string(), total_bytes: 500, free_bytes: 125, read_only, local: true }
}

#[test]
fn filesystem_policy_accepts_read_only_local_and_rejects_network() {
    assert_eq!(classify_filesystem(&local_filesystem(true)), Ok(()));
    let mut network = local_filesystem(false);
    network.fs_type = "smbfs".to_string();
    assert_eq!(classify_filesystem(&network), Err(FolderBlock::Network));
    let mut non_local = local_filesystem(false);
    non_local.local = false;
    assert_eq!(classify_filesystem(&non_local), Err(FolderBlock::Network));
}

#[test]
fn folder_block_messages_are_actionable() {
    for block in [
        FolderBlock::NotAbsolute,
        FolderBlock::DotComponent,
        FolderBlock::Missing,
        FolderBlock::NotDirectory,
        FolderBlock::Symlink,
        FolderBlock::SymlinkAncestor,
        FolderBlock::Network,
        FolderBlock::WholeVolume,
        FolderBlock::Unavailable,
    ] {
        assert!(!block.message().is_empty());
    }
}

#[test]
fn folder_shape_rejects_relative_dot_and_whole_volume_paths() {
    assert_eq!(classify_folder_shape(b"relative"), Err(FolderBlock::NotAbsolute));
    assert_eq!(classify_folder_shape(b"/Users/me/../x"), Err(FolderBlock::DotComponent));
    assert_eq!(classify_folder_shape(b"/Users/me/./x"), Err(FolderBlock::DotComponent));
    assert_eq!(classify_folder_shape(b"/"), Err(FolderBlock::WholeVolume));
    assert_eq!(classify_folder_shape(b"/System/Volumes/Data/"), Err(FolderBlock::WholeVolume));
    assert_eq!(classify_folder_shape(b"/Volumes/Drive"), Err(FolderBlock::WholeVolume));
    assert_eq!(classify_folder_shape(b"/Volumes/Drive/Work"), Ok(()));
    assert!(!has_raw_dot_component(b"/a/.b/c"));
    assert!(has_raw_dot_component(b"/a/.."));
}

#[test]
fn folder_identity_requires_path_filesystem_device_and_inode_only() {
    let expected = FolderTarget {
        name: "Work".to_string(),
        path: b"/Users/me/Work".to_vec(),
        fs_type: "apfs".to_string(),
        total_bytes: 1000,
        free_bytes: 400,
        read_only: false,
        device_id: 7,
        inode: 9,
    };
    assert!(is_same_folder(&expected, &expected));

    let mut changed = clone_target(&expected);
    changed.path.extend_from_slice(b"/different");
    assert!(!is_same_folder(&expected, &changed));
    changed = clone_target(&expected);
    changed.fs_type = "exfat".to_string();
    assert!(!is_same_folder(&expected, &changed));
    changed = clone_target(&expected);
    changed.device_id = changed.device_id.wrapping_add(1);
    assert!(!is_same_folder(&expected, &changed));
    changed = clone_target(&expected);
    changed.inode = changed.inode.wrapping_add(1);
    assert!(!is_same_folder(&expected, &changed));

    changed = clone_target(&expected);
    changed.free_bytes = changed.free_bytes.saturating_sub(1);
    changed.read_only = !changed.read_only;
    assert!(is_same_folder(&expected, &changed));
}

#[test]
fn folder_identity_ignores_display_name_and_capacity() {
    let expected = FolderTarget {
        name: "Work".to_string(),
        path: b"/Users/me/Work".to_vec(),
        fs_type: "apfs".to_string(),
        total_bytes: 1,
        free_bytes: 1,
        read_only: false,
        device_id: 7,
        inode: 9,
    };
    let mut same = FolderTarget { name: "Renamed".to_string(), ..clone_target(&expected) };
    same.total_bytes = 99;
    assert!(is_same_folder(&expected, &same));
}

fn clone_target(t: &FolderTarget) -> FolderTarget {
    FolderTarget {
        name: t.name.clone(),
        path: t.path.clone(),
        fs_type: t.fs_type.clone(),
        total_bytes: t.total_bytes,
        free_bytes: t.free_bytes,
        read_only: t.read_only,
        device_id: t.device_id,
        inode: t.inode,
    }
}

#[test]
fn picker_parser_preserves_path_bytes_and_cancellation() {
    assert_eq!(parse_picker_output(b"CANCEL\n".to_vec()), Ok(None));
    assert_eq!(parse_picker_output(b"PATH:/Users/me/\xff\r\n".to_vec()), Ok(Some(b"/Users/me/\xff".to_vec())));
    assert_eq!(parse_picker_output(b"PATH:\n".to_vec()), Err(PickerError::EmptyPath));
    assert_eq!(parse_picker_output(b"nope".to_vec()), Err(PickerError::Unsupported));
}

fn probe(entry: FolderEntry, ancestor_symlink: Option<bool>, fs: Option<LocalFilesystem>) -> FolderProbe {
    FolderProbe { entry, ancestor_symlink, filesystem: fs }
}

const DIR: FolderEntry = FolderEntry::Found { is_symlink: false, is_dir: true, device_id: 3, inode: 77 };

#[test]
fn inspected_folder_takes_its_name_and_filesystem_figures() {
    let target = inspect_folder(b"/Users/me/Work".to_vec(), probe(DIR, Some(false), Some(local_filesystem(true)))).unwrap();
    assert_eq!(target.name, "Work");
    assert_eq!(target.path, b"/Users/me/Work".to_vec());
    assert_eq!(target.fs_type, "apfs");
    assert_eq!((target.total_bytes, target.free_bytes, target.read_only), (500, 125, true));
    assert_eq!((target.device_id, target.inode), (3, 77));
}

#[test]
fn folder_checks_fail_in_order() {
    assert_eq!(
        inspect_folder(b"Work".to_vec(), probe(FolderEntry::NotFound, None, None)).err(),
        Some(FolderBlock::NotAbsolute)
    );
    assert_eq!(
        inspect_folder(b"/Users/me/Work".to_vec(), probe(FolderEntry::NotFound, Some(false), Some(local_filesystem(false)))).err(),
        Some(FolderBlock::Missing)
    );
    assert_eq!(
        inspect_folder(b"/Users/me/Work".to_vec(), probe(FolderEntry::Unreadable, Some(false), Some(local_filesystem(false)))).err(),
        Some(FolderBlock::Unavailable)
    );
    let link = FolderEntry::Found { is_symlink: true, is_dir: false, device_id: 1, inode: 2 };
    assert_eq!(
        inspect_folder(b"/Users/me/Work".to_vec(), probe(link, Some(false), Some(local_filesystem(false)))).err(),
        Some(FolderBlock::Symlink)
    );
    let file = FolderEntry::Found { is_symlink: false, is_dir: false, device_id: 1, inode: 2 };
    assert_eq!(
        inspect_folder(b"/Users/me/Work".to_vec(), probe(file, Some(false), Some(local_filesystem(false)))).err(),
        Some(FolderBlock::NotDirectory)
    );
    assert_eq!(
        inspect_folder(b"/Users/me/Work".to_vec(), probe(DIR, Some(true), Some(local_filesystem(false)))).err(),
        Some(FolderBlock::SymlinkAncestor)
    );
    assert_eq!(
        inspect_folder(b"/Users/me/Work".to_vec(), probe(DIR, None, Some(local_filesystem(false)))).err(),
        Some(FolderBlock::Unavailable)
    );
    assert_eq!(
        inspect_folder(b"/Users/me/Work".to_vec(), probe(DIR, Some(false), None)).err(),
        Some(FolderBlock::Unavailable)
    );
    let mut network = local_filesystem(false);
    network.fs_type = "nfs".to_string();
    assert_eq!(
        inspect_folder(b"/Users/me/Work".to_vec(), probe(DIR, Some(false), Some(network))).err(),
        Some(FolderBlock::Network)
    );
}

#[test]
fn folder_policy_accepts_a_direct_local_directory() {
    let entry = FolderEntry::Found { is_symlink: false, is_dir: true, device_id: 16777230, inode: 4242 };
    let target = inspect_folder(b"/private/tmp/dir".to_vec(), probe(entry, Some(false), Some(local_filesystem(false))))
        .unwrap();
    assert_eq!(target.path, b"/private/tmp/dir".to_vec());
    assert_eq!(target.device_id, 16777230);
    assert_eq!(target.inode, 4242);
    assert!(!target.fs_type.is_empty());
    assert!(target.total_bytes > 0);
}

#[test]
fn folder_policy_rejects_missing_file_relative_symlink_and_whole_volume_roots() {
    let fs = || Some(local_filesystem(false));
    assert_eq!(inspect_folder(b"relative".to_vec(), probe(DIR, Some(false), fs())).err(), Some(FolderBlock::NotAbsolute));
    assert_eq!(
        inspect_folder(b"/tmp/t/missing".to_vec(), probe(FolderEntry::NotFound, Some(false), fs())).err(),
        Some(FolderBlock::Missing)
    );
    let file = FolderEntry::Found { is_symlink: false, is_dir: false, device_id: 1, inode: 5 };
    assert_eq!(
        inspect_folder(b"/tmp/t/file.txt".to_vec(), probe(file, Some(false), fs())).err(),
        Some(FolderBlock::NotDirectory)
    );
    let link = FolderEntry::Found { is_symlink: true, is_dir: false, device_id: 1, inode: 6 };
    assert_eq!(inspect_folder(b"/tmp/t/link".to_vec(), probe(link, Some(false), fs())).err(), Some(FolderBlock::Symlink));
    assert_eq!(classify_folder_shape(b"/"), Err(FolderBlock::WholeVolume));
    assert_eq!(classify_folder_shape(b"/System/Volumes/Data"), Err(FolderBlock::WholeVolume));
    assert_eq!(classify_folder_shape(b"/Volumes/Archive"), Err(FolderBlock::WholeVolume));
}

#[test]
fn folder_policy_rejects_dot_segments_and_symlinked_ancestors() {
    assert_eq!(classify_folder_shape(b"/tmp/./folder"), Err(FolderBlock::DotComponent));
    assert_eq!(classify_folder_shape(b"/tmp/../folder"), Err(FolderBlock::DotComponent));
    // `link` above `child` is a symbolic link to `target`.
    assert_eq!(
        inspect_folder(b"/tmp/c/link/child".to_vec(), probe(DIR, Some(true), Some(local_filesystem(false)))).err(),
        Some(FolderBlock::SymlinkAncestor)
    );
}
