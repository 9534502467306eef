use diskdeck::volumes::{
    eligible_mount, inspect_mounted_volume, is_same_mount, sort_volumes, LocalFilesystem, MountEntry, MountedVolume,
};

fn volume(name: &str, path: &str, fs_type: &str, device_id: u64) -> MountedVolume {
    MountedVolume {
        name: name.to_string(),
        mount_path: path.as_bytes().to_vec(),
        fs_type: fs_type.to_string(),
        total_bytes: 500,
        free_bytes: 125,
        read_only: false,
        device_id,
    }
}

#[test]
fn external_volume_policy_accepts_local_media_only() {
    assert!(eligible_mount("apfs", true, false));
    assert!(eligible_mount("exfat", true, false));
    assert!(!eligible_mount("smbfs", true, false));
    assert!(!eligible_mount("apfs", false, false));
    assert!(!eligible_mount("apfs", true, true));
}

#[test]
fn external_volumes_sort_case_insensitively_then_by_raw_path() {
    let mut values = vec![
        volume("beta", "/Volumes/beta", "apfs", 3),
        volume("alpha", "/Volumes/alpha-z", "apfs", 2),
        volume("Alpha", "/Volumes/alpha-a", "apfs", 1),
    ];
    sort_volumes(&mut values);
    let paths: Vec<_> = values.iter().map(|v| v.mount_path.clone()).collect();
    assert_eq!(
        paths,
        vec![b"/Volumes/alpha-a".to_vec(), b"/Volumes/alpha-z".to_vec(), b"/Volumes/beta".to_vec()]
    );
}

#[test]
fn mount_identity_requires_path_filesystem_and_device() {
    let expected = volume("Drive", "/Volumes/Drive", "apfs", 42);
    assert!(is_same_mount(&expected, &volume("Renamed label", "/Volumes/Drive", "apfs", 42)));
    assert!(!is_same_mount(&expected, &volume("Drive", "/Volumes/Drive", "exfat", 42)));
    assert!(!is_same_mount(&expected, &volume("Drive", "/Volumes/Drive", "apfs", 43)));
    assert!(!is_same_mount(&expected, &volume("Drive", "/Volumes/Other", "apfs", 42)));
    assert!(is_same_mount(&expected, &volume("Drive", "/Volumes/Drive/", "apfs", 42)));
}

fn filesystem(fs_type: &str, local: bool) -> LocalFilesystem {
    LocalFilesystem { fs_type: fs_type.to_string(), total_bytes: 900, free_bytes: 300, read_only: true, local }
}

#[test]
fn mounted_volume_is_a_real_local_directory_below_volumes() {
    let entry = Some(MountEntry { is_symlink: false, is_dir: true, device_id: 42 });
    let v = inspect_mounted_volume(b"/Volumes/Drive".to_vec(), entry, Some(filesystem("apfs", true))).unwrap();
    assert_eq!(v.name, "Drive");
    assert_eq!(v.mount_path, b"/Volumes/Drive".to_vec());
    assert_eq!((v.total_bytes, v.free_bytes, v.read_only, v.device_id), (900, 300, true, 42));
    assert_eq!(v.fs_type, "apfs");

    assert!(inspect_mounted_volume(b"/Volumes/Drive/sub".to_vec(), entry, Some(filesystem("apfs", true))).is_none());
    assert!(inspect_mounted_volume(b"/Other/Drive".to_vec(), entry, Some(filesystem("apfs", true))).is_none());
    assert!(inspect_mounted_volume(b"/Volumes/Drive".to_vec(), None, Some(filesystem("apfs", true))).is_none());
    assert!(inspect_mounted_volume(b"/Volumes/Drive".to_vec(), entry, None).is_none());
    assert!(inspect_mounted_volume(b"/Volumes/Share".to_vec(), entry, Some(filesystem("smbfs", true))).is_none());
    assert!(inspect_mounted_volume(b"/Volumes/Far".to_vec(), entry, Some(filesystem("apfs", false))).is_none());
    let link = Some(MountEntry { is_symlink: true, is_dir: false, device_id: 42 });
    assert!(inspect_mounted_volume(b"/Volumes/Drive".to_vec(), link, Some(filesystem("apfs", true))).is_none());
}
