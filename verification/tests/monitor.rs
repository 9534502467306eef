use diskdeck::monitor::{decode, encode, is_low, settings_path, MonitorSettings, DEFAULT_THRESHOLD_GB};

#[test]
fn settings_round_trip_and_corruption_fails_closed() {
    let value = MonitorSettings { enabled: true, launch_at_login: false, threshold_gb: 25 };
    assert_eq!(decode(&encode(value)).unwrap(), value);
    assert!(decode(b"broken").is_err());
}

#[test]
fn low_space_threshold_uses_decimal_gigabytes() {
    assert!(is_low(9_999_999_999, 10));
    assert!(!is_low(10_000_000_000, 10));
    assert!(!is_low(-1, 10));
}

#[test]
fn monitor_defaults_and_settings_location() {
    let d = MonitorSettings::default();
    assert!(!d.enabled && !d.launch_at_login);
    assert_eq!(d.threshold_gb, DEFAULT_THRESHOLD_GB);
    let p = settings_path(b"/Users/me");
    assert!(p.starts_with(b"/Users/me/Library/"));
}

#[test]
fn saving_never_overwrites_a_corrupt_settings_file() {
    let settings = diskdeck::monitor::MonitorSettings { enabled: true, launch_at_login: false, threshold_gb: 30 };
    let fresh = diskdeck::monitor::save(None, settings).unwrap();
    assert_eq!(diskdeck::monitor::load(Some(&fresh)), Ok(settings));
    let again = diskdeck::monitor::save(Some(&fresh), settings).unwrap();
    assert_eq!(again, fresh);
    assert_eq!(
        diskdeck::monitor::save(Some(b"garbage"), settings),
        Err("menu monitor settings format is not supported".to_string())
    );
    assert_eq!(diskdeck::monitor::load(None), Ok(diskdeck::monitor::MonitorSettings::default()));
}
