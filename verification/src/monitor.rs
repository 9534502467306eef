//! Menu-bar monitor settings and the low-space test.

use vstd::prelude::*;
use crate::bytes::{copy_range, bytes_eq, le_u64, lemma_u64_round_trip, push_u64, read_u64, u64_at};
use crate::paths::{ascii_of, join_spec, join_path};

verus! {

pub const DEFAULT_THRESHOLD_GB: u64 = 15;

#[derive(Clone, Copy, Debug, PartialEq, Eq)]
pub struct MonitorSettings {
    pub enabled: bool,
    pub launch_at_login: bool,
    pub threshold_gb: u64,
}

impl Default for MonitorSettings {
    fn default() -> (s: Self)
        ensures
            s == (MonitorSettings {
                enabled: false,
                launch_at_login: false,
                threshold_gb: DEFAULT_THRESHOLD_GB,
            }),
    {
        MonitorSettings { enabled: false, launch_at_login: false, threshold_gb: DEFAULT_THRESHOLD_GB }
    }
}

/// `DDMON1` followed by two zero bytes.
pub open spec fn monitor_magic() -> Seq<u8> {
    seq![68u8, 68u8, 77u8, 79u8, 78u8, 49u8, 0u8, 0u8]
}

pub open spec fn flag_byte(b: bool) -> u8 {
    if b {
        1
    } else {
        0
    }
}

/// The 18-byte settings record.
pub open spec fn settings_bytes(s: MonitorSettings) -> Seq<u8> {
    monitor_magic() + seq![flag_byte(s.enabled), flag_byte(s.launch_at_login)] + le_u64(
        s.threshold_gb,
    )
}

#[derive(Clone, Copy, Debug, PartialEq, Eq)]
pub enum SettingsError {
    Format,
    Flags,
    Threshold,
}

pub open spec fn settings_error_text(e: SettingsError) -> Seq<char> {
    match e {
        SettingsError::Format => "menu monitor settings format is not supported"@,
        SettingsError::Flags => "menu monitor settings contain invalid flags"@,
        SettingsError::Threshold => "menu monitor threshold is outside 5–100 GB"@,
    }
}

/// What a settings record decodes to.
pub open spec fn decode_settings_spec(b: Seq<u8>) -> Result<MonitorSettings, SettingsError> {
    if b.len() != 18 || b.subrange(0, 8) != monitor_magic() {
        Err(SettingsError::Format)
    } else if b[8] > 1 || b[9] > 1 {
        Err(SettingsError::Flags)
    } else {
        let threshold_gb = u64_at(b, 10);
        if !(5 <= threshold_gb <= 100) {
            Err(SettingsError::Threshold)
        } else {
            Ok(MonitorSettings { enabled: b[8] == 1, launch_at_login: b[9] == 1, threshold_gb })
        }
    }
}

/// The settings file below a home folder.
pub open spec fn settings_path_spec(home: Seq<u8>) -> Seq<u8> {
    join_spec(home, ascii_of("Library/Application Support/DiskDeck/monitor.ddmon"@))
}

fn magic_bytes() -> (m: Vec<u8>)
    ensures
        m@ == monitor_magic(),
{
    let m = vec![68u8, 68u8, 77u8, 79u8, 78u8, 49u8, 0u8, 0u8];
    assert(m@ =~= monitor_magic());
    m
}

pub fn encode(settings: MonitorSettings) -> (bytes: Vec<u8>)
    ensures
        bytes@ == settings_bytes(settings),
{
    let mut bytes = magic_bytes();
    bytes.push(if settings.enabled { 1 } else { 0 });
    bytes.push(if settings.launch_at_login { 1 } else { 0 });
    push_u64(&mut bytes, settings.threshold_gb);
    assert(bytes@ =~= settings_bytes(settings));
    bytes
}

fn settings_error(e: SettingsError) -> (s: String)
    ensures
        s@ == settings_error_text(e),
{
    match e {
        SettingsError::Format => "menu monitor settings format is not supported".to_owned(),
        SettingsError::Flags => "menu monitor settings contain invalid flags".to_owned(),
        SettingsError::Threshold => "menu monitor threshold is outside 5–100 GB".to_owned(),
    }
}

pub fn decode(bytes: &[u8]) -> (r: Result<MonitorSettings, String>)
    ensures
        match decode_settings_spec(bytes@) {
            Ok(s) => r == Ok::<MonitorSettings, String>(s),
            Err(e) => r is Err && r->Err_0@ == settings_error_text(e),
        },
{
    if bytes.len() != 18 {
        return Err(settings_error(SettingsError::Format));
    }
    let magic = magic_bytes();
    let head = copy_range(bytes, 0, 8);
    if !bytes_eq(head.as_slice(), magic.as_slice()) {
        return Err(settings_error(SettingsError::Format));
    }
    if bytes[8] > 1 || bytes[9] > 1 {
        return Err(settings_error(SettingsError::Flags));
    }
    let threshold_gb = read_u64(bytes, 10);
    if !(5 <= threshold_gb && threshold_gb <= 100) {
        return Err(settings_error(SettingsError::Threshold));
    }
    Ok(MonitorSettings { enabled: bytes[8] == 1, launch_at_login: bytes[9] == 1, threshold_gb })
}

/// Whether free space is below a threshold given in decimal gigabytes.
pub fn is_low(free_bytes: i64, threshold_gb: u64) -> (low: bool)
    requires
        threshold_gb * 1_000_000_000 <= i64::MAX,
    ensures
        low == (free_bytes >= 0 && free_bytes < threshold_gb * 1_000_000_000),
{
    free_bytes >= 0 && free_bytes < (threshold_gb as i64) * 1_000_000_000
}

/// The monitor settings file for a home folder.
pub fn settings_path(home: &[u8]) -> (p: Vec<u8>)
    ensures
        p@ == settings_path_spec(home@),
{
    let rel = crate::paths::ascii_bytes("Library/Application Support/DiskDeck/monitor.ddmon");
    join_path(home, rel.as_slice())
}

/// Decoding an encoded record gives back settings whose flags and threshold
/// are in range.
pub proof fn lemma_settings_round_trip(s: MonitorSettings)
    requires
        5 <= s.threshold_gb <= 100,
    ensures
        decode_settings_spec(settings_bytes(s)) == Ok::<MonitorSettings, SettingsError>(s),
{
    let b = settings_bytes(s);
    assert(b.subrange(0, 8) =~= monitor_magic());
    assert(b.subrange(10, 18) =~= le_u64(s.threshold_gb));
    lemma_u64_round_trip(s.threshold_gb, b, 10);
}

/// The settings when none were saved.
pub open spec fn default_settings() -> MonitorSettings {
    MonitorSettings { enabled: false, launch_at_login: false, threshold_gb: DEFAULT_THRESHOLD_GB }
}

/// The settings a file holds, given its bytes or `None` when there is no
/// file: the defaults when there is none.
pub open spec fn load_settings_spec(existing: Option<Seq<u8>>) -> Result<MonitorSettings, SettingsError> {
    match existing {
        None => Ok(default_settings()),
        Some(b) => decode_settings_spec(b),
    }
}

/// What saving writes over a file: the new record, unless the file holds
/// something that is not valid settings, which is never overwritten.
pub open spec fn save_settings_spec(existing: Option<Seq<u8>>, settings: MonitorSettings) -> Result<
    Seq<u8>,
    SettingsError,
> {
    match load_settings_spec(existing) {
        Err(e) => Err(e),
        Ok(_) => Ok(settings_bytes(settings)),
    }
}

pub fn load(existing: Option<&[u8]>) -> (r: Result<MonitorSettings, String>)
    ensures
        match load_settings_spec(match existing { Some(b) => Some(b@), None => None }) {
            Ok(s) => r == Ok::<MonitorSettings, String>(s),
            Err(e) => r is Err && r->Err_0@ == settings_error_text(e),
        },
{
    match existing {
        None => Ok(MonitorSettings::default()),
        Some(b) => decode(b),
    }
}

pub fn save(existing: Option<&[u8]>, settings: MonitorSettings) -> (r: Result<Vec<u8>, String>)
    ensures
        match save_settings_spec(match existing { Some(b) => Some(b@), None => None }, settings) {
            Ok(b) => r is Ok && r->Ok_0@ == b,
            Err(e) => r is Err && r->Err_0@ == settings_error_text(e),
        },
{
    match load(existing) {
        Err(e) => Err(e),
        Ok(_) => Ok(encode(settings)),
    }
}

/// Settings saved with a threshold in range load back as they were saved,
/// and a file that does not hold valid settings is never overwritten.
pub proof fn lemma_save_then_load(existing: Option<Seq<u8>>, settings: MonitorSettings)
    requires
        5 <= settings.threshold_gb <= 100,
    ensures
        save_settings_spec(existing, settings) matches Ok(b) ==> load_settings_spec(Some(b)) == Ok::<
            MonitorSettings,
            SettingsError,
        >(settings),
        load_settings_spec(existing) is Err ==> save_settings_spec(existing, settings) is Err,
{
    lemma_settings_round_trip(settings);
}

} // verus!
