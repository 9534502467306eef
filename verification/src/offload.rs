//! Offload policy: which items may be relocated to an external volume,
//! where they land, and when the move may be confirmed.

use vstd::prelude::*;
use crate::paths::{
    ascii_bytes, ascii_of, bytes_prefix, bytes_suffix, comps_prefix, comps_view, components,
    components_of, components_start_with, ends_with_bytes, has_dot_comp, has_dot_component,
    is_absolute, join_path, join_spec, lower_all, lowercase_bytes, starts_with_bytes, Comp,
    Component, DOT, SLASH, trim_front, trim_back, trim_front_exec, trim_back_exec,
};
use crate::sorting::{sort_stable, stable_sort};
use crate::text::{append_str, int_text, lossy_string, lossy_text, push_char, push_decimal, str_eq};

verus! {

/// Free-space margin required on the target beyond the item's own size.
pub const MARGIN_BYTES: i64 = 100 * 1024 * 1024;

/// An attached external volume eligible as an offload target.
#[derive(Clone)]
pub struct Volume {
    pub name: String,
    pub mount_path: Vec<u8>,
    pub fs_type: String,
    pub free_bytes: i64,
}

#[derive(Clone, Copy, Debug, PartialEq, Eq)]
pub enum OffloadBlock {
    NotAbsolute,
    NotNormalized,
    AlreadyExternal,
    OutsideHome,
    HomeRoot,
    HiddenRoot,
    ProtectedRoot,
    CloudSyncRoot,
    ManagedBundle,
    Missing,
    Symlink,
    SymlinkAncestor,
}

pub open spec fn offload_block_text(b: OffloadBlock) -> Seq<char> {
    match b {
        OffloadBlock::NotAbsolute => "Only absolute paths can be offloaded."@,
        OffloadBlock::NotNormalized => "This path must be normalized before it can be offloaded."@,
        OffloadBlock::AlreadyExternal => "This item is already on an external volume."@,
        OffloadBlock::OutsideHome => "Only items inside your home folder can be offloaded."@,
        OffloadBlock::HomeRoot => "Your entire home folder cannot be offloaded."@,
        OffloadBlock::HiddenRoot => "Hidden home-folder data stays on this Mac."@,
        OffloadBlock::ProtectedRoot => "App-managed home data stays on this Mac."@,
        OffloadBlock::CloudSyncRoot => "Cloud-synced folders cannot be offloaded safely."@,
        OffloadBlock::ManagedBundle => "Application and managed-library bundles cannot be offloaded safely."@,
        OffloadBlock::Missing => "This item is no longer available."@,
        OffloadBlock::Symlink => "Symlinks cannot be offloaded."@,
        OffloadBlock::SymlinkAncestor => "Items reached through a symlink cannot be offloaded."@,
    }
}

impl OffloadBlock {
    pub fn message(self) -> (m: &'static str)
        ensures
            m@ == offload_block_text(self),
    {
        match self {
            OffloadBlock::NotAbsolute => "Only absolute paths can be offloaded.",
            OffloadBlock::NotNormalized => "This path must be normalized before it can be offloaded.",
            OffloadBlock::AlreadyExternal => "This item is already on an external volume.",
            OffloadBlock::OutsideHome => "Only items inside your home folder can be offloaded.",
            OffloadBlock::HomeRoot => "Your entire home folder cannot be offloaded.",
            OffloadBlock::HiddenRoot => "Hidden home-folder data stays on this Mac.",
            OffloadBlock::ProtectedRoot => "App-managed home data stays on this Mac.",
            OffloadBlock::CloudSyncRoot => "Cloud-synced folders cannot be offloaded safely.",
            OffloadBlock::ManagedBundle => "Application and managed-library bundles cannot be offloaded safely.",
            OffloadBlock::Missing => "This item is no longer available.",
            OffloadBlock::Symlink => "Symlinks cannot be offloaded.",
            OffloadBlock::SymlinkAncestor => "Items reached through a symlink cannot be offloaded.",
        }
    }
}

// ───────────────────────── destination ─────────────────────────

/// The part of an absolute path below the root, without stray separators.
pub open spec fn below_root(src: Seq<u8>) -> Seq<u8> {
    if is_absolute(src) {
        trim_back(trim_front(src.skip(1)))
    } else {
        src
    }
}

/// Where an item lands on a target volume: its absolute path mirrored below
/// `<mount>/DiskDeck Offload/`.
pub open spec fn dest_spec(src: Seq<u8>, mount_path: Seq<u8>) -> Seq<u8> {
    join_spec(join_spec(mount_path, ascii_of("DiskDeck Offload"@)), below_root(src))
}

fn below_root_exec(src: &[u8]) -> (r: Vec<u8>)
    ensures
        r@ == below_root(src@),
{
    if src.len() > 0 && src[0] == SLASH {
        let rest = crate::bytes::copy_range(src, 1, src.len() - 1);
        assert(rest@ =~= src@.skip(1));
        let front = trim_front_exec(rest.as_slice());
        trim_back_exec(front.as_slice())
    } else {
        crate::bytes::copy_range(src, 0, src.len())
    }
}

/// Where `src` lands on the volume mounted at `mount_path`.
pub fn dest_for(src: &[u8], mount_path: &[u8]) -> (d: Vec<u8>)
    ensures
        d@ == dest_spec(src@, mount_path@),
{
    let root_name = ascii_bytes("DiskDeck Offload");
    let base = join_path(mount_path, root_name.as_slice());
    let rel = below_root_exec(src);
    join_path(base.as_slice(), rel.as_slice())
}

// ───────────────────────── movable policy ─────────────────────────

pub open spec fn protected_root_names() -> Seq<Seq<u8>> {
    seq![
        ascii_of("library"@),
        ascii_of("applications"@),
        ascii_of("public"@),
        ascii_of("trash"@),
    ]
}

pub open spec fn cloud_root_prefixes() -> Seq<Seq<u8>> {
    seq![
        ascii_of("dropbox"@),
        ascii_of("onedrive"@),
        ascii_of("google drive"@),
        ascii_of("icloud drive (archive"@),
    ]
}

pub open spec fn managed_bundle_suffixes() -> Seq<Seq<u8>> {
    seq![
        ascii_of(".app"@),
        ascii_of(".photoslibrary"@),
        ascii_of(".musiclibrary"@),
        ascii_of(".imovielibrary"@),
        ascii_of(".fcpbundle"@),
    ]
}

/// A home-level folder that the system or apps manage (compared without case).
pub open spec fn is_protected_root_spec(name: Seq<u8>) -> bool {
    exists|k: int| 0 <= k < 4 && lower_all(name) == #[trigger] protected_root_names()[k]
}

/// A folder owned by a cloud-sync client (case-insensitive prefix).
pub open spec fn is_cloud_root_spec(name: Seq<u8>) -> bool {
    exists|k: int| 0 <= k < 4 && bytes_prefix(#[trigger] cloud_root_prefixes()[k], lower_all(name))
}

/// An application or managed-library bundle (case-insensitive suffix).
pub open spec fn is_managed_bundle_spec(name: Seq<u8>) -> bool {
    exists|k: int| 0 <= k < 5 && bytes_suffix(#[trigger] managed_bundle_suffixes()[k], lower_all(name))
}

pub fn is_protected_root(name: &[u8]) -> (r: bool)
    ensures
        r == is_protected_root_spec(name@),
{
    let lower = lowercase_bytes(name);
    let names = vec![
        ascii_bytes("library"),
        ascii_bytes("applications"),
        ascii_bytes("public"),
        ascii_bytes("trash"),
    ];
    let mut k: usize = 0;
    while k < 4
        invariant
            k <= 4,
            names.len() == 4,
            forall|j: int| 0 <= j < 4 ==> (#[trigger] names@[j])@ == protected_root_names()[j],
            forall|j: int| 0 <= j < k ==> lower@ != #[trigger] protected_root_names()[j],
            lower@ == lower_all(name@),
        decreases 4 - k,
    {
        if crate::bytes::bytes_eq(lower.as_slice(), names[k].as_slice()) {
            assert(lower_all(name@) == protected_root_names()[k as int]);
            return true;
        }
        k += 1;
    }
    false
}

pub fn is_cloud_root(name: &[u8]) -> (r: bool)
    ensures
        r == is_cloud_root_spec(name@),
{
    let lower = lowercase_bytes(name);
    let prefixes = vec![
        ascii_bytes("dropbox"),
        ascii_bytes("onedrive"),
        ascii_bytes("google drive"),
        ascii_bytes("icloud drive (archive"),
    ];
    let mut k: usize = 0;
    while k < 4
        invariant
            k <= 4,
            prefixes.len() == 4,
            forall|j: int| 0 <= j < 4 ==> (#[trigger] prefixes@[j])@ == cloud_root_prefixes()[j],
            forall|j: int| 0 <= j < k ==> !bytes_prefix(#[trigger] cloud_root_prefixes()[j], lower@),
            lower@ == lower_all(name@),
        decreases 4 - k,
    {
        if starts_with_bytes(lower.as_slice(), prefixes[k].as_slice()) {
            assert(bytes_prefix(cloud_root_prefixes()[k as int], lower_all(name@)));
            return true;
        }
        k += 1;
    }
    false
}

pub fn is_managed_bundle(name: &[u8]) -> (r: bool)
    ensures
        r == is_managed_bundle_spec(name@),
{
    let lower = lowercase_bytes(name);
    let suffixes = vec![
        ascii_bytes(".app"),
        ascii_bytes(".photoslibrary"),
        ascii_bytes(".musiclibrary"),
        ascii_bytes(".imovielibrary"),
        ascii_bytes(".fcpbundle"),
    ];
    let mut k: usize = 0;
    while k < 5
        invariant
            k <= 5,
            suffixes.len() == 5,
            forall|j: int| 0 <= j < 5 ==> (#[trigger] suffixes@[j])@ == managed_bundle_suffixes()[j],
            forall|j: int| 0 <= j < k ==> !bytes_suffix(#[trigger] managed_bundle_suffixes()[j], lower@),
            lower@ == lower_all(name@),
        decreases 5 - k,
    {
        if ends_with_bytes(lower.as_slice(), suffixes[k].as_slice()) {
            assert(bytes_suffix(managed_bundle_suffixes()[k as int], lower_all(name@)));
            return true;
        }
        k += 1;
    }
    false
}

/// The first plain name among components, if any.
pub open spec fn first_normal(cs: Seq<Comp>) -> Option<Seq<u8>>
    decreases cs.len(),
{
    if cs.len() == 0 {
        None
    } else {
        match cs[0] {
            Comp::Normal(n) => Some(n),
            _ => first_normal(cs.drop_first()),
        }
    }
}

pub open spec fn has_managed_component(cs: Seq<Comp>) -> bool {
    exists|i: int| 0 <= i < cs.len() && (#[trigger] cs[i] matches Comp::Normal(n)
        && is_managed_bundle_spec(n))
}

pub open spec fn volumes_root() -> Seq<u8> {
    ascii_of("/Volumes"@)
}

/// Whether an item may be offloaded, judged from its path alone.
pub open spec fn movable_spec(src: Seq<u8>, home: Seq<u8>) -> Result<(), OffloadBlock> {
    if !is_absolute(src) || !is_absolute(home) {
        Err(OffloadBlock::NotAbsolute)
    } else if has_dot_comp(src) || has_dot_comp(home) {
        Err(OffloadBlock::NotNormalized)
    } else if comps_prefix(components(volumes_root()), components(src)) {
        Err(OffloadBlock::AlreadyExternal)
    } else if !comps_prefix(components(home), components(src)) {
        Err(OffloadBlock::OutsideHome)
    } else {
        let relative = components(src).skip(components(home).len() as int);
        if relative.len() == 0 {
            Err(OffloadBlock::HomeRoot)
        } else {
            match first_normal(relative) {
                None => Err(OffloadBlock::HomeRoot),
                Some(first) => {
                    if first.len() > 0 && first[0] == DOT {
                        Err(OffloadBlock::HiddenRoot)
                    } else if is_protected_root_spec(first) {
                        Err(OffloadBlock::ProtectedRoot)
                    } else if is_cloud_root_spec(first) {
                        Err(OffloadBlock::CloudSyncRoot)
                    } else if has_managed_component(relative) {
                        Err(OffloadBlock::ManagedBundle)
                    } else {
                        Ok(())
                    }
                },
            }
        }
    }
}

/// A name that ends, compared without case, like an application bundle or a
/// Photos, Music, iMovie or Final Cut library.
pub open spec fn named_like_bundle(name: Seq<u8>) -> bool {
    ||| bytes_suffix(ascii_of(".app"@), lower_all(name))
    ||| bytes_suffix(ascii_of(".photoslibrary"@), lower_all(name))
    ||| bytes_suffix(ascii_of(".musiclibrary"@), lower_all(name))
    ||| bytes_suffix(ascii_of(".imovielibrary"@), lower_all(name))
    ||| bytes_suffix(ascii_of(".fcpbundle"@), lower_all(name))
}

/// An item inside the home folder, below a visible first folder that is
/// neither app-managed nor cloud-synced, is refused as a managed bundle when
/// any of its components below the home folder is named like an application
/// or a Photos, Music, iMovie or Final Cut library.
pub proof fn lemma_bundles_are_refused(src: Seq<u8>, home: Seq<u8>, first: Seq<u8>, i: int, name: Seq<u8>)
    requires
        is_absolute(src),
        is_absolute(home),
        !has_dot_comp(src),
        !has_dot_comp(home),
        !comps_prefix(components(volumes_root()), components(src)),
        comps_prefix(components(home), components(src)),
        first_normal(components(src).skip(components(home).len() as int)) == Some(first),
        !(first.len() > 0 && first[0] == DOT),
        !is_protected_root_spec(first),
        !is_cloud_root_spec(first),
        0 <= i < components(src).skip(components(home).len() as int).len(),
        components(src).skip(components(home).len() as int)[i] == Comp::Normal(name),
        named_like_bundle(name),
    ensures
        movable_spec(src, home) == Err::<(), OffloadBlock>(OffloadBlock::ManagedBundle),
{
    let relative = components(src).skip(components(home).len() as int);
    let suffixes = managed_bundle_suffixes();
    assert(is_managed_bundle_spec(name)) by {
        if bytes_suffix(ascii_of(".app"@), lower_all(name)) {
            assert(bytes_suffix(suffixes[0], lower_all(name)));
        } else if bytes_suffix(ascii_of(".photoslibrary"@), lower_all(name)) {
            assert(bytes_suffix(suffixes[1], lower_all(name)));
        } else if bytes_suffix(ascii_of(".musiclibrary"@), lower_all(name)) {
            assert(bytes_suffix(suffixes[2], lower_all(name)));
        } else if bytes_suffix(ascii_of(".imovielibrary"@), lower_all(name)) {
            assert(bytes_suffix(suffixes[3], lower_all(name)));
        } else {
            assert(bytes_suffix(suffixes[4], lower_all(name)));
        }
    }
    assert(has_managed_component(relative)) by {
        assert(relative[i] matches Comp::Normal(n) && is_managed_bundle_spec(n));
    }
}

fn first_normal_from(cs: &Vec<Component>, start: usize) -> (r: Option<Vec<u8>>)
    requires
        start <= cs.len(),
    ensures
        match first_normal(comps_view(cs@).skip(start as int)) {
            Some(n) => r is Some && r->Some_0@ == n,
            None => r is None,
        },
{
    let mut i = start;
    while i < cs.len()
        invariant
            start <= i <= cs.len(),
            first_normal(comps_view(cs@).skip(start as int)) == first_normal(
                comps_view(cs@).skip(i as int),
            ),
        decreases cs.len() - i,
    {
        let ghost rest = comps_view(cs@).skip(i as int);
        assert(rest.drop_first() =~= comps_view(cs@).skip(i + 1));
        match &cs[i] {
            Component::Normal(n) => {
                return Some(n.clone());
            },
            _ => {},
        }
        i += 1;
    }
    None
}

fn any_managed_from(cs: &Vec<Component>, start: usize) -> (r: bool)
    requires
        start <= cs.len(),
    ensures
        r == has_managed_component(comps_view(cs@).skip(start as int)),
{
    let ghost rel = comps_view(cs@).skip(start as int);
    let mut i = start;
    while i < cs.len()
        invariant
            start <= i <= cs.len(),
            rel == comps_view(cs@).skip(start as int),
            forall|j: int|
                0 <= j < i - start ==> !(#[trigger] rel[j] matches Comp::Normal(n)
                    && is_managed_bundle_spec(n)),
        decreases cs.len() - i,
    {
        match &cs[i] {
            Component::Normal(n) => {
                if is_managed_bundle(n.as_slice()) {
                    assert(rel[i - start] == comps_view(cs@)[i as int]);
                    return true;
                }
            },
            _ => {},
        }
        assert(rel[i - start] == comps_view(cs@)[i as int]);
        i += 1;
    }
    false
}

/// Pure, filesystem-independent policy for whether a path may be offloaded.
pub fn classify_movable(src: &[u8], home: &[u8]) -> (r: Result<(), OffloadBlock>)
    ensures
        r == movable_spec(src@, home@),
{
    if !(src.len() > 0 && src[0] == SLASH) || !(home.len() > 0 && home[0] == SLASH) {
        return Err(OffloadBlock::NotAbsolute);
    }
    if has_dot_component(src) || has_dot_component(home) {
        return Err(OffloadBlock::NotNormalized);
    }
    let src_comps = components_of(src);
    let home_comps = components_of(home);
    let volumes = ascii_bytes("/Volumes");
    let volume_comps = components_of(volumes.as_slice());
    if components_start_with(&src_comps, &volume_comps) {
        return Err(OffloadBlock::AlreadyExternal);
    }
    if !components_start_with(&src_comps, &home_comps) {
        return Err(OffloadBlock::OutsideHome);
    }
    let start = home_comps.len();
    if start == src_comps.len() {
        return Err(OffloadBlock::HomeRoot);
    }
    let first = match first_normal_from(&src_comps, start) {
        Some(n) => n,
        None => {
            return Err(OffloadBlock::HomeRoot);
        },
    };
    if first.len() > 0 && first[0] == DOT {
        return Err(OffloadBlock::HiddenRoot);
    }
    if is_protected_root(first.as_slice()) {
        return Err(OffloadBlock::ProtectedRoot);
    }
    if is_cloud_root(first.as_slice()) {
        return Err(OffloadBlock::CloudSyncRoot);
    }
    if any_managed_from(&src_comps, start) {
        return Err(OffloadBlock::ManagedBundle);
    }
    Ok(())
}

/// Does the target have room for the item plus the safety margin?
pub fn has_room(item_size: i64, free_bytes: i64) -> (r: bool)
    requires
        i64::MIN <= item_size + MARGIN_BYTES <= i64::MAX,
    ensures
        r == (free_bytes >= item_size + MARGIN_BYTES),
{
    free_bytes >= item_size + MARGIN_BYTES
}

/// The destructive half of an offload stays locked until all safety gates pass.
pub fn can_confirm_offload(acknowledged: bool, room: bool, movable: bool) -> (r: bool)
    ensures
        r == (acknowledged && room && movable),
{
    acknowledged && room && movable
}

pub open spec fn network_fs_names() -> Seq<Seq<char>> {
    seq!["autofs"@, "nfs"@, "smbfs"@, "afpfs"@, "webdav"@]
}

pub open spec fn is_network_fs(fs_type: Seq<char>) -> bool {
    exists|k: int| 0 <= k < 5 && fs_type == #[trigger] network_fs_names()[k]
}

pub fn network_fs(fs_type: &str) -> (r: bool)
    ensures
        r == is_network_fs(fs_type@),
{
    let r = str_eq(fs_type, "autofs") || str_eq(fs_type, "nfs") || str_eq(fs_type, "smbfs")
        || str_eq(fs_type, "afpfs") || str_eq(fs_type, "webdav");
    proof {
        if is_network_fs(fs_type@) {
            let k = choose|k: int| 0 <= k < 5 && fs_type@ == #[trigger] network_fs_names()[k];
            assert(k == 0 || k == 1 || k == 2 || k == 3 || k == 4);
        }
        if r {
            if fs_type@ == "autofs"@ {
                assert(fs_type@ == network_fs_names()[0]);
            } else if fs_type@ == "nfs"@ {
                assert(fs_type@ == network_fs_names()[1]);
            } else if fs_type@ == "smbfs"@ {
                assert(fs_type@ == network_fs_names()[2]);
            } else if fs_type@ == "afpfs"@ {
                assert(fs_type@ == network_fs_names()[3]);
            } else {
                assert(fs_type@ == network_fs_names()[4]);
            }
        }
    }
    r
}

/// Filter rule for a `/Volumes/*` entry: writable, real, and not a network share.
pub fn eligible_volume(fs_type: &str, read_only: bool, is_symlink: bool) -> (r: bool)
    ensures
        r == (!read_only && !is_symlink && !is_network_fs(fs_type@)),
{
    !read_only && !is_symlink && !network_fs(fs_type)
}

// ───────────────────────── ledger text ─────────────────────────

pub open spec fn hex_digit(v: int) -> char {
    if v < 10 {
        (v + 48) as char
    } else {
        (v + 87) as char
    }
}

/// The JSON escape of one character.
pub open spec fn json_char(c: char) -> Seq<char> {
    if c == '"' {
        seq!['\\', '"']
    } else if c == '\\' {
        seq!['\\', '\\']
    } else if c == '\n' {
        seq!['\\', 'n']
    } else if c == '\r' {
        seq!['\\', 'r']
    } else if c == '\t' {
        seq!['\\', 't']
    } else if (c as u32) <= 0x1F {
        seq!['\\', 'u', '0', '0', hex_digit((c as u32) as int / 16), hex_digit((c as u32) as int % 16)]
    } else {
        seq![c]
    }
}

pub open spec fn json_body(s: Seq<char>) -> Seq<char>
    decreases s.len(),
{
    if s.len() == 0 {
        Seq::empty()
    } else {
        json_body(s.drop_last()) + json_char(s.last())
    }
}

/// A JSON string literal holding `s`.
pub open spec fn json_str_spec(s: Seq<char>) -> Seq<char> {
    seq!['"'] + json_body(s) + seq!['"']
}

fn hex_char(v: u32) -> (c: char)
    requires
        v < 16,
    ensures
        c == hex_digit(v as int),
{
    if v < 10 {
        assert((v + 48) as char == hex_digit(v as int));
        ((v + 48) as u8) as char
    } else {
        ((v + 87) as u8) as char
    }
}

/// Minimal JSON string escaping for the ledger's path fields.
pub fn json_str(s: &str) -> (out: String)
    ensures
        out@ == json_str_spec(s@),
{
    let mut out = String::new();
    push_char(&mut out, '"');
    let n = s.unicode_len();
    let mut i: usize = 0;
    while i < n
        invariant
            n == s@.len(),
            i <= n,
            out@ == seq!['"'] + json_body(s@.take(i as int)),
        decreases n - i,
    {
        let c = s.get_char(i);
        let ghost before = out@;
        if c == '"' {
            push_char(&mut out, '\\');
            push_char(&mut out, '"');
        } else if c == '\\' {
            push_char(&mut out, '\\');
            push_char(&mut out, '\\');
        } else if c == '\n' {
            push_char(&mut out, '\\');
            push_char(&mut out, 'n');
        } else if c == '\r' {
            push_char(&mut out, '\\');
            push_char(&mut out, 'r');
        } else if c == '\t' {
            push_char(&mut out, '\\');
            push_char(&mut out, 't');
        } else if (c as u32) <= 0x1F {
            let code = c as u32;
            push_char(&mut out, '\\');
            push_char(&mut out, 'u');
            push_char(&mut out, '0');
            push_char(&mut out, '0');
            push_char(&mut out, hex_char(code / 16));
            push_char(&mut out, hex_char(code % 16));
        } else {
            push_char(&mut out, c);
        }
        proof {
            assert(s@.take(i + 1).drop_last() =~= s@.take(i as int));
            assert(out@ =~= before + json_char(c));
        }
        i += 1;
    }
    push_char(&mut out, '"');
    assert(s@.take(n as int) =~= s@);
    out
}

/// Where a verified move put an item, the bytes it freed on the startup
/// disk, and whether a symlink was left at the original place.
pub struct MoveOutcome {
    pub dest: Vec<u8>,
    pub reclaimed: i64,
    pub symlinked: bool,
}

/// An item to move to an external volume.
pub struct OffloadJob {
    pub src: Vec<u8>,
    pub mount_path: Vec<u8>,
    pub leave_symlink: bool,
}

/// What a running move reports.
pub enum OffloadEvent {
    Started { name: String, total: i64 },
    Done { reclaimed: i64, dest: Vec<u8>, symlinked: bool },
    Failed { error: String },
}

// ───────────────────────── checks on disk ─────────────────────────

/// Whether every component is a plain name.
pub open spec fn all_normal(cs: Seq<Comp>) -> bool {
    forall|i: int| 0 <= i < cs.len() ==> #[trigger] cs[i] is Normal
}

/// `home` with the first `k` names of `rel` pushed onto it.
pub open spec fn probe_path(home: Seq<u8>, rel: Seq<Comp>, k: nat) -> Seq<u8>
    decreases k,
{
    if k == 0 {
        home
    } else {
        join_spec(probe_path(home, rel, (k - 1) as nat), rel[k - 1]->Normal_0)
    }
}

/// The components of `src` below `home`.
pub open spec fn relative_comps(src: Seq<u8>, home: Seq<u8>) -> Seq<Comp> {
    components(src).skip(components(home).len() as int)
}

/// The paths to look at, without following links, before an item may be
/// offloaded: each folder from the home folder down to the item, the item
/// last; or why the item cannot be offloaded at all.
pub open spec fn movable_probes_spec(src: Seq<u8>, home: Seq<u8>) -> Result<Seq<Seq<u8>>, OffloadBlock> {
    match movable_spec(src, home) {
        Err(e) => Err(e),
        Ok(_) => {
            let rel = relative_comps(src, home);
            if !all_normal(rel) {
                Err(OffloadBlock::NotNormalized)
            } else {
                Ok(Seq::new(rel.len(), |k: int| probe_path(home, rel, (k + 1) as nat)))
            }
        },
    }
}

/// The paths to check on disk before `src` may be offloaded from `home`.
pub fn movable_probes(src: &[u8], home: &[u8]) -> (r: Result<Vec<Vec<u8>>, OffloadBlock>)
    ensures
        match movable_probes_spec(src@, home@) {
            Ok(ps) => r is Ok && r->Ok_0@.len() == ps.len() && forall|k: int|
                0 <= k < ps.len() ==> (#[trigger] r->Ok_0@[k])@ == ps[k],
            Err(e) => r == Err::<Vec<Vec<u8>>, OffloadBlock>(e),
        },
{
    match classify_movable(src, home) {
        Err(e) => {
            return Err(e);
        },
        Ok(_) => {},
    }
    let src_comps = components_of(src);
    let home_comps = components_of(home);
    let start = home_comps.len();
    let ghost rel = relative_comps(src@, home@);
    proof {
        assert(comps_prefix(components(home@), components(src@)));
    }
    let mut out: Vec<Vec<u8>> = Vec::new();
    let mut cur: Vec<u8> = crate::bytes::copy_range(home, 0, home.len());
    let mut i = start;
    while i < src_comps.len()
        invariant
            movable_spec(src@, home@) is Ok,
            start == components(home@).len(),
            start <= i <= src_comps@.len(),
            comps_view(src_comps@) == components(src@),
            rel == components(src@).skip(start as int),
            cur@ == probe_path(home@, rel, (i - start) as nat),
            out@.len() == i - start,
            forall|j: int| 0 <= j < i - start ==> #[trigger] rel[j] is Normal,
            forall|j: int| 0 <= j < i - start ==> (#[trigger] out@[j])@ == probe_path(home@, rel, (j + 1) as nat),
        decreases src_comps@.len() - i,
    {
        assert(rel[i - start] == comps_view(src_comps@)[i as int]);
        match &src_comps[i] {
            Component::Normal(name) => {
                let next = join_path(cur.as_slice(), name.as_slice());
                proof {
                    assert(rel[i - start] == Comp::Normal(name@));
                }
                out.push(next.clone());
                cur = next;
            },
            _ => {
                proof {
                    assert(!(rel[i - start] is Normal));
                    assert(0 <= i - start < rel.len());
                    assert(!all_normal(rel));
                }
                return Err(OffloadBlock::NotNormalized);
            },
        }
        i += 1;
    }
    assert(all_normal(rel));
    Ok(out)
}

/// What the checks on disk say, given for each path of `movable_probes` in
/// order whether it is a link (`None` when it could not be read): the first
/// failure decides, and a link is the item itself only when it is the last.
pub open spec fn probes_verdict(p: Seq<Option<bool>>, i: int) -> Result<(), OffloadBlock>
    decreases p.len() - i,
{
    if i < 0 || i >= p.len() {
        Ok(())
    } else {
        match p[i] {
            None => Err(OffloadBlock::Missing),
            Some(true) => if i == p.len() - 1 {
                Err(OffloadBlock::Symlink)
            } else {
                Err(OffloadBlock::SymlinkAncestor)
            },
            Some(false) => probes_verdict(p, i + 1),
        }
    }
}

/// Decides an offload from the checks on disk of `movable_probes`' paths.
pub fn movable_verdict(probes: &[Option<bool>]) -> (r: Result<(), OffloadBlock>)
    ensures
        r == probes_verdict(probes@, 0),
{
    let n = probes.len();
    let mut i: usize = 0;
    while i < n
        invariant
            n == probes@.len(),
            i <= n,
            probes_verdict(probes@, 0) == probes_verdict(probes@, i as int),
        decreases n - i,
    {
        match probes[i] {
            None => {
                return Err(OffloadBlock::Missing);
            },
            Some(true) => {
                if i == n - 1 {
                    return Err(OffloadBlock::Symlink);
                } else {
                    return Err(OffloadBlock::SymlinkAncestor);
                }
            },
            Some(false) => {},
        }
        i += 1;
    }
    Ok(())
}

/// Listed by name; equal names keep their order.
pub open spec fn name_after(a: Volume, b: Volume) -> bool {
    crate::reclaim_plan::chars_lt(b.name@, a.name@)
}

fn name_after_exec(a: &Volume, b: &Volume) -> (r: bool)
    ensures
        r == name_after(*a, *b),
{
    crate::reclaim_plan::chars_less(b.name.as_str(), a.name.as_str())
}

/// The volumes found under `/Volumes` that pass `eligible_volume`, in order.
pub open spec fn eligible_found(found: Seq<(Volume, bool, bool)>) -> Seq<Volume>
    decreases found.len(),
{
    if found.len() == 0 {
        Seq::empty()
    } else {
        let rest = eligible_found(found.drop_last());
        let (v, read_only, is_symlink) = found.last();
        if !read_only && !is_symlink && !is_network_fs(v.fs_type@) {
            rest.push(v)
        } else {
            rest
        }
    }
}

/// The offload targets among the volumes found, each given with whether it
/// is read-only and whether its entry is a link: the eligible ones, by name.
pub fn offload_targets(found: Vec<(Volume, bool, bool)>) -> (r: Vec<Volume>)
    ensures
        r@ == stable_sort(eligible_found(found@), |a: Volume, b: Volume| name_after(a, b)),
{
    let ghost orig = found@;
    let n = found.len();
    let mut rest = found;
    let mut kept: Vec<Volume> = Vec::new();
    let mut i: usize = 0;
    assert(orig.take(0) =~= Seq::<(Volume, bool, bool)>::empty());
    assert(orig.skip(0) =~= orig);
    while i < n
        invariant
            n == orig.len(),
            i <= n,
            rest@ == orig.skip(i as int),
            kept@ == eligible_found(orig.take(i as int)),
        decreases n - i,
    {
        let (v, read_only, is_symlink) = rest.remove(0);
        assert(orig.take(i + 1).drop_last() =~= orig.take(i as int));
        assert(orig.take(i + 1).last() == orig[i as int]);
        assert(rest@ =~= orig.skip(i + 1));
        if eligible_volume(v.fs_type.as_str(), read_only, is_symlink) {
            kept.push(v);
        }
        i += 1;
    }
    assert(orig.take(n as int) =~= orig);
    let ghost after = |a: Volume, b: Volume| name_after(a, b);
    sort_stable(kept, name_after_exec, Ghost(after))
}

// ───────────────────────── the move ─────────────────────────

/// The ledger of moves kept on a volume.
pub open spec fn ledger_path_spec(mount_path: Seq<u8>) -> Seq<u8> {
    join_spec(join_spec(mount_path, ascii_of("DiskDeck Offload"@)), ascii_of(".diskdeck-offload.json"@))
}

pub fn ledger_path(mount_path: &[u8]) -> (p: Vec<u8>)
    ensures
        p@ == ledger_path_spec(mount_path@),
{
    let root_name = ascii_bytes("DiskDeck Offload");
    let base = join_path(mount_path, root_name.as_slice());
    let file = ascii_bytes(".diskdeck-offload.json");
    join_path(base.as_slice(), file.as_slice())
}

pub open spec fn bool_text(b: bool) -> Seq<char> {
    if b {
        "true"@
    } else {
        "false"@
    }
}

/// One ledger line: a JSON object with the origin and destination (as
/// text), the time of the move in seconds, and whether a symlink was left.
pub open spec fn ledger_line_spec(origin: Seq<u8>, dest: Seq<u8>, moved_at: i64, symlinked: bool) -> Seq<char> {
    "{\"origin\":"@ + json_str_spec(lossy_text(origin)) + ",\"dest\":"@ + json_str_spec(lossy_text(dest))
        + ",\"moved_at\":"@ + int_text(moved_at as int) + ",\"symlinked\":"@ + bool_text(symlinked) + "}\n"@
}

pub fn ledger_line(origin: &[u8], dest: &[u8], moved_at: i64, symlinked: bool) -> (line: String)
    ensures
        line@ == ledger_line_spec(origin@, dest@, moved_at, symlinked),
{
    let mut line = String::new();
    append_str(&mut line, "{\"origin\":");
    let o = lossy_string(origin);
    let oj = json_str(o.as_str());
    append_str(&mut line, oj.as_str());
    append_str(&mut line, ",\"dest\":");
    let d = lossy_string(dest);
    let dj = json_str(d.as_str());
    append_str(&mut line, dj.as_str());
    append_str(&mut line, ",\"moved_at\":");
    push_decimal(&mut line, moved_at);
    append_str(&mut line, ",\"symlinked\":");
    if symlinked {
        append_str(&mut line, "true");
    } else {
        append_str(&mut line, "false");
    }
    append_str(&mut line, "}\n");
    line
}

/// Why a copy was refused: it holds fewer logical bytes than the original.
pub open spec fn verify_failed_text(copied: i64, source: i64) -> Seq<char> {
    "verify failed: copied "@ + int_text(copied as int) + " < source "@ + int_text(source as int)
        + " bytes; original left intact"@
}

/// Where a move stands.
#[derive(Clone, Copy, Debug, PartialEq, Eq, Structural)]
pub enum MoveStage {
    Copying,
    Verifying,
    Deleting,
    Linking,
    Recording,
    Finished,
    Failed,
}

/// What the mover must do next.
pub enum MoveAction {
    /// Copy the item to its destination.
    Copy,
    /// Measure the logical bytes of the copy.
    MeasureCopy,
    /// Delete the original.
    DeleteOriginal,
    /// Leave a symlink at the original place, pointing at the copy.
    LeaveSymlink,
    /// Append a line to the volume's ledger.
    AppendLedger { symlinked: bool },
    /// The move is done.
    Finish(MoveOutcome),
    /// The move stopped; the message says so.
    Fail(String),
}

/// What the mover reports back.
pub enum MoveEvent {
    Copied(Result<(), String>),
    Measured(i64),
    Deleted(Result<(), String>),
    Linked(bool),
    Recorded,
}

/// A move in progress: copy, verify the copy's size, delete the original,
/// optionally leave a symlink, then record the move. Nothing is deleted
/// before the copy has been made and measured.
pub struct MoveRun {
    pub stage: MoveStage,
    pub dest: Vec<u8>,
    /// The bytes the original takes on disk.
    pub total: i64,
    /// The logical bytes of the original.
    pub source_bytes: i64,
    pub leave_symlink: bool,
    pub symlinked: bool,
}

/// The events each stage waits for.
pub open spec fn expects(stage: MoveStage, event: MoveEvent) -> bool {
    match stage {
        MoveStage::Copying => event is Copied,
        MoveStage::Verifying => event is Measured,
        MoveStage::Deleting => event is Deleted,
        MoveStage::Linking => event is Linked,
        MoveStage::Recording => event is Recorded,
        _ => false,
    }
}

impl MoveRun {
    /// Starts moving `src` to the volume at `mount_path`; the first step is
    /// the copy.
    pub fn start(src: &[u8], mount_path: &[u8], total: i64, source_bytes: i64, leave_symlink: bool) -> (r: (
        MoveRun,
        MoveAction,
    ))
        ensures
            r.0.stage == MoveStage::Copying,
            r.0.dest@ == dest_spec(src@, mount_path@),
            r.0.total == total,
            r.0.source_bytes == source_bytes,
            r.0.leave_symlink == leave_symlink,
            !r.0.symlinked,
            r.1 is Copy,
    {
        let run = MoveRun {
            stage: MoveStage::Copying,
            dest: dest_for(src, mount_path),
            total,
            source_bytes,
            leave_symlink,
            symlinked: false,
        };
        (run, MoveAction::Copy)
    }

    /// Takes the next report and says what to do. A failed copy or delete
    /// stops the move with its message; a copy smaller than the original
    /// stops it before anything is deleted; a symlink is left only when
    /// asked for; the move finishes once it is recorded.
    pub fn step(&mut self, event: MoveEvent) -> (a: MoveAction)
        requires
            expects(old(self).stage, event),
        ensures
            final(self).dest == old(self).dest,
            final(self).total == old(self).total,
            final(self).source_bytes == old(self).source_bytes,
            final(self).leave_symlink == old(self).leave_symlink,
            a is DeleteOriginal ==> old(self).stage == MoveStage::Verifying && (event matches MoveEvent::Measured(copied)
                && copied >= old(self).source_bytes),
            match event {
                MoveEvent::Copied(Ok(_)) => final(self).stage == MoveStage::Verifying && a is MeasureCopy
                    && final(self).symlinked == old(self).symlinked,
                MoveEvent::Copied(Err(m)) => final(self).stage == MoveStage::Failed && a is Fail && a->Fail_0@ == m@,
                MoveEvent::Measured(copied) => if copied < old(self).source_bytes {
                    final(self).stage == MoveStage::Failed && a is Fail && a->Fail_0@ == verify_failed_text(
                        copied,
                        old(self).source_bytes,
                    )
                } else {
                    final(self).stage == MoveStage::Deleting && a is DeleteOriginal && final(self).symlinked
                        == old(self).symlinked
                },
                MoveEvent::Deleted(Ok(_)) => if old(self).leave_symlink {
                    final(self).stage == MoveStage::Linking && a is LeaveSymlink && final(self).symlinked
                        == old(self).symlinked
                } else {
                    final(self).stage == MoveStage::Recording && final(self).symlinked == old(self).symlinked
                        && a == (MoveAction::AppendLedger { symlinked: old(self).symlinked })
                },
                MoveEvent::Deleted(Err(m)) => final(self).stage == MoveStage::Failed && a is Fail && a->Fail_0@ == m@,
                MoveEvent::Linked(ok) => final(self).stage == MoveStage::Recording && final(self).symlinked == ok
                    && a == (MoveAction::AppendLedger { symlinked: ok }),
                MoveEvent::Recorded => final(self).stage == MoveStage::Finished && final(self).symlinked
                    == old(self).symlinked && a is Finish && a->Finish_0.dest@ == old(self).dest@
                    && a->Finish_0.reclaimed == old(self).total && a->Finish_0.symlinked == old(self).symlinked,
            },
    {
        match event {
            MoveEvent::Copied(Ok(_)) => {
                self.stage = MoveStage::Verifying;
                MoveAction::MeasureCopy
            },
            MoveEvent::Copied(Err(m)) => {
                self.stage = MoveStage::Failed;
                MoveAction::Fail(m)
            },
            MoveEvent::Measured(copied) => {
                if copied < self.source_bytes {
                    self.stage = MoveStage::Failed;
                    let mut m = String::new();
                    append_str(&mut m, "verify failed: copied ");
                    push_decimal(&mut m, copied);
                    append_str(&mut m, " < source ");
                    push_decimal(&mut m, self.source_bytes);
                    append_str(&mut m, " bytes; original left intact");
                    MoveAction::Fail(m)
                } else {
                    self.stage = MoveStage::Deleting;
                    MoveAction::DeleteOriginal
                }
            },
            MoveEvent::Deleted(Ok(_)) => {
                if self.leave_symlink {
                    self.stage = MoveStage::Linking;
                    MoveAction::LeaveSymlink
                } else {
                    self.stage = MoveStage::Recording;
                    MoveAction::AppendLedger { symlinked: self.symlinked }
                }
            },
            MoveEvent::Deleted(Err(m)) => {
                self.stage = MoveStage::Failed;
                MoveAction::Fail(m)
            },
            MoveEvent::Linked(ok) => {
                self.symlinked = ok;
                self.stage = MoveStage::Recording;
                MoveAction::AppendLedger { symlinked: ok }
            },
            MoveEvent::Recorded => {
                self.stage = MoveStage::Finished;
                let dest = self.dest.clone();
                MoveAction::Finish(MoveOutcome { dest, reclaimed: self.total, symlinked: self.symlinked })
            },
        }
    }
}

} // verus!
