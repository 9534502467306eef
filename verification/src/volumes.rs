//! Mounted external volumes: which ones are eligible, how a mount is
//! recognised again, and the order they are listed in.

use vstd::prelude::*;
use crate::bytes::{bytes_eq, bytes_lt, bytes_less};
use crate::paths::{components, components_of, components_eq, comps_view, Comp, Component};
use crate::reclaim_plan::{chars_lt, chars_less};
use crate::sorting::{stable_sort, sort_stable};
use crate::text::{lossy_string, lossy_text, str_eq, lowercase_text, to_lowercase};

verus! {

pub struct MountedVolume {
    pub name: String,
    pub mount_path: Vec<u8>,
    pub fs_type: String,
    pub total_bytes: i64,
    pub free_bytes: i64,
    pub read_only: bool,
    pub device_id: u64,
}

/// What `statfs` reports of the filesystem that holds a path.
pub struct LocalFilesystem {
    pub fs_type: String,
    pub total_bytes: i64,
    pub free_bytes: i64,
    pub read_only: bool,
    pub local: bool,
}

pub open spec fn remote_fs_types() -> Seq<Seq<char>> {
    seq!["autofs"@, "nfs"@, "smbfs"@, "afpfs"@, "webdav"@]
}

pub open spec fn is_remote_fs(fs_type: Seq<char>) -> bool {
    exists|k: int| 0 <= k < 5 && fs_type == #[trigger] remote_fs_types()[k]
}

/// A volume may be used when it is local, not a symlink, and of no network
/// filesystem type.
pub fn eligible_mount(fs_type: &str, local: bool, is_symlink: bool) -> (r: bool)
    ensures
        r == (local && !is_symlink && !is_remote_fs(fs_type@)),
{
    let names = ["autofs", "nfs", "smbfs", "afpfs", "webdav"];
    let mut remote = false;
    let mut i: usize = 0;
    while i < 5
        invariant
            i <= 5,
            forall|k: int| 0 <= k < 5 ==> (#[trigger] names@[k])@ == remote_fs_types()[k],
            remote == (exists|k: int| 0 <= k < i && fs_type@ == #[trigger] remote_fs_types()[k]),
        decreases 5 - i,
    {
        if str_eq(fs_type, names[i]) {
            remote = true;
        }
        i += 1;
    }
    local && !is_symlink && !remote
}

/// Two paths name the same place when their components are equal.
pub open spec fn same_path(a: Seq<u8>, b: Seq<u8>) -> bool {
    components(a) == components(b)
}

pub fn path_eq(a: &[u8], b: &[u8]) -> (r: bool)
    ensures
        r == same_path(a@, b@),
{
    let ca = components_of(a);
    let cb = components_of(b);
    components_eq(&ca, &cb)
}

/// The same mount: same path, filesystem type and device; the label may
/// differ.
pub fn is_same_mount(expected: &MountedVolume, current: &MountedVolume) -> (r: bool)
    ensures
        r == (same_path(expected.mount_path@, current.mount_path@) && expected.fs_type@
            == current.fs_type@ && expected.device_id == current.device_id),
{
    path_eq(expected.mount_path.as_slice(), current.mount_path.as_slice()) && str_eq(
        expected.fs_type.as_str(),
        current.fs_type.as_str(),
    ) && expected.device_id == current.device_id
}

/// What reading a mount point's own entry, without following a link, found.
#[derive(Clone, Copy, Debug, PartialEq, Eq)]
pub struct MountEntry {
    pub is_symlink: bool,
    pub is_dir: bool,
    pub device_id: u64,
}

pub open spec fn volumes_name() -> Seq<u8> {
    seq![86u8, 111u8, 108u8, 117u8, 109u8, 101u8, 115u8]
}

/// The name of a volume mounted directly below `/Volumes`.
pub open spec fn mount_name(p: Seq<u8>) -> Option<Seq<u8>> {
    let c = components(p);
    if c.len() == 3 && c[0] is Root && c[1] == Comp::Normal(volumes_name()) && c[2] is Normal {
        Some(c[2]->Normal_0)
    } else {
        None
    }
}

/// Whether a path is a volume that may be used: directly below `/Volumes`,
/// a directory and not a link, and on an eligible filesystem.
pub open spec fn mount_usable(p: Seq<u8>, entry: Option<MountEntry>, fs: Option<LocalFilesystem>) -> bool {
    &&& mount_name(p) is Some
    &&& entry matches Some(e)
    &&& e.is_dir && !e.is_symlink
    &&& fs matches Some(f)
    &&& f.local && !is_remote_fs(f.fs_type@)
}

/// The volume mounted at `path`, from what reading its entry and its
/// filesystem found; `None` when it may not be used.
pub fn inspect_mounted_volume(path: Vec<u8>, entry: Option<MountEntry>, fs: Option<LocalFilesystem>) -> (r: Option<
    MountedVolume,
>)
    ensures
        r is Some <==> mount_usable(path@, entry, fs),
        r is Some ==> ({
            let v = r->Some_0;
            let f = fs->Some_0;
            &&& v.name@ == lossy_text(mount_name(path@)->Some_0)
            &&& v.mount_path@ == path@
            &&& v.fs_type@ == f.fs_type@
            &&& v.total_bytes == f.total_bytes
            &&& v.free_bytes == f.free_bytes
            &&& v.read_only == f.read_only
            &&& v.device_id == entry->Some_0.device_id
        }),
{
    let comps = components_of(path.as_slice());
    let ghost cv = comps_view(comps@);
    if comps.len() != 3 {
        return None;
    }
    let volumes: Vec<u8> = vec![86u8, 111u8, 108u8, 117u8, 109u8, 101u8, 115u8];
    assert(volumes@ =~= volumes_name());
    assert(cv[0] == comps@[0]@ && cv[1] == comps@[1]@ && cv[2] == comps@[2]@);
    let rooted = match &comps[0] {
        Component::RootDir => true,
        _ => false,
    };
    let under_volumes = match &comps[1] {
        Component::Normal(n) => bytes_eq(n.as_slice(), volumes.as_slice()),
        _ => false,
    };
    let name = match &comps[2] {
        Component::Normal(n) => n,
        _ => {
            return None;
        },
    };
    if !rooted || !under_volumes {
        return None;
    }
    let e = match entry {
        Some(e) => e,
        None => {
            return None;
        },
    };
    if !e.is_dir || e.is_symlink {
        return None;
    }
    let f = match fs {
        Some(f) => f,
        None => {
            return None;
        },
    };
    if !eligible_mount(f.fs_type.as_str(), f.local, e.is_symlink) {
        return None;
    }
    Some(MountedVolume {
        name: lossy_string(name.as_slice()),
        mount_path: path,
        fs_type: f.fs_type,
        total_bytes: f.total_bytes,
        free_bytes: f.free_bytes,
        read_only: f.read_only,
        device_id: e.device_id,
    })
}

/// `a` is listed after `b`: by lowercase name, then by raw path.
pub open spec fn volume_after(a: MountedVolume, b: MountedVolume) -> bool {
    let la = lowercase_text(a.name@);
    let lb = lowercase_text(b.name@);
    chars_lt(lb, la) || (la == lb && bytes_lt(b.mount_path@, a.mount_path@))
}

fn volume_after_exec(a: &MountedVolume, b: &MountedVolume) -> (r: bool)
    ensures
        r == volume_after(*a, *b),
{
    let la = to_lowercase(a.name.as_str());
    let lb = to_lowercase(b.name.as_str());
    chars_less(lb.as_str(), la.as_str()) || (str_eq(la.as_str(), lb.as_str()) && bytes_less(
        b.mount_path.as_slice(),
        a.mount_path.as_slice(),
    ))
}

/// Orders volumes by lowercase name, then by raw mount path; equal ones keep
/// their order.
pub fn sort_volumes(volumes: &mut Vec<MountedVolume>)
    ensures
        final(volumes)@ == stable_sort(old(volumes)@, |a: MountedVolume, b: MountedVolume| volume_after(a, b)),
{
    let mut taken: Vec<MountedVolume> = Vec::new();
    std::mem::swap(&mut taken, volumes);
    let ghost after = |a: MountedVolume, b: MountedVolume| volume_after(a, b);
    let sorted = sort_stable(taken, volume_after_exec, Ghost(after));
    *volumes = sorted;
}

} // verus!
