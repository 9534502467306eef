//! Folder Lens: which folders may be inspected on their own, and how a chosen
//! folder is recognised again.

use vstd::prelude::*;
use crate::paths::{components, components_of, comps_view, has_root, pieces, Comp, Component, DOT, SLASH};
use crate::rules::data_root_bytes;
use crate::text::{lossy_string, lossy_text, str_eq};
use crate::volumes::{eligible_mount, is_remote_fs, path_eq, same_path, LocalFilesystem};

verus! {

pub struct FolderTarget {
    pub name: String,
    pub path: Vec<u8>,
    pub fs_type: String,
    pub total_bytes: i64,
    pub free_bytes: i64,
    pub read_only: bool,
    pub device_id: u64,
    pub inode: u64,
}

#[derive(Clone, Copy, Debug, PartialEq, Eq, Structural)]
pub enum FolderBlock {
    NotAbsolute,
    DotComponent,
    Missing,
    NotDirectory,
    Symlink,
    SymlinkAncestor,
    Network,
    WholeVolume,
    Unavailable,
}

pub open spec fn folder_block_text(b: FolderBlock) -> Seq<char> {
    match b {
        FolderBlock::NotAbsolute | FolderBlock::DotComponent => "Choose a direct folder instead of a relative path."@,
        FolderBlock::Missing => "That folder is no longer available. Choose it again."@,
        FolderBlock::NotDirectory => "Choose one folder, not a file."@,
        FolderBlock::Symlink | FolderBlock::SymlinkAncestor => "Choose the real folder instead of a symbolic link."@,
        FolderBlock::Network => "Folder Lens supports local folders only."@,
        FolderBlock::WholeVolume => "Use Macintosh HD or External drives for a whole-volume scan."@,
        FolderBlock::Unavailable => "That folder cannot be inspected right now."@,
    }
}

impl FolderBlock {
    pub fn message(self) -> (m: &'static str)
        ensures
            m@ == folder_block_text(self),
    {
        match self {
            FolderBlock::NotAbsolute | FolderBlock::DotComponent => "Choose a direct folder instead of a relative path.",
            FolderBlock::Missing => "That folder is no longer available. Choose it again.",
            FolderBlock::NotDirectory => "Choose one folder, not a file.",
            FolderBlock::Symlink | FolderBlock::SymlinkAncestor => "Choose the real folder instead of a symbolic link.",
            FolderBlock::Network => "Folder Lens supports local folders only.",
            FolderBlock::WholeVolume => "Use Macintosh HD or External drives for a whole-volume scan.",
            FolderBlock::Unavailable => "That folder cannot be inspected right now.",
        }
    }
}

/// Whether some piece between separators is `.` or `..`, as written.
pub open spec fn raw_dot_piece(p: Seq<u8>) -> bool {
    exists|k: int|
        0 <= k < pieces(p).len() && (#[trigger] pieces(p)[k] == seq![DOT] || pieces(p)[k] == seq![
            DOT,
            DOT,
        ])
}

pub fn has_raw_dot_component(p: &[u8]) -> (r: bool)
    ensures
        r == raw_dot_piece(p@),
{
    let mut start: usize = 0;
    let mut i: usize = 0;
    proof {
        assert(p@.take(0) =~= Seq::<u8>::empty());
        assert(pieces(p@.take(0)) =~= seq![Seq::<u8>::empty()]);
    }
    while i <= p.len()
        invariant
            start <= i <= p.len(),
            pieces(p@.take(i as int)).len() >= 1,
            pieces(p@.take(i as int)).last() == p@.subrange(start as int, i as int),
            forall|k: int|
                0 <= k < pieces(p@.take(i as int)).len() - 1 ==> !(#[trigger] pieces(p@.take(i as int))[k] == seq![DOT] || pieces(p@.take(i as int))[k] == seq![DOT, DOT]),
        decreases p.len() + 1 - i,
    {
        proof {
            crate::paths::lemma_pieces_nonempty(p@.take(i as int));
        }
        let at_end = i == p.len();
        if at_end || p[i] == SLASH {
            let len = i - start;
            let is_dot = (len == 1 && p[start] == DOT) || (len == 2 && p[start] == DOT && p[start
                + 1] == DOT);
            let ghost cur = p@.subrange(start as int, i as int);
            proof {
                if len == 1 {
                    assert(cur[0] == p@[start as int]);
                }
                if len == 2 {
                    assert(cur[0] == p@[start as int]);
                    assert(cur[1] == p@[start + 1]);
                }
                assert(is_dot == (cur == seq![DOT] || cur == seq![DOT, DOT])) by {
                    if cur == seq![DOT] {
                        assert(cur.len() == 1);
                    }
                    if cur == seq![DOT, DOT] {
                        assert(cur.len() == 2);
                    }
                    if len == 1 && p[start as int] == DOT {
                        assert(cur =~= seq![DOT]);
                    }
                    if len == 2 && p[start as int] == DOT && p[start + 1] == DOT {
                        assert(cur =~= seq![DOT, DOT]);
                    }
                }
            }
            if is_dot {
                proof {
                    if at_end {
                        assert(p@.take(i as int) =~= p@);
                        let ps = pieces(p@);
                        assert(ps[ps.len() - 1] == cur);
                    } else {
                        let ps = pieces(p@.take(i as int));
                        lemma_pieces_prefix(p@, i as int);
                        assert(pieces(p@)[ps.len() - 1] == ps[ps.len() - 1]);
                    }
                }
                return true;
            }
            if at_end {
                proof {
                    assert(p@.take(i as int) =~= p@);
                    assert forall|k: int| 0 <= k < pieces(p@).len() implies !(#[trigger] pieces(p@)[k] == seq![DOT] || pieces(p@)[k] == seq![DOT, DOT]) by {
                        if k == pieces(p@).len() - 1 {
                        }
                    }
                }
                return false;
            }
            proof {
                assert(p@.take(i + 1).drop_last() =~= p@.take(i as int));
                assert(p@.subrange((i + 1) as int, (i + 1) as int) =~= Seq::<u8>::empty());
                let before = pieces(p@.take(i as int));
                assert(pieces(p@.take(i + 1)) == before.push(Seq::<u8>::empty()));
            }
            start = i + 1;
        } else {
            proof {
                assert(p@.take(i + 1).drop_last() =~= p@.take(i as int));
                let before = pieces(p@.take(i as int));
                assert(p@.subrange(start as int, i + 1) =~= p@.subrange(start as int, i as int).push(p@[i as int]));
                assert(pieces(p@.take(i + 1)) == before.update(before.len() - 1, before.last().push(p@[i as int])));
            }
        }
        i += 1;
    }
    false
}

/// The pieces of a prefix cut at a separator are the first pieces of the whole.
proof fn lemma_pieces_prefix(p: Seq<u8>, i: int)
    requires
        0 <= i < p.len(),
        p[i] == SLASH,
    ensures
        pieces(p).len() >= pieces(p.take(i)).len(),
        forall|k: int| 0 <= k < pieces(p.take(i)).len() ==> pieces(p)[k] == #[trigger] pieces(p.take(i))[k],
    decreases p.len() - i,
{
    crate::paths::lemma_pieces_nonempty(p.take(i));
    crate::paths::lemma_pieces_nonempty(p);
    if p.len() == i + 1 {
        assert(p.drop_last() =~= p.take(i));
        assert(pieces(p) == pieces(p.take(i)).push(Seq::<u8>::empty()));
    } else {
        lemma_pieces_extend(p, i, p.len() as int);
        assert(p.take(p.len() as int) =~= p);
    }
}

/// Extending past a separator keeps the pieces before it.
proof fn lemma_pieces_extend(p: Seq<u8>, i: int, j: int)
    requires
        0 <= i < j <= p.len(),
        p[i] == SLASH,
    ensures
        pieces(p.take(j)).len() > pieces(p.take(i)).len(),
        forall|k: int| 0 <= k < pieces(p.take(i)).len() ==> pieces(p.take(j))[k] == #[trigger] pieces(p.take(i))[k],
    decreases j - i,
{
    crate::paths::lemma_pieces_nonempty(p.take(i));
    if j == i + 1 {
        assert(p.take(j).drop_last() =~= p.take(i));
        assert(p.take(j).last() == SLASH);
    } else {
        lemma_pieces_extend(p, i, j - 1);
        assert(p.take(j).drop_last() =~= p.take(j - 1));
        crate::paths::lemma_pieces_nonempty(p.take(j - 1));
        let q = pieces(p.take(j - 1));
        assert(p.take(i).len() == i);
        if p.take(j).last() == SLASH {
        } else {
            assert(pieces(p.take(j)) == q.update(q.len() - 1, q.last().push(p.take(j).last())));
        }
    }
}

pub open spec fn volumes_name() -> Seq<u8> {
    seq![86u8, 111u8, 108u8, 117u8, 109u8, 101u8, 115u8]
}

/// `/Volumes/<name>` exactly.
pub open spec fn direct_volume_root_spec(p: Seq<u8>) -> bool {
    let c = components(p);
    c.len() == 3 && c[0] == Comp::Root && c[1] == Comp::Normal(volumes_name()) && c[2] is Normal
}

pub fn direct_volume_root(p: &[u8]) -> (r: bool)
    ensures
        r == direct_volume_root_spec(p@),
{
    let c = components_of(p);
    if c.len() != 3 {
        return false;
    }
    let volumes: [u8; 7] = [86, 111, 108, 117, 109, 101, 115];
    assert(volumes@ =~= volumes_name());
    proof {
        assert(comps_view(c@)[0] == c@[0]@);
        assert(comps_view(c@)[1] == c@[1]@);
        assert(comps_view(c@)[2] == c@[2]@);
    }
    let first = match &c[0] {
        Component::RootDir => true,
        _ => false,
    };
    let second = match &c[1] {
        Component::Normal(b) => crate::bytes::bytes_eq(b.as_slice(), volumes.as_slice()),
        _ => false,
    };
    let third = match &c[2] {
        Component::Normal(_) => true,
        _ => false,
    };
    first && second && third
}

/// The shape checks made before a folder is looked at on disk.
pub open spec fn folder_shape_spec(p: Seq<u8>) -> Result<(), FolderBlock> {
    if !has_root(p) {
        Err(FolderBlock::NotAbsolute)
    } else if raw_dot_piece(p) {
        Err(FolderBlock::DotComponent)
    } else if same_path(p, seq![SLASH]) || same_path(p, data_root_bytes())
        || direct_volume_root_spec(p) {
        Err(FolderBlock::WholeVolume)
    } else {
        Ok(())
    }
}

pub fn classify_folder_shape(p: &[u8]) -> (r: Result<(), FolderBlock>)
    ensures
        r == folder_shape_spec(p@),
{
    if !(p.len() > 0 && p[0] == SLASH) {
        return Err(FolderBlock::NotAbsolute);
    }
    if has_raw_dot_component(p) {
        return Err(FolderBlock::DotComponent);
    }
    let slash: Vec<u8> = vec![SLASH];
    let data_root: Vec<u8> = vec![47u8, 83u8, 121u8, 115u8, 116u8, 101u8, 109u8, 47u8, 86u8, 111u8, 108u8, 117u8, 109u8,
        101u8, 115u8, 47u8, 68u8, 97u8, 116u8, 97u8];
    assert(data_root@ =~= data_root_bytes());
    assert(slash@ =~= seq![SLASH]);
    if path_eq(p, slash.as_slice()) || path_eq(p, data_root.as_slice()) || direct_volume_root(p) {
        return Err(FolderBlock::WholeVolume);
    }
    Ok(())
}

/// Only local filesystems of no network type may be inspected.
pub fn classify_filesystem(filesystem: &LocalFilesystem) -> (r: Result<(), FolderBlock>)
    ensures
        r is Ok <==> (filesystem.local && !is_remote_fs(filesystem.fs_type@)),
        r is Err ==> r == Err::<(), FolderBlock>(FolderBlock::Network),
{
    if eligible_mount(filesystem.fs_type.as_str(), filesystem.local, false) {
        Ok(())
    } else {
        Err(FolderBlock::Network)
    }
}

/// What reading a folder's own entry, without following a link, found.
#[derive(Clone, Copy, Debug, PartialEq, Eq)]
pub enum FolderEntry {
    NotFound,
    Unreadable,
    Found { is_symlink: bool, is_dir: bool, device_id: u64, inode: u64 },
}

/// What the checks on disk found for a chosen folder.
pub struct FolderProbe {
    pub entry: FolderEntry,
    /// Whether a folder above it is a link; `None` when one of them could
    /// not be read.
    pub ancestor_symlink: Option<bool>,
    /// The filesystem that holds it; `None` when it could not be read.
    pub filesystem: Option<LocalFilesystem>,
}

/// The name a folder is shown by: its last component, when that is a name.
pub open spec fn folder_name(p: Seq<u8>) -> Option<Seq<u8>> {
    let c = components(p);
    if c.len() > 0 && c.last() is Normal {
        Some(c.last()->Normal_0)
    } else {
        None
    }
}

/// Whether a chosen folder may be inspected, in the order the checks are
/// made: its path, its own entry, the folders above it, its filesystem,
/// and that it has a name.
pub open spec fn folder_check_spec(path: Seq<u8>, probe: FolderProbe) -> Result<(), FolderBlock> {
    match folder_shape_spec(path) {
        Err(e) => Err(e),
        Ok(_) => match probe.entry {
            FolderEntry::NotFound => Err(FolderBlock::Missing),
            FolderEntry::Unreadable => Err(FolderBlock::Unavailable),
            FolderEntry::Found { is_symlink, is_dir, .. } => {
                if is_symlink {
                    Err(FolderBlock::Symlink)
                } else if !is_dir {
                    Err(FolderBlock::NotDirectory)
                } else {
                    match probe.ancestor_symlink {
                        None => Err(FolderBlock::Unavailable),
                        Some(true) => Err(FolderBlock::SymlinkAncestor),
                        Some(false) => match probe.filesystem {
                            None => Err(FolderBlock::Unavailable),
                            Some(fs) => if !(fs.local && !is_remote_fs(fs.fs_type@)) {
                                Err(FolderBlock::Network)
                            } else if folder_name(path) is None {
                                Err(FolderBlock::WholeVolume)
                            } else {
                                Ok(())
                            },
                        },
                    }
                }
            },
        },
    }
}

/// The folder to inspect, from its path and what the checks on disk found:
/// named by its last component, with the filesystem's figures and the
/// entry's device and inode; or the first check it fails.
pub fn inspect_folder(path: Vec<u8>, probe: FolderProbe) -> (r: Result<FolderTarget, FolderBlock>)
    ensures
        r is Ok <==> folder_check_spec(path@, probe) is Ok,
        r is Err ==> r->Err_0 == folder_check_spec(path@, probe)->Err_0,
        r is Ok ==> ({
            let t = r->Ok_0;
            let fs = probe.filesystem->Some_0;
            &&& t.name@ == lossy_text(folder_name(path@)->Some_0)
            &&& t.path@ == path@
            &&& t.fs_type@ == fs.fs_type@
            &&& t.total_bytes == fs.total_bytes
            &&& t.free_bytes == fs.free_bytes
            &&& t.read_only == fs.read_only
            &&& probe.entry matches FolderEntry::Found { device_id, inode, .. }
            &&& t.device_id == device_id
            &&& t.inode == inode
        }),
{
    match classify_folder_shape(path.as_slice()) {
        Err(e) => {
            return Err(e);
        },
        Ok(_) => {},
    }
    let (device_id, inode) = match probe.entry {
        FolderEntry::NotFound => {
            return Err(FolderBlock::Missing);
        },
        FolderEntry::Unreadable => {
            return Err(FolderBlock::Unavailable);
        },
        FolderEntry::Found { is_symlink, is_dir, device_id, inode } => {
            if is_symlink {
                return Err(FolderBlock::Symlink);
            }
            if !is_dir {
                return Err(FolderBlock::NotDirectory);
            }
            (device_id, inode)
        },
    };
    match probe.ancestor_symlink {
        None => {
            return Err(FolderBlock::Unavailable);
        },
        Some(true) => {
            return Err(FolderBlock::SymlinkAncestor);
        },
        Some(false) => {},
    }
    let filesystem = match probe.filesystem {
        None => {
            return Err(FolderBlock::Unavailable);
        },
        Some(fs) => fs,
    };
    match classify_filesystem(&filesystem) {
        Err(e) => {
            return Err(e);
        },
        Ok(_) => {},
    }
    let mut comps = components_of(path.as_slice());
    let ghost cv = comps_view(comps@);
    let last = match comps.pop() {
        Some(c) => c,
        None => {
            return Err(FolderBlock::WholeVolume);
        },
    };
    proof {
        assert(cv.last() == last@);
    }
    let name = match last {
        Component::Normal(b) => lossy_string(b.as_slice()),
        _ => {
            return Err(FolderBlock::WholeVolume);
        },
    };
    Ok(FolderTarget {
        name,
        path,
        fs_type: filesystem.fs_type,
        total_bytes: filesystem.total_bytes,
        free_bytes: filesystem.free_bytes,
        read_only: filesystem.read_only,
        device_id,
        inode,
    })
}

/// The same folder: same path, filesystem type, device and inode.
pub fn is_same_folder(expected: &FolderTarget, current: &FolderTarget) -> (r: bool)
    ensures
        r == (same_path(expected.path@, current.path@) && expected.fs_type@ == current.fs_type@
            && expected.device_id == current.device_id && expected.inode == current.inode),
{
    path_eq(expected.path.as_slice(), current.path.as_slice()) && str_eq(
        expected.fs_type.as_str(),
        current.fs_type.as_str(),
    ) && expected.device_id == current.device_id && expected.inode == current.inode
}

#[derive(Clone, Copy, Debug, PartialEq, Eq, Structural)]
pub enum PickerError {
    Unsupported,
    EmptyPath,
}

pub open spec fn picker_error_text(e: PickerError) -> Seq<char> {
    match e {
        PickerError::Unsupported => "folder picker returned an unsupported response"@,
        PickerError::EmptyPath => "folder picker returned an empty path"@,
    }
}

impl PickerError {
    pub fn message(self) -> (m: &'static str)
        ensures
            m@ == picker_error_text(self),
    {
        match self {
            PickerError::Unsupported => "folder picker returned an unsupported response",
            PickerError::EmptyPath => "folder picker returned an empty path",
        }
    }
}

/// The output without one final `\n`, and then one `\r` before it.
pub open spec fn strip_line_end(b: Seq<u8>) -> Seq<u8> {
    if b.len() > 0 && b.last() == 10u8 {
        let c = b.drop_last();
        if c.len() > 0 && c.last() == 13u8 {
            c.drop_last()
        } else {
            c
        }
    } else {
        b
    }
}

pub open spec fn cancel_bytes() -> Seq<u8> {
    seq![67u8, 65u8, 78u8, 67u8, 69u8, 76u8]
}

pub open spec fn path_tag_bytes() -> Seq<u8> {
    seq![80u8, 65u8, 84u8, 72u8, 58u8]
}

/// What the folder picker's answer means: `CANCEL` is no choice, `PATH:<p>`
/// is the folder `p` (any bytes), anything else is refused.
pub open spec fn picker_spec(b: Seq<u8>) -> Result<Option<Seq<u8>>, PickerError> {
    let s = strip_line_end(b);
    if s == cancel_bytes() {
        Ok(None)
    } else if s.len() >= 5 && s.take(5) == path_tag_bytes() {
        if s.len() == 5 {
            Err(PickerError::EmptyPath)
        } else {
            Ok(Some(s.skip(5)))
        }
    } else {
        Err(PickerError::Unsupported)
    }
}

pub fn parse_picker_output(bytes: Vec<u8>) -> (r: Result<Option<Vec<u8>>, PickerError>)
    ensures
        match picker_spec(bytes@) {
            Ok(None) => r == Ok::<Option<Vec<u8>>, PickerError>(None),
            Ok(Some(p)) => r is Ok && r->Ok_0 is Some && r->Ok_0->Some_0@ == p,
            Err(e) => r == Err::<Option<Vec<u8>>, PickerError>(e),
        },
{
    let mut bytes = bytes;
    let ghost orig = bytes@;
    if bytes.len() > 0 && bytes[bytes.len() - 1] == 10u8 {
        bytes.pop();
        if bytes.len() > 0 && bytes[bytes.len() - 1] == 13u8 {
            bytes.pop();
        }
    }
    assert(bytes@ =~= strip_line_end(orig));
    let cancel: [u8; 6] = [67, 65, 78, 67, 69, 76];
    let tag: [u8; 5] = [80, 65, 84, 72, 58];
    assert(cancel@ =~= cancel_bytes());
    assert(tag@ =~= path_tag_bytes());
    if crate::bytes::bytes_eq(bytes.as_slice(), cancel.as_slice()) {
        return Ok(None);
    }
    if !crate::paths::starts_with_bytes(bytes.as_slice(), tag.as_slice()) {
        return Err(PickerError::Unsupported);
    }
    if bytes.len() == 5 {
        return Err(PickerError::EmptyPath);
    }
    let path = crate::bytes::copy_range(bytes.as_slice(), 5, bytes.len() - 5);
    assert(path@ =~= bytes@.skip(5));
    Ok(Some(path))
}

} // verus!
