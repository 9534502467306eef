//! The scanned tree, held as an arena of nodes.
//!
//! Node 0 is the root. A node lists its children by index, and every child
//! index is greater than its parent's, so walks over the tree end. The parent
//! link of a node is kept as it was given and is only followed for
//! breadcrumbs, which stop after a bounded number of steps.

use std::collections::HashSet;
use vstd::prelude::*;
use crate::paths::{join_spec, join_path, components, components_of, comps_view, comps_prefix, components_start_with, components_eq, Comp, Component};
use crate::text::{str_eq, lossy_text, lossy_string, owned};

verus! {

/// The APFS data volume, scanned instead of `/` so firmlinks count once.
pub const DATA_ROOT: &'static str = "/System/Volumes/Data";

/// Directories below this size are folded into their parent after a scan.
pub const KEEP_DIR_BYTES: i64 = 10485760;

/// Files below this size are never nodes of their own.
pub const KEEP_FILE_BYTES: i64 = 104857600;

/// Where a scan stands.
#[derive(Clone, Copy, Debug, PartialEq, Eq, Structural)]
pub enum ScanState {
    Idle,
    Running,
    Done,
    Aborted,
}

pub open spec fn state_code(s: ScanState) -> u8 {
    match s {
        ScanState::Idle => 0u8,
        ScanState::Running => 1u8,
        ScanState::Done => 2u8,
        ScanState::Aborted => 3u8,
    }
}

impl ScanState {
    /// The number a running scan stores for its state.
    pub fn code(self) -> (c: u8)
        ensures
            c == state_code(self),
    {
        match self {
            ScanState::Idle => 0,
            ScanState::Running => 1,
            ScanState::Done => 2,
            ScanState::Aborted => 3,
        }
    }

    /// The state a stored number stands for; an unknown number reads as idle.
    pub fn from_code(code: u8) -> (s: ScanState)
        ensures
            code == 1 ==> s == ScanState::Running,
            code == 2 ==> s == ScanState::Done,
            code == 3 ==> s == ScanState::Aborted,
            code != 1 && code != 2 && code != 3 ==> s == ScanState::Idle,
            code < 4 ==> state_code(s) == code,
    {
        match code {
            1 => ScanState::Running,
            2 => ScanState::Done,
            3 => ScanState::Aborted,
            _ => ScanState::Idle,
        }
    }
}

pub struct Node {
    pub name: String,
    pub path: Vec<u8>,
    pub is_dir: bool,
    pub bytes: i64,
    pub files: i64,
    pub small_bytes: i64,
    pub small_count: i64,
    pub denied: bool,
    pub parent: Option<usize>,
    pub children: Vec<usize>,
}

impl Node {
    pub fn bytes(&self) -> (r: i64)
        ensures
            r == self.bytes,
    {
        self.bytes
    }

    pub fn files(&self) -> (r: i64)
        ensures
            r == self.files,
    {
        self.files
    }

    /// The indices of the children, in order.
    pub fn kids(&self) -> (r: Vec<usize>)
        ensures
            r@ == self.children@,
    {
        self.children.clone()
    }
}

/// What a scan reads of a directory entry, without following links.
#[derive(Clone, Copy, Debug, PartialEq, Eq)]
pub struct ScanEntryInfo {
    pub dev: u64,
    pub is_dir: bool,
    /// The 512-byte blocks it takes on disk.
    pub blocks: u64,
    /// How many names the file has.
    pub nlink: u64,
    pub ino: u64,
}

/// What a scan does with a directory entry.
#[derive(Clone, Copy, Debug, PartialEq, Eq, Structural)]
pub enum EntryPlan {
    /// Not counted: on another volume, or another name of a file already
    /// counted.
    Skip,
    /// A directory to scan as a node of its own.
    Descend,
    /// A file large enough to be a node of its own, with its bytes on disk.
    Leaf(i64),
    /// A file counted into its directory's small-file aggregate.
    Small(i64),
}

/// The bytes on disk of `blocks` 512-byte blocks.
pub open spec fn disk_bytes(blocks: u64) -> int {
    blocks * 512
}

/// What the scan of a volume does with an entry: it never leaves the
/// volume, enters directories, counts a file with several names once, and
/// keeps files of at least `KEEP_FILE_BYTES` as nodes.
pub open spec fn entry_plan_spec(dev: u64, info: ScanEntryInfo, seen: Set<u64>) -> EntryPlan {
    if info.dev != dev {
        EntryPlan::Skip
    } else if info.is_dir {
        EntryPlan::Descend
    } else if info.nlink > 1 && seen.contains(info.ino) {
        EntryPlan::Skip
    } else if disk_bytes(info.blocks) >= KEEP_FILE_BYTES {
        EntryPlan::Leaf(disk_bytes(info.blocks) as i64)
    } else {
        EntryPlan::Small(disk_bytes(info.blocks) as i64)
    }
}

/// Decides what to do with an entry of a directory on volume `dev`; `seen`
/// holds the inodes of the files with several names counted so far.
pub fn plan_entry(dev: u64, info: ScanEntryInfo, seen: &mut HashSet<u64>) -> (r: EntryPlan)
    requires
        disk_bytes(info.blocks) <= i64::MAX,
    ensures
        r == entry_plan_spec(dev, info, old(seen)@),
        final(seen)@ == if info.dev == dev && !info.is_dir && info.nlink > 1 {
            old(seen)@.insert(info.ino)
        } else {
            old(seen)@
        },
{
    broadcast use vstd::std_specs::hash::group_hash_axioms;

    if info.dev != dev {
        return EntryPlan::Skip;
    }
    if info.is_dir {
        return EntryPlan::Descend;
    }
    if info.nlink > 1 && !seen.insert(info.ino) {
        assert(final(seen)@ =~= old(seen)@.insert(info.ino));
        return EntryPlan::Skip;
    }
    let size = (info.blocks as i64) * 512;
    if size >= KEEP_FILE_BYTES {
        EntryPlan::Leaf(size)
    } else {
        EntryPlan::Small(size)
    }
}

/// A file with several names is counted under the first of them only.
pub proof fn lemma_hardlink_counted_once(dev: u64, a: ScanEntryInfo, b: ScanEntryInfo, seen: Set<u64>)
    requires
        a.dev == dev,
        b.dev == dev,
        !a.is_dir,
        !b.is_dir,
        a.nlink > 1,
        b.nlink > 1,
        a.ino == b.ino,
    ensures
        entry_plan_spec(dev, b, seen.insert(a.ino)) == EntryPlan::Skip,
{
}

/// Whether every child of node `i` has a greater index that is in range.
pub open spec fn children_ok(nodes: Seq<Node>, i: int) -> bool {
    forall|k: int|
        0 <= k < nodes[i].children@.len() ==> i < #[trigger] nodes[i].children@[k] < nodes.len()
}

pub open spec fn nodes_wf(nodes: Seq<Node>) -> bool {
    &&& nodes.len() > 0
    &&& forall|i: int| 0 <= i < nodes.len() ==> #[trigger] children_ok(nodes, i)
}

pub struct ScanTree {
    nodes: Vec<Node>,
}

impl View for ScanTree {
    type V = Seq<Node>;

    closed spec fn view(&self) -> Seq<Node> {
        self.nodes@
    }
}

/// The nodes reached from the children of `i`, from its `k`-th child on, in
/// depth-first order; only directories are entered.
pub open spec fn walk(nodes: Seq<Node>, i: int, k: int) -> Seq<usize>
    decreases nodes.len() - i, nodes[i].children@.len() - k,
{
    if 0 <= i < nodes.len() && 0 <= k < nodes[i].children@.len() {
        let c = nodes[i].children@[k];
        if i < c < nodes.len() {
            let inner = if nodes[c as int].is_dir {
                walk(nodes, c as int, 0)
            } else {
                Seq::empty()
            };
            seq![c] + inner + walk(nodes, i, k + 1)
        } else {
            walk(nodes, i, k + 1)
        }
    } else {
        Seq::empty()
    }
}

/// Every node below `i` in a walk has a valid index.
pub proof fn lemma_walk_in_range(nodes: Seq<Node>, i: int, k: int)
    ensures
        forall|j: int| 0 <= j < walk(nodes, i, k).len() ==> #[trigger] walk(nodes, i, k)[j] < nodes.len(),
    decreases nodes.len() - i, nodes[i].children@.len() - k,
{
    if 0 <= i < nodes.len() && 0 <= k < nodes[i].children@.len() {
        let c = nodes[i].children@[k];
        lemma_walk_in_range(nodes, i, k + 1);
        if i < c < nodes.len() {
            let inner = if nodes[c as int].is_dir {
                walk(nodes, c as int, 0)
            } else {
                Seq::empty()
            };
            if nodes[c as int].is_dir {
                lemma_walk_in_range(nodes, c as int, 0);
            }
            let rest = walk(nodes, i, k + 1);
            let w = seq![c] + inner + rest;
            assert(inner.len() >= 0);
            assert(walk(nodes, i, k) == w);
            assert forall|j: int| 0 <= j < w.len() implies #[trigger] w[j] < nodes.len() by {
                if j == 0 {
                } else if j < 1 + inner.len() {
                    assert(w[j] == inner[j - 1]);
                } else {
                    assert(w[j] == rest[j - 1 - inner.len()]);
                }
            }
        } else {
            assert(walk(nodes, i, k) == walk(nodes, i, k + 1));
        }
    } else {
        assert(walk(nodes, i, k).len() == 0);
    }
}

impl ScanTree {
    pub closed spec fn wf(&self) -> bool {
        nodes_wf(self.nodes@)
    }

    pub proof fn lemma_wf(&self)
        requires
            self.wf(),
        ensures
            nodes_wf(self@),
    {
    }

    /// A tree holding only its root directory.
    pub fn with_root(name: String, path: Vec<u8>, bytes: i64, files: i64) -> (t: ScanTree)
        ensures
            t.wf(),
            t@.len() == 1,
            t@[0].name == name,
            t@[0].path == path,
            t@[0].is_dir,
            t@[0].bytes == bytes,
            t@[0].files == files,
            t@[0].small_bytes == 0,
            t@[0].small_count == 0,
            !t@[0].denied,
            t@[0].parent is None,
            t@[0].children@.len() == 0,
    {
        let root = Node {
            name,
            path,
            is_dir: true,
            bytes,
            files,
            small_bytes: 0,
            small_count: 0,
            denied: false,
            parent: None,
            children: Vec::new(),
        };
        let mut nodes: Vec<Node> = Vec::new();
        nodes.push(root);
        ScanTree { nodes }
    }

    pub fn len(&self) -> (n: usize)
        ensures
            n == self@.len(),
    {
        self.nodes.len()
    }

    pub fn node(&self, i: usize) -> (n: &Node)
        requires
            i < self@.len(),
        ensures
            *n == self@[i as int],
    {
        &self.nodes[i]
    }

    /// Appends `node` with no children. When its parent link names an earlier
    /// node, it becomes that node's last child; any other parent link is kept
    /// as given and attaches it nowhere.
    pub fn push_node(&mut self, node: Node) -> (i: usize)
        requires
            old(self).wf(),
            node.children@.len() == 0,
            old(self)@.len() < usize::MAX,
        ensures
            final(self).wf(),
            i == old(self)@.len(),
            final(self)@.len() == old(self)@.len() + 1,
            final(self)@[i as int] == node,
            forall|j: int|
                0 <= j < old(self)@.len() && (node.parent != Some(j as usize)) ==> final(self)@[j]
                    == old(self)@[j],
            match node.parent {
                Some(p) => p < i ==> {
                    &&& final(self)@[p as int].children@ == old(self)@[p as int].children@.push(i)
                    &&& final(self)@[p as int].name == old(self)@[p as int].name
                    &&& final(self)@[p as int].path == old(self)@[p as int].path
                    &&& final(self)@[p as int].is_dir == old(self)@[p as int].is_dir
                    &&& final(self)@[p as int].bytes == old(self)@[p as int].bytes
                    &&& final(self)@[p as int].files == old(self)@[p as int].files
                    &&& final(self)@[p as int].small_bytes == old(self)@[p as int].small_bytes
                    &&& final(self)@[p as int].small_count == old(self)@[p as int].small_count
                    &&& final(self)@[p as int].denied == old(self)@[p as int].denied
                    &&& final(self)@[p as int].parent == old(self)@[p as int].parent
                },
                None => true,
            },
    {
        let i = self.nodes.len();
        let parent = node.parent;
        self.nodes.push(node);
        proof {
            assert forall|j: int| 0 <= j < self.nodes@.len() implies #[trigger] children_ok(
                self.nodes@,
                j,
            ) by {
                if j < i {
                    assert(children_ok(old(self).nodes@, j));
                    assert(self.nodes@[j] == old(self).nodes@[j]);
                }
            }
        }
        match parent {
            Some(p) => {
                if p < i {
                    let ghost before = self.nodes@;
                    self.nodes[p].children.push(i);
                    proof {
                        assert forall|j: int| 0 <= j < self.nodes@.len() implies #[trigger] children_ok(
                            self.nodes@,
                            j,
                        ) by {
                            assert(children_ok(before, j));
                            if j != p {
                                assert(self.nodes@[j] == before[j]);
                            } else {
                                assert(self.nodes@[j].children@ == before[j].children@.push(i));
                            }
                        }
                    }
                }
            },
            None => {},
        }
        i
    }

    /// Adds a child named `name` below `parent`; its path is the parent's path
    /// joined with the name.
    pub fn add_child(
        &mut self,
        parent: usize,
        name: String,
        is_dir: bool,
        bytes: i64,
        files: i64,
        denied: bool,
    ) -> (i: usize)
        requires
            old(self).wf(),
            parent < old(self)@.len(),
            old(self)@.len() < usize::MAX,
        ensures
            final(self).wf(),
            i == old(self)@.len(),
            final(self)@.len() == old(self)@.len() + 1,
            final(self)@[i as int].name == name,
            final(self)@[i as int].path@ == join_spec(
                old(self)@[parent as int].path@,
                vstd::utf8::encode_utf8(name@),
            ),
            final(self)@[i as int].is_dir == is_dir,
            final(self)@[i as int].bytes == bytes,
            final(self)@[i as int].files == files,
            final(self)@[i as int].denied == denied,
            final(self)@[i as int].small_bytes == 0,
            final(self)@[i as int].small_count == 0,
            final(self)@[i as int].parent == Some(parent),
            final(self)@[i as int].children@.len() == 0,
            final(self)@[parent as int].children@ == old(self)@[parent as int].children@.push(i),
            forall|j: int| 0 <= j < old(self)@.len() && j != parent ==> final(self)@[j] == old(self)@[j],
    {
        let path = join_path(self.nodes[parent].path.as_slice(), name.as_str().as_bytes());
        let node = Node {
            name,
            path,
            is_dir,
            bytes,
            files,
            small_bytes: 0,
            small_count: 0,
            denied,
            parent: Some(parent),
            children: Vec::new(),
        };
        self.push_node(node)
    }

    /// Sets a node's measured size, as the scanner does when a directory's
    /// contents are counted.
    pub fn set_size(&mut self, i: usize, bytes: i64, files: i64)
        requires
            old(self).wf(),
            i < old(self)@.len(),
        ensures
            final(self).wf(),
            final(self)@.len() == old(self)@.len(),
            final(self)@[i as int].bytes == bytes,
            final(self)@[i as int].files == files,
            final(self)@[i as int].children == old(self)@[i as int].children,
            final(self)@[i as int].name == old(self)@[i as int].name,
            final(self)@[i as int].path == old(self)@[i as int].path,
            final(self)@[i as int].is_dir == old(self)@[i as int].is_dir,
            final(self)@[i as int].denied == old(self)@[i as int].denied,
            final(self)@[i as int].parent == old(self)@[i as int].parent,
            final(self)@[i as int].small_bytes == old(self)@[i as int].small_bytes,
            final(self)@[i as int].small_count == old(self)@[i as int].small_count,
            forall|j: int| 0 <= j < old(self)@.len() && j != i ==> final(self)@[j] == old(self)@[j],
    {
        self.nodes[i].bytes = bytes;
        self.nodes[i].files = files;
        proof {
            assert forall|j: int| 0 <= j < self.nodes@.len() implies #[trigger] children_ok(
                self.nodes@,
                j,
            ) by {
                assert(children_ok(old(self).nodes@, j));
            }
        }
    }

    /// Counts a file too small to be a node of its own into node `i`'s
    /// aggregates, wrapping as an atomic counter does.
    pub fn add_small(&mut self, i: usize, bytes: i64, count: i64)
        requires
            old(self).wf(),
            i < old(self)@.len(),
        ensures
            final(self).wf(),
            final(self)@.len() == old(self)@.len(),
            final(self)@[i as int].small_bytes == old(self)@[i as int].small_bytes.wrapping_add(bytes),
            final(self)@[i as int].small_count == old(self)@[i as int].small_count.wrapping_add(count),
            final(self)@[i as int].children == old(self)@[i as int].children,
            final(self)@[i as int].name == old(self)@[i as int].name,
            final(self)@[i as int].path == old(self)@[i as int].path,
            final(self)@[i as int].is_dir == old(self)@[i as int].is_dir,
            final(self)@[i as int].bytes == old(self)@[i as int].bytes,
            final(self)@[i as int].files == old(self)@[i as int].files,
            final(self)@[i as int].denied == old(self)@[i as int].denied,
            final(self)@[i as int].parent == old(self)@[i as int].parent,
            forall|j: int| 0 <= j < old(self)@.len() && j != i ==> final(self)@[j] == old(self)@[j],
    {
        let sb = self.nodes[i].small_bytes.wrapping_add(bytes);
        let sc = self.nodes[i].small_count.wrapping_add(count);
        self.nodes[i].small_bytes = sb;
        self.nodes[i].small_count = sc;
        proof {
            assert forall|j: int| 0 <= j < self.nodes@.len() implies #[trigger] children_ok(self.nodes@, j) by {
                assert(children_ok(old(self).nodes@, j));
            }
        }
    }

    /// Marks node `i` as a folder the scan could not read.
    pub fn set_denied(&mut self, i: usize)
        requires
            old(self).wf(),
            i < old(self)@.len(),
        ensures
            final(self).wf(),
            final(self)@.len() == old(self)@.len(),
            final(self)@[i as int].denied,
            final(self)@[i as int].children == old(self)@[i as int].children,
            final(self)@[i as int].name == old(self)@[i as int].name,
            final(self)@[i as int].path == old(self)@[i as int].path,
            final(self)@[i as int].is_dir == old(self)@[i as int].is_dir,
            final(self)@[i as int].bytes == old(self)@[i as int].bytes,
            final(self)@[i as int].files == old(self)@[i as int].files,
            final(self)@[i as int].small_bytes == old(self)@[i as int].small_bytes,
            final(self)@[i as int].small_count == old(self)@[i as int].small_count,
            final(self)@[i as int].parent == old(self)@[i as int].parent,
            forall|j: int| 0 <= j < old(self)@.len() && j != i ==> final(self)@[j] == old(self)@[j],
    {
        self.nodes[i].denied = true;
        proof {
            assert forall|j: int| 0 <= j < self.nodes@.len() implies #[trigger] children_ok(self.nodes@, j) by {
                assert(children_ok(old(self).nodes@, j));
            }
        }
    }

    /// Appends to `out` the nodes of `walk(self@, i, 0)`, in order.
    pub fn walk_into(&self, i: usize, out: &mut Vec<usize>)
        requires
            self.wf(),
            i < self@.len(),
        ensures
            final(out)@ == old(out)@ + walk(self@, i as int, 0),
        decreases self@.len() - i,
    {
        let n = self.nodes[i].children.len();
        let mut k: usize = 0;
        proof {
            assert(old(out)@ + walk(self@, i as int, 0) =~= out@ + walk(self@, i as int, 0));
        }
        while k < n
            invariant
                self.wf(),
                i < self@.len(),
                n == self@[i as int].children@.len(),
                k <= n,
                old(out)@ + walk(self@, i as int, 0) == out@ + walk(self@, i as int, k as int),
            decreases n - k,
        {
            let c = self.nodes[i].children[k];
            proof {
                assert(children_ok(self@, i as int));
            }
            out.push(c);
            if self.nodes[c].is_dir {
                self.walk_into(c, out);
            }
            proof {
                let inner = if self@[c as int].is_dir {
                    walk(self@, c as int, 0)
                } else {
                    Seq::empty()
                };
                assert(walk(self@, i as int, k as int) == seq![c] + inner + walk(
                    self@,
                    i as int,
                    k + 1,
                ));
            }
            k += 1;
        }
        proof {
            assert(out@ + walk(self@, i as int, n as int) =~= out@);
        }
    }
}

// ───────────────────────── finding nodes by path ─────────────────────────

/// The text a path component reads as when compared with node names.
pub open spec fn comp_text(c: Comp) -> Seq<char> {
    match c {
        Comp::Root => seq!['/'],
        Comp::Cur => seq!['.'],
        Comp::Parent => seq!['.', '.'],
        Comp::Normal(b) => lossy_text(b),
    }
}

/// The first child of `i`, from its `k`-th child on, whose name is `name`.
pub open spec fn child_named(nodes: Seq<Node>, i: int, name: Seq<char>, k: int) -> Option<usize>
    decreases nodes[i].children@.len() - k,
{
    if 0 <= k < nodes[i].children@.len() {
        let c = nodes[i].children@[k];
        if nodes[c as int].name@ == name {
            Some(c)
        } else {
            child_named(nodes, i, name, k + 1)
        }
    } else {
        None
    }
}

/// The node reached from `i` by following the named segments `segs`.
pub open spec fn follow(nodes: Seq<Node>, i: int, segs: Seq<Comp>) -> Option<usize>
    decreases segs.len(),
{
    if segs.len() == 0 {
        Some(i as usize)
    } else {
        match child_named(nodes, i, comp_text(segs[0]), 0) {
            Some(c) => follow(nodes, c as int, segs.drop_first()),
            None => None,
        }
    }
}

/// The node at `path` below `root`: the root itself when the paths have the
/// same components, else the child reached segment by segment.
pub open spec fn lookup_spec(nodes: Seq<Node>, root: int, path: Seq<u8>) -> Option<usize> {
    let rc = components(nodes[root].path@);
    let pc = components(path);
    if pc == rc {
        Some(root as usize)
    } else if comps_prefix(rc, pc) {
        follow(nodes, root, pc.skip(rc.len() as int))
    } else {
        None
    }
}

fn child_named_exec(tree: &ScanTree, i: usize, name: &str) -> (r: Option<usize>)
    requires
        tree.wf(),
        i < tree@.len(),
    ensures
        r == child_named(tree@, i as int, name@, 0),
        r matches Some(c) ==> i < c < tree@.len(),
{
    let kids = &tree.node(i).children;
    let n = kids.len();
    let mut k: usize = 0;
    proof {
        tree.lemma_wf();
        assert(children_ok(tree@, i as int));
    }
    while k < n
        invariant
            tree.wf(),
            nodes_wf(tree@),
            i < tree@.len(),
            *kids == tree@[i as int].children,
            n == kids@.len(),
            k <= n,
            child_named(tree@, i as int, name@, 0) == child_named(tree@, i as int, name@, k as int),
        decreases n - k,
    {
        let c = kids[k];
        proof {
            assert(children_ok(tree@, i as int));
        }
        if str_eq(tree.node(c).name.as_str(), name) {
            return Some(c);
        }
        k += 1;
    }
    None
}

/// Finds the node at `path`, walking one segment at a time from `root`.
pub fn lookup(tree: &ScanTree, root: usize, path: &[u8]) -> (r: Option<usize>)
    requires
        tree.wf(),
        root < tree@.len(),
    ensures
        r == lookup_spec(tree@, root as int, path@),
        r matches Some(j) ==> j < tree@.len(),
{
    let rc = components_of(tree.node(root).path.as_slice());
    let pc = components_of(path);
    if components_eq(&pc, &rc) {
        return Some(root);
    }
    if !components_start_with(&pc, &rc) {
        return None;
    }
    let ghost segs_all = comps_view(pc@).skip(rc@.len() as int);
    let mut cur = root;
    let mut s: usize = rc.len();
    proof {
        assert(comps_view(pc@).skip(s as int) == segs_all);
    }
    while s < pc.len()
        invariant
            tree.wf(),
            cur < tree@.len(),
            rc@.len() <= s <= pc@.len(),
            segs_all == comps_view(pc@).skip(rc@.len() as int),
            comps_view(pc@) == components(path@),
            comps_view(rc@) == components(tree@[root as int].path@),
            comps_view(pc@) != comps_view(rc@),
            comps_prefix(comps_view(rc@), comps_view(pc@)),
            root < tree@.len(),
            follow(tree@, root as int, segs_all) == follow(
                tree@,
                cur as int,
                comps_view(pc@).skip(s as int),
            ),
        decreases pc@.len() - s,
    {
        let seg = &pc[s];
        let text = match seg {
            Component::RootDir => owned("/"),
            Component::CurDir => owned("."),
            Component::ParentDir => owned(".."),
            Component::Normal(b) => lossy_string(b.as_slice()),
        };
        proof {
            reveal_strlit("/");
            reveal_strlit(".");
            reveal_strlit("..");
            assert(comps_view(pc@).skip(s as int)[0] == seg@);
            assert(text@ == comp_text(seg@));
            assert(comps_view(pc@).skip(s as int).drop_first() =~= comps_view(pc@).skip(s + 1));
        }
        match child_named_exec(tree, cur, text.as_str()) {
            Some(c) => {
                cur = c;
            },
            None => {
                proof {
                    assert(follow(tree@, cur as int, comps_view(pc@).skip(s as int)) == None::<usize>);
                }
                return None;
            },
        }
        s += 1;
    }
    Some(cur)
}

/// The size of the node at `path`, or 0 where there is none.
pub fn size_of(tree: &ScanTree, root: usize, path: &[u8]) -> (r: i64)
    requires
        tree.wf(),
        root < tree@.len(),
    ensures
        r == match lookup_spec(tree@, root as int, path@) {
            Some(j) => tree@[j as int].bytes,
            None => 0,
        },
{
    match lookup(tree, root, path) {
        Some(j) => tree.node(j).bytes,
        None => 0,
    }
}

// ───────────────────────── folders by name ─────────────────────────

/// The directories named `name` below the children of `i`, from its `k`-th
/// child on, in depth-first order; a match is not searched further.
pub open spec fn named_walk(nodes: Seq<Node>, i: int, name: Seq<char>, k: int) -> Seq<usize>
    decreases nodes.len() - i, nodes[i].children@.len() - k,
{
    if 0 <= i < nodes.len() && 0 <= k < nodes[i].children@.len() {
        let c = nodes[i].children@[k];
        if i < c < nodes.len() {
            let here = if !nodes[c as int].is_dir {
                Seq::empty()
            } else if nodes[c as int].name@ == name {
                seq![c]
            } else {
                named_walk(nodes, c as int, name, 0)
            };
            here + named_walk(nodes, i, name, k + 1)
        } else {
            named_walk(nodes, i, name, k + 1)
        }
    } else {
        Seq::empty()
    }
}

/// Larger first; equal sizes keep their order.
pub open spec fn bytes_after(nodes: Seq<Node>) -> spec_fn(usize, usize) -> bool {
    |a: usize, b: usize| nodes[a as int].bytes < nodes[b as int].bytes
}

/// No node's size is `i64::MIN`, so a size can be negated.
pub open spec fn sizes_negatable(nodes: Seq<Node>) -> bool {
    forall|j: int| 0 <= j < nodes.len() ==> (#[trigger] nodes[j]).bytes > i64::MIN
}

/// Whether no size in the tree is `i64::MIN`, so every size can be negated
/// when children are ordered largest first.
pub fn sizes_can_be_negated(tree: &ScanTree) -> (r: bool)
    ensures
        r == sizes_negatable(tree@),
{
    let mut j: usize = 0;
    while j < tree.len()
        invariant
            j <= tree@.len(),
            forall|m: int| 0 <= m < j ==> (#[trigger] tree@[m]).bytes > i64::MIN,
        decreases tree@.len() - j,
    {
        if tree.node(j).bytes == i64::MIN {
            return false;
        }
        j += 1;
    }
    true
}

fn collect_named(tree: &ScanTree, i: usize, name: &str, out: &mut Vec<usize>)
    requires
        tree.wf(),
        i < tree@.len(),
    ensures
        final(out)@ == old(out)@ + named_walk(tree@, i as int, name@, 0),
    decreases tree@.len() - i,
{
    proof {
        tree.lemma_wf();
        assert(children_ok(tree@, i as int));
        assert(old(out)@ + named_walk(tree@, i as int, name@, 0) =~= out@ + named_walk(tree@, i as int, name@, 0));
    }
    let n = tree.node(i).children.len();
    let mut k: usize = 0;
    while k < n
        invariant
            tree.wf(),
            nodes_wf(tree@),
            i < tree@.len(),
            n == tree@[i as int].children@.len(),
            k <= n,
            old(out)@ + named_walk(tree@, i as int, name@, 0) == out@ + named_walk(tree@, i as int, name@, k as int),
        decreases n - k,
    {
        let c = tree.node(i).children[k];
        proof {
            assert(children_ok(tree@, i as int));
        }
        let ghost before = out@;
        let child = tree.node(c);
        if child.is_dir {
            if str_eq(child.name.as_str(), name) {
                out.push(c);
            } else {
                collect_named(tree, c, name, out);
            }
        }
        proof {
            let here = if !tree@[c as int].is_dir {
                Seq::empty()
            } else if tree@[c as int].name@ == name@ {
                seq![c]
            } else {
                named_walk(tree@, c as int, name@, 0)
            };
            assert(named_walk(tree@, i as int, name@, k as int) == here + named_walk(tree@, i as int, name@, k + 1));
            assert(out@ =~= before + here);
            assert(before + named_walk(tree@, i as int, name@, k as int) =~= out@ + named_walk(
                tree@,
                i as int,
                name@,
                k + 1,
            ));
        }
        k += 1;
    }
    proof {
        assert(out@ + named_walk(tree@, i as int, name@, n as int) =~= out@);
    }
}

/// Every node a named walk reaches has a valid index.
pub proof fn lemma_named_walk_in_range(nodes: Seq<Node>, i: int, name: Seq<char>, k: int)
    ensures
        forall|j: int|
            0 <= j < named_walk(nodes, i, name, k).len() ==> #[trigger] named_walk(nodes, i, name, k)[j]
                < nodes.len(),
    decreases nodes.len() - i, nodes[i].children@.len() - k,
{
    if 0 <= i < nodes.len() && 0 <= k < nodes[i].children@.len() {
        let c = nodes[i].children@[k];
        lemma_named_walk_in_range(nodes, i, name, k + 1);
        if i < c < nodes.len() {
            if nodes[c as int].is_dir && nodes[c as int].name@ != name {
                lemma_named_walk_in_range(nodes, c as int, name, 0);
            }
            let here = if !nodes[c as int].is_dir {
                Seq::empty()
            } else if nodes[c as int].name@ == name {
                seq![c]
            } else {
                named_walk(nodes, c as int, name, 0)
            };
            let rest = named_walk(nodes, i, name, k + 1);
            let w = here + rest;
            assert(named_walk(nodes, i, name, k) == w);
            assert forall|j: int| 0 <= j < w.len() implies #[trigger] w[j] < nodes.len() by {
                if j < here.len() {
                    assert(w[j] == here[j]);
                } else {
                    assert(w[j] == rest[j - here.len()]);
                }
            }
        }
    }
}

fn node_bytes_after(ctx: &&ScanTree, a: &usize, b: &usize) -> (r: bool)
    requires
        *a < (**ctx)@.len(),
        *b < (**ctx)@.len(),
    ensures
        r == ((**ctx)@[*a as int].bytes < (**ctx)@[*b as int].bytes),
{
    ctx.node(*a).bytes < ctx.node(*b).bytes
}

/// The directories named `name` below `root`, largest first; a match inside
/// another match is not reported.
pub fn find_dirs_named(tree: &ScanTree, root: usize, name: &str) -> (r: Vec<usize>)
    requires
        tree.wf(),
        root < tree@.len(),
        sizes_negatable(tree@),
    ensures
        r@ == crate::sorting::stable_sort(named_walk(tree@, root as int, name@, 0), bytes_after(tree@)),
        forall|j: int| 0 <= j < r@.len() ==> #[trigger] r@[j] < tree@.len(),
{
    let mut found: Vec<usize> = Vec::new();
    collect_named(tree, root, name, &mut found);
    proof {
        assert(found@ =~= named_walk(tree@, root as int, name@, 0));
        lemma_named_walk_in_range(tree@, root as int, name@, 0);
    }
    let ghost unsorted = found@;
    let ghost ok = |j: usize| j < tree@.len();
    let sorted = crate::sorting::sort_stable_with(found, &tree, node_bytes_after, Ghost(bytes_after(tree@)), Ghost(ok));
    proof {
        crate::sorting::lemma_stable_sort_len(unsorted, bytes_after(tree@));
    }
    sorted
}

// ───────────────────────── compaction ─────────────────────────

/// A directory small enough to fold into its parent: below 10 MiB and readable.
pub open spec fn folded(n: Node) -> bool {
    n.is_dir && n.bytes < KEEP_DIR_BYTES && !n.denied
}

/// The children in `kids` that are not folded, in order.
pub open spec fn kept_children(nodes: Seq<Node>, kids: Seq<usize>) -> Seq<usize>
    decreases kids.len(),
{
    if kids.len() == 0 {
        Seq::empty()
    } else {
        let rest = kept_children(nodes, kids.drop_last());
        if folded(nodes[kids.last() as int]) {
            rest
        } else {
            rest.push(kids.last())
        }
    }
}

/// `acc` plus the bytes of the folded children in `kids`, wrapping as an
/// atomic counter does.
pub open spec fn folded_bytes(nodes: Seq<Node>, kids: Seq<usize>, acc: i64) -> i64
    decreases kids.len(),
{
    if kids.len() == 0 {
        acc
    } else {
        let rest = folded_bytes(nodes, kids.drop_last(), acc);
        if folded(nodes[kids.last() as int]) {
            rest.wrapping_add(nodes[kids.last() as int].bytes)
        } else {
            rest
        }
    }
}

/// `acc` plus the file counts of the folded children in `kids`, wrapping.
pub open spec fn folded_files(nodes: Seq<Node>, kids: Seq<usize>, acc: i64) -> i64
    decreases kids.len(),
{
    if kids.len() == 0 {
        acc
    } else {
        let rest = folded_files(nodes, kids.drop_last(), acc);
        if folded(nodes[kids.last() as int]) {
            rest.wrapping_add(nodes[kids.last() as int].files)
        } else {
            rest
        }
    }
}

/// The directories compaction reaches below the children of `i`, from its
/// `k`-th child on: it descends into the kept directories only.
pub open spec fn kept_walk(nodes: Seq<Node>, i: int, k: int) -> Seq<usize>
    decreases nodes.len() - i, nodes[i].children@.len() - k,
{
    if 0 <= i < nodes.len() && 0 <= k < nodes[i].children@.len() {
        let c = nodes[i].children@[k];
        if i < c < nodes.len() {
            let here = if nodes[c as int].is_dir && !folded(nodes[c as int]) {
                seq![c] + kept_walk(nodes, c as int, 0)
            } else {
                Seq::empty()
            };
            here + kept_walk(nodes, i, k + 1)
        } else {
            kept_walk(nodes, i, k + 1)
        }
    } else {
        Seq::empty()
    }
}

/// The nodes a compaction from `i` rewrites: `i` and every kept directory below it.
pub open spec fn compacted_set(nodes: Seq<Node>, i: int) -> Seq<usize> {
    seq![i as usize] + kept_walk(nodes, i, 0)
}

/// What compaction makes of node `j`'s children: the kept ones, largest first.
pub open spec fn compacted_children(nodes: Seq<Node>, j: int) -> Seq<usize> {
    crate::sorting::stable_sort(kept_children(nodes, nodes[j].children@), bytes_after(nodes))
}

/// Node `j` after compaction: its folded children are added to its small
/// aggregates, and only its other children remain, largest first.
pub open spec fn compacted_node(nodes: Seq<Node>, j: int, after: Node) -> bool {
    let n = nodes[j];
    &&& after.children@ == compacted_children(nodes, j)
    &&& after.small_bytes == folded_bytes(nodes, n.children@, n.small_bytes)
    &&& after.small_count == folded_files(nodes, n.children@, n.small_count)
    &&& after.name == n.name
    &&& after.path == n.path
    &&& after.is_dir == n.is_dir
    &&& after.bytes == n.bytes
    &&& after.files == n.files
    &&& after.denied == n.denied
    &&& after.parent == n.parent
}

/// `after` is what compacting `nodes` from `i` leaves: the nodes compaction
/// reaches are compacted, the others are as they were.
pub open spec fn compaction_of(nodes: Seq<Node>, i: int, after: Seq<Node>) -> bool {
    &&& after.len() == nodes.len()
    &&& forall|j: int|
        0 <= j < nodes.len() ==> if compacted_set(nodes, i).contains(j as usize) {
            compacted_node(nodes, j, #[trigger] after[j])
        } else {
            after[j] == nodes[j]
        }
}

pub proof fn lemma_kept_walk_in_range(nodes: Seq<Node>, i: int, k: int)
    ensures
        forall|j: int| 0 <= j < kept_walk(nodes, i, k).len() ==> #[trigger] kept_walk(nodes, i, k)[j] < nodes.len(),
    decreases nodes.len() - i, nodes[i].children@.len() - k,
{
    if 0 <= i < nodes.len() && 0 <= k < nodes[i].children@.len() {
        let c = nodes[i].children@[k];
        lemma_kept_walk_in_range(nodes, i, k + 1);
        if i < c < nodes.len() {
            let dive = nodes[c as int].is_dir && !folded(nodes[c as int]);
            if dive {
                lemma_kept_walk_in_range(nodes, c as int, 0);
            }
            let here = if dive {
                seq![c] + kept_walk(nodes, c as int, 0)
            } else {
                Seq::empty()
            };
            let rest = kept_walk(nodes, i, k + 1);
            let w = here + rest;
            assert(kept_walk(nodes, i, k) == w);
            assert forall|j: int| 0 <= j < w.len() implies #[trigger] w[j] < nodes.len() by {
                if j < here.len() {
                    assert(w[j] == here[j]);
                    if j > 0 {
                        assert(here[j] == kept_walk(nodes, c as int, 0)[j - 1]);
                    }
                } else {
                    assert(w[j] == rest[j - here.len()]);
                }
            }
        }
    }
}

impl ScanTree {
    fn kept_walk_into(&self, i: usize, out: &mut Vec<usize>)
        requires
            self.wf(),
            i < self@.len(),
        ensures
            final(out)@ == old(out)@ + kept_walk(self@, i as int, 0),
        decreases self@.len() - i,
    {
        proof {
            assert(children_ok(self@, i as int));
            assert(old(out)@ + kept_walk(self@, i as int, 0) =~= out@ + kept_walk(self@, i as int, 0));
        }
        let n = self.nodes[i].children.len();
        let mut k: usize = 0;
        while k < n
            invariant
                self.wf(),
                i < self@.len(),
                n == self@[i as int].children@.len(),
                k <= n,
                old(out)@ + kept_walk(self@, i as int, 0) == out@ + kept_walk(self@, i as int, k as int),
            decreases n - k,
        {
            let c = self.nodes[i].children[k];
            proof {
                assert(children_ok(self@, i as int));
            }
            let ghost before = out@;
            let child = &self.nodes[c];
            let dive = child.is_dir && !(child.is_dir && child.bytes < KEEP_DIR_BYTES && !child.denied);
            if dive {
                out.push(c);
                self.kept_walk_into(c, out);
            }
            proof {
                let here = if self@[c as int].is_dir && !folded(self@[c as int]) {
                    seq![c] + kept_walk(self@, c as int, 0)
                } else {
                    Seq::empty()
                };
                assert(kept_walk(self@, i as int, k as int) == here + kept_walk(self@, i as int, k + 1));
                assert(out@ =~= before + here);
                assert(before + kept_walk(self@, i as int, k as int) =~= out@ + kept_walk(self@, i as int, k + 1));
            }
            k += 1;
        }
        proof {
            assert(out@ + kept_walk(self@, i as int, n as int) =~= out@);
        }
    }

    /// The compacted children and aggregates of node `j`, read from the tree.
    fn plan_compaction(&self, j: usize) -> (r: (Vec<usize>, i64, i64))
        requires
            self.wf(),
            j < self@.len(),
        ensures
            r.0@ == compacted_children(self@, j as int),
            r.1 == folded_bytes(self@, self@[j as int].children@, self@[j as int].small_bytes),
            r.2 == folded_files(self@, self@[j as int].children@, self@[j as int].small_count),
            forall|m: int| 0 <= m < r.0@.len() ==> j < #[trigger] r.0@[m] < self@.len(),
    {
        let kids = &self.nodes[j].children;
        let mut kept: Vec<usize> = Vec::new();
        let mut sb = self.nodes[j].small_bytes;
        let mut sc = self.nodes[j].small_count;
        let mut k: usize = 0;
        proof {
            assert(children_ok(self@, j as int));
            assert(kids@.take(0) =~= Seq::<usize>::empty());
        }
        while k < kids.len()
            invariant
                self.wf(),
                j < self@.len(),
                *kids == self@[j as int].children,
                children_ok(self@, j as int),
                k <= kids@.len(),
                kept@ == kept_children(self@, kids@.take(k as int)),
                sb == folded_bytes(self@, kids@.take(k as int), self@[j as int].small_bytes),
                sc == folded_files(self@, kids@.take(k as int), self@[j as int].small_count),
                forall|m: int| 0 <= m < kept@.len() ==> j < #[trigger] kept@[m] < self@.len(),
            decreases kids.len() - k,
        {
            let c = kids[k];
            proof {
                assert(kids@.take(k + 1).drop_last() =~= kids@.take(k as int));
                assert(kids@.take(k + 1).last() == c);
            }
            let child = &self.nodes[c];
            if child.is_dir && child.bytes < KEEP_DIR_BYTES && !child.denied {
                sb = sb.wrapping_add(child.bytes);
                sc = sc.wrapping_add(child.files);
            } else {
                kept.push(c);
            }
            k += 1;
        }
        proof {
            assert(kids@.take(kids@.len() as int) =~= kids@);
        }
        let ghost ok = |c: usize| j < c && c < self@.len();
        let tree = self;
        let sorted = crate::sorting::sort_stable_with(kept, &tree, node_bytes_after, Ghost(bytes_after(self@)), Ghost(ok));
        (sorted, sb, sc)
    }

    fn apply_compaction(&mut self, j: usize, children: Vec<usize>, small_bytes: i64, small_count: i64)
        requires
            old(self).wf(),
            j < old(self)@.len(),
            forall|m: int| 0 <= m < children@.len() ==> j < #[trigger] children@[m] < old(self)@.len(),
        ensures
            final(self).wf(),
            final(self)@.len() == old(self)@.len(),
            final(self)@[j as int].children == children,
            final(self)@[j as int].small_bytes == small_bytes,
            final(self)@[j as int].small_count == small_count,
            final(self)@[j as int].name == old(self)@[j as int].name,
            final(self)@[j as int].path == old(self)@[j as int].path,
            final(self)@[j as int].is_dir == old(self)@[j as int].is_dir,
            final(self)@[j as int].bytes == old(self)@[j as int].bytes,
            final(self)@[j as int].files == old(self)@[j as int].files,
            final(self)@[j as int].denied == old(self)@[j as int].denied,
            final(self)@[j as int].parent == old(self)@[j as int].parent,
            forall|x: int| 0 <= x < old(self)@.len() && x != j ==> final(self)@[x] == old(self)@[x],
    {
        self.nodes[j].children = children;
        self.nodes[j].small_bytes = small_bytes;
        self.nodes[j].small_count = small_count;
        proof {
            assert forall|x: int| 0 <= x < self.nodes@.len() implies #[trigger] children_ok(self.nodes@, x) by {
                assert(children_ok(old(self).nodes@, x));
            }
        }
    }
}

/// Folds the small directories below `i` into their parents' aggregates and
/// orders every remaining child list largest first, once a scan is done.
/// Only the nodes that compaction reaches change: `i` and the kept
/// directories below it; a folded directory keeps its own contents.
pub fn compact(tree: &mut ScanTree, i: usize)
    requires
        old(tree).wf(),
        i < old(tree)@.len(),
        sizes_negatable(old(tree)@),
    ensures
        final(tree).wf(),
        compaction_of(old(tree)@, i as int, final(tree)@),
{
    let ghost start = tree@;
    let total = tree.len();
    let mut order: Vec<usize> = Vec::new();
    order.push(i);
    tree.kept_walk_into(i, &mut order);
    proof {
        assert(order@ =~= compacted_set(start, i as int));
        lemma_kept_walk_in_range(start, i as int, 0);
    }
    let mut plans: Vec<(usize, Vec<usize>, i64, i64)> = Vec::new();
    let mut p: usize = 0;
    while p < order.len()
        invariant
            tree.wf(),
            tree@ == start,
            order@ == compacted_set(start, i as int),
            forall|m: int| 0 <= m < order@.len() ==> #[trigger] order@[m] < start.len(),
            p <= order@.len(),
            plans@.len() == p,
            forall|m: int|
                0 <= m < p ==> {
                    let pl = #[trigger] plans@[m];
                    let j = order@[m] as int;
                    &&& pl.0 == order@[m]
                    &&& pl.1@ == compacted_children(start, j)
                    &&& pl.2 == folded_bytes(start, start[j].children@, start[j].small_bytes)
                    &&& pl.3 == folded_files(start, start[j].children@, start[j].small_count)
                    &&& forall|q: int| 0 <= q < pl.1@.len() ==> j < #[trigger] pl.1@[q] < start.len()
                },
        decreases order.len() - p,
    {
        let j = order[p];
        let (kids, sb, sc) = tree.plan_compaction(j);
        plans.push((j, kids, sb, sc));
        p += 1;
    }
    let mut q: usize = 0;
    let n = plans.len();
    while q < n
        invariant
            tree.wf(),
            n == plans@.len(),
            q <= n,
            tree@.len() == start.len(),
            start.len() == total,
            order@ == compacted_set(start, i as int),
            plans@.len() == order@.len(),
            forall|m: int| 0 <= m < order@.len() ==> #[trigger] order@[m] < start.len(),
            forall|m: int|
                0 <= m < n ==> {
                    let pl = #[trigger] plans@[m];
                    let j = order@[m] as int;
                    &&& pl.0 == order@[m]
                    &&& pl.1@ == compacted_children(start, j)
                    &&& pl.2 == folded_bytes(start, start[j].children@, start[j].small_bytes)
                    &&& pl.3 == folded_files(start, start[j].children@, start[j].small_count)
                    &&& forall|q: int| 0 <= q < pl.1@.len() ==> j < #[trigger] pl.1@[q] < start.len()
                },
            forall|x: int|
                0 <= x < start.len() ==> if order@.take(q as int).contains(x as usize) {
                    compacted_node(start, x, #[trigger] tree@[x])
                } else {
                    tree@[x] == start[x]
                },
        decreases n - q,
    {
        let j = plans[q].0;
        let kids = plans[q].1.clone();
        let sb = plans[q].2;
        let sc = plans[q].3;
        let ghost before = tree@;
        proof {
            assert(j == order@[q as int]);
            assert(plans@[q as int].1@ == kids@);
        }
        tree.apply_compaction(j, kids, sb, sc);
        proof {
            assert(order@.take(q + 1) =~= order@.take(q as int).push(j));
            assert forall|x: int| 0 <= x < start.len() implies if order@.take(q + 1).contains(x as usize) {
                compacted_node(start, x, #[trigger] tree@[x])
            } else {
                tree@[x] == start[x]
            } by {
                if x == j as int {
                    assert(order@.take(q + 1)[q as int] == j);
                    if order@.take(q as int).contains(x as usize) {
                        assert(compacted_node(start, x, before[x]));
                    } else {
                        assert(before[x] == start[x]);
                    }
                } else {
                    assert(tree@[x] == before[x]);
                    if order@.take(q + 1).contains(x as usize) {
                        let m = choose|m: int| 0 <= m < q + 1 && #[trigger] order@.take(q + 1)[m] == x as usize;
                        assert(order@.take(q + 1)[q as int] == j);
                        assert(m != q as int);
                        assert(m < q);
                        assert(order@.take(q as int)[m] == x as usize);
                    } else {
                        if order@.take(q as int).contains(x as usize) {
                            let m = choose|m: int| 0 <= m < q && #[trigger] order@.take(q as int)[m] == x as usize;
                            assert(order@.take(q + 1)[m] == x as usize);
                        }
                    }
                }
            }
        }
        q += 1;
    }
    proof {
        assert(order@.take(n as int) =~= order@);
    }
}

// ───────────────────────── compacting twice ─────────────────────────

/// Two nodes that hold the same fields, children compared as sequences.
pub open spec fn same_node(a: Node, b: Node) -> bool {
    &&& a.children@ == b.children@
    &&& a.small_bytes == b.small_bytes
    &&& a.small_count == b.small_count
    &&& a.name == b.name
    &&& a.path == b.path
    &&& a.is_dir == b.is_dir
    &&& a.bytes == b.bytes
    &&& a.files == b.files
    &&& a.denied == b.denied
    &&& a.parent == b.parent
}

proof fn lemma_concat_contains(a: Seq<usize>, b: Seq<usize>, e: usize)
    ensures
        (a + b).contains(e) <==> (a.contains(e) || b.contains(e)),
{
    if a.contains(e) {
        let k = choose|k: int| 0 <= k < a.len() && a[k] == e;
        assert((a + b)[k] == e);
    }
    if b.contains(e) {
        let k = choose|k: int| 0 <= k < b.len() && b[k] == e;
        assert((a + b)[a.len() + k] == e);
    }
    if (a + b).contains(e) {
        let k = choose|k: int| 0 <= k < (a + b).len() && (a + b)[k] == e;
        if k < a.len() {
            assert(a[k] == e);
        } else {
            assert(b[k - a.len()] == e);
        }
    }
}

/// What compaction reaches below a reached directory, it reaches too.
proof fn lemma_kept_walk_closed(nodes: Seq<Node>, y: int, k: int, x: usize, e: usize)
    requires
        kept_walk(nodes, y, k).contains(x),
        kept_walk(nodes, x as int, 0).contains(e),
    ensures
        kept_walk(nodes, y, k).contains(e),
    decreases nodes.len() - y, nodes[y].children@.len() - k,
{
    if 0 <= y < nodes.len() && 0 <= k < nodes[y].children@.len() {
        let c = nodes[y].children@[k];
        let rest = kept_walk(nodes, y, k + 1);
        if y < c < nodes.len() {
            let below = kept_walk(nodes, c as int, 0);
            let here = if nodes[c as int].is_dir && !folded(nodes[c as int]) {
                seq![c] + below
            } else {
                Seq::empty()
            };
            assert(kept_walk(nodes, y, k) == here + rest);
            lemma_concat_contains(here, rest, x);
            lemma_concat_contains(here, rest, e);
            if here.contains(x) {
                lemma_concat_contains(seq![c], below, x);
                lemma_concat_contains(seq![c], below, e);
                if seq![c].contains(x) {
                    assert(x == seq![c][0]);
                } else {
                    lemma_kept_walk_closed(nodes, c as int, 0, x, e);
                }
            } else {
                lemma_kept_walk_closed(nodes, y, k + 1, x, e);
            }
        } else {
            assert(kept_walk(nodes, y, k) == rest);
            lemma_kept_walk_closed(nodes, y, k + 1, x, e);
        }
    }
}

/// A kept directory among the children of `y`, from the `k`-th on, is reached.
proof fn lemma_kept_walk_reaches(nodes: Seq<Node>, y: int, k: int, m: int)
    requires
        0 <= y < nodes.len(),
        0 <= k <= m < nodes[y].children@.len(),
        y < nodes[y].children@[m] < nodes.len(),
        nodes[nodes[y].children@[m] as int].is_dir,
        !folded(nodes[nodes[y].children@[m] as int]),
    ensures
        kept_walk(nodes, y, k).contains(nodes[y].children@[m]),
    decreases m - k,
{
    let c = nodes[y].children@[k];
    let rest = kept_walk(nodes, y, k + 1);
    let here = if y < c < nodes.len() && nodes[c as int].is_dir && !folded(nodes[c as int]) {
        seq![c] + kept_walk(nodes, c as int, 0)
    } else {
        Seq::empty()
    };
    assert(kept_walk(nodes, y, k) =~= here + rest);
    if k == m {
        assert(here[0] == c);
        lemma_concat_contains(here, rest, c);
    } else {
        lemma_kept_walk_reaches(nodes, y, k + 1, m);
        lemma_concat_contains(here, rest, nodes[y].children@[m]);
    }
}

/// The kept children are children, and none of them folds.
proof fn lemma_kept_children_kept(nodes: Seq<Node>, kids: Seq<usize>)
    ensures
        forall|m: int|
            0 <= m < kept_children(nodes, kids).len() ==> kids.contains(#[trigger] kept_children(nodes, kids)[m])
                && !folded(nodes[kept_children(nodes, kids)[m] as int]),
    decreases kids.len(),
{
    if kids.len() > 0 {
        let init = kids.drop_last();
        lemma_kept_children_kept(nodes, init);
        let kc = kept_children(nodes, kids);
        assert forall|m: int| 0 <= m < kc.len() implies kids.contains(#[trigger] kc[m]) && !folded(nodes[kc[m] as int]) by {
            if m < kept_children(nodes, init).len() {
                assert(kc[m] == kept_children(nodes, init)[m]);
                let q = choose|q: int| 0 <= q < init.len() && init[q] == kc[m];
                assert(kids[q] == init[q]);
            } else {
                assert(kc[m] == kids.last());
                assert(kids[kids.len() - 1] == kids.last());
            }
        }
    }
}

/// Children none of which folds are all kept, and add nothing to the aggregates.
proof fn lemma_nothing_folds(nodes: Seq<Node>, kids: Seq<usize>, bytes: i64, files: i64)
    requires
        forall|m: int| 0 <= m < kids.len() ==> !folded(#[trigger] nodes[kids[m] as int]),
    ensures
        kept_children(nodes, kids) == kids,
        folded_bytes(nodes, kids, bytes) == bytes,
        folded_files(nodes, kids, files) == files,
    decreases kids.len(),
{
    if kids.len() > 0 {
        let init = kids.drop_last();
        assert forall|m: int| 0 <= m < init.len() implies !folded(#[trigger] nodes[init[m] as int]) by {
            assert(init[m] == kids[m]);
        }
        lemma_nothing_folds(nodes, init, bytes, files);
        assert(!folded(nodes[kids[kids.len() - 1] as int]));
        assert(init.push(kids.last()) =~= kids);
    }
}

/// Compaction keeps what decides folding: kind, size and readability.
proof fn lemma_compaction_keeps_sizes(nodes: Seq<Node>, i: int, after: Seq<Node>, c: int)
    requires
        compaction_of(nodes, i, after),
        0 <= c < nodes.len(),
    ensures
        after[c].is_dir == nodes[c].is_dir,
        after[c].bytes == nodes[c].bytes,
        after[c].denied == nodes[c].denied,
        folded(after[c]) == folded(nodes[c]),
{
    assert(compacted_set(nodes, i).contains(c as usize) ==> compacted_node(nodes, c, after[c]));
}

/// A node reached from a node that compaction reaches is reached too.
proof fn lemma_reached_below(nodes: Seq<Node>, i: int, x: usize, e: usize)
    requires
        0 <= i <= usize::MAX,
        compacted_set(nodes, i).contains(x),
        kept_walk(nodes, x as int, 0).contains(e),
    ensures
        compacted_set(nodes, i).contains(e),
{
    let walk = kept_walk(nodes, i, 0);
    lemma_concat_contains(seq![i as usize], walk, x);
    lemma_concat_contains(seq![i as usize], walk, e);
    if seq![i as usize].contains(x) {
        assert(x == seq![i as usize][0]);
    } else {
        lemma_kept_walk_closed(nodes, i, 0, x, e);
    }
}

/// What a second compaction reaches, the first one reached.
proof fn lemma_second_walk_within(before: Seq<Node>, i: int, mid: Seq<Node>, x: int, k: int, e: usize)
    requires
        nodes_wf(before),
        0 <= i < before.len(),
        i <= usize::MAX,
        compaction_of(before, i, mid),
        0 <= x < mid.len(),
        compacted_set(before, i).contains(x as usize),
        kept_walk(mid, x, k).contains(e),
    ensures
        compacted_set(before, i).contains(e),
    decreases mid.len() - x, mid[x].children@.len() - k,
{
    if 0 <= k < mid[x].children@.len() {
        let c = mid[x].children@[k];
        let rest = kept_walk(mid, x, k + 1);
        if x < c < mid.len() {
            let below = kept_walk(mid, c as int, 0);
            let dive = mid[c as int].is_dir && !folded(mid[c as int]);
            let here = if dive {
                seq![c] + below
            } else {
                Seq::empty()
            };
            assert(kept_walk(mid, x, k) == here + rest);
            lemma_concat_contains(here, rest, e);
            if here.contains(e) {
                // `c` is a kept child of `x` before the first compaction.
                assert(compacted_node(before, x, mid[x]));
                let kc = kept_children(before, before[x].children@);
                crate::sorting::lemma_stable_sort_elements(kc, bytes_after(before));
                assert(kc.contains(c));
                let m = choose|m: int| 0 <= m < kc.len() && kc[m] == c;
                lemma_kept_children_kept(before, before[x].children@);
                assert(before[x].children@.contains(c) && !folded(before[c as int]));
                let q = choose|q: int| 0 <= q < before[x].children@.len() && before[x].children@[q] == c;
                assert(children_ok(before, x));
                lemma_compaction_keeps_sizes(before, i, mid, c as int);
                lemma_kept_walk_reaches(before, x, 0, q);
                lemma_reached_below(before, i, x as usize, c);
                lemma_concat_contains(seq![c], below, e);
                if seq![c].contains(e) {
                    assert(e == seq![c][0]);
                } else {
                    lemma_second_walk_within(before, i, mid, c as int, 0, e);
                }
            } else {
                lemma_second_walk_within(before, i, mid, x, k + 1, e);
            }
        } else {
            assert(kept_walk(mid, x, k) == rest);
            lemma_second_walk_within(before, i, mid, x, k + 1, e);
        }
    }
}

/// Compacting a compacted tree again from the same node changes nothing:
/// every child list, in its order, and every aggregate stays as it is.
#[verifier::spinoff_prover]
#[verifier::rlimit(40)]
pub proof fn lemma_compaction_settles(before: Seq<Node>, start: usize, mid: Seq<Node>, after: Seq<Node>)
    requires
        nodes_wf(before),
        start < before.len(),
        compaction_of(before, start as int, mid),
        compaction_of(mid, start as int, after),
    ensures
        after.len() == mid.len(),
        forall|j: int| 0 <= j < mid.len() ==> same_node(#[trigger] after[j], mid[j]),
{
    let i = start as int;
    assert forall|j: int| 0 <= j < mid.len() implies same_node(#[trigger] after[j], mid[j]) by {
        if compacted_set(mid, i).contains(j as usize) {
            assert(compacted_node(mid, j, after[j]));
            // `j` was reached by the first compaction too.
            let walk = kept_walk(mid, i, 0);
            lemma_concat_contains(seq![i as usize], walk, j as usize);
            assert(seq![i as usize][0] == i as usize);
            assert(seq![i as usize].contains(i as usize));
            lemma_concat_contains(seq![i as usize], kept_walk(before, i, 0), i as usize);
            if seq![i as usize].contains(j as usize) {
                assert(j as usize == seq![i as usize][0]);
            } else {
                lemma_second_walk_within(before, i, mid, i, 0, j as usize);
            }
            assert(compacted_node(before, j, mid[j]));
            let kids = mid[j].children@;
            let kc = kept_children(before, before[j].children@);
            assert(kids == crate::sorting::stable_sort(kc, bytes_after(before)));
            crate::sorting::lemma_stable_sort_elements(kc, bytes_after(before));
            lemma_kept_children_kept(before, before[j].children@);
            assert(children_ok(before, j));
            assert forall|m: int| 0 <= m < kids.len() implies j < #[trigger] kids[m] < before.len()
                && !folded(mid[kids[m] as int]) by {
                assert(kc.contains(kids[m]));
                let p = choose|p: int| 0 <= p < kc.len() && kc[p] == kids[m];
                assert(before[j].children@.contains(kc[p]));
                lemma_compaction_keeps_sizes(before, i, mid, kids[m] as int);
            }
            lemma_nothing_folds(mid, kids, mid[j].small_bytes, mid[j].small_count);
            // The children are already largest first.
            crate::sorting::lemma_stable_sort_in_order(kc, bytes_after(before));
            assert forall|a: int, b: int| 0 <= a < b < kids.len() implies !#[trigger] bytes_after(mid)(
                kids[a],
                #[trigger] kids[b],
            ) by {
                assert(!bytes_after(before)(kids[a], kids[b]));
                lemma_compaction_keeps_sizes(before, i, mid, kids[a] as int);
                lemma_compaction_keeps_sizes(before, i, mid, kids[b] as int);
            }
            crate::sorting::lemma_stable_sort_sorted(kids, bytes_after(mid));
        }
    }
}

} // verus!
