//! The results of a file review: groups of exact duplicates and large files
//! not opened for a long time, and the rules that decide what a review looks
//! at, what counts as large and old, and how results are ranked and bounded.

use std::collections::{BTreeMap, HashSet};
use vstd::prelude::*;
use vstd::utf8::{decode_utf8, valid_utf8};
use crate::paths::{components, components_of, comps_lt, comps_view, join_path, join_spec, path_less, Component};
use crate::sorting::{sort_stable, stable_sort};
use crate::text::{str_eq, utf8_string};

verus! {

pub const DUPLICATE_FLOOR: u64 = 10485760;

pub const LARGE_FLOOR: i64 = 1000000000;

pub const OLD_DAYS: i64 = 180;

pub const OLD_SECONDS: i64 = OLD_DAYS * 86400;

pub const MAX_VISITED: usize = 500000;

pub const MAX_CANDIDATES: usize = 20000;

pub const MAX_DUPLICATE_GROUPS: usize = 50;

pub const MAX_LARGE_OLD: usize = 100;

#[derive(Clone, Debug, PartialEq, Eq)]
pub struct DuplicateGroup {
    pub paths: Vec<Vec<u8>>,
    pub bytes_each: i64,
    pub wasted_bytes: i64,
}

#[derive(Clone, Debug, PartialEq, Eq)]
pub struct LargeOldFile {
    pub path: Vec<u8>,
    pub bytes: i64,
    pub accessed_at: i64,
}

#[derive(Clone, Debug, PartialEq, Eq)]
pub struct ReviewResult {
    pub files_visited: usize,
    pub duplicate_groups: Vec<DuplicateGroup>,
    pub large_old: Vec<LargeOldFile>,
}

/// The folders a review looks at, under the home folder, in order.
pub open spec fn root_names() -> Seq<Seq<u8>> {
    seq![seq![68u8, 101u8, 115u8, 107u8, 116u8, 111u8, 112u8], seq![68u8, 111u8, 99u8, 117u8, 109u8, 101u8, 110u8, 116u8, 115u8], seq![68u8, 111u8, 119u8, 110u8, 108u8, 111u8, 97u8, 100u8, 115u8], seq![77u8, 111u8, 118u8, 105u8, 101u8, 115u8], seq![77u8, 117u8, 115u8, 105u8, 99u8], seq![80u8, 105u8, 99u8, 116u8, 117u8, 114u8, 101u8, 115u8]]
}

/// The review's candidate folders: `Desktop`, `Documents`, `Downloads`,
/// `Movies`, `Music` and `Pictures` in the home folder, in that order. Those
/// that are not directories are skipped when the review starts.
pub fn standard_roots(home: &[u8]) -> (r: Vec<Vec<u8>>)
    ensures
        r@.len() == 6,
        forall|k: int| 0 <= k < 6 ==> (#[trigger] r@[k])@ == join_spec(home@, root_names()[k]),
{
    let names: [Vec<u8>; 6] = [vec![68u8, 101u8, 115u8, 107u8, 116u8, 111u8, 112u8], vec![68u8, 111u8, 99u8, 117u8, 109u8, 101u8, 110u8, 116u8, 115u8], vec![68u8, 111u8, 119u8, 110u8, 108u8, 111u8, 97u8, 100u8, 115u8], vec![77u8, 111u8, 118u8, 105u8, 101u8, 115u8], vec![77u8, 117u8, 115u8, 105u8, 99u8], vec![80u8, 105u8, 99u8, 116u8, 117u8, 114u8, 101u8, 115u8]];
    proof {
        assert(names@[0]@ =~= root_names()[0]);
        assert(names@[1]@ =~= root_names()[1]);
        assert(names@[2]@ =~= root_names()[2]);
        assert(names@[3]@ =~= root_names()[3]);
        assert(names@[4]@ =~= root_names()[4]);
        assert(names@[5]@ =~= root_names()[5]);
    }
    let mut out: Vec<Vec<u8>> = Vec::new();
    let mut k: usize = 0;
    while k < 6
        invariant
            k <= 6,
            out@.len() == k,
            forall|j: int| 0 <= j < 6 ==> (#[trigger] names@[j])@ == root_names()[j],
            forall|j: int| 0 <= j < k ==> (#[trigger] out@[j])@ == join_spec(home@, root_names()[j]),
        decreases 6 - k,
    {
        out.push(join_path(home, names[k].as_slice()));
        k += 1;
    }
    out
}

/// The extensions of bundles a review does not enter.
pub open spec fn bundle_extensions() -> Seq<Seq<char>> {
    seq!["app"@, "photoslibrary"@, "photolibrary"@, "musiclibrary"@, "imovielibrary"@, "fcpbundle"@, "logicx"@, "band"@]
}

/// The index of the last `.` in `s` before `i`, or -1.
pub open spec fn last_dot(s: Seq<char>, i: int) -> int
    decreases i,
{
    if i <= 0 {
        -1
    } else if s[i - 1] == '.' {
        i - 1
    } else {
        last_dot(s, i - 1)
    }
}

/// The extension of a file name that does not start with a dot: what follows
/// its last dot, if it has one.
pub open spec fn extension_of(name: Seq<char>) -> Option<Seq<char>> {
    let d = last_dot(name, name.len() as int);
    if d < 0 {
        None
    } else {
        Some(name.skip(d + 1))
    }
}

/// A folder a review does not enter: one without a UTF-8 name, a hidden one,
/// `node_modules`, or a bundle such as an app or a photo library.
pub open spec fn skipped_dir_spec(path: Seq<u8>) -> bool {
    let c = components(path);
    if c.len() == 0 || !(c.last() is Normal) {
        true
    } else {
        let b = c.last()->Normal_0;
        if !valid_utf8(b) {
            true
        } else {
            let name = decode_utf8(b);
            if (name.len() > 0 && name[0] == '.') || name == "node_modules"@ {
                true
            } else {
                match extension_of(name) {
                    Some(e) => bundle_extensions().contains(e),
                    None => false,
                }
            }
        }
    }
}

fn is_bundle_extension(e: &str) -> (r: bool)
    ensures
        r == bundle_extensions().contains(e@),
{
    let exts = ["app", "photoslibrary", "photolibrary", "musiclibrary", "imovielibrary", "fcpbundle", "logicx", "band"];
    let mut i: usize = 0;
    while i < 8
        invariant
            i <= 8,
            forall|k: int| 0 <= k < 8 ==> (#[trigger] exts@[k])@ == bundle_extensions()[k],
            forall|k: int| 0 <= k < i ==> e@ != #[trigger] bundle_extensions()[k],
        decreases 8 - i,
    {
        if str_eq(e, exts[i]) {
            assert(bundle_extensions()[i as int] == e@);
            return true;
        }
        i += 1;
    }
    false
}

pub fn skipped_dir(path: &[u8]) -> (r: bool)
    ensures
        r == skipped_dir_spec(path@),
{
    let mut c = components_of(path);
    let ghost cv = comps_view(c@);
    if c.len() == 0 {
        return true;
    }
    let last = c.pop().unwrap();
    proof {
        assert(cv.last() == last@);
    }
    let bytes = match last {
        Component::Normal(b) => b,
        _ => {
            return true;
        },
    };
    let name = match utf8_string(bytes) {
        Some(n) => n,
        None => {
            return true;
        },
    };
    let n = name.as_str().unicode_len();
    if (n > 0 && name.as_str().get_char(0) == '.') || str_eq(name.as_str(), "node_modules") {
        return true;
    }
    let mut i = n;
    while i > 0 && name.as_str().get_char(i - 1) != '.'
        invariant
            n == name@.len(),
            i <= n,
            last_dot(name@, n as int) == last_dot(name@, i as int),
        decreases i,
    {
        i -= 1;
    }
    if i == 0 {
        return false;
    }
    let mut ext = String::new();
    let mut j = i;
    while j < n
        invariant
            n == name@.len(),
            0 < i <= j <= n,
            ext@ == name@.subrange(i as int, j as int),
        decreases n - j,
    {
        crate::text::push_char(&mut ext, name.as_str().get_char(j));
        assert(name@.subrange(i as int, j + 1) =~= name@.subrange(i as int, j as int).push(name@[j as int]));
        j += 1;
    }
    assert(name@.subrange(i as int, n as int) =~= name@.skip(i as int));
    is_bundle_extension(ext.as_str())
}

/// Large and old: at least `floor` bytes on disk, and last opened at a known
/// time no later than `cutoff`.
pub fn qualifies_large_old(on_disk: i64, accessed_at: i64, cutoff: i64, floor: i64) -> (r: bool)
    ensures
        r == (on_disk >= floor && accessed_at > 0 && accessed_at <= cutoff),
{
    on_disk >= floor && accessed_at > 0 && accessed_at <= cutoff
}

pub open spec fn path_order() -> spec_fn((Vec<u8>, i64), (Vec<u8>, i64)) -> bool {
    |a: (Vec<u8>, i64), b: (Vec<u8>, i64)| comps_lt(components(b.0@), components(a.0@))
}

fn path_after(a: &(Vec<u8>, i64), b: &(Vec<u8>, i64)) -> (r: bool)
    ensures
        r == comps_lt(components(b.0@), components(a.0@)),
{
    path_less(b.0.as_slice(), a.0.as_slice())
}

/// `bytes` times `count`, held at the bounds of `i64`.
pub open spec fn sat_mul(bytes: i64, count: int) -> i64 {
    let p = bytes * count;
    if p > i64::MAX {
        i64::MAX
    } else if p < i64::MIN {
        i64::MIN
    } else {
        p as i64
    }
}

/// A group of files with the same content, given each file's path and size
/// on disk: the paths in path order, the size of the first of them, and the
/// bytes held by all copies but one.
pub fn duplicate_group(files: Vec<(Vec<u8>, i64)>) -> (g: DuplicateGroup)
    requires
        files@.len() >= 1,
    ensures
        ({
            let sorted = stable_sort(files@, path_order());
            &&& g.paths@.len() == sorted.len()
            &&& forall|k: int| 0 <= k < sorted.len() ==> (#[trigger] g.paths@[k])@ == sorted[k].0@
            &&& g.bytes_each == sorted[0].1
            &&& g.wasted_bytes == sat_mul(sorted[0].1, sorted.len() - 1)
        }),
{
    let ghost unsorted = files@;
    let sorted = sort_stable(files, path_after, Ghost(path_order()));
    proof {
        crate::sorting::lemma_stable_sort_len(unsorted, path_order());
    }
    let bytes_each = sorted[0].1;
    let n = sorted.len();
    let mut paths: Vec<Vec<u8>> = Vec::new();
    let mut k: usize = 0;
    while k < n
        invariant
            n == sorted@.len(),
            k <= n,
            paths@.len() == k,
            forall|j: int| 0 <= j < k ==> (#[trigger] paths@[j])@ == sorted@[j].0@,
        decreases n - k,
    {
        paths.push(sorted[k].0.clone());
        k += 1;
    }
    let count = (n - 1) as i128;
    let b = bytes_each as i128;
    assert(-0x8000_0000_0000_0000 * 0xffff_ffff_ffff_ffff <= b * count <= 0x7fff_ffff_ffff_ffff
        * 0xffff_ffff_ffff_ffff) by (nonlinear_arith)
        requires
            -0x8000_0000_0000_0000 <= b <= 0x7fff_ffff_ffff_ffff,
            0 <= count <= 0xffff_ffff_ffff_ffff,
    ;
    let product: i128 = b * count;
    let wasted_bytes = if product > i64::MAX as i128 {
        i64::MAX
    } else if product < i64::MIN as i128 {
        i64::MIN
    } else {
        product as i64
    };
    DuplicateGroup { paths, bytes_each, wasted_bytes }
}

pub open spec fn group_order() -> spec_fn(DuplicateGroup, DuplicateGroup) -> bool {
    |a: DuplicateGroup, b: DuplicateGroup| a.wasted_bytes < b.wasted_bytes
}

fn group_after(a: &DuplicateGroup, b: &DuplicateGroup) -> (r: bool)
    ensures
        r == (a.wasted_bytes < b.wasted_bytes),
{
    a.wasted_bytes < b.wasted_bytes
}

/// Larger first; equal sizes in path order.
pub open spec fn large_old_order() -> spec_fn(LargeOldFile, LargeOldFile) -> bool {
    |a: LargeOldFile, b: LargeOldFile| a.bytes < b.bytes || (a.bytes == b.bytes && comps_lt(
        components(b.path@),
        components(a.path@),
    ))
}

fn large_old_after(a: &LargeOldFile, b: &LargeOldFile) -> (r: bool)
    ensures
        r == (a.bytes < b.bytes || (a.bytes == b.bytes && comps_lt(components(b.path@), components(a.path@)))),
{
    a.bytes < b.bytes || (a.bytes == b.bytes && path_less(b.path.as_slice(), a.path.as_slice()))
}

pub open spec fn bounded<T>(s: Seq<T>, n: int) -> Seq<T> {
    s.take(vstd::math::min(s.len() as int, n))
}

/// The result of a review: the duplicate groups that waste the most first
/// (at most 50) and the large old files largest first (at most 100).
pub fn finish_review(files_visited: usize, groups: Vec<DuplicateGroup>, large_old: Vec<LargeOldFile>) -> (r: ReviewResult)
    ensures
        r.files_visited == files_visited,
        r.duplicate_groups@ == bounded(stable_sort(groups@, group_order()), MAX_DUPLICATE_GROUPS as int),
        r.large_old@ == bounded(stable_sort(large_old@, large_old_order()), MAX_LARGE_OLD as int),
{
    let ghost g0 = groups@;
    let ghost l0 = large_old@;
    let mut duplicate_groups = sort_stable(groups, group_after, Ghost(group_order()));
    proof {
        crate::sorting::lemma_stable_sort_len(g0, group_order());
    }
    let ghost gs = duplicate_groups@;
    if duplicate_groups.len() > MAX_DUPLICATE_GROUPS {
        duplicate_groups.truncate(MAX_DUPLICATE_GROUPS);
    }
    assert(duplicate_groups@ =~= bounded(gs, MAX_DUPLICATE_GROUPS as int));
    let mut large = sort_stable(large_old, large_old_after, Ghost(large_old_order()));
    proof {
        crate::sorting::lemma_stable_sort_len(l0, large_old_order());
    }
    let ghost ls = large@;
    if large.len() > MAX_LARGE_OLD {
        large.truncate(MAX_LARGE_OLD);
    }
    assert(large@ =~= bounded(ls, MAX_LARGE_OLD as int));
    ReviewResult { files_visited, duplicate_groups, large_old: large }
}

/// The starting value of a content fingerprint (64-bit FNV-1a).
pub const FNV_OFFSET: u64 = 0xcbf29ce484222325;

pub const FNV_PRIME: u64 = 0x100000001b3;

/// One byte folded into a fingerprint: xor, then multiply modulo 2^64.
pub open spec fn fnv_step(h: u64, b: u8) -> u64 {
    (((h ^ (b as u64)) as nat * FNV_PRIME as nat) % 0x1_0000_0000_0000_0000nat) as u64
}

/// The bytes of `s`, in order, folded into the fingerprint `h`.
pub open spec fn fnv_fold(h: u64, s: Seq<u8>) -> u64
    decreases s.len(),
{
    if s.len() == 0 {
        h
    } else {
        fnv_step(fnv_fold(h, s.drop_last()), s.last())
    }
}

/// Folding bytes chunk by chunk gives the fingerprint of all of them at
/// once: how a file is cut into reads does not change its fingerprint.
pub proof fn lemma_fnv_chunks(h: u64, a: Seq<u8>, b: Seq<u8>)
    ensures
        fnv_fold(fnv_fold(h, a), b) == fnv_fold(h, a + b),
    decreases b.len(),
{
    if b.len() == 0 {
        assert(a + b =~= a);
    } else {
        lemma_fnv_chunks(h, a, b.drop_last());
        assert((a + b).drop_last() =~= a + b.drop_last());
        assert((a + b).last() == b.last());
    }
}

/// Folds one chunk of a file into its running fingerprint.
pub fn fingerprint_chunk(hash: u64, chunk: &[u8]) -> (r: u64)
    ensures
        r == fnv_fold(hash, chunk@),
{
    let mut h = hash;
    let mut i: usize = 0;
    while i < chunk.len()
        invariant
            i <= chunk@.len(),
            h == fnv_fold(hash, chunk@.take(i as int)),
        decreases chunk@.len() - i,
    {
        assert(chunk@.take(i + 1).drop_last() =~= chunk@.take(i as int));
        let x = h ^ (chunk[i] as u64);
        h = x.wrapping_mul(FNV_PRIME);
        i += 1;
    }
    assert(chunk@.take(chunk@.len() as int) =~= chunk@);
    h
}

/// What two files' next reads say of their equality: `Some(false)` when the
/// reads differ, `Some(true)` when both files ended together, and `None`
/// when they agree so far and more must be read.
pub fn compare_reads(left: &[u8], right: &[u8]) -> (r: Option<bool>)
    ensures
        left@ != right@ ==> r == Some(false),
        left@ == right@ && left@.len() == 0 ==> r == Some(true),
        left@ == right@ && left@.len() > 0 ==> r is None,
{
    if !crate::bytes::bytes_eq(left, right) {
        Some(false)
    } else if left.len() == 0 {
        Some(true)
    } else {
        None
    }
}

/// The indices of the items whose key is `k`, in input order.
pub open spec fn indices_with(items: Seq<(u64, usize)>, k: u64) -> Seq<usize>
    decreases items.len(),
{
    if items.len() == 0 {
        Seq::empty()
    } else {
        let r = indices_with(items.drop_last(), k);
        if items.last().0 == k {
            r.push(items.last().1)
        } else {
            r
        }
    }
}

/// The keys that occur among the items.
pub open spec fn item_keys(items: Seq<(u64, usize)>) -> Set<u64> {
    Set::new(|k: u64| exists|i: int| 0 <= i < items.len() && #[trigger] items[i].0 == k)
}

/// Strictly ascending keys.
pub open spec fn ascending(ks: Seq<u64>) -> bool {
    forall|i: int, j: int| 0 <= i < j < ks.len() ==> #[trigger] ks[i] < #[trigger] ks[j]
}

/// The keys of the items, each once, in ascending order.
pub open spec fn ascending_keys(items: Seq<(u64, usize)>) -> Seq<u64> {
    choose|ks: Seq<u64>| ascending(ks) && ks.to_set() == item_keys(items)
}

/// The groups that hold more than one item.
pub open spec fn shared_runs(rs: Seq<Seq<usize>>) -> Seq<Seq<usize>>
    decreases rs.len(),
{
    if rs.len() == 0 {
        Seq::empty()
    } else if rs.last().len() > 1 {
        shared_runs(rs.drop_last()).push(rs.last())
    } else {
        shared_runs(rs.drop_last())
    }
}

/// The groups of items that share a key: items given as `(key, index)`,
/// groups in ascending order of key, each group's indices in input order,
/// and only groups of two or more.
pub open spec fn keyed_groups_spec(items: Seq<(u64, usize)>) -> Seq<Seq<usize>> {
    shared_runs(ascending_keys(items).map_values(|k: u64| indices_with(items, k)))
}

pub open spec fn group_views(v: Seq<Vec<usize>>) -> Seq<Seq<usize>> {
    v.map_values(|g: Vec<usize>| g@)
}

/// Two ascending sequences of the same keys are the same sequence.
proof fn lemma_ascending_unique(a: Seq<u64>, b: Seq<u64>)
    requires
        ascending(a),
        ascending(b),
        a.to_set() == b.to_set(),
    ensures
        a == b,
    decreases a.len(),
{
    if a.len() == 0 {
        if b.len() > 0 {
            assert(b.to_set().contains(b[0]));
        }
        assert(a =~= b);
    } else {
        assert(a.to_set().contains(a[0]));
        assert(b.contains(a[0]));
        let jb = choose|j: int| 0 <= j < b.len() && b[j] == a[0];
        assert(b.to_set().contains(b[0]));
        assert(a.contains(b[0]));
        let ja = choose|j: int| 0 <= j < a.len() && a[j] == b[0];
        if jb > 0 {
            assert(b[0] < b[jb]);
        }
        if ja > 0 {
            assert(a[0] < a[ja]);
        }
        assert(a[0] == b[0]);
        let a1 = a.drop_first();
        let b1 = b.drop_first();
        assert(ascending(a1)) by {
            assert forall|i: int, j: int| 0 <= i < j < a1.len() implies #[trigger] a1[i] < #[trigger] a1[j] by {
                assert(a1[i] == a[i + 1] && a1[j] == a[j + 1]);
            }
        }
        assert(ascending(b1)) by {
            assert forall|i: int, j: int| 0 <= i < j < b1.len() implies #[trigger] b1[i] < #[trigger] b1[j] by {
                assert(b1[i] == b[i + 1] && b1[j] == b[j + 1]);
            }
        }
        assert(a1.to_set() =~= b1.to_set()) by {
            assert forall|x: u64| a1.to_set().contains(x) implies b1.to_set().contains(x) by {
                let i = choose|i: int| 0 <= i < a1.len() && a1[i] == x;
                assert(a[i + 1] == x && a[0] < a[i + 1]);
                assert(a.to_set().contains(x));
                let j = choose|j: int| 0 <= j < b.len() && b[j] == x;
                assert(j != 0);
                assert(b1[j - 1] == x);
            }
            assert forall|x: u64| b1.to_set().contains(x) implies a1.to_set().contains(x) by {
                let i = choose|i: int| 0 <= i < b1.len() && b1[i] == x;
                assert(b[i + 1] == x && b[0] < b[i + 1]);
                assert(b.to_set().contains(x));
                let j = choose|j: int| 0 <= j < a.len() && a[j] == x;
                assert(j != 0);
                assert(a1[j - 1] == x);
            }
        }
        lemma_ascending_unique(a1, b1);
        assert(a =~= b) by {
            assert forall|i: int| 0 <= i < a.len() implies a[i] == b[i] by {
                if i > 0 {
                    assert(a[i] == a1[i - 1] && b[i] == b1[i - 1]);
                }
            }
        }
    }
}

/// A map of `u64` keys keeps them in the order of the integers.
pub open spec fn u64_keys_ordered() -> bool {
    &&& vstd::laws_cmp::obeys_cmp::<u64>()
    &&& vstd::std_specs::btree::key_obeys_cmp_spec::<u64>()
}

/// The key order of a map of `u64` keys is the order of the integers.
proof fn lemma_u64_keys_ordered()
    ensures
        u64_keys_ordered(),
        forall|s: Seq<u64>| #[trigger] vstd::std_specs::btree::increasing_seq(s) ==> ascending(s),
{
    broadcast use vstd::laws_cmp::group_laws_cmp;
    assert forall|s: Seq<u64>| #[trigger] vstd::std_specs::btree::increasing_seq(s) implies ascending(s) by {
        vstd::std_specs::btree::axiom_increasing_seq_meaning::<u64>(s);
        assert forall|i: int, j: int| 0 <= i < j < s.len() implies #[trigger] s[i] < #[trigger] s[j] by {
            assert(vstd::std_specs::cmp::OrdSpec::cmp_spec(&s[i], &s[j]) == core::cmp::Ordering::Less);
        }
    }
    broadcast use vstd::std_specs::btree::axiom_key_obeys_cmp_spec_meaning;
}

/// Groups items by key: the indices of the items of each key that occurs
/// more than once, keys ascending, indices in input order.
pub fn keyed_groups(items: Vec<(u64, usize)>) -> (r: Vec<Vec<usize>>)
    ensures
        group_views(r@) == keyed_groups_spec(items@),
{
    proof {
        lemma_u64_keys_ordered();
    }
    let mut by_key: BTreeMap<u64, Vec<usize>> = BTreeMap::new();
    let mut i: usize = 0;
    assert(item_keys(items@.take(0)) =~= Set::<u64>::empty());
    while i < items.len()
        invariant
            u64_keys_ordered(),
            i <= items@.len(),
            by_key@.dom() == item_keys(items@.take(i as int)),
            forall|k: u64| #[trigger] by_key@.contains_key(k) ==> by_key@[k]@ == indices_with(items@.take(i as int), k),
        decreases items.len() - i,
    {
        let (key, index) = items[i];
        let ghost before = by_key@;
        let ghost t = items@.take(i + 1);
        assert(t.drop_last() =~= items@.take(i as int));
        assert(t.last() == items@[i as int]);
        let mut group = match by_key.remove(&key) {
            Some(g) => g,
            None => Vec::new(),
        };
        assert(group@ == indices_with(items@.take(i as int), key)) by {
            if !before.contains_key(key) {
                assert(!item_keys(items@.take(i as int)).contains(key));
                assert(indices_with(items@.take(i as int), key) =~= Seq::<usize>::empty()) by {
                    lemma_indices_absent(items@.take(i as int), key);
                }
            }
        }
        group.push(index);
        by_key.insert(key, group);
        assert(by_key@.dom() =~= item_keys(t)) by {
            assert forall|k: u64| item_keys(t).contains(k) implies by_key@.dom().contains(k) by {
                let m = choose|m: int| 0 <= m < t.len() && #[trigger] t[m].0 == k;
                if m < i {
                    assert(items@.take(i as int)[m].0 == k);
                    assert(item_keys(items@.take(i as int)).contains(k));
                }
            }
            assert forall|k: u64| by_key@.dom().contains(k) implies item_keys(t).contains(k) by {
                if k == key {
                    assert(t[i as int].0 == k);
                } else {
                    assert(item_keys(items@.take(i as int)).contains(k));
                    let m = choose|m: int| 0 <= m < i && #[trigger] items@.take(i as int)[m].0 == k;
                    assert(t[m].0 == k);
                }
            }
        }
        i += 1;
    }
    assert(items@.take(items@.len() as int) =~= items@);
    let ghost m = by_key@;
    let mut out: Vec<Vec<usize>> = Vec::new();
    let values = by_key.values();
    let ghost key_seq = choose|key_seq: Seq<u64>|
        {
            &&& vstd::std_specs::btree::increasing_seq(key_seq)
            &&& key_seq.to_set() == m.dom()
            &&& key_seq.no_duplicates()
            &&& vstd::std_specs::iter::IteratorSpec::remaining(&values) == key_seq.map(|j: int, k: u64| &m[k])
        };
    proof {
        assert(ascending(key_seq));
        assert(ascending(ascending_keys(items@)) && ascending_keys(items@).to_set() == item_keys(items@));
        lemma_ascending_unique(key_seq, ascending_keys(items@));
    }
    let ghost all = key_seq.map_values(|k: u64| indices_with(items@, k));
    assert(group_views(out@) =~= shared_runs(all.take(0)));
    for g in it: values
        invariant
            m == by_key@,
            forall|k: u64| #[trigger] m.contains_key(k) ==> m[k]@ == indices_with(items@, k),
            key_seq.to_set() == m.dom(),
            all == key_seq.map_values(|k: u64| indices_with(items@, k)),
            it.seq() == key_seq.map(|j: int, k: u64| &m[k]),
            group_views(out@) == shared_runs(all.take(it.index() as int)),
    {
        let ghost j = it.index();
        let ghost before = out@;
        assert(key_seq.to_set().contains(key_seq[j as int]));
        assert(g@ == all[j as int]);
        assert(all.take(j + 1).drop_last() =~= all.take(j as int));
        assert(all.take(j + 1).last() == all[j as int]);
        if g.len() > 1 {
            out.push(g.clone());
            assert(group_views(out@) =~= group_views(before).push(all[j as int]));
        } else {
            assert(group_views(out@) =~= group_views(before));
        }
    }
    assert(all.take(all.len() as int) =~= all);
    out
}

proof fn lemma_indices_absent(items: Seq<(u64, usize)>, k: u64)
    requires
        !item_keys(items).contains(k),
    ensures
        indices_with(items, k) == Seq::<usize>::empty(),
    decreases items.len(),
{
    if items.len() > 0 {
        let init = items.drop_last();
        assert(!item_keys(init).contains(k)) by {
            if item_keys(init).contains(k) {
                let m = choose|m: int| 0 <= m < init.len() && #[trigger] init[m].0 == k;
                assert(items[m].0 == k);
            }
        }
        assert(items[items.len() - 1].0 != k);
        lemma_indices_absent(init, k);
    }
}

/// Whether item `i` lies in one of `groups`.
pub open spec fn placed(groups: Seq<Seq<usize>>, i: usize) -> bool {
    exists|g: int, k: int| 0 <= g < groups.len() && 0 <= k < groups[g].len() && #[trigger] groups[g][k] == i
}

/// The shape of exact groups of the items below `n`: each group is
/// non-empty and in increasing order, groups are in order of their first
/// item, every item lies in exactly one group, each item after the first of
/// its group was found equal to that first item, and was found unequal to
/// the first items of all earlier groups; so was the first item of each
/// group.
pub open spec fn exact_grouping<F: Fn(usize, usize) -> bool>(groups: Seq<Seq<usize>>, n: usize, same: F) -> bool {
    &&& forall|g: int| 0 <= g < groups.len() ==> #[trigger] groups[g].len() > 0
    &&& forall|g: int, k: int| 0 <= g < groups.len() && 0 <= k < groups[g].len() ==> #[trigger] groups[g][k] < n
    &&& forall|g: int, k: int, m: int|
        0 <= g < groups.len() && 0 <= k < m < groups[g].len() ==> #[trigger] groups[g][k] < #[trigger] groups[g][m]
    &&& forall|g: int, h: int| 0 <= g < h < groups.len() ==> #[trigger] groups[g][0] < #[trigger] groups[h][0]
    &&& forall|i: usize| i < n ==> placed(groups, i)
    &&& forall|g: int, k: int, h: int, m: int|
        0 <= g < groups.len() && 0 <= k < groups[g].len() && 0 <= h < groups.len() && 0 <= m < groups[h].len()
            && #[trigger] groups[g][k] == #[trigger] groups[h][m] ==> g == h && k == m
    &&& forall|g: int, k: int|
        0 <= g < groups.len() && 0 < k < groups[g].len() ==> same.ensures((groups[g][0], #[trigger] groups[g][k]), true)
    &&& forall|g: int, h: int, k: int|
        0 <= h < g < groups.len() && 0 <= k < groups[g].len() ==> same.ensures(
            (#[trigger] groups[h][0], #[trigger] groups[g][k]),
            false,
        )
}

/// Splits the items below `n` into groups of equal content: each item in
/// turn joins the first group whose first item `same` finds equal to it, or
/// starts a group of its own.
pub fn exact_groups<F: Fn(usize, usize) -> bool>(n: usize, same: F) -> (r: Vec<Vec<usize>>)
    requires
        forall|a: usize, b: usize| same.requires((a, b)),
    ensures
        exact_grouping(group_views(r@), n, same),
{
    let mut groups: Vec<Vec<usize>> = Vec::new();
    let mut i: usize = 0;
    assert(group_views(groups@) =~= Seq::<Seq<usize>>::empty());
    while i < n
        invariant
            i <= n,
            forall|a: usize, b: usize| same.requires((a, b)),
            exact_grouping(group_views(groups@), i, same),
        decreases n - i,
    {
        let ghost before = group_views(groups@);
        let mut g: usize = 0;
        let mut found = false;
        while g < groups.len() && !found
            invariant
                g <= groups@.len(),
                group_views(groups@) == before,
                forall|a: usize, b: usize| same.requires((a, b)),
                forall|h: int| 0 <= h < g ==> same.ensures((#[trigger] before[h][0], i), false),
                found ==> g < groups@.len() && same.ensures((before[g as int][0], i), true),
                forall|h: int| 0 <= h < before.len() ==> #[trigger] before[h].len() > 0,
            decreases groups@.len() - g + (if found { 0int } else { 1int }),
        {
            assert(before[g as int] == groups@[g as int]@);
            let first = groups[g][0];
            if same(first, i) {
                found = true;
            } else {
                g += 1;
            }
        }
        if found {
            let mut group = groups.remove(g);
            group.push(i);
            groups.insert(g, group);
            let ghost after = group_views(groups@);
            proof {
                assert(after =~= before.update(g as int, before[g as int].push(i)));
                assert forall|x: usize| x < i + 1 implies placed(after, x) by {
                    if x == i {
                        assert(after[g as int][before[g as int].len() as int] == i);
                    } else {
                        assert(placed(before, x));
                        let (gg, kk) = choose|gg: int, kk: int|
                            0 <= gg < before.len() && 0 <= kk < before[gg].len() && #[trigger] before[gg][kk] == x;
                        assert(after[gg][kk] == x);
                    }
                }
                assert(exact_grouping(after, (i + 1) as usize, same));
            }
        } else {
            let mut group: Vec<usize> = Vec::new();
            group.push(i);
            groups.push(group);
            let ghost after = group_views(groups@);
            proof {
                assert(group@ =~= seq![i]);
                assert(after =~= before.push(seq![i]));
                assert forall|x: usize| x < i + 1 implies placed(after, x) by {
                    if x == i {
                        assert(after[before.len() as int][0] == i);
                    } else {
                        assert(placed(before, x));
                        let (gg, kk) = choose|gg: int, kk: int|
                            0 <= gg < before.len() && 0 <= kk < before[gg].len() && #[trigger] before[gg][kk] == x;
                        assert(after[gg][kk] == x);
                    }
                }
                assert(exact_grouping(after, (i + 1) as usize, same));
            }
        }
        i += 1;
    }
    groups
}

/// The limits of a review.
#[derive(Clone, Copy, Debug, PartialEq, Eq)]
pub struct ReviewConfig {
    /// Files shorter than this are not compared.
    pub duplicate_floor: u64,
    /// Files smaller than this on disk are not large.
    pub large_floor: i64,
    /// Files last opened more recently than this many seconds ago are not old.
    pub old_seconds: i64,
    /// The review stops after this many files.
    pub max_visited: usize,
}

impl Default for ReviewConfig {
    fn default() -> (c: Self)
        ensures
            c == (ReviewConfig {
                duplicate_floor: DUPLICATE_FLOOR,
                large_floor: LARGE_FLOOR,
                old_seconds: OLD_SECONDS,
                max_visited: MAX_VISITED,
            }),
    {
        ReviewConfig {
            duplicate_floor: DUPLICATE_FLOOR,
            large_floor: LARGE_FLOOR,
            old_seconds: OLD_SECONDS,
            max_visited: MAX_VISITED,
        }
    }
}

/// A file a review may compare with others of the same length.
#[derive(Clone, Debug, PartialEq, Eq)]
pub struct Candidate {
    pub path: Vec<u8>,
    /// Its length in bytes.
    pub logical: u64,
    /// The bytes it takes on disk.
    pub on_disk: i64,
    pub accessed_at: i64,
}

/// What a review reads of a directory entry, without following links.
#[derive(Clone, Copy, Debug, PartialEq, Eq)]
pub struct EntryInfo {
    pub dev: u64,
    pub ino: u64,
    pub is_symlink: bool,
    pub is_dir: bool,
    pub is_file: bool,
    /// The length in bytes.
    pub len: u64,
    /// The 512-byte blocks allocated on disk.
    pub blocks: u64,
    pub accessed_at: i64,
}

/// A review in progress: what it has counted and kept so far, the physical
/// files it has seen, and the directories it has still to read.
pub struct ReviewWalk {
    pub config: ReviewConfig,
    /// Files last opened at or before this time are old.
    pub cutoff: i64,
    pub visited: usize,
    /// The device and inode of each file counted, as one number.
    pub seen: HashSet<u128>,
    pub candidates: Vec<Candidate>,
    pub large_old: Vec<LargeOldFile>,
    /// Directories still to read, each with the device of its root.
    pub pending: Vec<(Vec<u8>, u64)>,
}

pub struct CandidateView {
    pub path: Seq<u8>,
    pub logical: u64,
    pub on_disk: i64,
    pub accessed_at: i64,
}

impl View for Candidate {
    type V = CandidateView;

    open spec fn view(&self) -> CandidateView {
        CandidateView { path: self.path@, logical: self.logical, on_disk: self.on_disk, accessed_at: self.accessed_at }
    }
}

pub struct LargeOldView {
    pub path: Seq<u8>,
    pub bytes: i64,
    pub accessed_at: i64,
}

impl View for LargeOldFile {
    type V = LargeOldView;

    open spec fn view(&self) -> LargeOldView {
        LargeOldView { path: self.path@, bytes: self.bytes, accessed_at: self.accessed_at }
    }
}

pub struct WalkView {
    pub config: ReviewConfig,
    pub cutoff: i64,
    pub visited: usize,
    pub seen: Set<u128>,
    pub candidates: Seq<CandidateView>,
    pub large_old: Seq<LargeOldView>,
    pub pending: Seq<(Seq<u8>, u64)>,
}

impl View for ReviewWalk {
    type V = WalkView;

    open spec fn view(&self) -> WalkView {
        WalkView {
            config: self.config,
            cutoff: self.cutoff,
            visited: self.visited,
            seen: self.seen@,
            candidates: self.candidates@.map_values(|c: Candidate| c@),
            large_old: self.large_old@.map_values(|f: LargeOldFile| f@),
            pending: self.pending@.map_values(|d: (Vec<u8>, u64)| (d.0@, d.1)),
        }
    }
}

/// One number for a file's device and inode.
pub open spec fn file_key(dev: u64, ino: u64) -> u128 {
    (dev as nat * 0x1_0000_0000_0000_0000nat + ino as nat) as u128
}

/// What visiting one directory entry does to a review: entries on another
/// device and links are passed over; a directory is queued unless the
/// review skips it; a file is counted once per device and inode, kept as
/// large and old when it qualifies, and kept for comparison when it is long
/// enough and there is room. A full review changes no more.
pub open spec fn visit_spec(w: WalkView, path: Seq<u8>, root_dev: u64, info: EntryInfo) -> WalkView {
    if w.visited >= w.config.max_visited || info.dev != root_dev || info.is_symlink {
        w
    } else if info.is_dir {
        if skipped_dir_spec(path) {
            w
        } else {
            WalkView { pending: w.pending.push((path, root_dev)), ..w }
        }
    } else if !info.is_file || w.seen.contains(file_key(info.dev, info.ino)) {
        w
    } else {
        let on_disk = sat_mul(info.blocks as i64, 512);
        WalkView {
            visited: (w.visited + 1) as usize,
            seen: w.seen.insert(file_key(info.dev, info.ino)),
            large_old: if on_disk >= w.config.large_floor && info.accessed_at > 0 && info.accessed_at <= w.cutoff {
                w.large_old.push(LargeOldView { path, bytes: on_disk, accessed_at: info.accessed_at })
            } else {
                w.large_old
            },
            candidates: if info.len >= w.config.duplicate_floor && w.candidates.len() < MAX_CANDIDATES {
                w.candidates.push(CandidateView { path, logical: info.len, on_disk, accessed_at: info.accessed_at })
            } else {
                w.candidates
            },
            ..w
        }
    }
}

fn key_of(dev: u64, ino: u64) -> (k: u128)
    ensures
        k == file_key(dev, ino),
{
    assert(dev as nat * 0x1_0000_0000_0000_0000nat + ino as nat <= u128::MAX) by (nonlinear_arith)
        requires
            dev <= u64::MAX,
            ino <= u64::MAX,
    ;
    (dev as u128) * 0x1_0000_0000_0000_0000u128 + (ino as u128)
}

fn on_disk_bytes(blocks: u64) -> (r: i64)
    ensures
        r == sat_mul(blocks as i64, 512),
{
    let b = blocks as i64;
    let p = (b as i128) * 512;
    if p > i64::MAX as i128 {
        i64::MAX
    } else if p < i64::MIN as i128 {
        i64::MIN
    } else {
        p as i64
    }
}

/// A review never counts more files than its limit allows.
pub proof fn lemma_visit_bounded(w: WalkView, path: Seq<u8>, root_dev: u64, info: EntryInfo)
    requires
        w.visited <= w.config.max_visited,
    ensures
        visit_spec(w, path, root_dev, info).visited <= w.config.max_visited,
        visit_spec(w, path, root_dev, info).config == w.config,
{
}

/// Two names of one physical file (the same device and inode, such as hard
/// links) are counted once and offered for comparison at most once.
pub proof fn lemma_same_file_counted_once(
    w: WalkView,
    a: Seq<u8>,
    b: Seq<u8>,
    root_dev: u64,
    ia: EntryInfo,
    ib: EntryInfo,
)
    requires
        ia.dev == ib.dev,
        ia.ino == ib.ino,
    ensures
        visit_spec(visit_spec(w, a, root_dev, ia), b, root_dev, ib).visited <= w.visited + 1,
        visit_spec(visit_spec(w, a, root_dev, ia), b, root_dev, ib).candidates.len() <= w.candidates.len() + 1,
{
}

impl ReviewWalk {
    /// A review that has seen nothing yet, started at `now` (seconds since
    /// the epoch): files last opened `old_seconds` or more before it are old.
    pub fn new(config: ReviewConfig, now: i64) -> (w: ReviewWalk)
        ensures
            w@.config == config,
            w@.cutoff == crate::history::sat_sub(now, config.old_seconds),
            w@.visited == 0,
            w@.seen == Set::<u128>::empty(),
            w@.candidates == Seq::<CandidateView>::empty(),
            w@.large_old == Seq::<LargeOldView>::empty(),
            w@.pending == Seq::<(Seq<u8>, u64)>::empty(),
    {
        let w = ReviewWalk {
            config,
            cutoff: crate::history::saturating_sub_i64(now, config.old_seconds),
            visited: 0,
            seen: HashSet::new(),
            candidates: Vec::new(),
            large_old: Vec::new(),
            pending: Vec::new(),
        };
        assert(w@.candidates =~= Seq::<CandidateView>::empty());
        assert(w@.large_old =~= Seq::<LargeOldView>::empty());
        assert(w@.pending =~= Seq::<(Seq<u8>, u64)>::empty());
        w
    }

    /// Queues a root of the review when it is a directory itself (not a link
    /// to one); `info` is `None` when the root could not be read.
    pub fn add_root(&mut self, root: Vec<u8>, info: Option<EntryInfo>)
        ensures
            (match info {
                Some(i) => i.is_dir,
                None => false,
            }) ==> final(self)@ == (WalkView { pending: old(self)@.pending.push((root@, info->0.dev)), ..old(self)@ }),
            !(match info {
                Some(i) => i.is_dir,
                None => false,
            }) ==> final(self)@ == old(self)@,
    {
        let ghost r = root@;
        if let Some(i) = info {
            if i.is_dir {
                self.pending.push((root, i.dev));
                assert(self@.pending =~= old(self)@.pending.push((r, i.dev)));
            }
        }
    }

    /// Whether the review has counted as many files as it may.
    pub fn is_full(&self) -> (r: bool)
        ensures
            r == (self@.visited >= self@.config.max_visited),
    {
        self.visited >= self.config.max_visited
    }

    /// The next directory to read, the one queued last, with the device of
    /// its root; `None` when the review is full or nothing is left.
    pub fn next_dir(&mut self) -> (r: Option<(Vec<u8>, u64)>)
        ensures
            old(self)@.visited >= old(self)@.config.max_visited || old(self)@.pending.len() == 0 ==> r is None
                && final(self)@ == old(self)@,
            old(self)@.visited < old(self)@.config.max_visited && old(self)@.pending.len() > 0 ==> r is Some
                && (r.unwrap().0@, r.unwrap().1) == old(self)@.pending.last()
                && final(self)@ == (WalkView { pending: old(self)@.pending.drop_last(), ..old(self)@ }),
    {
        if self.visited >= self.config.max_visited {
            return None;
        }
        let r = self.pending.pop();
        proof {
            if old(self)@.pending.len() > 0 {
                assert(self@.pending =~= old(self)@.pending.drop_last());
            }
        }
        match r {
            Some(d) => {
                proof {
                    assert(old(self).pending@.last() == d);
                }
                Some(d)
            },
            None => None,
        }
    }

    /// Visits one entry of a directory whose root lies on `root_dev`.
    pub fn visit(&mut self, path: Vec<u8>, root_dev: u64, info: EntryInfo)
        ensures
            final(self)@ == visit_spec(old(self)@, path@, root_dev, info),
    {
        broadcast use vstd::std_specs::hash::group_hash_axioms;

        let ghost p = path@;
        if self.visited >= self.config.max_visited || info.dev != root_dev || info.is_symlink {
            return;
        }
        if info.is_dir {
            if !skipped_dir(path.as_slice()) {
                self.pending.push((path, root_dev));
                assert(self@.pending =~= old(self)@.pending.push((p, root_dev)));
            }
            return;
        }
        if !info.is_file {
            return;
        }
        let key = key_of(info.dev, info.ino);
        if !self.seen.insert(key) {
            assert(self.seen@ =~= old(self).seen@);
            return;
        }
        self.visited = self.visited + 1;
        let on_disk = on_disk_bytes(info.blocks);
        if qualifies_large_old(on_disk, info.accessed_at, self.cutoff, self.config.large_floor) {
            let copy = path.clone();
            self.large_old.push(LargeOldFile { path: copy, bytes: on_disk, accessed_at: info.accessed_at });
            assert(self@.large_old =~= old(self)@.large_old.push(
                LargeOldView { path: p, bytes: on_disk, accessed_at: info.accessed_at },
            ));
        }
        if info.len >= self.config.duplicate_floor && self.candidates.len() < MAX_CANDIDATES {
            self.candidates.push(Candidate { path, logical: info.len, on_disk, accessed_at: info.accessed_at });
            assert(self@.candidates =~= old(self)@.candidates.push(
                CandidateView { path: p, logical: info.len, on_disk, accessed_at: info.accessed_at },
            ));
        }
    }
}

} // verus!
