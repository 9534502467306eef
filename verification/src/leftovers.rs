//! Conservative detection of large orphaned app sandbox containers.
//!
//! A container is reported only when it is large, is named like a bundle
//! identifier that is not Apple's, and a lookup of installed apps answered
//! that no such app exists. A lookup that failed reports nothing.

use vstd::prelude::*;
use vstd::utf8::encode_utf8;
use crate::paths::{join_path, join_spec};
use crate::reclaim_plan::{chars_less, chars_lt};
use crate::rules::{data_root_bytes, strip_data_root, strip_data_root_spec};
use crate::scan::{lookup, lookup_spec, ScanTree};
use crate::sorting::{sort_stable, stable_sort};
use crate::text::{
    append_str, chars_contain, chars_prefix, chars_suffix, lossy_string, lossy_text, owned, str_contains, str_ends_with,
    str_eq, str_starts_with, trim, trim_spec,
};

verus! {

pub const MIN_LEFTOVER_BYTES: i64 = 262144000;

pub const MAX_CANDIDATES: usize = 32;

#[derive(Clone, Debug, PartialEq, Eq)]
pub struct LeftoverFinding {
    pub bundle_id: String,
    pub path: Vec<u8>,
    pub bytes: i64,
    pub evidence: String,
}

pub struct FindingView {
    pub bundle_id: Seq<char>,
    pub path: Seq<u8>,
    pub bytes: i64,
    pub evidence: Seq<char>,
}

impl View for LeftoverFinding {
    type V = FindingView;

    open spec fn view(&self) -> FindingView {
        FindingView { bundle_id: self.bundle_id@, path: self.path@, bytes: self.bytes, evidence: self.evidence@ }
    }
}

/// A character allowed inside a bundle identifier segment.
pub open spec fn id_char(c: char) -> bool {
    ('a' <= c && c <= 'z') || ('A' <= c && c <= 'Z') || ('0' <= c && c <= '9') || c == '-'
}

/// Shaped like a third-party bundle identifier: at least two non-empty
/// segments joined by dots, each of ASCII letters, digits and hyphens, at
/// most 255 bytes, and not Apple's own `com.apple.` namespace.
pub open spec fn bundle_shaped_spec(s: Seq<char>) -> bool {
    &&& !chars_prefix("com.apple."@, s)
    &&& s.len() <= 255
    &&& forall|i: int| 0 <= i < s.len() ==> id_char(#[trigger] s[i]) || s[i] == '.'
    &&& exists|i: int| 0 <= i < s.len() && #[trigger] s[i] == '.'
    &&& s.len() > 0 && s[0] != '.' && s.last() != '.'
    &&& forall|i: int| 0 <= i < s.len() - 1 ==> !(#[trigger] s[i] == '.' && s[i + 1] == '.')
}

fn is_id_char(c: char) -> (r: bool)
    ensures
        r == id_char(c),
{
    ('a' <= c && c <= 'z') || ('A' <= c && c <= 'Z') || ('0' <= c && c <= '9') || c == '-'
}

pub fn bundle_id_shaped(value: &str) -> (r: bool)
    ensures
        r == bundle_shaped_spec(value@),
{
    proof {
        reveal_strlit("com.apple.");
    }
    if str_starts_with(value, "com.apple.") {
        return false;
    }
    let n = value.unicode_len();
    if n == 0 || n > 255 {
        return false;
    }
    let ghost s = value@;
    let mut dot = false;
    let mut i: usize = 0;
    while i < n
        invariant
            n == s.len(),
            s == value@,
            0 < n <= 255,
            i <= n,
            forall|j: int| 0 <= j < i ==> id_char(#[trigger] s[j]) || s[j] == '.',
            dot == exists|j: int| 0 <= j < i && #[trigger] s[j] == '.',
            i > 0 ==> s[0] != '.',
            forall|j: int| 0 <= j < i - 1 ==> !(#[trigger] s[j] == '.' && s[j + 1] == '.'),
        decreases n - i,
    {
        let c = value.get_char(i);
        if c == '.' {
            if i == 0 || value.get_char(i - 1) == '.' {
                proof {
                    if i > 0 {
                        assert(s[i - 1] == '.' && s[i - 1 + 1] == '.');
                    }
                }
                return false;
            }
            dot = true;
        } else if !is_id_char(c) {
            return false;
        }
        i += 1;
    }
    if !dot {
        return false;
    }
    value.get_char(n - 1) != '.'
}

/// A leftover: shaped like a bundle identifier, at least 250 MiB, and the
/// installed-app lookup succeeded and found no such app.
pub fn candidate(bundle_id: &str, bytes: i64, installed: Result<bool, String>) -> (r: bool)
    ensures
        r == (bundle_shaped_spec(bundle_id@) && bytes >= MIN_LEFTOVER_BYTES && installed == Ok::<
            bool,
            String,
        >(false)),
{
    let absent = match installed {
        Ok(found) => !found,
        Err(_) => false,
    };
    bundle_id_shaped(bundle_id) && bytes >= MIN_LEFTOVER_BYTES && absent
}

/// Whether app search output names an app: a line that ends in `.app` or
/// that reaches into an app's `Contents/` or `PlugIns/`. A line ends in
/// `.app` when `.app` comes before a line break (`\n` or `\r\n`) or at the end.
pub open spec fn lists_app_spec(text: Seq<char>) -> bool {
    ||| chars_suffix(".app"@, text)
    ||| chars_contain(text, ".app\n"@)
    ||| chars_contain(text, ".app\r\n"@)
    ||| chars_contain(text, ".app/Contents/"@)
    ||| chars_contain(text, ".app/PlugIns/"@)
}

pub fn spotlight_lists_app(text: &str) -> (r: bool)
    ensures
        r == lists_app_spec(text@),
{
    str_ends_with(text, ".app") || str_contains(text, ".app\n") || str_contains(text, ".app\r\n")
        || str_contains(text, ".app/Contents/") || str_contains(text, ".app/PlugIns/")
}

/// An installed app's identifier as its `Info.plist` gives it, without
/// surrounding whitespace; kept when it is shaped like a bundle identifier
/// or is one of Apple's.
pub fn installed_id(raw: &str) -> (r: Option<String>)
    ensures
        ({
            let t = trim_spec(raw@);
            &&& (bundle_shaped_spec(t) || chars_prefix("com.apple."@, t)) ==> r is Some && r->Some_0@ == t
            &&& !(bundle_shaped_spec(t) || chars_prefix("com.apple."@, t)) ==> r is None
        }),
{
    let t = trim(raw);
    if bundle_id_shaped(t) || str_starts_with(t, "com.apple.") {
        Some(owned(t))
    } else {
        None
    }
}

/// Whether an app is known to be installed without searching: an identifier
/// not shaped like a bundle identifier is never reported, and one among the
/// installed apps' identifiers is installed. `false` means a search must
/// decide.
pub fn known_installed(bundle_id: &str, installed: &[String]) -> (r: bool)
    ensures
        r == (!bundle_shaped_spec(bundle_id@) || exists|k: int|
            0 <= k < installed@.len() && (#[trigger] installed@[k])@ == bundle_id@),
{
    if !bundle_id_shaped(bundle_id) {
        return true;
    }
    let mut k: usize = 0;
    while k < installed.len()
        invariant
            k <= installed@.len(),
            forall|j: int| 0 <= j < k ==> (#[trigger] installed@[j])@ != bundle_id@,
        decreases installed@.len() - k,
    {
        if str_eq(installed[k].as_str(), bundle_id) {
            return true;
        }
        k += 1;
    }
    false
}

/// The Spotlight query for apps with exactly this bundle identifier, in
/// any case.
pub fn spotlight_query(bundle_id: &str) -> (q: String)
    ensures
        q@ == "kMDItemCFBundleIdentifier == '"@ + bundle_id@ + "'c"@,
{
    let mut q = String::new();
    append_str(&mut q, "kMDItemCFBundleIdentifier == '");
    append_str(&mut q, bundle_id);
    append_str(&mut q, "'c");
    q
}

/// A container measured in the scan.
pub struct Container {
    pub bundle_id: String,
    pub path: Vec<u8>,
    pub bytes: i64,
}

/// `Library/Containers`.
pub open spec fn containers_rel() -> Seq<u8> {
    seq![76u8, 105u8, 98u8, 114u8, 97u8, 114u8, 121u8, 47u8, 67u8, 111u8, 110u8, 116u8, 97u8, 105u8, 110u8, 101u8, 114u8, 115u8]
}

fn containers_rel_vec() -> (v: Vec<u8>)
    ensures
        v@ == containers_rel(),
{
    let v: Vec<u8> = vec![76u8, 105u8, 98u8, 114u8, 97u8, 114u8, 121u8, 47u8, 67u8, 111u8, 110u8, 116u8, 97u8, 105u8, 110u8, 101u8, 114u8, 115u8];
    assert(v@ =~= containers_rel());
    v
}

/// The containers folder of `home` on the data volume (the home path taken
/// as text).
pub open spec fn containers_path(home: Seq<u8>) -> Seq<u8> {
    join_spec(data_root_bytes() + encode_utf8(lossy_text(home)), containers_rel())
}

/// The children of a containers folder that qualify by name and size, as
/// containers with their firmlinked paths.
pub open spec fn qualifying(nodes: Seq<crate::scan::Node>, kids: Seq<usize>) -> Seq<(Seq<char>, Seq<u8>, i64)>
    decreases kids.len(),
{
    if kids.len() == 0 {
        Seq::empty()
    } else {
        let rest = qualifying(nodes, kids.drop_last());
        let n = nodes[kids.last() as int];
        if bundle_shaped_spec(n.name@) && n.bytes >= MIN_LEFTOVER_BYTES {
            rest.push((n.name@, strip_data_root_spec(n.path@), n.bytes))
        } else {
            rest
        }
    }
}

pub open spec fn container_view(c: Container) -> (Seq<char>, Seq<u8>, i64) {
    (c.bundle_id@, c.path@, c.bytes)
}

pub open spec fn containers_view(s: Seq<Container>) -> Seq<(Seq<char>, Seq<u8>, i64)> {
    s.map_values(|c: Container| container_view(c))
}

/// Largest first; equal sizes by bundle identifier.
pub open spec fn container_after(a: (Seq<char>, Seq<u8>, i64), b: (Seq<char>, Seq<u8>, i64)) -> bool {
    a.2 < b.2 || (a.2 == b.2 && chars_lt(b.0, a.0))
}

pub open spec fn container_order() -> spec_fn(Container, Container) -> bool {
    |a: Container, b: Container| container_after(container_view(a), container_view(b))
}

fn container_after_exec(a: &Container, b: &Container) -> (r: bool)
    ensures
        r == container_after(container_view(*a), container_view(*b)),
{
    a.bytes < b.bytes || (a.bytes == b.bytes && chars_less(b.bundle_id.as_str(), a.bundle_id.as_str()))
}

/// The qualifying containers in `home`'s containers folder, largest first,
/// at most 32; none when the scan has no such folder.
pub fn container_candidates(tree: &ScanTree, root: usize, home: &[u8]) -> (r: Vec<Container>)
    requires
        tree.wf(),
        root < tree@.len(),
    ensures
        match lookup_spec(tree@, root as int, containers_path(home@)) {
            None => r@.len() == 0,
            Some(j) => {
                let kept = stable_sort(
                    qualifying(tree@, tree@[j as int].children@),
                    |a: (Seq<char>, Seq<u8>, i64), b: (Seq<char>, Seq<u8>, i64)| container_after(a, b),
                );
                containers_view(r@) == kept.take(vstd::math::min(kept.len() as int, MAX_CANDIDATES as int))
            },
        },
{
    let mut base = data_root_vec_copy();
    let home_text = lossy_string(home);
    let home_bytes = home_text.as_str().as_bytes();
    crate::bytes::push_bytes(&mut base, home_bytes);
    let path = join_path(base.as_slice(), containers_rel_vec().as_slice());
    let j = match lookup(tree, root, path.as_slice()) {
        Some(j) => j,
        None => {
            return Vec::new();
        },
    };
    let kids = &tree.node(j).children;
    let mut found: Vec<Container> = Vec::new();
    let mut k: usize = 0;
    proof {
        tree.lemma_wf();
        assert(crate::scan::children_ok(tree@, j as int));
        assert(kids@.take(0) =~= Seq::<usize>::empty());
    }
    while k < kids.len()
        invariant
            tree.wf(),
            crate::scan::nodes_wf(tree@),
            j < tree@.len(),
            *kids == tree@[j as int].children,
            k <= kids@.len(),
            containers_view(found@) == qualifying(tree@, kids@.take(k as int)),
        decreases kids.len() - k,
    {
        let c = kids[k];
        proof {
            assert(crate::scan::children_ok(tree@, j as int));
            assert(kids@.take(k + 1).drop_last() =~= kids@.take(k as int));
        }
        let node = tree.node(c);
        let ghost before = containers_view(found@);
        if bundle_id_shaped(node.name.as_str()) && node.bytes >= MIN_LEFTOVER_BYTES {
            let item = Container {
                bundle_id: node.name.clone(),
                path: strip_data_root(node.path.as_slice()),
                bytes: node.bytes,
            };
            found.push(item);
            proof {
                assert(containers_view(found@) =~= before.push(container_view(found@.last())));
            }
        }
        k += 1;
    }
    proof {
        assert(kids@.take(kids@.len() as int) =~= kids@);
    }
    let ghost unsorted = found@;
    let mut sorted = sort_stable(found, container_after_exec, Ghost(container_order()));
    proof {
        crate::sorting::lemma_sort_map(
            unsorted,
            |c: Container| container_view(c),
            container_order(),
            |a: (Seq<char>, Seq<u8>, i64), b: (Seq<char>, Seq<u8>, i64)| container_after(a, b),
        );
        assert(containers_view(unsorted) =~= unsorted.map_values(|c: Container| container_view(c)));
        assert(containers_view(sorted@) =~= sorted@.map_values(|c: Container| container_view(c)));
        crate::sorting::lemma_stable_sort_len(unsorted, container_order());
    }
    let ghost full = sorted@;
    if sorted.len() > MAX_CANDIDATES {
        sorted.truncate(MAX_CANDIDATES);
    }
    proof {
        assert(containers_view(sorted@) =~= containers_view(full).take(
            vstd::math::min(full.len() as int, MAX_CANDIDATES as int),
        ));
    }
    sorted
}

fn data_root_vec_copy() -> (v: Vec<u8>)
    ensures
        v@ == data_root_bytes(),
{
    let v: Vec<u8> = vec![47u8, 83u8, 121u8, 115u8, 116u8, 101u8, 109u8, 47u8, 86u8, 111u8, 108u8, 117u8, 109u8, 101u8, 115u8, 47u8, 68u8, 97u8, 116u8, 97u8];
    assert(v@ =~= data_root_bytes());
    v
}

/// The evidence line of a finding.
pub open spec fn evidence_text(bundle_id: Seq<char>) -> Seq<char> {
    "Sandbox container is named for bundle ID "@ + bundle_id
        + "; no matching installed app or extension was found."@
}

/// The findings among checked containers, in order: each is a candidate.
pub open spec fn findings_of(checked: Seq<(Container, Result<bool, String>)>) -> Seq<FindingView>
    decreases checked.len(),
{
    if checked.len() == 0 {
        Seq::empty()
    } else {
        let rest = findings_of(checked.drop_last());
        let (c, installed) = checked.last();
        if bundle_shaped_spec(c.bundle_id@) && c.bytes >= MIN_LEFTOVER_BYTES && installed == Ok::<
            bool,
            String,
        >(false) {
            rest.push(
                FindingView {
                    bundle_id: c.bundle_id@,
                    path: c.path@,
                    bytes: c.bytes,
                    evidence: evidence_text(c.bundle_id@),
                },
            )
        } else {
            rest
        }
    }
}

pub open spec fn findings_view(s: Seq<LeftoverFinding>) -> Seq<FindingView> {
    s.map_values(|f: LeftoverFinding| f@)
}

/// The leftovers among measured containers, each paired with what the
/// installed-app lookup answered for it.
pub fn detect(checked: Vec<(Container, Result<bool, String>)>) -> (r: Vec<LeftoverFinding>)
    ensures
        findings_view(r@) == findings_of(checked@),
{
    let mut out: Vec<LeftoverFinding> = Vec::new();
    let mut i: usize = 0;
    proof {
        assert(checked@.take(0) =~= Seq::<(Container, Result<bool, String>)>::empty());
        assert(findings_view(out@) =~= Seq::<FindingView>::empty());
    }
    while i < checked.len()
        invariant
            i <= checked@.len(),
            findings_view(out@) == findings_of(checked@.take(i as int)),
        decreases checked.len() - i,
    {
        let (c, installed) = &checked[i];
        proof {
            assert(checked@.take(i + 1).drop_last() =~= checked@.take(i as int));
            assert(checked@.take(i + 1).last() == checked@[i as int]);
        }
        let ghost before = findings_view(out@);
        let ok_absent = match installed {
            Ok(found) => !*found,
            Err(_) => false,
        };
        if bundle_id_shaped(c.bundle_id.as_str()) && c.bytes >= MIN_LEFTOVER_BYTES && ok_absent {
            let mut evidence = String::new();
            append_str(&mut evidence, "Sandbox container is named for bundle ID ");
            append_str(&mut evidence, c.bundle_id.as_str());
            append_str(&mut evidence, "; no matching installed app or extension was found.");
            let finding = LeftoverFinding {
                bundle_id: c.bundle_id.clone(),
                path: c.path.clone(),
                bytes: c.bytes,
                evidence,
            };
            out.push(finding);
            proof {
                assert(findings_view(out@) =~= before.push(out@.last()@));
            }
        } else {
            proof {
                assert(findings_view(out@) =~= before);
            }
        }
        i += 1;
    }
    proof {
        assert(checked@.take(checked@.len() as int) =~= checked@);
    }
    out
}

} // verus!
