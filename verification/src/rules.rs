//! Reclaim recommendations: what a finding is, how it is reclaimed, and how
//! data-volume paths read for people.
//!
//! Safe findings regenerate by themselves; caution findings cost a download
//! or a reinstall. User documents are never recommended.

use vstd::prelude::*;
use vstd::utf8::encode_utf8;
use crate::paths::{components, components_of, comps_view, join_spec, join_path, strip_rooted, strip_rooted_exec, Comp, Component, SLASH};
use crate::scan::{bytes_after, find_dirs_named, lookup, lookup_spec, named_walk, sizes_negatable, size_of, Node, ScanTree};
use crate::sorting::stable_sort;
use crate::text::{append_str, chars_contain, chars_prefix, owned, str_contains, str_starts_with, lossy_text, lossy_string, push_char};

verus! {

#[derive(Clone, Copy, Debug, PartialEq, Eq, Structural)]
pub enum Tier {
    Safe,
    Caution,
}

#[derive(Clone, Copy, Debug, PartialEq, Eq, Structural)]
pub enum Action {
    Trash,
    Delete,
    Command,
    /// Delete the contents and keep the folder.
    Empty,
}

pub struct Rec {
    pub id: String,
    pub title: String,
    pub path: Vec<u8>,
    pub display: String,
    pub bytes: i64,
    pub tier: Tier,
    pub desc: &'static str,
    pub restore: &'static str,
    pub action: Action,
    pub command: Option<&'static str>,
    pub allow_trash: bool,
    pub allow_delete: bool,
    pub note: String,
    pub estimate: bool,
}

/// The bytes of `/System/Volumes/Data`.
pub open spec fn data_root_bytes() -> Seq<u8> {
    seq![47u8, 83u8, 121u8, 115u8, 116u8, 101u8, 109u8, 47u8, 86u8, 111u8, 108u8, 117u8, 109u8,
        101u8, 115u8, 47u8, 68u8, 97u8, 116u8, 97u8]
}

fn data_root_vec() -> (v: Vec<u8>)
    ensures
        v@ == data_root_bytes(),
{
    let v: Vec<u8> = vec![47u8, 83u8, 121u8, 115u8, 116u8, 101u8, 109u8, 47u8, 86u8, 111u8, 108u8, 117u8, 109u8,
        101u8, 115u8, 47u8, 68u8, 97u8, 116u8, 97u8];
    assert(v@ =~= data_root_bytes());
    v
}

/// A data-volume path in its firmlinked form: `/System/Volumes/Data/x` reads
/// as `/x`; a path outside the data volume is kept as it is.
pub open spec fn strip_data_root_spec(p: Seq<u8>) -> Seq<u8> {
    match strip_rooted(p, data_root_bytes()) {
        Some(rest) => join_spec(seq![SLASH], rest),
        None => p,
    }
}

pub fn strip_data_root(p: &[u8]) -> (r: Vec<u8>)
    ensures
        r@ == strip_data_root_spec(p@),
{
    let root = data_root_vec();
    match strip_rooted_exec(p, root.as_slice()) {
        Some(rest) => {
            let slash: Vec<u8> = vec![SLASH];
            join_path(slash.as_slice(), rest.as_slice())
        },
        None => {
            let mut out: Vec<u8> = Vec::new();
            crate::bytes::push_bytes(&mut out, p);
            assert(out@ =~= p@);
            out
        },
    }
}

/// The characters of `/System/Volumes/Data`.
pub open spec fn data_root_chars() -> Seq<char> {
    seq!['/', 'S', 'y', 's', 't', 'e', 'm', '/', 'V', 'o', 'l', 'u', 'm', 'e', 's', '/', 'D', 'a',
        't', 'a']
}

/// How a data-volume path reads for people: the text of the path without the
/// `/System/Volumes/Data` prefix (`/` when nothing is left), with the home
/// folder written `~`.
pub open spec fn display_spec(path: Seq<u8>, home: Seq<u8>) -> Seq<char> {
    let s = lossy_text(path);
    let d0 = if chars_prefix(data_root_chars(), s) {
        s.skip(20)
    } else {
        s
    };
    let d = if d0.len() == 0 {
        seq!['/']
    } else {
        d0
    };
    let h = lossy_text(home);
    if chars_prefix(h, d) {
        seq!['~'] + d.skip(h.len() as int)
    } else {
        d
    }
}

fn push_chars_from(out: &mut String, s: &str, from: usize)
    requires
        from <= s@.len(),
    ensures
        final(out)@ == old(out)@ + s@.skip(from as int),
{
    let n = s.unicode_len();
    let mut i = from;
    while i < n
        invariant
            n == s@.len(),
            from <= i <= n,
            out@ == old(out)@ + s@.subrange(from as int, i as int),
        decreases n - i,
    {
        push_char(out, s.get_char(i));
        assert(s@.subrange(from as int, i + 1) =~= s@.subrange(from as int, i as int).push(
            s@[i as int],
        ));
        i += 1;
    }
    assert(s@.subrange(from as int, n as int) =~= s@.skip(from as int));
}

/// Prettifies a data-volume path for people, given the home folder.
pub fn display(path: &[u8], home: &[u8]) -> (r: String)
    ensures
        r@ == display_spec(path@, home@),
{
    let s = lossy_string(path);
    let root = "/System/Volumes/Data";
    proof {
        reveal_strlit("/System/Volumes/Data");
        assert(root@ =~= data_root_chars());
    }
    let mut d = String::new();
    if str_starts_with(s.as_str(), root) {
        push_chars_from(&mut d, s.as_str(), 20);
    } else {
        push_chars_from(&mut d, s.as_str(), 0);
        assert(s@.skip(0) =~= s@);
    }
    if d.as_str().unicode_len() == 0 {
        push_char(&mut d, '/');
        assert(d@ =~= seq!['/']);
    }
    let h = lossy_string(home);
    if str_starts_with(d.as_str(), h.as_str()) {
        let mut out = String::new();
        push_char(&mut out, '~');
        push_chars_from(&mut out, d.as_str(), h.as_str().unicode_len());
        assert(out@ =~= seq!['~'] + d@.skip(h@.len() as int));
        out
    } else {
        d
    }
}

/// The name a cache folder is shown under, for the folders that have one.
pub fn friendly_cache_name(dir: &str) -> (r: Option<&'static str>)
    ensures
        match r {
            Some(t) => exists|k: int|
                0 <= k < 9 && dir@ == #[trigger] friendly_cache_dirs()[k] && t@
                    == friendly_cache_titles()[k] && forall|j: int|
                    0 <= j < k ==> dir@ != friendly_cache_dirs()[j],
            None => !is_friendly_cache(dir@),
        },
        match r {
            Some(t) => friendly_from(dir@, 0) == Some(t@),
            None => friendly_from(dir@, 0) is None,
        },
{
    let names = [
        ("Google", "Chrome caches"),
        ("BraveSoftware", "Brave caches"),
        ("Mozilla", "Firefox caches"),
        ("Firefox", "Firefox caches"),
        ("com.spotify.client", "Spotify cache"),
        ("Yarn", "Yarn cache"),
        ("typescript", "TypeScript server cache"),
        ("node-gyp", "node-gyp cache"),
        ("electron", "Electron download cache"),
    ];
    proof {
        reveal_strlit("Google");
        reveal_strlit("BraveSoftware");
        reveal_strlit("Mozilla");
        reveal_strlit("Firefox");
        reveal_strlit("com.spotify.client");
        reveal_strlit("Yarn");
        reveal_strlit("typescript");
        reveal_strlit("node-gyp");
        reveal_strlit("electron");
    }
    let mut i: usize = 0;
    while i < 9
        invariant
            i <= 9,
            forall|k: int| 0 <= k < 9 ==> (#[trigger] names@[k]).0@ == friendly_cache_dirs()[k],
            forall|k: int| 0 <= k < 9 ==> (#[trigger] names@[k]).1@ == friendly_cache_titles()[k],
            forall|k: int| 0 <= k < i ==> dir@ != #[trigger] friendly_cache_dirs()[k],
            friendly_from(dir@, 0) == friendly_from(dir@, i as int),
        decreases 9 - i,
    {
        if crate::text::str_eq(dir, names[i].0) {
            assert(dir@ == friendly_cache_dirs()[i as int]);
            return Some(names[i].1);
        }
        i += 1;
    }
    None
}

pub open spec fn friendly_cache_dirs() -> Seq<Seq<char>> {
    seq![
        "Google"@,
        "BraveSoftware"@,
        "Mozilla"@,
        "Firefox"@,
        "com.spotify.client"@,
        "Yarn"@,
        "typescript"@,
        "node-gyp"@,
        "electron"@,
    ]
}

pub open spec fn friendly_cache_titles() -> Seq<Seq<char>> {
    seq![
        "Chrome caches"@,
        "Brave caches"@,
        "Firefox caches"@,
        "Firefox caches"@,
        "Spotify cache"@,
        "Yarn cache"@,
        "TypeScript server cache"@,
        "node-gyp cache"@,
        "Electron download cache"@,
    ]
}

/// The title of the first friendly cache name from the `k`-th on that is `dir`.
pub open spec fn friendly_from(dir: Seq<char>, k: int) -> Option<Seq<char>>
    decreases 9 - k,
{
    if k < 0 || k >= 9 {
        None
    } else if dir == friendly_cache_dirs()[k] {
        Some(friendly_cache_titles()[k])
    } else {
        friendly_from(dir, k + 1)
    }
}

pub open spec fn is_browser_spec(dir: Seq<char>) -> bool {
    exists|k: int| 0 <= k < 4 && dir == #[trigger] browser_cache_dirs()[k]
}

pub open spec fn is_friendly_cache(dir: Seq<char>) -> bool {
    exists|k: int| 0 <= k < 9 && dir == #[trigger] friendly_cache_dirs()[k]
}

pub open spec fn browser_cache_dirs() -> Seq<Seq<char>> {
    seq!["Google"@, "BraveSoftware"@, "Mozilla"@, "Firefox"@]
}

/// Whether a cache folder belongs to a browser.
pub fn is_browser_cache(dir: &str) -> (r: bool)
    ensures
        r == is_browser_spec(dir@),
{
    let names = ["Google", "BraveSoftware", "Mozilla", "Firefox"];
    let mut i: usize = 0;
    while i < 4
        invariant
            i <= 4,
            forall|k: int| 0 <= k < 4 ==> (#[trigger] names@[k])@ == browser_cache_dirs()[k],
            forall|k: int| 0 <= k < i ==> dir@ != #[trigger] browser_cache_dirs()[k],
        decreases 4 - i,
    {
        if crate::text::str_eq(dir, names[i]) {
            return true;
        }
        i += 1;
    }
    false
}

// ───────────────────────── the knowledge base ─────────────────────────

/// A tool a command rule needs installed.
#[derive(Clone, Copy, Debug, PartialEq, Eq, Structural)]
pub enum Tool {
    Docker,
    Go,
    Npm,
    Brew,
    Xcrun,
}

/// Which command-line tools are installed.
#[derive(Clone, Copy, Debug, PartialEq, Eq, Structural)]
pub struct Tools {
    pub docker: bool,
    pub go: bool,
    pub npm: bool,
    pub brew: bool,
    pub xcrun: bool,
}

pub open spec fn has_tool(tools: Tools, t: Tool) -> bool {
    match t {
        Tool::Docker => tools.docker,
        Tool::Go => tools.go,
        Tool::Npm => tools.npm,
        Tool::Brew => tools.brew,
        Tool::Xcrun => tools.xcrun,
    }
}

fn tool_installed(tools: &Tools, t: Tool) -> (r: bool)
    ensures
        r == has_tool(*tools, t),
{
    match t {
        Tool::Docker => tools.docker,
        Tool::Go => tools.go,
        Tool::Npm => tools.npm,
        Tool::Brew => tools.brew,
        Tool::Xcrun => tools.xcrun,
    }
}

/// What the knowledge base reads besides the scanned tree: the home folder
/// (none when `HOME` is unset), the installed tools, the code-sign clone
/// folder with its measured size, and the measured size of `~/.Trash` for
/// when the scan could not read it.
pub struct RecInputs {
    pub home: Option<Vec<u8>>,
    pub tools: Tools,
    pub codesign_clones: Option<(Vec<u8>, i64)>,
    pub trash_bytes: i64,
}

pub struct RecView {
    pub id: Seq<char>,
    pub title: Seq<char>,
    pub path: Seq<u8>,
    pub display: Seq<char>,
    pub bytes: i64,
    pub tier: Tier,
    pub desc: &'static str,
    pub restore: &'static str,
    pub action: Action,
    pub command: Option<&'static str>,
    pub allow_trash: bool,
    pub allow_delete: bool,
    pub note: Seq<char>,
    pub estimate: bool,
}

impl View for Rec {
    type V = RecView;

    open spec fn view(&self) -> RecView {
        RecView {
            id: self.id@,
            title: self.title@,
            path: self.path@,
            display: self.display@,
            bytes: self.bytes,
            tier: self.tier,
            desc: self.desc,
            restore: self.restore,
            action: self.action,
            command: self.command,
            allow_trash: self.allow_trash,
            allow_delete: self.allow_delete,
            note: self.note@,
            estimate: self.estimate,
        }
    }
}

pub open spec fn recs_view(s: Seq<Rec>) -> Seq<RecView> {
    s.map_values(|r: Rec| r@)
}

/// A cleanup run through a tool's own command.
pub struct CmdRule {
    pub id: &'static str,
    pub rel: &'static str,
    pub title: &'static str,
    pub desc: &'static str,
    pub restore: &'static str,
    pub bin: Tool,
    pub command: &'static str,
    pub estimate: bool,
}

/// A cache folder cleared by moving it to the Trash or deleting it.
pub struct SimpleRule {
    pub id: &'static str,
    pub rel: &'static str,
    pub title: &'static str,
    pub desc: &'static str,
    pub restore: &'static str,
    pub tier: Tier,
    pub note: &'static str,
}

pub const CMD_RULES: usize = 5;

pub const SIMPLE_RULES: usize = 11;

pub open spec fn cmd_rule_spec(k: int) -> CmdRule {
    if k == 0 {
        CmdRule { id: "go-modcache", rel: "go/pkg/mod", title: "Go module cache", desc: "Downloaded Go module sources. Files are write-protected, so the go tool itself clears them.", restore: "Modules re-download on your next go build.", bin: Tool::Go, command: "go clean -modcache", estimate: false }
    } else if k == 1 {
        CmdRule { id: "go-buildcache", rel: "Library/Caches/go-build", title: "Go build cache", desc: "Compiled package artifacts. Cleared by the go tool.", restore: "Rebuilds on next compile (first build slower).", bin: Tool::Go, command: "go clean -cache", estimate: false }
    } else if k == 2 {
        CmdRule { id: "npm-cache", rel: ".npm", title: "npm cache", desc: "Tarballs npm keeps for offline installs.", restore: "Packages re-download on next npm install.", bin: Tool::Npm, command: "npm cache clean --force", estimate: false }
    } else if k == 3 {
        CmdRule { id: "brew-cleanup", rel: "Library/Caches/Homebrew", title: "Homebrew downloads & old versions", desc: "Old bottles, downloads and outdated formula versions.", restore: "Nothing to restore — current installs are untouched.", bin: Tool::Brew, command: "brew cleanup -s --prune=all", estimate: true }
    } else {
        CmdRule { id: "sim-unavailable", rel: "Library/Developer/CoreSimulator/Devices", title: "Orphaned iOS simulators", desc: "Deletes only simulators orphaned by Xcode upgrades (marked unavailable). Current simulators stay.", restore: "Nothing — these can't be booted anyway.", bin: Tool::Xcrun, command: "xcrun simctl delete unavailable", estimate: true }
    }
}

fn cmd_rule(k: usize) -> (r: CmdRule)
    ensures
        r == cmd_rule_spec(k as int),
{
    if k == 0 {
        CmdRule { id: "go-modcache", rel: "go/pkg/mod", title: "Go module cache", desc: "Downloaded Go module sources. Files are write-protected, so the go tool itself clears them.", restore: "Modules re-download on your next go build.", bin: Tool::Go, command: "go clean -modcache", estimate: false }
    } else if k == 1 {
        CmdRule { id: "go-buildcache", rel: "Library/Caches/go-build", title: "Go build cache", desc: "Compiled package artifacts. Cleared by the go tool.", restore: "Rebuilds on next compile (first build slower).", bin: Tool::Go, command: "go clean -cache", estimate: false }
    } else if k == 2 {
        CmdRule { id: "npm-cache", rel: ".npm", title: "npm cache", desc: "Tarballs npm keeps for offline installs.", restore: "Packages re-download on next npm install.", bin: Tool::Npm, command: "npm cache clean --force", estimate: false }
    } else if k == 3 {
        CmdRule { id: "brew-cleanup", rel: "Library/Caches/Homebrew", title: "Homebrew downloads & old versions", desc: "Old bottles, downloads and outdated formula versions.", restore: "Nothing to restore — current installs are untouched.", bin: Tool::Brew, command: "brew cleanup -s --prune=all", estimate: true }
    } else {
        CmdRule { id: "sim-unavailable", rel: "Library/Developer/CoreSimulator/Devices", title: "Orphaned iOS simulators", desc: "Deletes only simulators orphaned by Xcode upgrades (marked unavailable). Current simulators stay.", restore: "Nothing — these can't be booted anyway.", bin: Tool::Xcrun, command: "xcrun simctl delete unavailable", estimate: true }
    }
}

pub open spec fn simple_rule_spec(k: int) -> SimpleRule {
    if k == 0 {
        SimpleRule { id: "xcode-derived", rel: "Library/Developer/Xcode/DerivedData", title: "Xcode DerivedData", desc: "Build intermediates and indexes for every Xcode project you've opened.", restore: "Xcode rebuilds them on next open (first build slower).", tier: Tier::Safe, note: "" }
    } else if k == 1 {
        SimpleRule { id: "xcode-archives", rel: "Library/Developer/Xcode/Archives", title: "Xcode Archives", desc: "App archives from Product → Archive. Old ones are rarely needed.", restore: "Gone for good — keep any you still need for App Store symbolication.", tier: Tier::Caution, note: "" }
    } else if k == 2 {
        SimpleRule { id: "ios-devicesupport", rel: "Library/Developer/Xcode/iOS DeviceSupport", title: "iOS device support files", desc: "Debug symbols copied from every iPhone/iPad version you've ever plugged in.", restore: "Re-copied automatically next time you connect a device.", tier: Tier::Safe, note: "" }
    } else if k == 3 {
        SimpleRule { id: "pip-cache", rel: "Library/Caches/pip", title: "pip cache", desc: "Downloaded Python wheels.", restore: "Re-download on next pip install.", tier: Tier::Safe, note: "" }
    } else if k == 4 {
        SimpleRule { id: "playwright", rel: "Library/Caches/ms-playwright", title: "Playwright browsers", desc: "Chromium/Firefox/WebKit binaries Playwright tests run against.", restore: "npx playwright install brings them back (~1 GB download).", tier: Tier::Caution, note: "You said you actively use Playwright — left unchecked on purpose." }
    } else if k == 5 {
        SimpleRule { id: "cargo", rel: ".cargo/registry", title: "Rust cargo registry", desc: "Downloaded crate sources.", restore: "Re-download on next cargo build.", tier: Tier::Safe, note: "" }
    } else if k == 6 {
        SimpleRule { id: "gradle", rel: ".gradle/caches", title: "Gradle caches", desc: "Dependency jars and build caches.", restore: "Re-download on next gradle build.", tier: Tier::Safe, note: "" }
    } else if k == 7 {
        SimpleRule { id: "maven", rel: ".m2/repository", title: "Maven repository", desc: "Downloaded Java dependencies.", restore: "Re-download on next mvn build.", tier: Tier::Caution, note: "" }
    } else if k == 8 {
        SimpleRule { id: "cocoapods", rel: "Library/Caches/CocoaPods", title: "CocoaPods cache", desc: "Downloaded pod specs and sources.", restore: "Re-download on next pod install.", tier: Tier::Safe, note: "" }
    } else if k == 9 {
        SimpleRule { id: "user-logs", rel: "Library/Logs", title: "App log files", desc: "Diagnostic logs apps have written over time.", restore: "Apps just start new logs.", tier: Tier::Safe, note: "" }
    } else {
        SimpleRule { id: "trash", rel: ".Trash", title: "Trash", desc: "Files already deleted, waiting for the bin to be emptied.", restore: "Gone for good once emptied.", tier: Tier::Safe, note: "" }
    }
}

fn simple_rule(k: usize) -> (r: SimpleRule)
    ensures
        r == simple_rule_spec(k as int),
{
    if k == 0 {
        SimpleRule { id: "xcode-derived", rel: "Library/Developer/Xcode/DerivedData", title: "Xcode DerivedData", desc: "Build intermediates and indexes for every Xcode project you've opened.", restore: "Xcode rebuilds them on next open (first build slower).", tier: Tier::Safe, note: "" }
    } else if k == 1 {
        SimpleRule { id: "xcode-archives", rel: "Library/Developer/Xcode/Archives", title: "Xcode Archives", desc: "App archives from Product → Archive. Old ones are rarely needed.", restore: "Gone for good — keep any you still need for App Store symbolication.", tier: Tier::Caution, note: "" }
    } else if k == 2 {
        SimpleRule { id: "ios-devicesupport", rel: "Library/Developer/Xcode/iOS DeviceSupport", title: "iOS device support files", desc: "Debug symbols copied from every iPhone/iPad version you've ever plugged in.", restore: "Re-copied automatically next time you connect a device.", tier: Tier::Safe, note: "" }
    } else if k == 3 {
        SimpleRule { id: "pip-cache", rel: "Library/Caches/pip", title: "pip cache", desc: "Downloaded Python wheels.", restore: "Re-download on next pip install.", tier: Tier::Safe, note: "" }
    } else if k == 4 {
        SimpleRule { id: "playwright", rel: "Library/Caches/ms-playwright", title: "Playwright browsers", desc: "Chromium/Firefox/WebKit binaries Playwright tests run against.", restore: "npx playwright install brings them back (~1 GB download).", tier: Tier::Caution, note: "You said you actively use Playwright — left unchecked on purpose." }
    } else if k == 5 {
        SimpleRule { id: "cargo", rel: ".cargo/registry", title: "Rust cargo registry", desc: "Downloaded crate sources.", restore: "Re-download on next cargo build.", tier: Tier::Safe, note: "" }
    } else if k == 6 {
        SimpleRule { id: "gradle", rel: ".gradle/caches", title: "Gradle caches", desc: "Dependency jars and build caches.", restore: "Re-download on next gradle build.", tier: Tier::Safe, note: "" }
    } else if k == 7 {
        SimpleRule { id: "maven", rel: ".m2/repository", title: "Maven repository", desc: "Downloaded Java dependencies.", restore: "Re-download on next mvn build.", tier: Tier::Caution, note: "" }
    } else if k == 8 {
        SimpleRule { id: "cocoapods", rel: "Library/Caches/CocoaPods", title: "CocoaPods cache", desc: "Downloaded pod specs and sources.", restore: "Re-download on next pod install.", tier: Tier::Safe, note: "" }
    } else if k == 9 {
        SimpleRule { id: "user-logs", rel: "Library/Logs", title: "App log files", desc: "Diagnostic logs apps have written over time.", restore: "Apps just start new logs.", tier: Tier::Safe, note: "" }
    } else {
        SimpleRule { id: "trash", rel: ".Trash", title: "Trash", desc: "Files already deleted, waiting for the bin to be emptied.", restore: "Gone for good once emptied.", tier: Tier::Safe, note: "" }
    }
}

/// The data-volume form of the home folder: `/System/Volumes/Data` followed
/// by the home path taken as text.
pub open spec fn home_data(home: Seq<u8>) -> Seq<u8> {
    data_root_bytes() + encode_utf8(lossy_text(home))
}

/// The size the scan shows at `p`, or 0.
pub open spec fn size_at(nodes: Seq<Node>, root: int, p: Seq<u8>) -> i64 {
    match lookup_spec(nodes, root, p) {
        Some(j) => nodes[j as int].bytes,
        None => 0,
    }
}

pub open spec fn docker_rel() -> Seq<u8> {
    seq![76u8, 105u8, 98u8, 114u8, 97u8, 114u8, 121u8, 47u8, 67u8, 111u8, 110u8, 116u8, 97u8, 105u8, 110u8, 101u8, 114u8, 115u8, 47u8, 99u8, 111u8, 109u8, 46u8, 100u8, 111u8, 99u8, 107u8, 101u8, 114u8, 46u8, 100u8, 111u8, 99u8, 107u8, 101u8, 114u8]
}

pub open spec fn docker_view(path: Seq<u8>, bytes: i64) -> RecView {
    RecView {
        id: "docker-prune"@,
        title: "Docker — unused images & build cache"@,
        path,
        display: Seq::empty(),
        bytes,
        tier: Tier::Safe,
        desc: "Prunes every unused image and the builder cache inside Docker's VM. Running containers and their images are untouched. The Docker.raw disk image shrinks back via TRIM after pruning.",
        restore: "Images re-pull and layers rebuild automatically on your next docker build/run.",
        action: Action::Command,
        command: Some("docker image prune -a -f && docker builder prune -a -f"),
        allow_trash: false,
        allow_delete: false,
        note: "This is reclaimed by Docker itself — it can't be moved to Trash."@,
        estimate: true,
    }
}

/// Docker's space is reclaimed by pruning, never by trashing: over 500 MiB
/// and with `docker` installed.
pub open spec fn docker_stage(nodes: Seq<Node>, root: int, h: Seq<u8>, tools: Tools) -> Seq<RecView> {
    let dir = join_spec(h, docker_rel());
    let sz = size_at(nodes, root, dir);
    if sz > 524288000 && tools.docker {
        seq![docker_view(dir, sz)]
    } else {
        Seq::empty()
    }
}

pub open spec fn codesign_view(path: Seq<u8>, bytes: i64) -> RecView {
    RecView {
        id: "codesign-clones"@,
        title: "macOS app code-sign clones"@,
        path,
        display: Seq::empty(),
        bytes,
        tier: Tier::Safe,
        desc: "Read-only copies macOS makes of an app so it can keep verifying the app's signature while it runs. Frequent auto-updaters (Chrome especially) leave stale multi-GB copies behind.",
        restore: "Nothing to restore — macOS recreates a fresh clone the next time each app launches.",
        action: Action::Empty,
        command: None,
        allow_trash: false,
        allow_delete: true,
        note: "Running apps keep working and simply re-clone on next launch."@,
        estimate: false,
    }
}

/// Stale code-sign clones, when their folder holds over 500 MiB.
pub open spec fn codesign_stage(clones: Option<(Vec<u8>, i64)>) -> Seq<RecView> {
    match clones {
        Some((dir, sz)) => if sz > 524288000 {
            seq![codesign_view(dir@, sz)]
        } else {
            Seq::empty()
        },
        None => Seq::empty(),
    }
}

pub open spec fn cmd_view(r: CmdRule, path: Seq<u8>, bytes: i64) -> RecView {
    RecView {
        id: r.id@,
        title: r.title@,
        path,
        display: Seq::empty(),
        bytes,
        tier: Tier::Safe,
        desc: r.desc,
        restore: r.restore,
        action: Action::Command,
        command: Some(r.command),
        allow_trash: false,
        allow_delete: false,
        note: Seq::empty(),
        estimate: r.estimate,
    }
}

/// The command rules among the first `n`, in order, whose folder the scan
/// shows non-empty and whose tool is installed.
pub open spec fn cmd_stage(nodes: Seq<Node>, root: int, h: Seq<u8>, tools: Tools, n: int) -> Seq<RecView>
    decreases n,
{
    if n <= 0 {
        Seq::empty()
    } else {
        let rest = cmd_stage(nodes, root, h, tools, n - 1);
        let r = cmd_rule_spec(n - 1);
        let p = join_spec(h, encode_utf8(r.rel@));
        let sz = size_at(nodes, root, p);
        if sz > 0 && has_tool(tools, r.bin) {
            rest.push(cmd_view(r, p, sz))
        } else {
            rest
        }
    }
}

pub open spec fn simple_view(r: SimpleRule, path: Seq<u8>, bytes: i64) -> RecView {
    let is_trash = r.id@ == "trash"@;
    RecView {
        id: r.id@,
        title: r.title@,
        path,
        display: Seq::empty(),
        bytes,
        tier: r.tier,
        desc: r.desc,
        restore: r.restore,
        action: if is_trash {
            Action::Empty
        } else {
            Action::Trash
        },
        command: None,
        allow_trash: !is_trash,
        allow_delete: true,
        note: r.note@,
        estimate: false,
    }
}

/// The simple rules among the first `n`, in order, whose folder holds
/// something; the Trash, when the scan shows it empty or unreadable, by its
/// measured size.
pub open spec fn simple_stage(nodes: Seq<Node>, root: int, h: Seq<u8>, trash_bytes: i64, n: int) -> Seq<RecView>
    decreases n,
{
    if n <= 0 {
        Seq::empty()
    } else {
        let rest = simple_stage(nodes, root, h, trash_bytes, n - 1);
        let r = simple_rule_spec(n - 1);
        let p = join_spec(h, encode_utf8(r.rel@));
        let scanned = size_at(nodes, root, p);
        let sz = if scanned <= 0 && r.id@ == "trash"@ {
            trash_bytes
        } else {
            scanned
        };
        if sz <= 0 {
            rest
        } else {
            rest.push(simple_view(r, p, sz))
        }
    }
}

pub open spec fn caches_rel() -> Seq<u8> {
    seq![76u8, 105u8, 98u8, 114u8, 97u8, 114u8, 121u8, 47u8, 67u8, 97u8, 99u8, 104u8, 101u8, 115u8]
}

/// The cache folders that specific rules already cover.
pub open spec fn ruled_caches() -> Seq<Seq<char>> {
    seq!["pip"@, "ms-playwright"@, "Homebrew"@, "CocoaPods"@, "go-build"@]
}

pub open spec fn cache_title(name: Seq<char>) -> Seq<char> {
    match friendly_from(name, 0) {
        Some(t) => t,
        None => name + " cache"@,
    }
}

pub open spec fn cache_view(n: Node) -> RecView {
    RecView {
        id: "cache-"@ + n.name@,
        title: cache_title(n.name@),
        path: n.path@,
        display: Seq::empty(),
        bytes: n.bytes,
        tier: Tier::Safe,
        desc: "Application cache — rebuilt automatically as the app runs.",
        restore: "The app recreates it on demand.",
        action: Action::Trash,
        command: None,
        allow_trash: true,
        allow_delete: true,
        note: if is_browser_spec(n.name@) {
            "Quit the browser first so it doesn't fight the cleanup."@
        } else {
            Seq::empty()
        },
        estimate: false,
    }
}

/// Whether a cache entry gets a generic rule: a directory of at least 50 MiB
/// that no specific rule covers.
pub open spec fn generic_cache(n: Node) -> bool {
    n.is_dir && n.bytes >= 52428800 && !ruled_caches().contains(n.name@)
}

pub open spec fn caches_from(nodes: Seq<Node>, kids: Seq<usize>) -> Seq<RecView>
    decreases kids.len(),
{
    if kids.len() == 0 {
        Seq::empty()
    } else {
        let rest = caches_from(nodes, kids.drop_last());
        let n = nodes[kids.last() as int];
        if generic_cache(n) {
            rest.push(cache_view(n))
        } else {
            rest
        }
    }
}

/// The generic rules for the entries of `~/Library/Caches`, in order.
pub open spec fn cache_stage(nodes: Seq<Node>, root: int, h: Seq<u8>) -> Seq<RecView> {
    match lookup_spec(nodes, root, join_spec(h, caches_rel())) {
        Some(j) => caches_from(nodes, nodes[j as int].children@),
        None => Seq::empty(),
    }
}

/// The name of the folder that holds `path`, or nothing.
pub open spec fn project_name(path: Seq<u8>) -> Seq<char> {
    let c = components(path);
    if c.len() >= 1 && c.last() != Comp::Root {
        let pc = c.drop_last();
        if pc.len() >= 1 && pc.last() is Normal {
            lossy_text(pc.last()->Normal_0)
        } else {
            Seq::empty()
        }
    } else {
        Seq::empty()
    }
}

/// The decimal digits of `n`, for `n` below 100.
pub open spec fn small_decimal(n: nat) -> Seq<char> {
    if n < 10 {
        seq![(n + 48) as char]
    } else {
        seq![((n / 10) + 48) as char, ((n % 10) + 48) as char]
    }
}

pub open spec fn nm_view(k: nat, n: Node) -> RecView {
    RecView {
        id: "nm-"@ + small_decimal(k),
        title: "node_modules — "@ + project_name(n.path@),
        path: n.path@,
        display: Seq::empty(),
        bytes: n.bytes,
        tier: Tier::Caution,
        desc: "Installed npm dependencies for this project.",
        restore: "cd into the project and npm install (or pnpm/yarn) to bring it back.",
        action: Action::Delete,
        command: None,
        allow_trash: true,
        allow_delete: true,
        note: "Only clear projects you're not actively running."@,
        estimate: false,
    }
}

/// The `node_modules` folders of projects, in the order given, each of at
/// least 20 MiB and outside any `/Library/` path, at most 15, numbered from 1.
pub open spec fn nm_stage(nodes: Seq<Node>, found: Seq<usize>) -> (Seq<RecView>, nat)
    decreases found.len(),
{
    if found.len() == 0 {
        (Seq::empty(), 0)
    } else {
        let (rest, count) = nm_stage(nodes, found.drop_last());
        let n = nodes[found.last() as int];
        if n.bytes < 20971520 || count >= 15 || chars_contain(lossy_text(n.path@), "/Library/"@) {
            (rest, count)
        } else {
            (rest.push(nm_view(count + 1, n)), count + 1)
        }
    }
}

/// Every rule's findings before the empty ones are dropped, in rule order.
pub open spec fn candidates_spec(nodes: Seq<Node>, root: int, inputs: RecInputs, home: Seq<u8>) -> Seq<RecView> {
    let h = home_data(home);
    docker_stage(nodes, root, h, inputs.tools) + codesign_stage(inputs.codesign_clones) + cmd_stage(
        nodes,
        root,
        h,
        inputs.tools,
        CMD_RULES as int,
    ) + simple_stage(nodes, root, h, inputs.trash_bytes, SIMPLE_RULES as int) + cache_stage(nodes, root, h)
        + nm_stage(nodes, stable_sort(named_walk(nodes, root, "node_modules"@, 0), bytes_after(nodes))).0
}

/// The findings that hold something, each with its path shown for people.
pub open spec fn shown(recs: Seq<RecView>, home: Seq<u8>) -> Seq<RecView>
    decreases recs.len(),
{
    if recs.len() == 0 {
        Seq::empty()
    } else {
        let rest = shown(recs.drop_last(), home);
        let r = recs.last();
        if r.bytes > 0 {
            rest.push(RecView { display: display_spec(r.path, home), ..r })
        } else {
            rest
        }
    }
}

pub open spec fn tier_rank(t: Tier) -> int {
    match t {
        Tier::Safe => 0,
        Tier::Caution => 1,
    }
}

/// Safe findings first; within a tier, larger first.
pub open spec fn rec_after(a: RecView, b: RecView) -> bool {
    tier_rank(a.tier) > tier_rank(b.tier) || (tier_rank(a.tier) == tier_rank(b.tier) && a.bytes < b.bytes)
}

/// The recommendations for a scanned tree: none without a home folder;
/// otherwise every rule's non-empty findings, safe first, larger first.
pub open spec fn recommendations_spec(nodes: Seq<Node>, root: int, inputs: RecInputs) -> Seq<RecView> {
    match inputs.home {
        None => Seq::empty(),
        Some(home) => stable_sort(
            shown(candidates_spec(nodes, root, inputs, home@), home@),
            |a: RecView, b: RecView| rec_after(a, b),
        ),
    }
}

// ───────────────────────── building the recommendations ─────────────────────────

fn home_data_exec(home: &[u8]) -> (h: Vec<u8>)
    ensures
        h@ == home_data(home@),
{
    let mut h = data_root_vec();
    let text = lossy_string(home);
    crate::bytes::push_bytes(&mut h, text.as_str().as_bytes());
    h
}

fn docker_rel_vec() -> (v: Vec<u8>)
    ensures
        v@ == docker_rel(),
{
    let v: Vec<u8> = vec![76u8, 105u8, 98u8, 114u8, 97u8, 114u8, 121u8, 47u8, 67u8, 111u8, 110u8, 116u8, 97u8, 105u8, 110u8, 101u8, 114u8, 115u8, 47u8, 99u8, 111u8, 109u8, 46u8, 100u8, 111u8, 99u8, 107u8, 101u8, 114u8, 46u8, 100u8, 111u8, 99u8, 107u8, 101u8, 114u8];
    assert(v@ =~= docker_rel());
    v
}

fn caches_rel_vec() -> (v: Vec<u8>)
    ensures
        v@ == caches_rel(),
{
    let v: Vec<u8> = vec![76u8, 105u8, 98u8, 114u8, 97u8, 114u8, 121u8, 47u8, 67u8, 97u8, 99u8, 104u8, 101u8, 115u8];
    assert(v@ =~= caches_rel());
    v
}

fn docker_rec(path: Vec<u8>, bytes: i64) -> (r: Rec)
    ensures
        r@ == docker_view(path@, bytes),
{
    Rec {
        id: owned("docker-prune"),
        title: owned("Docker — unused images & build cache"),
        path,
        display: String::new(),
        bytes,
        tier: Tier::Safe,
        desc: "Prunes every unused image and the builder cache inside Docker's VM. Running containers and their images are untouched. The Docker.raw disk image shrinks back via TRIM after pruning.",
        restore: "Images re-pull and layers rebuild automatically on your next docker build/run.",
        action: Action::Command,
        command: Some("docker image prune -a -f && docker builder prune -a -f"),
        allow_trash: false,
        allow_delete: false,
        note: owned("This is reclaimed by Docker itself — it can't be moved to Trash."),
        estimate: true,
    }
}

fn codesign_rec(path: Vec<u8>, bytes: i64) -> (r: Rec)
    ensures
        r@ == codesign_view(path@, bytes),
{
    Rec {
        id: owned("codesign-clones"),
        title: owned("macOS app code-sign clones"),
        path,
        display: String::new(),
        bytes,
        tier: Tier::Safe,
        desc: "Read-only copies macOS makes of an app so it can keep verifying the app's signature while it runs. Frequent auto-updaters (Chrome especially) leave stale multi-GB copies behind.",
        restore: "Nothing to restore — macOS recreates a fresh clone the next time each app launches.",
        action: Action::Empty,
        command: None,
        allow_trash: false,
        allow_delete: true,
        note: owned("Running apps keep working and simply re-clone on next launch."),
        estimate: false,
    }
}

fn push_docker(out: &mut Vec<Rec>, tree: &ScanTree, root: usize, h: &[u8], tools: &Tools)
    requires
        tree.wf(),
        root < tree@.len(),
    ensures
        recs_view(final(out)@) == recs_view(old(out)@) + docker_stage(tree@, root as int, h@, *tools),
{
    let dir = join_path(h, docker_rel_vec().as_slice());
    let sz = size_of(tree, root, dir.as_slice());
    let ghost before = recs_view(out@);
    if sz > 524288000 && tools.docker {
        out.push(docker_rec(dir, sz));
        assert(recs_view(out@) =~= before.push(out@.last()@));
    } else {
        assert(recs_view(out@) =~= before + Seq::<RecView>::empty());
    }
}

fn push_codesign(out: &mut Vec<Rec>, clones: &Option<(Vec<u8>, i64)>)
    ensures
        recs_view(final(out)@) == recs_view(old(out)@) + codesign_stage(*clones),
{
    let ghost before = recs_view(out@);
    match clones {
        Some((dir, sz)) => {
            if *sz > 524288000 {
                out.push(codesign_rec(dir.clone(), *sz));
                assert(recs_view(out@) =~= before.push(out@.last()@));
                return;
            }
        },
        None => {},
    }
    assert(recs_view(out@) =~= before + Seq::<RecView>::empty());
}

fn push_cmd_rules(out: &mut Vec<Rec>, tree: &ScanTree, root: usize, h: &[u8], tools: &Tools)
    requires
        tree.wf(),
        root < tree@.len(),
    ensures
        recs_view(final(out)@) == recs_view(old(out)@) + cmd_stage(tree@, root as int, h@, *tools, CMD_RULES as int),
{
    let ghost start = recs_view(out@);
    let mut k: usize = 0;
    assert(start =~= start + cmd_stage(tree@, root as int, h@, *tools, 0));
    while k < CMD_RULES
        invariant
            tree.wf(),
            root < tree@.len(),
            k <= CMD_RULES,
            recs_view(out@) == start + cmd_stage(tree@, root as int, h@, *tools, k as int),
        decreases CMD_RULES - k,
    {
        let r = cmd_rule(k);
        let p = join_path(h, r.rel.as_bytes());
        let sz = size_of(tree, root, p.as_slice());
        let ghost before = recs_view(out@);
        if sz > 0 && tool_installed(tools, r.bin) {
            out.push(Rec {
                id: owned(r.id),
                title: owned(r.title),
                path: p,
                display: String::new(),
                bytes: sz,
                tier: Tier::Safe,
                desc: r.desc,
                restore: r.restore,
                action: Action::Command,
                command: Some(r.command),
                allow_trash: false,
                allow_delete: false,
                note: String::new(),
                estimate: r.estimate,
            });
            proof {
                assert(out@.last()@ == cmd_view(r, p@, sz));
                assert(recs_view(out@) =~= before.push(out@.last()@));
            }
        }
        k += 1;
    }
}

fn push_simple_rules(out: &mut Vec<Rec>, tree: &ScanTree, root: usize, h: &[u8], trash_bytes: i64)
    requires
        tree.wf(),
        root < tree@.len(),
    ensures
        recs_view(final(out)@) == recs_view(old(out)@) + simple_stage(
            tree@,
            root as int,
            h@,
            trash_bytes,
            SIMPLE_RULES as int,
        ),
{
    let ghost start = recs_view(out@);
    let mut k: usize = 0;
    assert(start =~= start + simple_stage(tree@, root as int, h@, trash_bytes, 0));
    proof {
        reveal_strlit("trash");
    }
    while k < SIMPLE_RULES
        invariant
            tree.wf(),
            root < tree@.len(),
            k <= SIMPLE_RULES,
            recs_view(out@) == start + simple_stage(tree@, root as int, h@, trash_bytes, k as int),
        decreases SIMPLE_RULES - k,
    {
        let r = simple_rule(k);
        let p = join_path(h, r.rel.as_bytes());
        let scanned = size_of(tree, root, p.as_slice());
        let is_trash = crate::text::str_eq(r.id, "trash");
        let sz = if scanned <= 0 && is_trash {
            trash_bytes
        } else {
            scanned
        };
        let ghost before = recs_view(out@);
        if sz > 0 {
            out.push(Rec {
                id: owned(r.id),
                title: owned(r.title),
                path: p,
                display: String::new(),
                bytes: sz,
                tier: r.tier,
                desc: r.desc,
                restore: r.restore,
                action: if is_trash {
                    Action::Empty
                } else {
                    Action::Trash
                },
                command: None,
                allow_trash: !is_trash,
                allow_delete: true,
                note: owned(r.note),
                estimate: false,
            });
            proof {
                assert(out@.last()@ == simple_view(r, p@, sz));
                assert(recs_view(out@) =~= before.push(out@.last()@));
            }
        }
        k += 1;
    }
}

fn is_ruled_cache(name: &str) -> (r: bool)
    ensures
        r == ruled_caches().contains(name@),
{
    let names = ["pip", "ms-playwright", "Homebrew", "CocoaPods", "go-build"];
    let mut i: usize = 0;
    while i < 5
        invariant
            i <= 5,
            forall|k: int| 0 <= k < 5 ==> (#[trigger] names@[k])@ == ruled_caches()[k],
            forall|k: int| 0 <= k < i ==> name@ != #[trigger] ruled_caches()[k],
        decreases 5 - i,
    {
        if crate::text::str_eq(name, names[i]) {
            assert(ruled_caches()[i as int] == name@);
            return true;
        }
        i += 1;
    }
    false
}

fn cache_rec(n: &Node) -> (r: Rec)
    ensures
        r@ == cache_view(*n),
{
    let mut id = owned("cache-");
    append_str(&mut id, n.name.as_str());
    let title = match friendly_cache_name(n.name.as_str()) {
        Some(t) => owned(t),
        None => {
            let mut t = owned(n.name.as_str());
            append_str(&mut t, " cache");
            t
        },
    };
    let note = if is_browser_cache(n.name.as_str()) {
        owned("Quit the browser first so it doesn't fight the cleanup.")
    } else {
        String::new()
    };
    Rec {
        id,
        title,
        path: n.path.clone(),
        display: String::new(),
        bytes: n.bytes,
        tier: Tier::Safe,
        desc: "Application cache — rebuilt automatically as the app runs.",
        restore: "The app recreates it on demand.",
        action: Action::Trash,
        command: None,
        allow_trash: true,
        allow_delete: true,
        note,
        estimate: false,
    }
}

fn push_caches(out: &mut Vec<Rec>, tree: &ScanTree, root: usize, h: &[u8])
    requires
        tree.wf(),
        root < tree@.len(),
    ensures
        recs_view(final(out)@) == recs_view(old(out)@) + cache_stage(tree@, root as int, h@),
{
    let ghost start = recs_view(out@);
    let path = join_path(h, caches_rel_vec().as_slice());
    let j = match lookup(tree, root, path.as_slice()) {
        Some(j) => j,
        None => {
            assert(start =~= start + Seq::<RecView>::empty());
            return;
        },
    };
    let kids = &tree.node(j).children;
    let mut k: usize = 0;
    proof {
        tree.lemma_wf();
        assert(crate::scan::children_ok(tree@, j as int));
        assert(kids@.take(0) =~= Seq::<usize>::empty());
        assert(start =~= start + caches_from(tree@, kids@.take(0)));
    }
    while k < kids.len()
        invariant
            tree.wf(),
            crate::scan::nodes_wf(tree@),
            j < tree@.len(),
            *kids == tree@[j as int].children,
            k <= kids@.len(),
            recs_view(out@) == start + caches_from(tree@, kids@.take(k as int)),
        decreases kids.len() - k,
    {
        let c = kids[k];
        proof {
            assert(crate::scan::children_ok(tree@, j as int));
            assert(kids@.take(k + 1).drop_last() =~= kids@.take(k as int));
        }
        let n = tree.node(c);
        let ghost before = recs_view(out@);
        if n.is_dir && n.bytes >= 52428800 && !is_ruled_cache(n.name.as_str()) {
            out.push(cache_rec(n));
            assert(recs_view(out@) =~= before.push(out@.last()@));
        }
        k += 1;
    }
    proof {
        assert(kids@.take(kids@.len() as int) =~= kids@);
    }
}

fn project_of(path: &[u8]) -> (r: String)
    ensures
        r@ == project_name(path@),
{
    let mut c = components_of(path);
    let ghost cv = comps_view(c@);
    if c.len() == 0 {
        return String::new();
    }
    let last = c.pop().unwrap();
    proof {
        assert(cv.last() == last@);
        assert(comps_view(c@) =~= cv.drop_last());
    }
    match last {
        Component::RootDir => {
            return String::new();
        },
        _ => {},
    }
    if c.len() == 0 {
        return String::new();
    }
    let parent = c.pop().unwrap();
    proof {
        assert(cv.drop_last().last() == parent@);
    }
    match parent {
        Component::Normal(b) => lossy_string(b.as_slice()),
        _ => String::new(),
    }
}

fn digit_char(d: usize) -> (c: char)
    requires
        d < 10,
    ensures
        c == (d + 48) as char,
{
    if d == 0 {
        '0'
    } else if d == 1 {
        '1'
    } else if d == 2 {
        '2'
    } else if d == 3 {
        '3'
    } else if d == 4 {
        '4'
    } else if d == 5 {
        '5'
    } else if d == 6 {
        '6'
    } else if d == 7 {
        '7'
    } else if d == 8 {
        '8'
    } else {
        '9'
    }
}

fn nm_rec(k: usize, n: &Node) -> (r: Rec)
    requires
        k < 100,
    ensures
        r@ == nm_view(k as nat, *n),
{
    let mut id = owned("nm-");
    let ghost prefix = id@;
    if k < 10 {
        push_char(&mut id, digit_char(k));
        assert(id@ =~= prefix + small_decimal(k as nat));
    } else {
        push_char(&mut id, digit_char(k / 10));
        push_char(&mut id, digit_char(k % 10));
        assert(id@ =~= prefix + small_decimal(k as nat));
    }
    let mut title = owned("node_modules — ");
    let project = project_of(n.path.as_slice());
    append_str(&mut title, project.as_str());
    Rec {
        id,
        title,
        path: n.path.clone(),
        display: String::new(),
        bytes: n.bytes,
        tier: Tier::Caution,
        desc: "Installed npm dependencies for this project.",
        restore: "cd into the project and npm install (or pnpm/yarn) to bring it back.",
        action: Action::Delete,
        command: None,
        allow_trash: true,
        allow_delete: true,
        note: owned("Only clear projects you're not actively running."),
        estimate: false,
    }
}

fn push_node_modules(out: &mut Vec<Rec>, tree: &ScanTree, root: usize)
    requires
        tree.wf(),
        root < tree@.len(),
        sizes_negatable(tree@),
    ensures
        recs_view(final(out)@) == recs_view(old(out)@) + nm_stage(
            tree@,
            stable_sort(named_walk(tree@, root as int, "node_modules"@, 0), bytes_after(tree@)),
        ).0,
{
    let found = find_dirs_named(tree, root, "node_modules");
    let ghost start = recs_view(out@);
    let mut count: usize = 0;
    let mut i: usize = 0;
    proof {
        assert(found@.take(0) =~= Seq::<usize>::empty());
        assert(start =~= start + nm_stage(tree@, found@.take(0)).0);
    }
    while i < found.len()
        invariant
            tree.wf(),
            i <= found@.len(),
            forall|m: int| 0 <= m < found@.len() ==> #[trigger] found@[m] < tree@.len(),
            count <= 15,
            nm_stage(tree@, found@.take(i as int)).1 == count,
            recs_view(out@) == start + nm_stage(tree@, found@.take(i as int)).0,
        decreases found.len() - i,
    {
        let n = tree.node(found[i]);
        proof {
            assert(found@.take(i + 1).drop_last() =~= found@.take(i as int));
            assert(found@.take(i + 1).last() == found@[i as int]);
        }
        let ghost before = recs_view(out@);
        let text = lossy_string(n.path.as_slice());
        if n.bytes < 20971520 || count >= 15 || str_contains(text.as_str(), "/Library/") {
        } else {
            count += 1;
            out.push(nm_rec(count, n));
            assert(recs_view(out@) =~= before.push(out@.last()@));
        }
        i += 1;
    }
    proof {
        assert(found@.take(found@.len() as int) =~= found@);
    }
}

fn show(cands: Vec<Rec>, home: &[u8]) -> (r: Vec<Rec>)
    ensures
        recs_view(r@) == shown(recs_view(cands@), home@),
{
    let ghost all = cands@;
    let mut rest = cands;
    let mut out: Vec<Rec> = Vec::new();
    let n = rest.len();
    let mut i: usize = 0;
    proof {
        assert(all.skip(0) =~= all);
        assert(recs_view(all).take(0) =~= Seq::<RecView>::empty());
        assert(recs_view(out@) =~= shown(recs_view(all).take(0), home@));
    }
    while i < n
        invariant
            n == all.len(),
            i <= n,
            rest@ == all.skip(i as int),
            recs_view(out@) == shown(recs_view(all).take(i as int), home@),
        decreases n - i,
    {
        let mut r = rest.remove(0);
        proof {
            assert(r == all[i as int]);
            assert(recs_view(all).take(i + 1).drop_last() =~= recs_view(all).take(i as int));
            assert(recs_view(all).take(i + 1).last() == r@);
            assert(rest@ =~= all.skip(i + 1));
        }
        let ghost before = recs_view(out@);
        if r.bytes > 0 {
            r.display = display(r.path.as_slice(), home);
            out.push(r);
            assert(recs_view(out@) =~= before.push(out@.last()@));
        }
        i += 1;
    }
    proof {
        assert(recs_view(all).take(n as int) =~= recs_view(all));
    }
    out
}

fn rec_after_exec(a: &Rec, b: &Rec) -> (r: bool)
    ensures
        r == rec_after(a@, b@),
{
    let ta: u8 = match a.tier {
        Tier::Safe => 0,
        Tier::Caution => 1,
    };
    let tb: u8 = match b.tier {
        Tier::Safe => 0,
        Tier::Caution => 1,
    };
    ta > tb || (ta == tb && a.bytes < b.bytes)
}

/// The reclaim recommendations for a scanned tree. Every rule looks only at
/// its own folder; a finding that holds nothing is dropped; safe findings
/// come first, larger first, and nothing a user made is ever recommended.
pub fn build_recommendations(tree: &ScanTree, root: usize, inputs: &RecInputs) -> (r: Vec<Rec>)
    requires
        tree.wf(),
        root < tree@.len(),
        sizes_negatable(tree@),
    ensures
        recs_view(r@) == recommendations_spec(tree@, root as int, *inputs),
{
    let home = match &inputs.home {
        Some(h) => h,
        None => {
            return Vec::new();
        },
    };
    let h = home_data_exec(home.as_slice());
    let mut cands: Vec<Rec> = Vec::new();
    push_docker(&mut cands, tree, root, h.as_slice(), &inputs.tools);
    push_codesign(&mut cands, &inputs.codesign_clones);
    push_cmd_rules(&mut cands, tree, root, h.as_slice(), &inputs.tools);
    push_simple_rules(&mut cands, tree, root, h.as_slice(), inputs.trash_bytes);
    push_caches(&mut cands, tree, root, h.as_slice());
    push_node_modules(&mut cands, tree, root);
    proof {
        assert(recs_view(cands@) =~= candidates_spec(tree@, root as int, *inputs, home@));
    }
    let shown_recs = show(cands, home.as_slice());
    let ghost unsorted = shown_recs@;
    let ghost after = |a: Rec, b: Rec| rec_after(a@, b@);
    let sorted = crate::sorting::sort_stable(shown_recs, rec_after_exec, Ghost(after));
    proof {
        crate::sorting::lemma_sort_map(unsorted, |r: Rec| r@, after, |a: RecView, b: RecView| rec_after(a, b));
        assert(recs_view(unsorted) =~= unsorted.map_values(|r: Rec| r@));
        assert(recs_view(sorted@) =~= sorted@.map_values(|r: Rec| r@));
    }
    sorted
}

proof fn lemma_shown_positive(recs: Seq<RecView>, home: Seq<u8>)
    ensures
        forall|k: int| 0 <= k < shown(recs, home).len() ==> (#[trigger] shown(recs, home)[k]).bytes > 0,
    decreases recs.len(),
{
    if recs.len() > 0 {
        lemma_shown_positive(recs.drop_last(), home);
        let rest = shown(recs.drop_last(), home);
        assert forall|k: int| 0 <= k < shown(recs, home).len() implies (#[trigger] shown(recs, home)[k]).bytes > 0 by {
            if k < rest.len() {
                assert(shown(recs, home)[k] == rest[k]);
            }
        }
    }
}

/// The recommendations list safe findings before caution ones and, within a
/// tier, larger findings first; every finding holds something.
pub proof fn lemma_recommendations_ordered(nodes: Seq<Node>, root: int, inputs: RecInputs)
    ensures
        forall|i: int, j: int|
            0 <= i < j < recommendations_spec(nodes, root, inputs).len() ==> {
                let a = #[trigger] recommendations_spec(nodes, root, inputs)[i];
                let b = #[trigger] recommendations_spec(nodes, root, inputs)[j];
                tier_rank(a.tier) < tier_rank(b.tier) || (a.tier == b.tier && a.bytes >= b.bytes)
            },
        forall|k: int|
            0 <= k < recommendations_spec(nodes, root, inputs).len() ==> (#[trigger] recommendations_spec(
                nodes,
                root,
                inputs,
            )[k]).bytes > 0,
{
    match inputs.home {
        None => {},
        Some(home) => {
            let after = |a: RecView, b: RecView| rec_after(a, b);
            let list = shown(candidates_spec(nodes, root, inputs, home@), home@);
            crate::sorting::lemma_stable_sort_in_order(list, after);
            crate::sorting::lemma_stable_sort_elements(list, after);
            lemma_shown_positive(candidates_spec(nodes, root, inputs, home@), home@);
            let r = stable_sort(list, after);
            assert(recommendations_spec(nodes, root, inputs) == r);
            assert forall|i: int, j: int| 0 <= i < j < r.len() implies {
                let a = #[trigger] r[i];
                let b = #[trigger] r[j];
                tier_rank(a.tier) < tier_rank(b.tier) || (a.tier == b.tier && a.bytes >= b.bytes)
            } by {
                assert(!after(r[i], r[j]));
            }
            assert forall|k: int| 0 <= k < r.len() implies (#[trigger] r[k]).bytes > 0 by {
                assert(list.contains(r[k]));
            }
        },
    }
}

// ───────────────────────── the Xcode Archives finding ─────────────────────────

/// A finding named `xcode-archives` is a caution finding.
pub open spec fn archives_caution(r: RecView) -> bool {
    r.id == "xcode-archives"@ ==> r.tier == Tier::Caution
}

pub open spec fn all_archives_caution(s: Seq<RecView>) -> bool {
    forall|k: int| 0 <= k < s.len() ==> archives_caution(#[trigger] s[k])
}

proof fn lemma_archives_id_len()
    ensures
        "xcode-archives"@.len() == 14,
{
    reveal_strlit("xcode-archives");
}

proof fn lemma_cmd_ids_differ(k: int)
    ensures
        cmd_rule_spec(k).id@ != "xcode-archives"@,
{
    lemma_archives_id_len();
    reveal_strlit("go-modcache");
    reveal_strlit("go-buildcache");
    reveal_strlit("npm-cache");
    reveal_strlit("brew-cleanup");
    reveal_strlit("sim-unavailable");
}

proof fn lemma_simple_archives(k: int)
    ensures
        simple_rule_spec(k).id@ == "xcode-archives"@ ==> simple_rule_spec(k).tier == Tier::Caution,
{
    lemma_archives_id_len();
    reveal_strlit("xcode-derived");
    reveal_strlit("ios-devicesupport");
    reveal_strlit("pip-cache");
    reveal_strlit("playwright");
    reveal_strlit("cargo");
    reveal_strlit("gradle");
    reveal_strlit("maven");
    reveal_strlit("cocoapods");
    reveal_strlit("user-logs");
    reveal_strlit("trash");
}

proof fn lemma_concat_archives(a: Seq<RecView>, b: Seq<RecView>)
    requires
        all_archives_caution(a),
        all_archives_caution(b),
    ensures
        all_archives_caution(a + b),
{
    assert forall|k: int| 0 <= k < (a + b).len() implies archives_caution(#[trigger] (a + b)[k]) by {
        if k < a.len() {
            assert((a + b)[k] == a[k]);
        } else {
            assert((a + b)[k] == b[k - a.len()]);
        }
    }
}

proof fn lemma_cmd_stage_archives(nodes: Seq<Node>, root: int, h: Seq<u8>, tools: Tools, n: int)
    ensures
        all_archives_caution(cmd_stage(nodes, root, h, tools, n)),
    decreases n,
{
    if n > 0 {
        lemma_cmd_stage_archives(nodes, root, h, tools, n - 1);
        lemma_cmd_ids_differ(n - 1);
    }
}

proof fn lemma_simple_stage_archives(nodes: Seq<Node>, root: int, h: Seq<u8>, trash_bytes: i64, n: int)
    ensures
        all_archives_caution(simple_stage(nodes, root, h, trash_bytes, n)),
    decreases n,
{
    if n > 0 {
        lemma_simple_stage_archives(nodes, root, h, trash_bytes, n - 1);
        lemma_simple_archives(n - 1);
    }
}

proof fn lemma_caches_archives(nodes: Seq<Node>, kids: Seq<usize>)
    ensures
        all_archives_caution(caches_from(nodes, kids)),
    decreases kids.len(),
{
    lemma_archives_id_len();
    reveal_strlit("xcode-archives");
    reveal_strlit("cache-");
    if kids.len() > 0 {
        lemma_caches_archives(nodes, kids.drop_last());
        let n = nodes[kids.last() as int];
        assert(("cache-"@ + n.name@)[0] != "xcode-archives"@[0]);
    }
}

proof fn lemma_nm_archives(nodes: Seq<Node>, found: Seq<usize>)
    ensures
        all_archives_caution(nm_stage(nodes, found).0),
    decreases found.len(),
{
    lemma_archives_id_len();
    reveal_strlit("xcode-archives");
    reveal_strlit("nm-");
    if found.len() > 0 {
        lemma_nm_archives(nodes, found.drop_last());
        let (rest, count) = nm_stage(nodes, found.drop_last());
        assert(("nm-"@ + small_decimal(count + 1))[0] != "xcode-archives"@[0]);
    }
}

proof fn lemma_shown_archives(recs: Seq<RecView>, home: Seq<u8>)
    requires
        all_archives_caution(recs),
    ensures
        all_archives_caution(shown(recs, home)),
    decreases recs.len(),
{
    if recs.len() > 0 {
        assert(archives_caution(recs[recs.len() - 1]));
        assert(all_archives_caution(recs.drop_last())) by {
            assert forall|k: int| 0 <= k < recs.drop_last().len() implies archives_caution(
                #[trigger] recs.drop_last()[k],
            ) by {
                assert(recs.drop_last()[k] == recs[k]);
            }
        }
        lemma_shown_archives(recs.drop_last(), home);
    }
}

/// Every recommendation for the Xcode Archives folder is a caution finding:
/// archives cleared are gone for good.
pub proof fn lemma_xcode_archives_need_caution(nodes: Seq<Node>, root: int, inputs: RecInputs)
    ensures
        forall|k: int|
            0 <= k < recommendations_spec(nodes, root, inputs).len() && (#[trigger] recommendations_spec(
                nodes,
                root,
                inputs,
            )[k]).id == "xcode-archives"@ ==> recommendations_spec(nodes, root, inputs)[k].tier
                == Tier::Caution,
{
    match inputs.home {
        None => {},
        Some(home) => {
            let h = home_data(home@);
            lemma_archives_id_len();
            reveal_strlit("docker-prune");
            reveal_strlit("codesign-clones");
            let docker = docker_stage(nodes, root, h, inputs.tools);
            let codesign = codesign_stage(inputs.codesign_clones);
            assert(all_archives_caution(docker));
            assert(all_archives_caution(codesign));
            let cmds = cmd_stage(nodes, root, h, inputs.tools, CMD_RULES as int);
            let simples = simple_stage(nodes, root, h, inputs.trash_bytes, SIMPLE_RULES as int);
            let caches = cache_stage(nodes, root, h);
            let nms = nm_stage(nodes, stable_sort(named_walk(nodes, root, "node_modules"@, 0), bytes_after(nodes))).0;
            lemma_cmd_stage_archives(nodes, root, h, inputs.tools, CMD_RULES as int);
            lemma_simple_stage_archives(nodes, root, h, inputs.trash_bytes, SIMPLE_RULES as int);
            match lookup_spec(nodes, root, join_spec(h, caches_rel())) {
                Some(j) => lemma_caches_archives(nodes, nodes[j as int].children@),
                None => {},
            }
            lemma_nm_archives(nodes, stable_sort(named_walk(nodes, root, "node_modules"@, 0), bytes_after(nodes)));
            lemma_concat_archives(docker, codesign);
            lemma_concat_archives(docker + codesign, cmds);
            lemma_concat_archives(docker + codesign + cmds, simples);
            lemma_concat_archives(docker + codesign + cmds + simples, caches);
            lemma_concat_archives(docker + codesign + cmds + simples + caches, nms);
            let cands = candidates_spec(nodes, root, inputs, home@);
            assert(cands == docker + codesign + cmds + simples + caches + nms);
            lemma_shown_archives(cands, home@);
            let list = shown(cands, home@);
            let after = |a: RecView, b: RecView| rec_after(a, b);
            crate::sorting::lemma_stable_sort_elements(list, after);
            let r = recommendations_spec(nodes, root, inputs);
            assert(r == stable_sort(list, after));
            assert forall|k: int| 0 <= k < r.len() && (#[trigger] r[k]).id == "xcode-archives"@ implies r[k].tier
                == Tier::Caution by {
                assert(list.contains(r[k]));
                let m = choose|m: int| 0 <= m < list.len() && list[m] == r[k];
                assert(archives_caution(list[m]));
            }
        },
    }
}

/// Where the Xcode Archives of a home folder lie on the data volume.
pub open spec fn xcode_archives_path(home: Seq<u8>) -> Seq<u8> {
    join_spec(home_data(home), encode_utf8("Library/Developer/Xcode/Archives"@))
}

proof fn lemma_simple_stage_keeps(nodes: Seq<Node>, root: int, h: Seq<u8>, trash_bytes: i64, m: int, n: int, v: RecView)
    requires
        0 <= m <= n,
        simple_stage(nodes, root, h, trash_bytes, m).contains(v),
    ensures
        simple_stage(nodes, root, h, trash_bytes, n).contains(v),
    decreases n - m,
{
    if m < n {
        let s = simple_stage(nodes, root, h, trash_bytes, m);
        let t = simple_stage(nodes, root, h, trash_bytes, m + 1);
        let k = choose|k: int| 0 <= k < s.len() && s[k] == v;
        assert(t[k] == v);
        lemma_simple_stage_keeps(nodes, root, h, trash_bytes, m + 1, n, v);
    }
}

proof fn lemma_shown_keeps(recs: Seq<RecView>, home: Seq<u8>, k: int)
    requires
        0 <= k < recs.len(),
        recs[k].bytes > 0,
    ensures
        shown(recs, home).contains(RecView { display: display_spec(recs[k].path, home), ..recs[k] }),
    decreases recs.len(),
{
    let v = RecView { display: display_spec(recs[k].path, home), ..recs[k] };
    let rest = shown(recs.drop_last(), home);
    if k == recs.len() - 1 {
        assert(shown(recs, home)[rest.len() as int] == v);
    } else {
        assert(recs.drop_last()[k] == recs[k]);
        lemma_shown_keeps(recs.drop_last(), home, k);
        let m = choose|m: int| 0 <= m < rest.len() && rest[m] == v;
        assert(shown(recs, home)[m] == v);
    }
}

/// When the scan shows something in the Xcode Archives folder, the
/// recommendations list it, by its path and size, as a caution finding.
pub proof fn lemma_xcode_archives_listed(nodes: Seq<Node>, root: int, inputs: RecInputs)
    requires
        inputs.home is Some,
        size_at(nodes, root, xcode_archives_path(inputs.home->Some_0@)) > 0,
    ensures
        exists|k: int|
            0 <= k < recommendations_spec(nodes, root, inputs).len() && {
                let r = #[trigger] recommendations_spec(nodes, root, inputs)[k];
                &&& r.id == "xcode-archives"@
                &&& r.path == xcode_archives_path(inputs.home->Some_0@)
                &&& r.bytes == size_at(nodes, root, xcode_archives_path(inputs.home->Some_0@))
                &&& r.tier == Tier::Caution
            },
{
    let home = inputs.home->Some_0;
    let h = home_data(home@);
    let p = xcode_archives_path(home@);
    let sz = size_at(nodes, root, p);
    reveal_strlit("xcode-archives");
    reveal_strlit("trash");
    let rule = simple_rule_spec(1);
    let v = simple_view(rule, p, sz);
    let s1 = simple_stage(nodes, root, h, inputs.trash_bytes, 1);
    let s2 = simple_stage(nodes, root, h, inputs.trash_bytes, 2);
    assert(s2 == s1.push(v));
    assert(s2[s1.len() as int] == v);
    lemma_simple_stage_keeps(nodes, root, h, inputs.trash_bytes, 2, SIMPLE_RULES as int, v);
    let docker = docker_stage(nodes, root, h, inputs.tools);
    let codesign = codesign_stage(inputs.codesign_clones);
    let cmds = cmd_stage(nodes, root, h, inputs.tools, CMD_RULES as int);
    let simples = simple_stage(nodes, root, h, inputs.trash_bytes, SIMPLE_RULES as int);
    let caches = cache_stage(nodes, root, h);
    let nms = nm_stage(nodes, stable_sort(named_walk(nodes, root, "node_modules"@, 0), bytes_after(nodes))).0;
    let cands = candidates_spec(nodes, root, inputs, home@);
    let front = docker + codesign + cmds;
    assert(cands == front + simples + caches + nms);
    let j = choose|j: int| 0 <= j < simples.len() && simples[j] == v;
    let at = front.len() + j;
    assert(cands[at] == v);
    lemma_shown_keeps(cands, home@, at);
    let w = RecView { display: display_spec(p, home@), ..v };
    let list = shown(cands, home@);
    let after = |a: RecView, b: RecView| rec_after(a, b);
    let m = choose|m: int| 0 <= m < list.len() && list[m] == w;
    crate::sorting::lemma_stable_sort_keeps(list, after);
    let r = recommendations_spec(nodes, root, inputs);
    assert(r == stable_sort(list, after));
    assert(r.contains(list[m]));
    let k = choose|k: int| 0 <= k < r.len() && r[k] == w;
    assert(r[k].id == "xcode-archives"@);
}

} // verus!
