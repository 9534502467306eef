//! Developer Lens: the developer findings among the recommendations, grouped
//! and counted so that nested paths are measured once.

use vstd::prelude::*;
use crate::paths::{components, components_of, components_start_with, comps_prefix, comps_view};
use crate::reclaim_plan::{chars_less, chars_lt};
use crate::rules::{Rec, Tier};
use crate::sorting::{lemma_sort_map, lemma_stable_sort_len, sort_stable, sort_stable_with, stable_sort};
use crate::text::{chars_contain, chars_prefix, owned, push_char, str_contains, str_eq, str_starts_with};

verus! {

#[derive(Clone, Copy, Debug, PartialEq, Eq, PartialOrd, Ord, Structural)]
pub enum DeveloperSection {
    Docker,
    Xcode,
    Projects,
    PackageStores,
    BuildTooling,
    Ungrouped,
}

pub open spec fn section_rank(s: DeveloperSection) -> int {
    match s {
        DeveloperSection::Docker => 0,
        DeveloperSection::Xcode => 1,
        DeveloperSection::Projects => 2,
        DeveloperSection::PackageStores => 3,
        DeveloperSection::BuildTooling => 4,
        DeveloperSection::Ungrouped => 5,
    }
}

#[derive(Clone, Copy, Debug, PartialEq, Eq, Structural)]
pub enum RebuildCost {
    QuickRegeneration,
    LargeDownload,
    ManualSetup,
}

pub open spec fn rebuild_cost_text(c: RebuildCost) -> Seq<char> {
    match c {
        RebuildCost::QuickRegeneration => "Quick regeneration"@,
        RebuildCost::LargeDownload => "Large download"@,
        RebuildCost::ManualSetup => "Manual setup"@,
    }
}

impl RebuildCost {
    pub fn label(self) -> (s: &'static str)
        ensures
            s@ == rebuild_cost_text(self),
    {
        match self {
            RebuildCost::QuickRegeneration => "Quick regeneration",
            RebuildCost::LargeDownload => "Large download",
            RebuildCost::ManualSetup => "Manual setup",
        }
    }
}

#[derive(Clone, Copy, Debug, PartialEq, Eq, Structural)]
pub enum EvidenceTier {
    Safe,
    Caution,
}

#[derive(Clone, Copy, Debug, PartialEq, Eq, Structural)]
pub enum DeveloperKind {
    Containers,
    AppleDevelopment,
    JavaScriptProjects,
    PackageStores,
    BuildTooling,
}

pub open spec fn kind_title_text(k: DeveloperKind) -> Seq<char> {
    match k {
        DeveloperKind::Containers => "Containers"@,
        DeveloperKind::AppleDevelopment => "Xcode & simulators"@,
        DeveloperKind::JavaScriptProjects => "JavaScript projects"@,
        DeveloperKind::PackageStores => "Package stores"@,
        DeveloperKind::BuildTooling => "Build tooling"@,
    }
}

pub open spec fn kind_explanation_text(k: DeveloperKind) -> Seq<char> {
    match k {
        DeveloperKind::Containers => "Unused images and builder layers inside Docker's VM."@,
        DeveloperKind::AppleDevelopment => "Xcode indexes, archives, device support, and unavailable simulators."@,
        DeveloperKind::JavaScriptProjects => "Installed node_modules, npm data, browser test binaries, and JS tooling caches."@,
        DeveloperKind::PackageStores => "Downloaded dependencies retained by language and package managers."@,
        DeveloperKind::BuildTooling => "Compiled intermediates that tools can regenerate."@,
    }
}

impl DeveloperKind {
    pub fn title(self) -> (s: &'static str)
        ensures
            s@ == kind_title_text(self),
    {
        match self {
            DeveloperKind::Containers => "Containers",
            DeveloperKind::AppleDevelopment => "Xcode & simulators",
            DeveloperKind::JavaScriptProjects => "JavaScript projects",
            DeveloperKind::PackageStores => "Package stores",
            DeveloperKind::BuildTooling => "Build tooling",
        }
    }

    pub fn explanation(self) -> (s: &'static str)
        ensures
            s@ == kind_explanation_text(self),
    {
        match self {
            DeveloperKind::Containers => "Unused images and builder layers inside Docker's VM.",
            DeveloperKind::AppleDevelopment => "Xcode indexes, archives, device support, and unavailable simulators.",
            DeveloperKind::JavaScriptProjects => "Installed node_modules, npm data, browser test binaries, and JS tooling caches.",
            DeveloperKind::PackageStores => "Downloaded dependencies retained by language and package managers.",
            DeveloperKind::BuildTooling => "Compiled intermediates that tools can regenerate.",
        }
    }
}

// ───────────────────────── recognising developer findings ─────────────────────────

/// Whether `id` is one of `names`.
pub open spec fn one_of(id: Seq<char>, names: Seq<Seq<char>>) -> bool {
    exists|k: int| 0 <= k < names.len() && id == #[trigger] names[k]
}

/// Whether `id` starts with one of `prefixes`.
pub open spec fn starts_with_one_of(id: Seq<char>, prefixes: Seq<Seq<char>>) -> bool {
    exists|k: int| 0 <= k < prefixes.len() && chars_prefix(#[trigger] prefixes[k], id)
}

fn is_one_of(id: &str, names: &[&str]) -> (r: bool)
    ensures
        r == one_of(id@, names@.map_values(|s: &str| s@)),
{
    let ghost ns = names@.map_values(|s: &str| s@);
    let mut i: usize = 0;
    while i < names.len()
        invariant
            i <= names@.len(),
            ns == names@.map_values(|s: &str| s@),
            forall|k: int| 0 <= k < i ==> id@ != #[trigger] ns[k],
        decreases names.len() - i,
    {
        if str_eq(id, names[i]) {
            assert(id@ == ns[i as int]);
            return true;
        }
        i += 1;
    }
    false
}

fn starts_with_any(id: &str, prefixes: &[&str]) -> (r: bool)
    ensures
        r == starts_with_one_of(id@, prefixes@.map_values(|s: &str| s@)),
{
    let ghost ps = prefixes@.map_values(|s: &str| s@);
    let mut i: usize = 0;
    while i < prefixes.len()
        invariant
            i <= prefixes@.len(),
            ps == prefixes@.map_values(|s: &str| s@),
            forall|k: int| 0 <= k < i ==> !chars_prefix(#[trigger] ps[k], id@),
        decreases prefixes.len() - i,
    {
        if str_starts_with(id, prefixes[i]) {
            assert(chars_prefix(ps[i as int], id@));
            return true;
        }
        i += 1;
    }
    false
}

pub open spec fn xcode_ids() -> Seq<Seq<char>> {
    seq!["sim-unavailable"@, "ios-devicesupport"@]
}

pub open spec fn package_store_ids() -> Seq<Seq<char>> {
    seq!["go-modcache"@, "pip-cache"@, "cargo"@, "gradle"@, "maven"@, "cocoapods"@, "brew-cleanup"@, "npm-cache"@, "playwright"@]
}

pub open spec fn js_cache_prefixes() -> Seq<Seq<char>> {
    seq!["cache-Yarn"@, "cache-typescript"@, "cache-node-gyp"@, "cache-electron"@]
}

/// The section of the report a recommendation belongs to, if any.
pub open spec fn deep_section_spec(id: Seq<char>) -> Option<DeveloperSection> {
    if id == "docker-prune"@ {
        Some(DeveloperSection::Docker)
    } else if chars_prefix("xcode-"@, id) || one_of(id, xcode_ids()) {
        Some(DeveloperSection::Xcode)
    } else if chars_prefix("nm-"@, id) {
        Some(DeveloperSection::Projects)
    } else if one_of(id, package_store_ids()) || starts_with_one_of(id, js_cache_prefixes()) {
        Some(DeveloperSection::PackageStores)
    } else if id == "go-buildcache"@ {
        Some(DeveloperSection::BuildTooling)
    } else {
        None
    }
}

pub fn deep_section(id: &str) -> (r: Option<DeveloperSection>)
    ensures
        r == deep_section_spec(id@),
{
    let xcode = ["sim-unavailable", "ios-devicesupport"];
    let stores = ["go-modcache", "pip-cache", "cargo", "gradle", "maven", "cocoapods", "brew-cleanup", "npm-cache", "playwright"];
    let js = ["cache-Yarn", "cache-typescript", "cache-node-gyp", "cache-electron"];
    assert(xcode@.map_values(|s: &str| s@) =~= xcode_ids());
    assert(stores@.map_values(|s: &str| s@) =~= package_store_ids());
    assert(js@.map_values(|s: &str| s@) =~= js_cache_prefixes());
    if str_eq(id, "docker-prune") {
        Some(DeveloperSection::Docker)
    } else if str_starts_with(id, "xcode-") || is_one_of(id, &xcode) {
        Some(DeveloperSection::Xcode)
    } else if str_starts_with(id, "nm-") {
        Some(DeveloperSection::Projects)
    } else if is_one_of(id, &stores) || starts_with_any(id, &js) {
        Some(DeveloperSection::PackageStores)
    } else if str_eq(id, "go-buildcache") {
        Some(DeveloperSection::BuildTooling)
    } else {
        None
    }
}

pub open spec fn rebuild_cost_spec(id: Seq<char>) -> RebuildCost {
    if id == "xcode-derived"@ || id == "go-buildcache"@ {
        RebuildCost::QuickRegeneration
    } else if id == "xcode-archives"@ {
        RebuildCost::ManualSetup
    } else {
        RebuildCost::LargeDownload
    }
}

pub fn rebuild_cost(id: &str) -> (r: RebuildCost)
    ensures
        r == rebuild_cost_spec(id@),
{
    if str_eq(id, "xcode-derived") || str_eq(id, "go-buildcache") {
        RebuildCost::QuickRegeneration
    } else if str_eq(id, "xcode-archives") {
        RebuildCost::ManualSetup
    } else {
        RebuildCost::LargeDownload
    }
}

pub open spec fn js_ids() -> Seq<Seq<char>> {
    seq!["npm-cache"@, "playwright"@]
}

pub open spec fn store_kind_ids() -> Seq<Seq<char>> {
    seq!["go-modcache"@, "pip-cache"@, "cargo"@, "gradle"@, "maven"@, "cocoapods"@, "brew-cleanup"@]
}

/// The group of the simple developer view a recommendation belongs to.
pub open spec fn kind_spec(id: Seq<char>) -> Option<DeveloperKind> {
    if id == "docker-prune"@ {
        Some(DeveloperKind::Containers)
    } else if chars_prefix("xcode-"@, id) || one_of(id, xcode_ids()) {
        Some(DeveloperKind::AppleDevelopment)
    } else if chars_prefix("nm-"@, id) || one_of(id, js_ids()) || starts_with_one_of(id, js_cache_prefixes()) {
        Some(DeveloperKind::JavaScriptProjects)
    } else if one_of(id, store_kind_ids()) {
        Some(DeveloperKind::PackageStores)
    } else if id == "go-buildcache"@ {
        Some(DeveloperKind::BuildTooling)
    } else {
        None
    }
}

pub fn classify(id: &str) -> (r: Option<DeveloperKind>)
    ensures
        r == kind_spec(id@),
{
    let xcode = ["sim-unavailable", "ios-devicesupport"];
    let js_named = ["npm-cache", "playwright"];
    let js = ["cache-Yarn", "cache-typescript", "cache-node-gyp", "cache-electron"];
    let stores = ["go-modcache", "pip-cache", "cargo", "gradle", "maven", "cocoapods", "brew-cleanup"];
    assert(xcode@.map_values(|s: &str| s@) =~= xcode_ids());
    assert(js_named@.map_values(|s: &str| s@) =~= js_ids());
    assert(js@.map_values(|s: &str| s@) =~= js_cache_prefixes());
    assert(stores@.map_values(|s: &str| s@) =~= store_kind_ids());
    if str_eq(id, "docker-prune") {
        Some(DeveloperKind::Containers)
    } else if str_starts_with(id, "xcode-") || is_one_of(id, &xcode) {
        Some(DeveloperKind::AppleDevelopment)
    } else if str_starts_with(id, "nm-") || is_one_of(id, &js_named) || starts_with_any(id, &js) {
        Some(DeveloperKind::JavaScriptProjects)
    } else if is_one_of(id, &stores) {
        Some(DeveloperKind::PackageStores)
    } else if str_eq(id, "go-buildcache") {
        Some(DeveloperKind::BuildTooling)
    } else {
        None
    }
}


// ───────────────────────── the simple developer view ─────────────────────────

pub struct DeveloperFinding {
    pub title: String,
    pub display: String,
    pub bytes: i64,
    pub caution: bool,
}

pub struct DeveloperGroup {
    pub kind: DeveloperKind,
    pub bytes: i64,
    pub caution_count: usize,
    pub findings: Vec<DeveloperFinding>,
}

pub open spec fn finding_of(r: Rec) -> DeveloperFinding {
    DeveloperFinding { title: r.title, display: r.display, bytes: r.bytes, caution: r.tier == Tier::Caution }
}

/// The findings of `kind`, in the order of the recommendations.
pub open spec fn kind_findings(recs: Seq<Rec>, kind: DeveloperKind) -> Seq<DeveloperFinding>
    decreases recs.len(),
{
    if recs.len() == 0 {
        Seq::empty()
    } else {
        let rest = kind_findings(recs.drop_last(), kind);
        if kind_spec(recs.last().id@) == Some(kind) {
            rest.push(finding_of(recs.last()))
        } else {
            rest
        }
    }
}

/// `a` is listed after `b`: smaller, or as large with a later title.
pub open spec fn finding_after(a: DeveloperFinding, b: DeveloperFinding) -> bool {
    a.bytes < b.bytes || (a.bytes == b.bytes && chars_lt(b.title@, a.title@))
}

pub open spec fn sorted_findings(recs: Seq<Rec>, kind: DeveloperKind) -> Seq<DeveloperFinding> {
    stable_sort(kind_findings(recs, kind), |a: DeveloperFinding, b: DeveloperFinding| finding_after(a, b))
}

pub open spec fn findings_bytes(fs: Seq<DeveloperFinding>) -> int
    decreases fs.len(),
{
    if fs.len() == 0 {
        0
    } else {
        findings_bytes(fs.drop_last()) + fs.last().bytes
    }
}

pub open spec fn findings_caution(fs: Seq<DeveloperFinding>) -> int
    decreases fs.len(),
{
    if fs.len() == 0 {
        0
    } else {
        findings_caution(fs.drop_last()) + if fs.last().caution { 1int } else { 0int }
    }
}

pub open spec fn kind_order() -> Seq<DeveloperKind> {
    seq![
        DeveloperKind::Containers,
        DeveloperKind::AppleDevelopment,
        DeveloperKind::JavaScriptProjects,
        DeveloperKind::PackageStores,
        DeveloperKind::BuildTooling,
    ]
}

/// The groups that have findings, in their fixed order.
pub open spec fn present_kinds(recs: Seq<Rec>, order: Seq<DeveloperKind>) -> Seq<DeveloperKind>
    decreases order.len(),
{
    if order.len() == 0 {
        Seq::empty()
    } else {
        let rest = present_kinds(recs, order.drop_last());
        if kind_findings(recs, order.last()).len() > 0 {
            rest.push(order.last())
        } else {
            rest
        }
    }
}

/// Every running total of the sizes fits in an `i64`.
pub open spec fn prefix_sums_fit(fs: Seq<DeveloperFinding>) -> bool {
    forall|q: int| 0 <= q <= fs.len() ==> i64::MIN <= #[trigger] findings_bytes(fs.take(q)) <= i64::MAX
}

/// Every group's running totals fit in an `i64`.
pub open spec fn group_totals_fit(recs: Seq<Rec>) -> bool {
    forall|k: int| 0 <= k < 5 ==> #[trigger] prefix_sums_fit(kind_findings(recs, kind_order()[k]))
}

fn finding_after_exec(a: &DeveloperFinding, b: &DeveloperFinding) -> (r: bool)
    ensures
        r == finding_after(*a, *b),
{
    a.bytes < b.bytes || (a.bytes == b.bytes && chars_less(b.title.as_str(), a.title.as_str()))
}

fn group_for(recs: &[Rec], kind: DeveloperKind) -> (r: Vec<DeveloperFinding>)
    ensures
        r@ == kind_findings(recs@, kind),
{
    let mut out: Vec<DeveloperFinding> = Vec::new();
    let mut i: usize = 0;
    while i < recs.len()
        invariant
            i <= recs@.len(),
            out@ == kind_findings(recs@.take(i as int), kind),
        decreases recs.len() - i,
    {
        let r = &recs[i];
        proof {
            assert(recs@.take(i + 1).drop_last() =~= recs@.take(i as int));
            assert(recs@.take(i + 1).last() == recs@[i as int]);
        }
        if classify(r.id.as_str()) == Some(kind) {
            out.push(DeveloperFinding {
                title: r.title.clone(),
                display: r.display.clone(),
                bytes: r.bytes,
                caution: r.tier == Tier::Caution,
            });
        }
        i += 1;
    }
    proof {
        assert(recs@.take(recs@.len() as int) =~= recs@);
    }
    out
}

/// The developer findings grouped by kind in a fixed order; each group is
/// largest first, then by title, with its total size and caution count.
pub fn analyze(recs: &[Rec]) -> (groups: Vec<DeveloperGroup>)
    requires
        group_totals_fit(recs@),
    ensures
        groups@.len() == present_kinds(recs@, kind_order()).len(),
        forall|k: int| 0 <= k < groups@.len() ==> {
            let kind = present_kinds(recs@, kind_order())[k];
            &&& (#[trigger] groups@[k]).kind == kind
            &&& groups@[k].findings@ == sorted_findings(recs@, kind)
            &&& groups@[k].bytes == findings_bytes(kind_findings(recs@, kind))
            &&& groups@[k].caution_count == findings_caution(kind_findings(recs@, kind))
        },
{
    let order = [
        DeveloperKind::Containers,
        DeveloperKind::AppleDevelopment,
        DeveloperKind::JavaScriptProjects,
        DeveloperKind::PackageStores,
        DeveloperKind::BuildTooling,
    ];
    assert(order@ =~= kind_order());
    let mut groups: Vec<DeveloperGroup> = Vec::new();
    let mut j: usize = 0;
    while j < 5
        invariant
            j <= 5,
            order@ == kind_order(),
            group_totals_fit(recs@),
            groups@.len() == present_kinds(recs@, kind_order().take(j as int)).len(),
            forall|k: int| 0 <= k < groups@.len() ==> {
                let kind = present_kinds(recs@, kind_order().take(j as int))[k];
                &&& (#[trigger] groups@[k]).kind == kind
                &&& groups@[k].findings@ == sorted_findings(recs@, kind)
                &&& groups@[k].bytes == findings_bytes(kind_findings(recs@, kind))
                &&& groups@[k].caution_count == findings_caution(kind_findings(recs@, kind))
            },
        decreases 5 - j,
    {
        let kind = order[j];
        let ghost prefix = kind_order().take(j as int);
        proof {
            assert(kind_order().take(j + 1).drop_last() =~= prefix);
            assert(kind_order().take(j + 1).last() == kind);
        }
        let found = group_for(recs, kind);
        if found.len() > 0 {
            let ghost fs = found@;
            let mut total: i64 = 0;
            let mut cautions: usize = 0;
            let mut m: usize = 0;
            proof {
                assert(prefix_sums_fit(kind_findings(recs@, kind_order()[j as int])));
            }
            while m < found.len()
                invariant
                    m <= fs.len(),
                    fs == found@,
                    fs == kind_findings(recs@, kind),
                    prefix_sums_fit(fs),
                    total == findings_bytes(fs.take(m as int)),
                    cautions == findings_caution(fs.take(m as int)),
                    cautions <= m,
                decreases found.len() - m,
            {
                proof {
                    assert(fs.take(m + 1).drop_last() =~= fs.take(m as int));
                    assert(i64::MIN <= findings_bytes(fs.take(m + 1)) <= i64::MAX);
                }
                total = total + found[m].bytes;
                if found[m].caution {
                    cautions = cautions + 1;
                }
                m += 1;
            }
            proof {
                assert(fs.take(fs.len() as int) =~= fs);
            }
            let ghost after = |a: DeveloperFinding, b: DeveloperFinding| finding_after(a, b);
            let sorted = sort_stable(found, finding_after_exec, Ghost(after));
            groups.push(DeveloperGroup { kind, bytes: total, caution_count: cautions, findings: sorted });
        }
        j += 1;
    }
    proof {
        assert(kind_order().take(5) =~= kind_order());
    }
    groups
}


// ───────────────────────── the Developer Lens report ─────────────────────────

pub struct Evidence {
    pub source_rec_id: Option<String>,
    pub measured_path: Vec<u8>,
    pub display_path: String,
    pub tier: Option<EvidenceTier>,
    pub estimated: bool,
    pub command: Option<&'static str>,
    pub explanation: String,
    pub recovery: String,
    pub overlap: Option<String>,
}

pub struct DeepFinding {
    pub title: String,
    pub bytes: i64,
    pub rebuild_cost: RebuildCost,
    pub counted: bool,
    pub evidence: Evidence,
}

pub struct DeveloperSectionReport {
    pub section: DeveloperSection,
    pub measured_bytes: i64,
    pub findings: Vec<DeepFinding>,
}

pub struct DockerDetail {
    pub title: String,
    pub bytes: i64,
    pub reclaimable_bytes: i64,
    pub rebuild_cost: RebuildCost,
    pub counted: bool,
    pub explanation: String,
}

pub struct DockerBreakdown {
    pub details: Vec<DockerDetail>,
    pub unavailable: Option<String>,
}

impl Default for DockerBreakdown {
    fn default() -> (d: DockerBreakdown)
        ensures
            d.details@.len() == 0,
            d.unavailable is None,
    {
        DockerBreakdown { details: Vec::new(), unavailable: None }
    }
}

pub struct DeveloperReport {
    pub measured_bytes: i64,
    pub sections: Vec<DeveloperSectionReport>,
    pub docker: DockerBreakdown,
}

pub open spec fn opt_text(o: Option<String>) -> Option<Seq<char>> {
    match o {
        Some(s) => Some(s@),
        None => None,
    }
}

/// A finding as the contracts read it.
pub struct FindingView {
    pub title: Seq<char>,
    pub bytes: i64,
    pub rebuild_cost: RebuildCost,
    pub counted: bool,
    pub source_rec_id: Option<Seq<char>>,
    pub measured_path: Seq<u8>,
    pub display_path: Seq<char>,
    pub tier: Option<EvidenceTier>,
    pub estimated: bool,
    pub command: Option<&'static str>,
    pub explanation: Seq<char>,
    pub recovery: Seq<char>,
    pub overlap: Option<Seq<char>>,
}

impl View for DeepFinding {
    type V = FindingView;

    open spec fn view(&self) -> FindingView {
        FindingView {
            title: self.title@,
            bytes: self.bytes,
            rebuild_cost: self.rebuild_cost,
            counted: self.counted,
            source_rec_id: opt_text(self.evidence.source_rec_id),
            measured_path: self.evidence.measured_path@,
            display_path: self.evidence.display_path@,
            tier: self.evidence.tier,
            estimated: self.evidence.estimated,
            command: self.evidence.command,
            explanation: self.evidence.explanation@,
            recovery: self.evidence.recovery@,
            overlap: opt_text(self.evidence.overlap),
        }
    }
}

pub open spec fn findings_view(v: Seq<DeepFinding>) -> Seq<FindingView> {
    v.map_values(|f: DeepFinding| f@)
}

pub open spec fn evidence_tier_of(t: Tier) -> EvidenceTier {
    match t {
        Tier::Safe => EvidenceTier::Safe,
        Tier::Caution => EvidenceTier::Caution,
    }
}

fn evidence_tier(tier: Tier) -> (r: EvidenceTier)
    ensures
        r == evidence_tier_of(tier),
{
    match tier {
        Tier::Safe => EvidenceTier::Safe,
        Tier::Caution => EvidenceTier::Caution,
    }
}

/// The indices of the recommendations the report looks at, in order.
pub open spec fn report_candidates(recs: Seq<Rec>) -> Seq<usize>
    decreases recs.len(),
{
    if recs.len() == 0 {
        Seq::empty()
    } else {
        let rest = report_candidates(recs.drop_last());
        let r = recs.last();
        if r.bytes > 0 && deep_section_spec(r.id@) is Some {
            rest.push((recs.len() - 1) as usize)
        } else {
            rest
        }
    }
}

pub open spec fn section_of(recs: Seq<Rec>, i: usize) -> DeveloperSection {
    deep_section_spec(recs[i as int].id@)->Some_0
}

/// Candidates are counted shallow paths first, then by section, then by
/// identifier.
pub open spec fn candidate_after(recs: Seq<Rec>, a: usize, b: usize) -> bool {
    let ca = components(recs[a as int].path@).len();
    let cb = components(recs[b as int].path@).len();
    let sa = section_rank(section_of(recs, a));
    let sb = section_rank(section_of(recs, b));
    ca > cb || (ca == cb && (sa > sb || (sa == sb && chars_lt(recs[b as int].id@, recs[a as int].id@))))
}

pub open spec fn counting_order(recs: Seq<Rec>) -> Seq<usize> {
    stable_sort(report_candidates(recs), |a: usize, b: usize| candidate_after(recs, a, b))
}

/// The first of `owners` whose path holds `p`.
pub open spec fn first_owner(recs: Seq<Rec>, owners: Seq<usize>, p: Seq<u8>) -> Option<usize>
    decreases owners.len(),
{
    if owners.len() == 0 {
        None
    } else if comps_prefix(components(recs[owners[0] as int].path@), components(p)) {
        Some(owners[0])
    } else {
        first_owner(recs, owners.drop_first(), p)
    }
}

/// For each candidate in counting order: counted (`None`), or the earlier
/// counted candidate whose path holds it.
pub open spec fn overlap_marks(recs: Seq<Rec>, order: Seq<usize>) -> Seq<Option<usize>>
    decreases order.len(),
{
    if order.len() == 0 {
        Seq::empty()
    } else {
        let prev = overlap_marks(recs, order.drop_last());
        prev.push(first_owner(recs, counted_of(order.drop_last(), prev), recs[order.last() as int].path@))
    }
}

/// The candidates of `order` that were counted.
pub open spec fn counted_of(order: Seq<usize>, marks: Seq<Option<usize>>) -> Seq<usize>
    decreases order.len(),
{
    if order.len() == 0 || marks.len() != order.len() {
        Seq::empty()
    } else {
        let rest = counted_of(order.drop_last(), marks.drop_last());
        if marks.last() is None {
            rest.push(order.last())
        } else {
            rest
        }
    }
}

pub open spec fn included_text(display: Seq<char>) -> Seq<char> {
    "Included in "@ + display
}

pub open spec fn finding_spec(recs: Seq<Rec>, i: usize, mark: Option<usize>) -> FindingView {
    let r = recs[i as int];
    FindingView {
        title: r.title@,
        bytes: r.bytes,
        rebuild_cost: rebuild_cost_spec(r.id@),
        counted: mark is None,
        source_rec_id: Some(r.id@),
        measured_path: r.path@,
        display_path: r.display@,
        tier: Some(evidence_tier_of(r.tier)),
        estimated: r.estimate,
        command: r.command,
        explanation: r.desc@,
        recovery: r.restore@,
        overlap: match mark {
            Some(o) => Some(included_text(recs[o as int].display@)),
            None => None,
        },
    }
}

/// The findings of `section`, in counting order.
pub open spec fn section_findings(recs: Seq<Rec>, order: Seq<usize>, marks: Seq<Option<usize>>, section: DeveloperSection) -> Seq<FindingView>
    decreases order.len(),
{
    if order.len() == 0 || marks.len() != order.len() {
        Seq::empty()
    } else {
        let rest = section_findings(recs, order.drop_last(), marks.drop_last(), section);
        if section_of(recs, order.last()) == section {
            rest.push(finding_spec(recs, order.last(), marks.last()))
        } else {
            rest
        }
    }
}

/// Findings are listed larger first, then by title, then by identifier.
pub open spec fn deep_after(a: FindingView, b: FindingView) -> bool {
    a.bytes < b.bytes || (a.bytes == b.bytes && (chars_lt(b.title, a.title) || (b.title == a.title
        && match (a.source_rec_id, b.source_rec_id) {
        (Some(x), Some(y)) => chars_lt(y, x),
        (Some(_), None) => true,
        _ => false,
    })))
}

pub open spec fn listed_findings(recs: Seq<Rec>, section: DeveloperSection) -> Seq<FindingView> {
    let order = counting_order(recs);
    stable_sort(
        section_findings(recs, order, overlap_marks(recs, order), section),
        |a: FindingView, b: FindingView| deep_after(a, b),
    )
}

/// The sum of the counted sizes, held at `i64::MAX`.
pub open spec fn counted_total(fs: Seq<FindingView>) -> i64
    decreases fs.len(),
{
    if fs.len() == 0 {
        0
    } else {
        let rest = counted_total(fs.drop_last());
        if fs.last().counted {
            crate::reclaim_plan::sat_add(rest, fs.last().bytes)
        } else {
            rest
        }
    }
}

pub open spec fn section_order() -> Seq<DeveloperSection> {
    seq![
        DeveloperSection::Docker,
        DeveloperSection::Xcode,
        DeveloperSection::Projects,
        DeveloperSection::PackageStores,
        DeveloperSection::BuildTooling,
        DeveloperSection::Ungrouped,
    ]
}

/// The sections that have findings, in their fixed order.
pub open spec fn present_sections(recs: Seq<Rec>, order: Seq<DeveloperSection>) -> Seq<DeveloperSection>
    decreases order.len(),
{
    if order.len() == 0 {
        Seq::empty()
    } else {
        let rest = present_sections(recs, order.drop_last());
        if listed_findings(recs, order.last()).len() > 0 {
            rest.push(order.last())
        } else {
            rest
        }
    }
}

pub open spec fn sections_total(recs: Seq<Rec>, secs: Seq<DeveloperSection>) -> i64
    decreases secs.len(),
{
    if secs.len() == 0 {
        0
    } else {
        crate::reclaim_plan::sat_add(
            sections_total(recs, secs.drop_last()),
            counted_total(listed_findings(recs, secs.last())),
        )
    }
}

pub open spec fn inside_docker_text() -> Seq<char> {
    "Inside Docker; not added to the measured filesystem footprint."@
}

/// A Docker detail as reported: never counted; its explanation says so.
pub open spec fn docker_detail_ok(before: DockerDetail, after: DockerDetail) -> bool {
    &&& after.title == before.title
    &&& after.bytes == before.bytes
    &&& after.reclaimable_bytes == before.reclaimable_bytes
    &&& after.rebuild_cost == before.rebuild_cost
    &&& !after.counted
    &&& after.explanation@ == if chars_contain(before.explanation@, "not added"@) {
        before.explanation@
    } else {
        inside_docker_text()
    }
}


proof fn lemma_marks_len(recs: Seq<Rec>, order: Seq<usize>)
    ensures
        overlap_marks(recs, order).len() == order.len(),
    decreases order.len(),
{
    if order.len() > 0 {
        lemma_marks_len(recs, order.drop_last());
    }
}

/// A candidate index that can be looked at: in range, with a section.
pub open spec fn candidate_ok(recs: Seq<Rec>, i: usize) -> bool {
    i < recs.len() && deep_section_spec(recs[i as int].id@) is Some
}

fn candidate_after_exec(ctx: &&[Rec], a: &usize, b: &usize) -> (r: bool)
    requires
        candidate_ok((*ctx)@, *a),
        candidate_ok((*ctx)@, *b),
    ensures
        r == candidate_after((*ctx)@, *a, *b),
{
    let recs: &[Rec] = *ctx;
    let ca = components_of(recs[*a].path.as_slice()).len();
    let cb = components_of(recs[*b].path.as_slice()).len();
    let sa = section_index(deep_section(recs[*a].id.as_str()));
    let sb = section_index(deep_section(recs[*b].id.as_str()));
    ca > cb || (ca == cb && (sa > sb || (sa == sb && chars_less(recs[*b].id.as_str(), recs[*a].id.as_str()))))
}

fn section_index(s: Option<DeveloperSection>) -> (r: u8)
    requires
        s is Some,
    ensures
        r == section_rank(s->Some_0),
{
    match s {
        Some(DeveloperSection::Docker) => 0,
        Some(DeveloperSection::Xcode) => 1,
        Some(DeveloperSection::Projects) => 2,
        Some(DeveloperSection::PackageStores) => 3,
        Some(DeveloperSection::BuildTooling) => 4,
        _ => 5,
    }
}

fn deep_after_exec(a: &DeepFinding, b: &DeepFinding) -> (r: bool)
    ensures
        r == deep_after(a@, b@),
{
    if a.bytes != b.bytes {
        return a.bytes < b.bytes;
    }
    if chars_less(b.title.as_str(), a.title.as_str()) {
        return true;
    }
    if !str_eq(b.title.as_str(), a.title.as_str()) {
        return false;
    }
    match (&a.evidence.source_rec_id, &b.evidence.source_rec_id) {
        (Some(x), Some(y)) => chars_less(y.as_str(), x.as_str()),
        (Some(_), None) => true,
        _ => false,
    }
}

fn push_text(out: &mut String, s: &str)
    ensures
        final(out)@ == old(out)@ + s@,
{
    let n = s.unicode_len();
    let mut i: usize = 0;
    while i < n
        invariant
            n == s@.len(),
            i <= n,
            out@ == old(out)@ + s@.take(i as int),
        decreases n - i,
    {
        push_char(out, s.get_char(i));
        assert(s@.take(i + 1) =~= s@.take(i as int).push(s@[i as int]));
        i += 1;
    }
    assert(s@.take(n as int) =~= s@);
}

fn make_finding(recs: &[Rec], i: usize, mark: Option<usize>) -> (f: DeepFinding)
    requires
        i < recs@.len(),
        mark matches Some(o) ==> o < recs@.len(),
    ensures
        f@ == finding_spec(recs@, i, mark),
{
    let r = &recs[i];
    let overlap = match mark {
        Some(o) => {
            let mut t = String::new();
            push_text(&mut t, "Included in ");
            push_text(&mut t, recs[o].display.as_str());
            Some(t)
        },
        None => None,
    };
    DeepFinding {
        title: r.title.clone(),
        bytes: r.bytes,
        rebuild_cost: rebuild_cost(r.id.as_str()),
        counted: mark.is_none(),
        evidence: Evidence {
            source_rec_id: Some(r.id.clone()),
            measured_path: r.path.clone(),
            display_path: r.display.clone(),
            tier: Some(evidence_tier(r.tier)),
            estimated: r.estimate,
            command: r.command,
            explanation: owned(r.desc),
            recovery: owned(r.restore),
            overlap,
        },
    }
}

/// The Developer Lens report: each developer finding once, counted unless a
/// shallower counted finding already holds its path, grouped by section in a
/// fixed order and listed larger first; Docker's own details are shown but
/// never counted.
pub fn build_report(recs: &[Rec], docker: DockerBreakdown) -> (report: DeveloperReport)
    ensures
        report.sections@.len() == present_sections(recs@, section_order()).len(),
        forall|k: int| 0 <= k < report.sections@.len() ==> {
            let sec = present_sections(recs@, section_order())[k];
            &&& (#[trigger] report.sections@[k]).section == sec
            &&& findings_view(report.sections@[k].findings@) == listed_findings(recs@, sec)
            &&& report.sections@[k].measured_bytes == counted_total(listed_findings(recs@, sec))
        },
        report.measured_bytes == sections_total(recs@, present_sections(recs@, section_order())),
        report.docker.unavailable == docker.unavailable,
        report.docker.details@.len() == docker.details@.len(),
        forall|k: int| 0 <= k < docker.details@.len() ==> docker_detail_ok(
            #[trigger] docker.details@[k],
            report.docker.details@[k],
        ),
{
    // candidates, in the order of the recommendations
    let mut cands: Vec<usize> = Vec::new();
    let mut i: usize = 0;
    while i < recs.len()
        invariant
            i <= recs@.len(),
            cands@ == report_candidates(recs@.take(i as int)),
            forall|k: int| 0 <= k < cands@.len() ==> #[trigger] candidate_ok(recs@, cands@[k]),
        decreases recs.len() - i,
    {
        proof {
            assert(recs@.take(i + 1).drop_last() =~= recs@.take(i as int));
            assert(recs@.take(i + 1).last() == recs@[i as int]);
        }
        if recs[i].bytes > 0 && deep_section(recs[i].id.as_str()).is_some() {
            cands.push(i);
        }
        i += 1;
    }
    proof {
        assert(recs@.take(recs@.len() as int) =~= recs@);
    }
    let ghost after_c = |a: usize, b: usize| candidate_after(recs@, a, b);
    let ghost ok_c = |a: usize| candidate_ok(recs@, a);
    let order = sort_stable_with(cands, &recs, candidate_after_exec, Ghost(after_c), Ghost(ok_c));
    assert(order@ == counting_order(recs@));
    // counting pass
    let mut marks: Vec<Option<usize>> = Vec::new();
    let mut owners: Vec<usize> = Vec::new();
    let mut k: usize = 0;
    while k < order.len()
        invariant
            k <= order@.len(),
            order@ == counting_order(recs@),
            forall|m: int| 0 <= m < order@.len() ==> #[trigger] candidate_ok(recs@, order@[m]),
            marks@ == overlap_marks(recs@, order@.take(k as int)),
            owners@ == counted_of(order@.take(k as int), marks@),
            forall|m: int| 0 <= m < owners@.len() ==> #[trigger] owners@[m] < recs@.len(),
            forall|m: int| 0 <= m < marks@.len() ==> (#[trigger] marks@[m] matches Some(o) ==> o < recs@.len()),
        decreases order.len() - k,
    {
        let cur = order[k];
        proof {
            assert(order@.take(k + 1).drop_last() =~= order@.take(k as int));
            assert(order@.take(k + 1).last() == cur);
            lemma_marks_len(recs@, order@.take(k as int));
            assert(candidate_ok(recs@, order@[k as int]));
        }
        let cur_comps = components_of(recs[cur].path.as_slice());
        let mut found: Option<usize> = None;
        let mut j: usize = 0;
        proof {
            assert(owners@.skip(0) =~= owners@);
        }
        while j < owners.len() && found.is_none()
            invariant
                j <= owners@.len(),
                forall|m: int| 0 <= m < owners@.len() ==> #[trigger] owners@[m] < recs@.len(),
                comps_view(cur_comps@) == components(recs@[cur as int].path@),
                found is None ==> first_owner(recs@, owners@, recs@[cur as int].path@) == first_owner(recs@, owners@.skip(j as int), recs@[cur as int].path@),
                found is Some ==> found == first_owner(recs@, owners@, recs@[cur as int].path@) && found->Some_0 < recs@.len(),
            decreases owners.len() - j + (if found is None { 1int } else { 0int }),
        {
            let o = owners[j];
            let oc = components_of(recs[o].path.as_slice());
            proof {
                assert(owners@.skip(j as int)[0] == o);
                assert(owners@.skip(j as int).drop_first() =~= owners@.skip(j + 1));
            }
            if components_start_with(&cur_comps, &oc) {
                found = Some(o);
            } else {
                j += 1;
            }
        }
        proof {
            if found is None {
                assert(owners@.skip(j as int).len() == 0);
            }
        }
        let ghost prev_marks = marks@;
        marks.push(found);
        if found.is_none() {
            owners.push(cur);
        }
        proof {
            assert(marks@.drop_last() =~= prev_marks);
            assert(order@.take(k + 1).drop_last() =~= order@.take(k as int));
        }
        k += 1;
    }
    proof {
        assert(order@.take(order@.len() as int) =~= order@);
        lemma_marks_len(recs@, order@);
    }
    // sections
    let sections_list = [
        DeveloperSection::Docker,
        DeveloperSection::Xcode,
        DeveloperSection::Projects,
        DeveloperSection::PackageStores,
        DeveloperSection::BuildTooling,
        DeveloperSection::Ungrouped,
    ];
    assert(sections_list@ =~= section_order());
    let mut sections: Vec<DeveloperSectionReport> = Vec::new();
    let mut total: i64 = 0;
    let mut s: usize = 0;
    while s < 6
        invariant
            s <= 6,
            sections_list@ == section_order(),
            order@ == counting_order(recs@),
            marks@ == overlap_marks(recs@, order@),
            marks@.len() == order@.len(),
            forall|m: int| 0 <= m < order@.len() ==> #[trigger] candidate_ok(recs@, order@[m]),
            forall|m: int| 0 <= m < marks@.len() ==> (#[trigger] marks@[m] matches Some(o) ==> o < recs@.len()),
            sections@.len() == present_sections(recs@, section_order().take(s as int)).len(),
            forall|q: int| 0 <= q < sections@.len() ==> {
                let sec = present_sections(recs@, section_order().take(s as int))[q];
                &&& (#[trigger] sections@[q]).section == sec
                &&& findings_view(sections@[q].findings@) == listed_findings(recs@, sec)
                &&& sections@[q].measured_bytes == counted_total(listed_findings(recs@, sec))
            },
            total == sections_total(recs@, present_sections(recs@, section_order().take(s as int))),
        decreases 6 - s,
    {
        let sec = sections_list[s];
        proof {
            assert(section_order().take(s + 1).drop_last() =~= section_order().take(s as int));
            assert(section_order().take(s + 1).last() == sec);
        }
        let mut list: Vec<DeepFinding> = Vec::new();
        let mut m: usize = 0;
        while m < order.len()
            invariant
                m <= order@.len(),
                marks@.len() == order@.len(),
                forall|q: int| 0 <= q < order@.len() ==> #[trigger] candidate_ok(recs@, order@[q]),
                forall|q: int| 0 <= q < marks@.len() ==> (#[trigger] marks@[q] matches Some(o) ==> o < recs@.len()),
                findings_view(list@) == section_findings(recs@, order@.take(m as int), marks@.take(m as int), sec),
            decreases order.len() - m,
        {
            let idx = order[m];
            proof {
                assert(order@.take(m + 1).drop_last() =~= order@.take(m as int));
                assert(marks@.take(m + 1).drop_last() =~= marks@.take(m as int));
                assert(order@.take(m + 1).last() == idx);
                assert(marks@.take(m + 1).last() == marks@[m as int]);
                assert(candidate_ok(recs@, order@[m as int]));
                assert(marks@[m as int] matches Some(o) ==> o < recs@.len());
            }
            let this_sec = deep_section(recs[idx].id.as_str());
            if this_sec == Some(sec) {
                let ghost before = list@;
                let f = make_finding(recs, idx, marks[m]);
                list.push(f);
                proof {
                    assert(findings_view(list@) =~= findings_view(before).push(f@));
                }
            }
            m += 1;
        }
        proof {
            assert(order@.take(order@.len() as int) =~= order@);
            assert(marks@.take(marks@.len() as int) =~= marks@);
        }
        if list.len() > 0 {
            let ghost unsorted = list@;
            let ghost after = |a: DeepFinding, b: DeepFinding| deep_after(a@, b@);
            let ghost after_v = |a: FindingView, b: FindingView| deep_after(a, b);
            let sorted = sort_stable(list, deep_after_exec, Ghost(after));
            proof {
                lemma_sort_map(unsorted, |f: DeepFinding| f@, after, after_v);
                assert(findings_view(unsorted) =~= unsorted.map_values(|f: DeepFinding| f@));
                assert(findings_view(sorted@) =~= sorted@.map_values(|f: DeepFinding| f@));
                lemma_stable_sort_len(unsorted, after);
            }
            let ghost fv = findings_view(sorted@);
            let mut measured: i64 = 0;
            let mut q: usize = 0;
            while q < sorted.len()
                invariant
                    q <= sorted@.len(),
                    fv == findings_view(sorted@),
                    measured == counted_total(fv.take(q as int)),
                decreases sorted.len() - q,
            {
                proof {
                    assert(fv.take(q + 1).drop_last() =~= fv.take(q as int));
                    assert(fv.take(q + 1).last() == sorted@[q as int]@);
                }
                if sorted[q].counted {
                    measured = crate::reclaim_plan::saturating_add_i64(measured, sorted[q].bytes);
                }
                q += 1;
            }
            proof {
                assert(fv.take(sorted@.len() as int) =~= fv);
            }
            proof {
                assert(listed_findings(recs@, sec) == fv);
                assert(listed_findings(recs@, sec).len() > 0);
                let pres = present_sections(recs@, section_order().take(s as int));
                assert(present_sections(recs@, section_order().take(s + 1)) == pres.push(sec));
                assert(pres.push(sec).drop_last() =~= pres);
                assert(sections_total(recs@, pres.push(sec)) == crate::reclaim_plan::sat_add(
                    sections_total(recs@, pres),
                    counted_total(listed_findings(recs@, sec)),
                ));
            }
            total = crate::reclaim_plan::saturating_add_i64(total, measured);
            sections.push(DeveloperSectionReport { section: sec, measured_bytes: measured, findings: sorted });
        } else {
            proof {
                let sf = section_findings(recs@, order@, marks@, sec);
                lemma_stable_sort_len(sf, |a: FindingView, b: FindingView| deep_after(a, b));
                assert(listed_findings(recs@, sec).len() == 0);
                assert(present_sections(recs@, section_order().take(s + 1)) == present_sections(
                    recs@,
                    section_order().take(s as int),
                ));
            }
        }
        s += 1;
    }
    proof {
        assert(section_order().take(6) =~= section_order());
    }
    // Docker details are shown but never counted
    let mut details: Vec<DockerDetail> = Vec::new();
    let mut d: usize = 0;
    while d < docker.details.len()
        invariant
            d <= docker.details@.len(),
            details@.len() == d,
            forall|m: int| 0 <= m < d ==> docker_detail_ok(#[trigger] docker.details@[m], details@[m]),
        decreases docker.details.len() - d,
    {
        let old_detail = &docker.details[d];
        let explanation = if str_contains(old_detail.explanation.as_str(), "not added") {
            old_detail.explanation.clone()
        } else {
            owned("Inside Docker; not added to the measured filesystem footprint.")
        };
        details.push(DockerDetail {
            title: old_detail.title.clone(),
            bytes: old_detail.bytes,
            reclaimable_bytes: old_detail.reclaimable_bytes,
            rebuild_cost: old_detail.rebuild_cost,
            counted: false,
            explanation,
        });
        d += 1;
    }
    DeveloperReport {
        measured_bytes: total,
        sections,
        docker: DockerBreakdown { details, unavailable: docker.unavailable },
    }
}

} // verus!
