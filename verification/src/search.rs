//! Read-only search, largest files and denied locations over a scan tree.

use vstd::prelude::*;
use crate::bytes::{bytes_lt, bytes_less};
use crate::paths::{components, components_of, comps_view, comps_prefix, components_start_with, Comp, Component};
use crate::scan::{ScanTree, Node, walk, lemma_walk_in_range};
use crate::sorting::{stable_sort, sort_stable_with, lemma_stable_sort_len, lemma_sort_map};
use crate::text::{
    chars_contain, chars_prefix, words, split_words, str_contains, str_eq, str_starts_with,
    trim, trim_spec, lossy_text, lossy_string, lowercase_text, to_lowercase,
};

verus! {

pub const DEFAULT_RESULT_LIMIT: usize = 80;

pub const DEFAULT_LARGEST_FILE_LIMIT: usize = 80;

pub const DEFAULT_COVERAGE_LIMIT: usize = 60;

/// How a node matched a query, best first.
#[derive(Clone, Copy, Debug, PartialEq, Eq, Structural)]
pub enum MatchRank {
    ExactName,
    NamePrefix,
    NameContains,
    PathOnly,
}

pub open spec fn rank_order(r: MatchRank) -> int {
    match r {
        MatchRank::ExactName => 0,
        MatchRank::NamePrefix => 1,
        MatchRank::NameContains => 2,
        MatchRank::PathOnly => 3,
    }
}

/// Whether every term occurs in `path`.
pub open spec fn all_terms_in(path: Seq<char>, terms: Seq<Seq<char>>) -> bool {
    forall|j: int| 0 <= j < terms.len() ==> chars_contain(path, #[trigger] terms[j])
}

/// How `name` and `path` (both lowercase) match `query` (lowercase): every
/// whitespace-separated term of the query must occur in the path; the rank
/// then says how the whole query relates to the name.
pub open spec fn rank_spec(name: Seq<char>, path: Seq<char>, query: Seq<char>) -> Option<MatchRank> {
    let terms = words(query);
    if terms.len() == 0 || !all_terms_in(path, terms) {
        None
    } else if name == query {
        Some(MatchRank::ExactName)
    } else if chars_prefix(query, name) {
        Some(MatchRank::NamePrefix)
    } else if chars_contain(name, query) {
        Some(MatchRank::NameContains)
    } else {
        Some(MatchRank::PathOnly)
    }
}

pub fn match_rank(name: &str, path: &str, query: &str) -> (r: Option<MatchRank>)
    ensures
        r == rank_spec(name@, path@, query@),
{
    let terms = split_words(query);
    if terms.len() == 0 {
        return None;
    }
    let mut j: usize = 0;
    while j < terms.len()
        invariant
            j <= terms@.len(),
            terms@.len() == words(query@).len(),
            forall|k: int| 0 <= k < terms@.len() ==> #[trigger] terms@[k]@ == words(query@)[k],
            forall|k: int| 0 <= k < j ==> chars_contain(path@, #[trigger] words(query@)[k]),
        decreases terms.len() - j,
    {
        if !str_contains(path, terms[j].as_str()) {
            assert(!chars_contain(path@, words(query@)[j as int]));
            return None;
        }
        j += 1;
    }
    if str_eq(name, query) {
        Some(MatchRank::ExactName)
    } else if str_starts_with(name, query) {
        Some(MatchRank::NamePrefix)
    } else if str_contains(name, query) {
        Some(MatchRank::NameContains)
    } else {
        Some(MatchRank::PathOnly)
    }
}

/// A matched node and how it matched.
#[derive(Clone, Copy, Debug, PartialEq, Eq, Structural)]
pub struct Hit {
    pub node: usize,
    pub rank: MatchRank,
}

pub struct SearchResult {
    pub node: usize,
    pub display_path: String,
    pub rank: MatchRank,
}

pub struct SearchSummary {
    pub total_matches: usize,
    pub results: Vec<SearchResult>,
}

impl Default for SearchSummary {
    fn default() -> (s: SearchSummary)
        ensures
            s.total_matches == 0,
            s.results@.len() == 0,
    {
        SearchSummary { total_matches: 0, results: Vec::new() }
    }
}

/// The query as it is compared: trimmed, then lowercased.
pub open spec fn query_key(query: Seq<char>) -> Seq<char> {
    lowercase_text(trim_spec(query))
}

/// How node `j` matches the query key `q`.
pub open spec fn node_rank(nodes: Seq<Node>, j: usize, q: Seq<char>) -> Option<MatchRank> {
    rank_spec(
        lowercase_text(nodes[j as int].name@),
        lowercase_text(lossy_text(nodes[j as int].path@)),
        q,
    )
}

/// The nodes of `order` that match `q`, in order.
pub open spec fn hits_of(nodes: Seq<Node>, order: Seq<usize>, q: Seq<char>) -> Seq<Hit>
    decreases order.len(),
{
    if order.len() == 0 {
        Seq::empty()
    } else {
        let rest = hits_of(nodes, order.drop_last(), q);
        match node_rank(nodes, order.last(), q) {
            Some(r) => rest.push(Hit { node: order.last(), rank: r }),
            None => rest,
        }
    }
}

/// `a` is listed after `b`: a worse rank, or the same rank and fewer bytes,
/// or the same rank and bytes and a later path.
pub open spec fn hit_after(nodes: Seq<Node>, a: Hit, b: Hit) -> bool {
    let na = nodes[a.node as int];
    let nb = nodes[b.node as int];
    rank_order(a.rank) > rank_order(b.rank) || (rank_order(a.rank) == rank_order(b.rank) && (
    na.bytes < nb.bytes || (na.bytes == nb.bytes && bytes_lt(nb.path@, na.path@))))
}

pub open spec fn result_cap(limit: usize, default_limit: usize) -> int {
    if limit < default_limit {
        limit as int
    } else {
        default_limit as int
    }
}

/// The hits of a search, best first.
pub open spec fn search_hits(nodes: Seq<Node>, root: int, query: Seq<char>) -> Seq<Hit> {
    stable_sort(
        hits_of(nodes, walk(nodes, root, 0), query_key(query)),
        |a: Hit, b: Hit| hit_after(nodes, a, b),
    )
}

/// Whether the search runs at all: the key has two characters or more.
pub open spec fn search_runs(query: Seq<char>) -> bool {
    query_key(query).len() >= 2
}

fn hit_after_exec(tree: &ScanTree, a: &Hit, b: &Hit) -> (r: bool)
    requires
        a.node < tree@.len(),
        b.node < tree@.len(),
    ensures
        r == hit_after(tree@, *a, *b),
{
    let ra = rank_index(a.rank);
    let rb = rank_index(b.rank);
    let na = tree.node(a.node);
    let nb = tree.node(b.node);
    ra > rb || (ra == rb && (na.bytes < nb.bytes || (na.bytes == nb.bytes && bytes_less(
        nb.path.as_slice(),
        na.path.as_slice(),
    ))))
}

fn rank_index(r: MatchRank) -> (i: u8)
    ensures
        i == rank_order(r),
{
    match r {
        MatchRank::ExactName => 0,
        MatchRank::NamePrefix => 1,
        MatchRank::NameContains => 2,
        MatchRank::PathOnly => 3,
    }
}

/// Searches the nodes below `root` for `query`. Every whitespace-separated
/// term must occur in a node's lowercase path; matches are ranked (exact
/// name, name prefix, name substring, path only), then larger first, then by
/// raw path. At most `min(limit, 80)` rows are kept; `total_matches` counts
/// them all. A key under two characters finds nothing.
pub fn search_tree(tree: &ScanTree, root: usize, query: &str, limit: usize) -> (s: SearchSummary)
    requires
        tree.wf(),
        root < tree@.len(),
    ensures
        !search_runs(query@) ==> s.total_matches == 0 && s.results@.len() == 0,
        search_runs(query@) ==> {
            let hits = search_hits(tree@, root as int, query@);
            &&& s.total_matches == hits.len()
            &&& s.results@.len() == vstd::math::min(
                hits.len() as int,
                result_cap(limit, DEFAULT_RESULT_LIMIT),
            )
            &&& forall|k: int|
                0 <= k < s.results@.len() ==> {
                    &&& (#[trigger] s.results@[k]).node == hits[k].node
                    &&& s.results@[k].rank == hits[k].rank
                    &&& s.results@[k].display_path@ == lossy_text(
                        tree@[hits[k].node as int].path@,
                    )
                }
            &&& forall|k: int, m: int|
                0 <= k < m < s.results@.len() ==> {
                    &&& rank_order((#[trigger] s.results@[k]).rank) <= rank_order((#[trigger] s.results@[m]).rank)
                    &&& s.results@[k].rank == s.results@[m].rank ==> tree@[s.results@[k].node as int].bytes
                        >= tree@[s.results@[m].node as int].bytes
                }
        },
{
    let trimmed = trim(query);
    let key = to_lowercase(trimmed);
    if key.as_str().unicode_len() < 2 {
        return SearchSummary::default();
    }
    let mut order: Vec<usize> = Vec::new();
    tree.walk_into(root, &mut order);
    proof {
        tree.lemma_wf();
        lemma_walk_in_range(tree@, root as int, 0);
        assert(order@ =~= walk(tree@, root as int, 0));
    }
    let ghost q = key@;
    let mut hits: Vec<Hit> = Vec::new();
    let mut i: usize = 0;
    while i < order.len()
        invariant
            tree.wf(),
            q == key@,
            i <= order@.len(),
            forall|j: int| 0 <= j < order@.len() ==> #[trigger] order@[j] < tree@.len(),
            hits@ == hits_of(tree@, order@.take(i as int), q),
            forall|j: int| 0 <= j < hits@.len() ==> #[trigger] hits@[j].node < tree@.len(),
        decreases order.len() - i,
    {
        let j = order[i];
        let node = tree.node(j);
        let lower_name = to_lowercase(node.name.as_str());
        let display = lossy_string(node.path.as_slice());
        let lower_path = to_lowercase(display.as_str());
        let r = match_rank(lower_name.as_str(), lower_path.as_str(), key.as_str());
        proof {
            assert(order@.take(i + 1).drop_last() =~= order@.take(i as int));
            assert(order@.take(i + 1).last() == j);
        }
        match r {
            Some(rank) => {
                hits.push(Hit { node: j, rank });
            },
            None => {},
        }
        i += 1;
    }
    proof {
        assert(order@.take(order@.len() as int) =~= order@);
    }
    let ghost unsorted = hits@;
    let ghost after = |a: Hit, b: Hit| hit_after(tree@, a, b);
    let ghost ok = |h: Hit| h.node < tree@.len();
    let sorted = sort_stable_with(hits, tree, hit_after_exec, Ghost(after), Ghost(ok));
    proof {
        lemma_stable_sort_len(unsorted, after);
        assert(sorted@ == search_hits(tree@, root as int, query@));
    }
    let total = sorted.len();
    let cap = if limit < DEFAULT_RESULT_LIMIT {
        limit
    } else {
        DEFAULT_RESULT_LIMIT
    };
    let keep = if total < cap {
        total
    } else {
        cap
    };
    let mut results: Vec<SearchResult> = Vec::new();
    let mut k: usize = 0;
    while k < keep
        invariant
            tree.wf(),
            keep <= sorted@.len(),
            k <= keep,
            results@.len() == k,
            forall|m: int| 0 <= m < sorted@.len() ==> #[trigger] sorted@[m].node < tree@.len(),
            forall|m: int|
                0 <= m < k ==> {
                    &&& (#[trigger] results@[m]).node == sorted@[m].node
                    &&& results@[m].rank == sorted@[m].rank
                    &&& results@[m].display_path@ == lossy_text(tree@[sorted@[m].node as int].path@)
                },
        decreases keep - k,
    {
        let h = sorted[k];
        let display_path = lossy_string(tree.node(h.node).path.as_slice());
        results.push(SearchResult { node: h.node, display_path, rank: h.rank });
        k += 1;
    }
    proof {
        lemma_search_ranked(tree@, root as int, query@);
        assert forall|k: int, m: int| 0 <= k < m < results@.len() implies {
            &&& rank_order((#[trigger] results@[k]).rank) <= rank_order((#[trigger] results@[m]).rank)
            &&& results@[k].rank == results@[m].rank ==> tree@[results@[k].node as int].bytes
                >= tree@[results@[m].node as int].bytes
        } by {
            assert(results@[k].node == sorted@[k].node && results@[k].rank == sorted@[k].rank);
            assert(results@[m].node == sorted@[m].node && results@[m].rank == sorted@[m].rank);
        }
    }
    SearchSummary { total_matches: total, results }
}


/// Search results come best match first; within one match rank, the node
/// that holds more bytes first; and between nodes of one rank and size, the
/// one whose raw path comes first in byte order.
pub proof fn lemma_search_ranked(nodes: Seq<Node>, root: int, query: Seq<char>)
    ensures
        forall|i: int, j: int|
            0 <= i < j < search_hits(nodes, root, query).len() ==> {
                let a = #[trigger] search_hits(nodes, root, query)[i];
                let b = #[trigger] search_hits(nodes, root, query)[j];
                &&& rank_order(a.rank) <= rank_order(b.rank)
                &&& a.rank == b.rank ==> nodes[a.node as int].bytes >= nodes[b.node as int].bytes
                &&& a.rank == b.rank && nodes[a.node as int].bytes == nodes[b.node as int].bytes ==> !bytes_lt(
                    nodes[b.node as int].path@,
                    nodes[a.node as int].path@,
                )
            },
{
    let after = |a: Hit, b: Hit| hit_after(nodes, a, b);
    let key = |h: Hit| rank_order(h.rank) * 0x2_0000_0000_0000_0000int + (i64::MAX - nodes[h.node as int].bytes);
    assert forall|a: Hit, b: Hit| key(a) > key(b) implies #[trigger] after(a, b) by {
        if rank_order(a.rank) < rank_order(b.rank) {
            assert(key(a) < key(b));
        }
    }
    assert forall|a: Hit, b: Hit| #[trigger] after(a, b) implies key(a) >= key(b) by {}
    assert forall|a: Hit, b: Hit, c: Hit| #[trigger] after(a, b) && #[trigger] after(b, c) implies after(a, c) by {
        let (pa, pb, pc) = (nodes[a.node as int].path@, nodes[b.node as int].path@, nodes[c.node as int].path@);
        if bytes_lt(pb, pa) && bytes_lt(pc, pb) {
            crate::bytes::lemma_bytes_lt_transitive(pc, pb, pa);
        }
    }
    assert forall|a: Hit| !#[trigger] after(a, a) by {
        crate::bytes::lemma_bytes_lt_irreflexive(nodes[a.node as int].path@);
    }
    let hits = hits_of(nodes, walk(nodes, root, 0), query_key(query));
    crate::sorting::lemma_stable_sort_by_key(hits, after, key);
    crate::sorting::lemma_stable_sort_in_order(hits, after);
    let r = search_hits(nodes, root, query);
    assert forall|i: int, j: int| 0 <= i < j < r.len() implies {
        let a = #[trigger] r[i];
        let b = #[trigger] r[j];
        &&& rank_order(a.rank) <= rank_order(b.rank)
        &&& a.rank == b.rank ==> nodes[a.node as int].bytes >= nodes[b.node as int].bytes
        &&& a.rank == b.rank && nodes[a.node as int].bytes == nodes[b.node as int].bytes ==> !bytes_lt(
            nodes[b.node as int].path@,
            nodes[a.node as int].path@,
        )
    } by {
        assert(!after(r[i], r[j]));
        assert(key(r[i]) <= key(r[j]));
        if rank_order(r[i].rank) > rank_order(r[j].rank) {
            assert(key(r[i]) > key(r[j]));
        }
    }
}

// ───────────────────────── largest files ─────────────────────────

pub struct LargestFile {
    pub node: usize,
    pub display_path: String,
}

pub struct LargestFilesSummary {
    pub total_files: usize,
    pub results: Vec<LargestFile>,
}

/// The files (non-directories) of `order`, in order.
pub open spec fn files_of(nodes: Seq<Node>, order: Seq<usize>) -> Seq<usize>
    decreases order.len(),
{
    if order.len() == 0 {
        Seq::empty()
    } else {
        let rest = files_of(nodes, order.drop_last());
        if nodes[order.last() as int].is_dir {
            rest
        } else {
            rest.push(order.last())
        }
    }
}

/// `a` is listed after `b`: fewer bytes, or equal bytes and a later path.
pub open spec fn file_after(nodes: Seq<Node>, a: usize, b: usize) -> bool {
    nodes[a as int].bytes < nodes[b as int].bytes || (nodes[a as int].bytes == nodes[b as int].bytes
        && bytes_lt(nodes[b as int].path@, nodes[a as int].path@))
}

pub open spec fn largest_order(nodes: Seq<Node>, root: int) -> Seq<usize> {
    stable_sort(files_of(nodes, walk(nodes, root, 0)), |a: usize, b: usize| file_after(nodes, a, b))
}

fn file_after_exec(tree: &ScanTree, a: &usize, b: &usize) -> (r: bool)
    requires
        *a < tree@.len(),
        *b < tree@.len(),
    ensures
        r == file_after(tree@, *a, *b),
{
    let na = tree.node(*a);
    let nb = tree.node(*b);
    na.bytes < nb.bytes || (na.bytes == nb.bytes && bytes_less(nb.path.as_slice(), na.path.as_slice()))
}

/// The files below `root`, largest first and then by raw path; at most
/// `min(limit, 80)` rows, with the count of all of them.
pub fn largest_files(tree: &ScanTree, root: usize, limit: usize) -> (s: LargestFilesSummary)
    requires
        tree.wf(),
        root < tree@.len(),
    ensures
        s.total_files == largest_order(tree@, root as int).len(),
        s.results@.len() == vstd::math::min(
            largest_order(tree@, root as int).len() as int,
            result_cap(limit, DEFAULT_LARGEST_FILE_LIMIT),
        ),
        forall|k: int|
            0 <= k < s.results@.len() ==> {
                &&& (#[trigger] s.results@[k]).node == largest_order(tree@, root as int)[k]
                &&& s.results@[k].display_path@ == lossy_text(
                    tree@[largest_order(tree@, root as int)[k] as int].path@,
                )
            },
{
    let mut order: Vec<usize> = Vec::new();
    tree.walk_into(root, &mut order);
    proof {
        tree.lemma_wf();
        lemma_walk_in_range(tree@, root as int, 0);
        assert(order@ =~= walk(tree@, root as int, 0));
    }
    let mut files: Vec<usize> = Vec::new();
    let mut i: usize = 0;
    while i < order.len()
        invariant
            tree.wf(),
            i <= order@.len(),
            forall|j: int| 0 <= j < order@.len() ==> #[trigger] order@[j] < tree@.len(),
            files@ == files_of(tree@, order@.take(i as int)),
            forall|j: int| 0 <= j < files@.len() ==> #[trigger] files@[j] < tree@.len(),
        decreases order.len() - i,
    {
        let j = order[i];
        proof {
            assert(order@.take(i + 1).drop_last() =~= order@.take(i as int));
            assert(order@.take(i + 1).last() == j);
        }
        if !tree.node(j).is_dir {
            files.push(j);
        }
        i += 1;
    }
    proof {
        assert(order@.take(order@.len() as int) =~= order@);
    }
    let ghost unsorted = files@;
    let ghost after = |a: usize, b: usize| file_after(tree@, a, b);
    let ghost ok = |a: usize| a < tree@.len();
    let sorted = sort_stable_with(files, tree, file_after_exec, Ghost(after), Ghost(ok));
    proof {
        lemma_stable_sort_len(unsorted, after);
        assert(sorted@ == largest_order(tree@, root as int));
    }
    let total = sorted.len();
    let cap = if limit < DEFAULT_LARGEST_FILE_LIMIT {
        limit
    } else {
        DEFAULT_LARGEST_FILE_LIMIT
    };
    let keep = if total < cap {
        total
    } else {
        cap
    };
    let mut results: Vec<LargestFile> = Vec::new();
    let mut k: usize = 0;
    while k < keep
        invariant
            tree.wf(),
            keep <= sorted@.len(),
            k <= keep,
            results@.len() == k,
            forall|m: int| 0 <= m < sorted@.len() ==> #[trigger] sorted@[m] < tree@.len(),
            forall|m: int|
                0 <= m < k ==> {
                    &&& (#[trigger] results@[m]).node == sorted@[m]
                    &&& results@[m].display_path@ == lossy_text(tree@[sorted@[m] as int].path@)
                },
        decreases keep - k,
    {
        let j = sorted[k];
        let display_path = lossy_string(tree.node(j).path.as_slice());
        results.push(LargestFile { node: j, display_path });
        k += 1;
    }
    LargestFilesSummary { total_files: total, results }
}

// ───────────────────────── scan coverage ─────────────────────────

#[derive(Clone, Copy, Debug, PartialEq, Eq, Structural)]
pub enum CoverageKind {
    Personal,
    System,
}

pub struct DeniedLocation {
    pub path: Vec<u8>,
    pub display_path: String,
    pub kind: CoverageKind,
}

pub struct ScanCoverageSummary {
    pub total_denied: usize,
    pub personal_denied: usize,
    pub system_denied: usize,
    pub results: Vec<DeniedLocation>,
}

pub open spec fn users_bytes() -> Seq<u8> {
    seq![85u8, 115u8, 101u8, 114u8, 115u8]
}

pub open spec fn shared_bytes() -> Seq<u8> {
    seq![83u8, 104u8, 97u8, 114u8, 101u8, 100u8]
}

/// Personal when, below `root`, the path is `Users/<account>/...` with an
/// account other than `Shared`; System otherwise.
pub open spec fn coverage_kind_spec(root: Seq<u8>, path: Seq<u8>) -> CoverageKind {
    let rc = components(root);
    let pc = components(path);
    if !comps_prefix(rc, pc) {
        CoverageKind::System
    } else {
        let rel = pc.skip(rc.len() as int);
        if rel.len() >= 2 && rel[0] == Comp::Normal(users_bytes()) && rel[1] != Comp::Normal(
            shared_bytes(),
        ) {
            CoverageKind::Personal
        } else {
            CoverageKind::System
        }
    }
}

fn is_normal_named(c: &Component, name: &[u8]) -> (r: bool)
    ensures
        r == (c@ == Comp::Normal(name@)),
{
    match c {
        Component::Normal(b) => crate::bytes::bytes_eq(b.as_slice(), name),
        _ => false,
    }
}

pub fn coverage_kind(root: &[u8], path: &[u8]) -> (k: CoverageKind)
    ensures
        k == coverage_kind_spec(root@, path@),
{
    let rc = components_of(root);
    let pc = components_of(path);
    if !components_start_with(&pc, &rc) {
        return CoverageKind::System;
    }
    let s = rc.len();
    let users: [u8; 5] = [85, 115, 101, 114, 115];
    let shared: [u8; 6] = [83, 104, 97, 114, 101, 100];
    proof {
        assert(users@ =~= users_bytes());
        assert(shared@ =~= shared_bytes());
    }
    let ghost rel = comps_view(pc@).skip(s as int);
    if pc.len() - s >= 2 {
        proof {
            assert(rel[0] == pc@[s as int]@);
            assert(rel[1] == pc@[s + 1]@);
        }
        if is_normal_named(&pc[s], users.as_slice()) && !is_normal_named(&pc[s + 1], shared.as_slice()) {
            return CoverageKind::Personal;
        }
    }
    CoverageKind::System
}

fn kind_index(k: CoverageKind) -> (i: u8)
    ensures
        i == kind_order(k),
{
    match k {
        CoverageKind::Personal => 0,
        CoverageKind::System => 1,
    }
}

pub open spec fn kind_order(k: CoverageKind) -> int {
    match k {
        CoverageKind::Personal => 0,
        CoverageKind::System => 1,
    }
}

/// The denied directories of a walk that starts at `root` itself.
pub open spec fn denied_of(nodes: Seq<Node>, order: Seq<usize>) -> Seq<usize>
    decreases order.len(),
{
    if order.len() == 0 {
        Seq::empty()
    } else {
        let rest = denied_of(nodes, order.drop_last());
        let j = order.last();
        if nodes[j as int].is_dir && nodes[j as int].denied {
            rest.push(j)
        } else {
            rest
        }
    }
}

/// The directories the scan could not read: `root` itself when it is one,
/// and every directory below it.
pub open spec fn coverage_candidates(nodes: Seq<Node>, root: int) -> Seq<usize> {
    if nodes[root].is_dir {
        seq![root as usize] + walk(nodes, root, 0)
    } else {
        Seq::empty()
    }
}

pub open spec fn denied_after(nodes: Seq<Node>, root: int, a: usize, b: usize) -> bool {
    let ka = kind_order(coverage_kind_spec(nodes[root].path@, nodes[a as int].path@));
    let kb = kind_order(coverage_kind_spec(nodes[root].path@, nodes[b as int].path@));
    ka > kb || (ka == kb && bytes_lt(nodes[b as int].path@, nodes[a as int].path@))
}

pub open spec fn coverage_order(nodes: Seq<Node>, root: int) -> Seq<usize> {
    stable_sort(
        denied_of(nodes, coverage_candidates(nodes, root)),
        |a: usize, b: usize| denied_after(nodes, root, a, b),
    )
}

pub open spec fn count_personal(nodes: Seq<Node>, root: int, s: Seq<usize>) -> int
    decreases s.len(),
{
    if s.len() == 0 {
        0
    } else {
        count_personal(nodes, root, s.drop_last()) + if coverage_kind_spec(
            nodes[root].path@,
            nodes[s.last() as int].path@,
        ) == CoverageKind::Personal {
            1int
        } else {
            0int
        }
    }
}

/// Sort key of a denied directory: its kind and path, with the node.
struct Denied {
    node: usize,
    kind: CoverageKind,
}

fn denied_after_exec(ctx: &(&ScanTree, usize), a: &Denied, b: &Denied) -> (r: bool)
    requires
        a.node < ctx.0@.len(),
        b.node < ctx.0@.len(),
        ctx.1 < ctx.0@.len(),
        a.kind == coverage_kind_spec(ctx.0@[ctx.1 as int].path@, ctx.0@[a.node as int].path@),
        b.kind == coverage_kind_spec(ctx.0@[ctx.1 as int].path@, ctx.0@[b.node as int].path@),
    ensures
        r == denied_after(ctx.0@, ctx.1 as int, a.node, b.node),
{
    let ka = kind_index(a.kind);
    let kb = kind_index(b.kind);
    ka > kb || (ka == kb && bytes_less(
        ctx.0.node(b.node).path.as_slice(),
        ctx.0.node(a.node).path.as_slice(),
    ))
}

/// The directories below `root` (and `root`) that could not be read, personal
/// ones first, then by raw path; at most `min(limit, 60)` rows, with counts of
/// all of them.
pub fn scan_coverage(tree: &ScanTree, root: usize, limit: usize) -> (s: ScanCoverageSummary)
    requires
        tree.wf(),
        root < tree@.len(),
    ensures
        s.total_denied == coverage_order(tree@, root as int).len(),
        s.personal_denied == count_personal(tree@, root as int, coverage_order(tree@, root as int)),
        s.system_denied == s.total_denied - s.personal_denied,
        s.results@.len() == vstd::math::min(
            coverage_order(tree@, root as int).len() as int,
            result_cap(limit, DEFAULT_COVERAGE_LIMIT),
        ),
        forall|k: int|
            0 <= k < s.results@.len() ==> {
                let j = coverage_order(tree@, root as int)[k];
                &&& (#[trigger] s.results@[k]).path@ == tree@[j as int].path@
                &&& s.results@[k].display_path@ == lossy_text(tree@[j as int].path@)
                &&& s.results@[k].kind == coverage_kind_spec(
                    tree@[root as int].path@,
                    tree@[j as int].path@,
                )
            },
{
    let mut order: Vec<usize> = Vec::new();
    if tree.node(root).is_dir {
        order.push(root);
        tree.walk_into(root, &mut order);
    }
    proof {
        tree.lemma_wf();
        lemma_walk_in_range(tree@, root as int, 0);
        assert(order@ =~= coverage_candidates(tree@, root as int));
    }
    let root_path = tree.node(root).path.as_slice();
    let mut denied: Vec<Denied> = Vec::new();
    let ghost nodes_seq = Seq::<usize>::empty();
    let mut i: usize = 0;
    while i < order.len()
        invariant
            tree.wf(),
            root < tree@.len(),
            root_path@ == tree@[root as int].path@,
            i <= order@.len(),
            forall|j: int| 0 <= j < order@.len() ==> #[trigger] order@[j] < tree@.len(),
            denied@.len() == denied_of(tree@, order@.take(i as int)).len(),
            forall|j: int|
                0 <= j < denied@.len() ==> {
                    &&& (#[trigger] denied@[j]).node == denied_of(tree@, order@.take(i as int))[j]
                    &&& denied@[j].node < tree@.len()
                    &&& denied@[j].kind == coverage_kind_spec(
                        tree@[root as int].path@,
                        tree@[denied@[j].node as int].path@,
                    )
                },
        decreases order.len() - i,
    {
        let j = order[i];
        proof {
            assert(order@.take(i + 1).drop_last() =~= order@.take(i as int));
            assert(order@.take(i + 1).last() == j);
        }
        let node = tree.node(j);
        if node.is_dir && node.denied {
            let kind = coverage_kind(root_path, node.path.as_slice());
            denied.push(Denied { node: j, kind });
        }
        i += 1;
    }
    proof {
        assert(order@.take(order@.len() as int) =~= order@);
    }
    let ghost unsorted = denied@;
    let ghost after = |a: Denied, b: Denied| denied_after(tree@, root as int, a.node, b.node);
    let ghost ok = |a: Denied|
        a.node < tree@.len() && a.kind == coverage_kind_spec(
            tree@[root as int].path@,
            tree@[a.node as int].path@,
        );
    let ctx = (tree, root);
    let sorted = sort_stable_with(denied, &ctx, denied_after_exec, Ghost(after), Ghost(ok));
    proof {
        lemma_stable_sort_len(unsorted, after);
        let f = |d: Denied| d.node;
        let after_u = |a: usize, b: usize| denied_after(tree@, root as int, a, b);
        assert(unsorted.map_values(f) =~= denied_of(tree@, order@));
        lemma_sort_map(unsorted, f, after, after_u);
        assert(sorted@.map_values(|d: Denied| d.node) == coverage_order(tree@, root as int));
    }
    let total = sorted.len();
    let mut personal: usize = 0;
    let mut p: usize = 0;
    while p < total
        invariant
            total == sorted@.len(),
            p <= total,
            personal <= p,
            forall|m: int| 0 <= m < sorted@.len() ==> (#[trigger] sorted@[m]).node < tree@.len() && sorted@[m].kind == coverage_kind_spec(
                    tree@[root as int].path@,
                    tree@[sorted@[m].node as int].path@,
                ),
            root < tree@.len(),
            personal == count_personal(tree@, root as int, sorted@.map_values(|d: Denied| d.node).take(p as int)),
        decreases total - p,
    {
        proof {
            let ns = sorted@.map_values(|d: Denied| d.node);
            assert(ns.take(p + 1).drop_last() =~= ns.take(p as int));
            assert(ns.take(p + 1).last() == sorted@[p as int].node);
        }
        match sorted[p].kind {
            CoverageKind::Personal => {
                personal += 1;
            },
            CoverageKind::System => {},
        }
        p += 1;
    }
    proof {
        let ns = sorted@.map_values(|d: Denied| d.node);
        assert(ns.take(total as int) =~= ns);
    }
    let cap = if limit < DEFAULT_COVERAGE_LIMIT {
        limit
    } else {
        DEFAULT_COVERAGE_LIMIT
    };
    let keep = if total < cap {
        total
    } else {
        cap
    };
    let mut results: Vec<DeniedLocation> = Vec::new();
    let mut k: usize = 0;
    while k < keep
        invariant
            tree.wf(),
            keep <= sorted@.len(),
            k <= keep,
            results@.len() == k,
            root < tree@.len(),
            forall|m: int| 0 <= m < sorted@.len() ==> (#[trigger] sorted@[m]).node < tree@.len() && sorted@[m].kind == coverage_kind_spec(
                    tree@[root as int].path@,
                    tree@[sorted@[m].node as int].path@,
                ),
            forall|m: int|
                0 <= m < k ==> {
                    &&& (#[trigger] results@[m]).path@ == tree@[sorted@[m].node as int].path@
                    &&& results@[m].display_path@ == lossy_text(tree@[sorted@[m].node as int].path@)
                    &&& results@[m].kind == sorted@[m].kind
                },
        decreases keep - k,
    {
        let d = &sorted[k];
        let path = tree.node(d.node).path.clone();
        let display_path = lossy_string(path.as_slice());
        results.push(DeniedLocation { path, display_path, kind: d.kind });
        k += 1;
    }
    ScanCoverageSummary {
        total_denied: total,
        personal_denied: personal,
        system_denied: total - personal,
        results,
    }
}

// ───────────────────────── breadcrumbs ─────────────────────────

/// The nodes from just below `root` down to `cur`, following parent links at
/// most `fuel` times; `None` when the links leave the tree or never reach
/// `root`.
pub open spec fn crumbs_spec(nodes: Seq<Node>, root: usize, cur: usize, fuel: nat) -> Option<Seq<usize>>
    decreases fuel,
{
    if fuel == 0 {
        None
    } else if cur == root {
        Some(Seq::empty())
    } else {
        match nodes[cur as int].parent {
            Some(p) => if p < nodes.len() {
                match crumbs_spec(nodes, root, p, (fuel - 1) as nat) {
                    Some(s) => Some(s.push(cur)),
                    None => None,
                }
            } else {
                None
            },
            None => None,
        }
    }
}

pub open spec fn crumb_limit() -> nat {
    4096
}

/// The breadcrumb trail from `root` to `target`: the nodes below `root` on the
/// way down, `target` last; empty when `target` is `root`, `None` when the
/// parent links do not lead to `root` within 4096 steps.
pub fn crumbs_for(tree: &ScanTree, root: usize, target: usize) -> (r: Option<Vec<usize>>)
    requires
        tree.wf(),
        root < tree@.len(),
        target < tree@.len(),
    ensures
        match crumbs_spec(tree@, root, target, crumb_limit()) {
            Some(s) => r is Some && r->Some_0@ == s,
            None => r is None,
        },
{
    let mut current = target;
    let mut trail: Vec<usize> = Vec::new();
    let mut step: usize = 0;
    while step < 4096
        invariant
            tree.wf(),
            current < tree@.len(),
            step <= 4096,
            crumbs_spec(tree@, root, target, crumb_limit()) == match crumbs_spec(
                tree@,
                root,
                current,
                (4096 - step) as nat,
            ) {
                Some(s) => Some(s + trail@),
                None => None,
            },
        decreases 4096 - step,
    {
        if current == root {
            proof {
                assert(trail@ =~= Seq::<usize>::empty() + trail@);
            }
            return Some(trail);
        }
        let ghost before = trail@;
        trail.insert(0, current);
        match tree.node(current).parent {
            Some(p) => {
                if p < tree.len() {
                    proof {
                        let f = (4096 - step) as nat;
                        match crumbs_spec(tree@, root, p, (f - 1) as nat) {
                            Some(s) => {
                                assert(s.push(current) + before =~= s + trail@);
                            },
                            None => {},
                        }
                    }
                    current = p;
                } else {
                    return None;
                }
            },
            None => {
                return None;
            },
        }
        step += 1;
    }
    None
}

} // verus!
