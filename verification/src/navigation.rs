//! Navigation and selection rules of the workspace: where Back leads, what a
//! map item offers, when a click opens or Escape navigates, and when a guided
//! reclaim plan may be applied to the recommendation rows.

use vstd::prelude::*;
use crate::clean::CleanEvent;
use crate::reclaim_plan::ReclaimPlan;
use crate::rules::{Action, Rec, Tier};
use crate::scan::ScanState;
use crate::text::{push_char, str_eq};

verus! {

#[derive(Clone, Copy, Debug, PartialEq, Eq, Structural)]
pub enum RailView {
    Summary,
    GuidedReclaim,
    Reclaim,
    Insights,
    Moved,
    Growth,
    Developer,
    Apfs,
    Leftovers,
    Monitor,
    FileReview,
}

/// Back from a rail view: the overview views return to the summary, the
/// insight views to insights, and the summary has nowhere to go.
pub open spec fn rail_back_spec(view: RailView) -> Option<RailView> {
    match view {
        RailView::Summary => None,
        RailView::GuidedReclaim | RailView::Reclaim | RailView::Insights => Some(RailView::Summary),
        _ => Some(RailView::Insights),
    }
}

pub fn rail_back_target(view: RailView) -> (r: Option<RailView>)
    ensures
        r == rail_back_spec(view),
{
    match view {
        RailView::Summary => None,
        RailView::GuidedReclaim | RailView::Reclaim | RailView::Insights => Some(RailView::Summary),
        RailView::Moved | RailView::Growth | RailView::Developer | RailView::Apfs | RailView::Leftovers
        | RailView::Monitor | RailView::FileReview => Some(RailView::Insights),
    }
}

/// At most `max` trailing characters of `s`, led by an ellipsis when cut.
pub open spec fn tail_spec(s: Seq<char>, max: nat) -> Seq<char> {
    if s.len() <= max {
        s
    } else {
        seq!['\u{2026}'] + s.skip(s.len() - max)
    }
}

pub fn tail_str(s: &str, max: usize) -> (r: String)
    ensures
        r@ == tail_spec(s@, max as nat),
{
    let n = s.unicode_len();
    let mut out = String::new();
    if n <= max {
        let mut i: usize = 0;
        while i < n
            invariant
                n == s@.len(),
                i <= n,
                out@ == s@.take(i as int),
            decreases n - i,
        {
            push_char(&mut out, s.get_char(i));
            assert(s@.take(i + 1) =~= s@.take(i as int).push(s@[i as int]));
            i += 1;
        }
        assert(s@.take(n as int) =~= s@);
        return out;
    }
    push_char(&mut out, '\u{2026}');
    let start = n - max;
    let mut i: usize = start;
    while i < n
        invariant
            n == s@.len(),
            start <= i <= n,
            start == n - max,
            out@ == seq!['\u{2026}'] + s@.subrange(start as int, i as int),
        decreases n - i,
    {
        push_char(&mut out, s.get_char(i));
        assert(s@.subrange(start as int, i + 1) =~= s@.subrange(start as int, i as int).push(s@[i as int]));
        i += 1;
    }
    assert(s@.subrange(start as int, n as int) =~= s@.skip(start as int));
    out
}

/// Only a finished scan is recorded in the history; an aborted one is not.
pub fn should_record_history(state: ScanState) -> (r: bool)
    ensures
        r == (state == ScanState::Done),
{
    state == ScanState::Done
}

#[derive(Clone, Copy, Debug, PartialEq, Eq, Structural)]
pub struct MapItemActions {
    pub open: bool,
    pub reveal: bool,
    pub move_to_ssd: bool,
}

/// What a map item offers: only a real item (one with a node, not a combined
/// aggregate) can be revealed or moved; only a readable real folder opens.
pub fn map_item_actions(is_dir: bool, synthetic: bool, denied: bool, has_node: bool, offload_allowed: bool) -> (r:
    MapItemActions)
    ensures
        r.open == (has_node && !synthetic && is_dir && !denied),
        r.reveal == (has_node && !synthetic),
        r.move_to_ssd == (has_node && !synthetic && offload_allowed),
{
    let actual = has_node && !synthetic;
    MapItemActions { open: actual && is_dir && !denied, reveal: actual, move_to_ssd: actual && offload_allowed }
}

pub open spec fn map_hint_spec(is_dir: bool, synthetic: bool, denied: bool) -> Seq<char> {
    if synthetic {
        "Combined smaller items"@
    } else if denied {
        "Access unavailable \u{b7} Grant Full Disk Access to inspect"@
    } else if is_dir {
        "Click to open \u{b7} Right-click for actions"@
    } else {
        "Right-click for actions"@
    }
}

pub fn map_item_hint(is_dir: bool, synthetic: bool, denied: bool) -> (r: &'static str)
    ensures
        r@ == map_hint_spec(is_dir, synthetic, denied),
{
    if synthetic {
        "Combined smaller items"
    } else if denied {
        "Access unavailable \u{b7} Grant Full Disk Access to inspect"
    } else if is_dir {
        "Click to open \u{b7} Right-click for actions"
    } else {
        "Right-click for actions"
    }
}

/// Back from a folder `depth` levels into the map goes one level up; at the
/// top there is nowhere to go.
pub fn back_target(depth: usize) -> (r: Option<usize>)
    ensures
        depth == 0 ==> r is None,
        depth > 0 ==> r == Some((depth - 1) as usize),
{
    depth.checked_sub(1)
}

/// A primary click opens an item only when it can open and Control is not
/// held (Control-click opens the menu instead).
pub fn should_open_from_primary(actions: MapItemActions, primary_clicked: bool, control_down: bool) -> (r: bool)
    ensures
        r == (actions.open && primary_clicked && !control_down),
{
    actions.open && primary_clicked && !control_down
}

/// Escape navigates back only when no menu was or is open: it closes the
/// menu first.
pub fn should_navigate_back_on_escape(escape_pressed: bool, menu_was_open: bool, menu_is_open: bool) -> (r: bool)
    ensures
        r == (escape_pressed && !menu_was_open && !menu_is_open),
{
    escape_pressed && !menu_was_open && !menu_is_open
}

/// A guided plan applies only once acknowledged, to the recommendations it
/// was drafted from, outside a scan, and when it names at least one item.
pub fn can_apply_guided_plan(
    acknowledged: bool,
    draft_revision: Option<u64>,
    recs_revision: u64,
    scanning: bool,
    plan: &ReclaimPlan,
) -> (r: bool)
    ensures
        r == (acknowledged && draft_revision == Some(recs_revision) && !scanning && plan.items@.len() > 0),
{
    acknowledged && draft_revision == Some(recs_revision) && !scanning && !plan.items.is_empty()
}

pub enum RecStatus {
    Idle,
    Running,
    Cleared(i64),
    InTrash(i64),
    Failed(String),
}

pub struct RecRow {
    pub rec: Rec,
    pub checked: bool,
    pub action: Action,
    pub expanded: bool,
    pub status: RecStatus,
}

/// Whether the plan names the recommendation `id`.
pub open spec fn plan_names(plan: ReclaimPlan, id: Seq<char>) -> bool {
    exists|j: int| 0 <= j < plan.items@.len() && (#[trigger] plan.items@[j]).id@ == id
}

fn plan_has(plan: &ReclaimPlan, id: &str) -> (r: bool)
    ensures
        r == plan_names(*plan, id@),
{
    let mut j: usize = 0;
    while j < plan.items.len()
        invariant
            j <= plan.items@.len(),
            forall|k: int| 0 <= k < j ==> (#[trigger] plan.items@[k]).id@ != id@,
        decreases plan.items.len() - j,
    {
        if str_eq(plan.items[j].id.as_str(), id) {
            return true;
        }
        j += 1;
    }
    false
}

/// Checks exactly the rows that the plan names and that are safe, and
/// unchecks every other row; nothing else about a row changes.
pub fn apply_guided_plan(rows: &mut Vec<RecRow>, plan: &ReclaimPlan)
    ensures
        final(rows)@.len() == old(rows)@.len(),
        forall|i: int|
            0 <= i < old(rows)@.len() ==> {
                let before = #[trigger] old(rows)@[i];
                let after = final(rows)@[i];
                &&& after.checked == (plan_names(*plan, before.rec.id@) && before.rec.tier == Tier::Safe)
                &&& after.rec == before.rec
                &&& after.action == before.action
                &&& after.expanded == before.expanded
                &&& after.status == before.status
            },
{
    let mut i: usize = 0;
    while i < rows.len()
        invariant
            i <= rows@.len(),
            rows@.len() == old(rows)@.len(),
            forall|k: int|
                0 <= k < rows@.len() ==> {
                    let before = #[trigger] old(rows)@[k];
                    let now = rows@[k];
                    &&& k < i ==> now.checked == (plan_names(*plan, before.rec.id@) && before.rec.tier
                        == Tier::Safe)
                    &&& k >= i ==> now.checked == before.checked
                    &&& now.rec == before.rec
                    &&& now.action == before.action
                    &&& now.expanded == before.expanded
                    &&& now.status == before.status
                },
        decreases rows.len() - i,
    {
        let named = plan_has(plan, rows[i].rec.id.as_str());
        let safe = rows[i].rec.tier == Tier::Safe;
        rows[i].checked = named && safe;
        i += 1;
    }
}

/// The rows a finished scan shows for its recommendations: safe ones
/// checked, each with its own action, collapsed and idle.
pub open spec fn row_of(rec: Rec) -> RecRow {
    RecRow { checked: rec.tier == Tier::Safe, action: rec.action, expanded: false, status: RecStatus::Idle, rec }
}

pub fn rec_rows(recs: Vec<Rec>) -> (r: Vec<RecRow>)
    ensures
        r@ == recs@.map_values(|rec: Rec| row_of(rec)),
{
    let ghost orig = recs@;
    let n = recs.len();
    let mut rest = recs;
    let mut rows: Vec<RecRow> = Vec::new();
    let mut i: usize = 0;
    assert(orig.skip(0) =~= orig);
    while i < n
        invariant
            n == orig.len(),
            i <= n,
            rest@ == orig.skip(i as int),
            rows@ == orig.take(i as int).map_values(|rec: Rec| row_of(rec)),
        decreases n - i,
    {
        let rec = rest.remove(0);
        assert(rec == orig[i as int]);
        assert(rest@ =~= orig.skip(i + 1));
        let checked = match rec.tier {
            Tier::Safe => true,
            _ => false,
        };
        let action = rec.action;
        rows.push(RecRow { rec, checked, action, expanded: false, status: RecStatus::Idle });
        assert(rows@ =~= orig.take(i + 1).map_values(|rec: Rec| row_of(rec)));
        i += 1;
    }
    assert(orig.take(n as int) =~= orig);
    rows
}

/// The space goal a guided plan starts from: 20 GB, or all the space in use
/// when less is used.
pub fn default_goal_bytes(used: i64) -> (g: i64)
    ensures
        g == (if used > 0 && used < 20 * crate::reclaim_plan::GB { used as int } else { 20 * crate::reclaim_plan::GB }),
{
    let goal = 20 * crate::reclaim_plan::GB;
    if used > 0 && used < goal {
        used
    } else {
        goal
    }
}

/// The first row, at or after `i`, of the recommendation `id`; -1 when none.
pub open spec fn first_row(rows: Seq<RecRow>, id: Seq<char>, i: int) -> int
    decreases rows.len() - i,
{
    if i < 0 || i >= rows.len() {
        -1
    } else if rows[i].rec.id@ == id {
        i
    } else {
        first_row(rows, id, i + 1)
    }
}

fn find_row(rows: &Vec<RecRow>, id: &str) -> (r: Option<usize>)
    ensures
        first_row(rows@, id@, 0) < 0 ==> r is None,
        first_row(rows@, id@, 0) >= 0 ==> r == Some(first_row(rows@, id@, 0) as usize),
        r matches Some(k) ==> k < rows@.len() && k == first_row(rows@, id@, 0),
{
    let mut i: usize = 0;
    while i < rows.len()
        invariant
            i <= rows@.len(),
            first_row(rows@, id@, 0) == first_row(rows@, id@, i as int),
        decreases rows.len() - i,
    {
        if str_eq(rows[i].rec.id.as_str(), id) {
            return Some(i);
        }
        i += 1;
    }
    None
}

/// What a clean-up report does to the rows: a started step marks its row
/// running; a finished step unchecks its row and shows it failed with the
/// message, waiting in the Trash, or cleared; the end of the clean-up
/// changes no row. Only the first row of the recommendation changes.
pub fn apply_clean_event(rows: &mut Vec<RecRow>, event: &CleanEvent)
    ensures
        final(rows)@.len() == old(rows)@.len(),
        match event {
            CleanEvent::Started { id, .. } => {
                let k = first_row(old(rows)@, id@, 0);
                &&& k < 0 ==> final(rows)@ == old(rows)@
                &&& k >= 0 ==> final(rows)@ == old(rows)@.update(k, RecRow { status: RecStatus::Running, ..old(rows)@[k] })
            },
            CleanEvent::Result { id, ok, freed, pending, message, .. } => {
                let k = first_row(old(rows)@, id@, 0);
                &&& k < 0 ==> final(rows)@ == old(rows)@
                &&& k >= 0 ==> {
                    let before = old(rows)@[k];
                    let after = final(rows)@[k];
                    &&& forall|j: int| 0 <= j < old(rows)@.len() && j != k ==> final(rows)@[j] == old(rows)@[j]
                    &&& after.rec == before.rec
                    &&& after.action == before.action
                    &&& after.expanded == before.expanded
                    &&& !after.checked
                    &&& !*ok ==> (after.status matches RecStatus::Failed(m) && m@ == message@)
                    &&& *ok && *pending > 0 ==> after.status == RecStatus::InTrash(*pending)
                    &&& *ok && *pending <= 0 ==> after.status == RecStatus::Cleared(*freed)
                }
            },
            CleanEvent::Done { .. } => final(rows)@ == old(rows)@,
        },
{
    match event {
        CleanEvent::Started { id, .. } => {
            let found = find_row(rows, id.as_str());
            match found {
                Some(k) => {
                    rows[k].status = RecStatus::Running;
                    assert(k as int == first_row(old(rows)@, id@, 0));
                    assert(rows@ =~= old(rows)@.update(k as int, RecRow { status: RecStatus::Running, ..old(rows)@[k as int] }));
                },
                None => {
                    assert(first_row(old(rows)@, id@, 0) < 0);
                },
            }
        },
        CleanEvent::Result { id, ok, freed, pending, message, .. } => {
            if let Some(k) = find_row(rows, id.as_str()) {
                rows[k].checked = false;
                let status = if !*ok {
                    RecStatus::Failed(crate::text::owned(message.as_str()))
                } else if *pending > 0 {
                    RecStatus::InTrash(*pending)
                } else {
                    RecStatus::Cleared(*freed)
                };
                rows[k].status = status;
            }
        },
        CleanEvent::Done { .. } => {},
    }
}

// ───────────────────────── the reclaim summary ─────────────────────────

/// Which rows a summary total counts.
#[derive(Clone, Copy, Debug, PartialEq, Eq, Structural)]
pub enum RowPick {
    All,
    Safe,
    Caution,
    Checked,
}

pub open spec fn picks(p: RowPick, row: RecRow) -> bool {
    match p {
        RowPick::All => true,
        RowPick::Safe => row.rec.tier == Tier::Safe,
        RowPick::Caution => row.rec.tier == Tier::Caution,
        RowPick::Checked => row.checked,
    }
}

/// The sum of the sizes of the rows that `p` picks.
pub open spec fn rows_total(rows: Seq<RecRow>, p: RowPick) -> int
    decreases rows.len(),
{
    if rows.len() == 0 {
        0
    } else {
        rows_total(rows.drop_last(), p) + if picks(p, rows.last()) {
            rows.last().rec.bytes as int
        } else {
            0
        }
    }
}

/// Adding the picked sizes row by row never leaves `i64`.
pub open spec fn running_total_fits(rows: Seq<RecRow>, p: RowPick) -> bool {
    forall|k: int| 0 <= k <= rows.len() ==> i64::MIN <= #[trigger] rows_total(rows.take(k), p) <= i64::MAX
}

/// The totals above the recommendation rows.
#[derive(Clone, Copy, Debug, PartialEq, Eq)]
pub struct ReclaimSummary {
    pub total_bytes: i64,
    pub safe_bytes: i64,
    pub caution_bytes: i64,
    pub selected_bytes: i64,
}

fn picked(p: RowPick, row: &RecRow) -> (r: bool)
    ensures
        r == picks(p, *row),
{
    match p {
        RowPick::All => true,
        RowPick::Safe => match row.rec.tier {
            Tier::Safe => true,
            Tier::Caution => false,
        },
        RowPick::Caution => match row.rec.tier {
            Tier::Safe => false,
            Tier::Caution => true,
        },
        RowPick::Checked => row.checked,
    }
}

/// The sum of the picked sizes, or `None` where adding them row by row
/// leaves `i64`.
pub fn rows_total_checked(rows: &[RecRow], p: RowPick) -> (r: Option<i64>)
    ensures
        r is Some <==> running_total_fits(rows@, p),
        r matches Some(t) ==> t == rows_total(rows@, p),
{
    let mut sum: i64 = 0;
    let mut i: usize = 0;
    assert(rows@.take(0) =~= Seq::<RecRow>::empty());
    while i < rows.len()
        invariant
            i <= rows@.len(),
            sum == rows_total(rows@.take(i as int), p),
            forall|k: int| 0 <= k <= i ==> i64::MIN <= #[trigger] rows_total(rows@.take(k), p) <= i64::MAX,
        decreases rows.len() - i,
    {
        assert(rows@.take(i + 1).drop_last() =~= rows@.take(i as int));
        assert(rows@.take(i + 1).last() == rows@[i as int]);
        if picked(p, &rows[i]) {
            match sum.checked_add(rows[i].rec.bytes) {
                Some(s) => {
                    sum = s;
                },
                None => {
                    assert(!(i64::MIN <= rows_total(rows@.take(i + 1), p) <= i64::MAX));
                    return None;
                },
            }
        }
        i += 1;
    }
    assert(rows@.take(rows@.len() as int) =~= rows@);
    Some(sum)
}

/// The reclaim summary of the rows: everything, the safe and the caution
/// rows, and the checked ones; `None` where one of these sums leaves `i64`.
pub fn reclaim_summary(rows: &[RecRow]) -> (r: Option<ReclaimSummary>)
    ensures
        r is Some <==> (running_total_fits(rows@, RowPick::All) && running_total_fits(rows@, RowPick::Safe)
            && running_total_fits(rows@, RowPick::Caution) && running_total_fits(rows@, RowPick::Checked)),
        r matches Some(s) ==> (s.total_bytes == rows_total(rows@, RowPick::All)
            && s.safe_bytes == rows_total(rows@, RowPick::Safe)
            && s.caution_bytes == rows_total(rows@, RowPick::Caution)
            && s.selected_bytes == rows_total(rows@, RowPick::Checked)),
{
    let total = rows_total_checked(rows, RowPick::All);
    let safe = rows_total_checked(rows, RowPick::Safe);
    let caution = rows_total_checked(rows, RowPick::Caution);
    let selected = rows_total_checked(rows, RowPick::Checked);
    match (total, safe, caution, selected) {
        (Some(total_bytes), Some(safe_bytes), Some(caution_bytes), Some(selected_bytes)) => Some(
            ReclaimSummary { total_bytes, safe_bytes, caution_bytes, selected_bytes },
        ),
        _ => None,
    }
}

} // verus!
