use diskdeck::navigation::{
    apply_guided_plan, back_target, can_apply_guided_plan, map_item_actions, map_item_hint, rail_back_target,
    should_navigate_back_on_escape, should_open_from_primary, should_record_history, tail_str, MapItemActions,
    RailView, RecRow, RecStatus,
};
use diskdeck::clean::CleanEvent;
use diskdeck::navigation::{
    apply_clean_event, default_goal_bytes, rec_rows, reclaim_summary, rows_total_checked, ReclaimSummary, RowPick,
};
use diskdeck::reclaim_plan::{PlanItem, ReclaimPlan};
use diskdeck::rules::{Action, Rec, Tier};
use diskdeck::scan::ScanState;

fn fixture_rec_row(id: &str, tier: Tier, checked: bool) -> RecRow {
    RecRow {
        rec: Rec {
            id: id.into(),
            title: id.into(),
            path: format!("/fixture/{id}").into_bytes(),
            display: format!("/fixture/{id}"),
            bytes: 10,
            tier,
            desc: "fixture",
            restore: "fixture",
            action: Action::Trash,
            command: None,
            allow_trash: true,
            allow_delete: true,
            note: String::new(),
            estimate: false,
        },
        checked,
        action: Action::Trash,
        expanded: false,
        status: RecStatus::Idle,
    }
}

fn fixture_plan() -> ReclaimPlan {
    ReclaimPlan {
        goal_bytes: 10,
        items: vec![PlanItem { id: "safe-b".into(), bytes: 10, estimate: false }],
        selected_bytes: 10,
        measured_bytes: 10,
        estimated_bytes: 0,
        shortfall_bytes: 0,
        caution_bytes: 20,
    }
}

#[test]
fn guided_plan_requires_acknowledgement_current_revision_and_items() {
    let plan = fixture_plan();
    assert!(can_apply_guided_plan(true, Some(4), 4, false, &plan));
    assert!(!can_apply_guided_plan(false, Some(4), 4, false, &plan));
    assert!(!can_apply_guided_plan(true, Some(3), 4, false, &plan));
    assert!(!can_apply_guided_plan(true, Some(4), 4, true, &plan));

    let mut empty = fixture_plan();
    empty.items.clear();
    assert!(!can_apply_guided_plan(true, Some(4), 4, false, &empty));
}

#[test]
fn guided_plan_checks_only_named_safe_rows() {
    let mut rows = vec![
        fixture_rec_row("safe-a", Tier::Safe, true),
        fixture_rec_row("safe-b", Tier::Safe, true),
        fixture_rec_row("caution", Tier::Caution, true),
    ];
    apply_guided_plan(&mut rows, &fixture_plan());
    assert!(!rows[0].checked);
    assert!(rows[1].checked);
    assert!(!rows[2].checked);
}

#[test]
fn guided_plan_never_checks_a_named_caution_row() {
    let mut rows = vec![fixture_rec_row("safe-b", Tier::Caution, false)];
    apply_guided_plan(&mut rows, &fixture_plan());
    assert!(!rows[0].checked);
}

#[test]
fn rail_back_returns_each_detail_view_to_summary() {
    assert_eq!(rail_back_target(RailView::Summary), None);
    assert_eq!(rail_back_target(RailView::GuidedReclaim), Some(RailView::Summary));
    assert_eq!(rail_back_target(RailView::Reclaim), Some(RailView::Summary));
    assert_eq!(rail_back_target(RailView::Insights), Some(RailView::Summary));
    assert_eq!(rail_back_target(RailView::Moved), Some(RailView::Insights));
    assert_eq!(rail_back_target(RailView::Growth), Some(RailView::Insights));
    assert_eq!(rail_back_target(RailView::Developer), Some(RailView::Insights));
    assert_eq!(rail_back_target(RailView::Apfs), Some(RailView::Insights));
    assert_eq!(rail_back_target(RailView::Leftovers), Some(RailView::Insights));
    assert_eq!(rail_back_target(RailView::Monitor), Some(RailView::Insights));
    assert_eq!(rail_back_target(RailView::FileReview), Some(RailView::Insights));
}

#[test]
fn history_records_completed_scans_only() {
    assert!(should_record_history(ScanState::Done));
    assert!(!should_record_history(ScanState::Idle));
    assert!(!should_record_history(ScanState::Running));
    assert!(!should_record_history(ScanState::Aborted));
}

#[test]
fn scan_state_codes_round_trip() {
    for state in [ScanState::Idle, ScanState::Running, ScanState::Done, ScanState::Aborted] {
        assert_eq!(ScanState::from_code(state.code()), state);
    }
    assert_eq!(ScanState::from_code(9), ScanState::Idle);
}

#[test]
fn map_actions_match_real_synthetic_and_denied_items() {
    assert_eq!(
        map_item_actions(true, false, false, true, false),
        MapItemActions { open: true, reveal: true, move_to_ssd: false }
    );
    assert_eq!(
        map_item_actions(true, false, false, true, true),
        MapItemActions { open: true, reveal: true, move_to_ssd: true }
    );
    assert_eq!(
        map_item_actions(false, false, false, true, true),
        MapItemActions { open: false, reveal: true, move_to_ssd: true }
    );
    assert_eq!(
        map_item_actions(false, true, false, false, true),
        MapItemActions { open: false, reveal: false, move_to_ssd: false }
    );
    assert_eq!(
        map_item_actions(true, false, true, true, true),
        MapItemActions { open: false, reveal: true, move_to_ssd: true }
    );
}

#[test]
fn map_hints_explain_discoverable_actions_without_modifiers() {
    assert_eq!(map_item_hint(true, false, false), "Click to open · Right-click for actions");
    assert_eq!(map_item_hint(false, false, false), "Right-click for actions");
    assert_eq!(map_item_hint(false, true, false), "Combined smaller items");
    assert_eq!(map_item_hint(true, false, true), "Access unavailable · Grant Full Disk Access to inspect");
}

#[test]
fn back_target_is_one_level_and_inert_at_root() {
    assert_eq!(back_target(0), None);
    assert_eq!(back_target(1), Some(0));
    assert_eq!(back_target(3), Some(2));
}

#[test]
fn control_click_opens_the_menu_without_primary_navigation() {
    let actions = MapItemActions { open: true, reveal: true, move_to_ssd: true };
    assert!(should_open_from_primary(actions, true, false));
    assert!(!should_open_from_primary(actions, true, true));
}

#[test]
fn escape_closes_an_open_menu_before_navigating_back() {
    assert!(should_navigate_back_on_escape(true, false, false));
    assert!(!should_navigate_back_on_escape(true, true, false));
    assert!(!should_navigate_back_on_escape(true, false, true));
    assert!(!should_navigate_back_on_escape(false, false, false));
}

#[test]
fn tail_keeps_the_end_of_long_text() {
    assert_eq!(tail_str("short", 10), "short");
    assert_eq!(tail_str("/a/very/long/path", 4), "…path");
    assert_eq!(tail_str("", 0), "");
}

#[test]
fn finished_scans_check_safe_recommendations_and_start_idle() {
    let mut caution = fixture_rec_row("caution-a", Tier::Caution, false).rec;
    caution.action = Action::Delete;
    let safe = fixture_rec_row("safe-b", Tier::Safe, false).rec;
    let rows = rec_rows(vec![caution, safe]);
    assert_eq!(rows.len(), 2);
    assert!(!rows[0].checked && rows[1].checked);
    assert_eq!(rows[0].action, Action::Delete);
    assert_eq!(rows[1].action, Action::Trash);
    assert!(rows.iter().all(|row| !row.expanded && matches!(row.status, RecStatus::Idle)));
    assert_eq!(rows[0].rec.id, "caution-a");
}

#[test]
fn guided_goal_starts_at_twenty_gigabytes_or_the_space_in_use() {
    assert_eq!(default_goal_bytes(0), 20_000_000_000);
    assert_eq!(default_goal_bytes(-5), 20_000_000_000);
    assert_eq!(default_goal_bytes(7_000_000_000), 7_000_000_000);
    assert_eq!(default_goal_bytes(500_000_000_000), 20_000_000_000);
}

#[test]
fn clean_reports_update_the_first_matching_row() {
    let mut rows = vec![fixture_rec_row("a", Tier::Safe, true), fixture_rec_row("b", Tier::Safe, true)];
    apply_clean_event(&mut rows, &CleanEvent::Started { id: "b".into(), title: "b".into() });
    assert!(matches!(rows[1].status, RecStatus::Running));
    assert!(matches!(rows[0].status, RecStatus::Idle));
    let result = |id: &str, ok: bool, pending: i64| CleanEvent::Result {
        id: id.into(),
        title: id.into(),
        ok,
        freed: 40,
        pending,
        message: "denied".into(),
    };
    apply_clean_event(&mut rows, &result("b", true, 0));
    assert!(matches!(rows[1].status, RecStatus::Cleared(40)) && !rows[1].checked);
    apply_clean_event(&mut rows, &result("a", true, 9));
    assert!(matches!(rows[0].status, RecStatus::InTrash(9)) && !rows[0].checked);
    apply_clean_event(&mut rows, &result("a", false, 0));
    assert!(matches!(&rows[0].status, RecStatus::Failed(m) if m == "denied"));
    apply_clean_event(&mut rows, &result("zzz", false, 0));
    apply_clean_event(&mut rows, &CleanEvent::Done { freed: 40, pending: 9 });
    assert!(matches!(rows[1].status, RecStatus::Cleared(40)));
}

fn sized_row(id: &str, tier: Tier, checked: bool, bytes: i64) -> RecRow {
    let mut row = fixture_rec_row(id, tier, checked);
    row.rec.bytes = bytes;
    row
}

#[test]
fn reclaim_summary_totals_every_tier_and_the_checked_rows() {
    let rows = vec![
        sized_row("a", Tier::Safe, true, 300),
        sized_row("b", Tier::Caution, false, 50),
        sized_row("c", Tier::Safe, false, 20),
        sized_row("d", Tier::Caution, true, 7),
    ];
    let summary = reclaim_summary(&rows).expect("small sums fit");
    assert_eq!(
        summary,
        ReclaimSummary { total_bytes: 377, safe_bytes: 320, caution_bytes: 57, selected_bytes: 307 }
    );
    assert_eq!(rows_total_checked(&rows, RowPick::Checked), Some(307));
    assert_eq!(
        reclaim_summary(&[]),
        Some(ReclaimSummary { total_bytes: 0, safe_bytes: 0, caution_bytes: 0, selected_bytes: 0 })
    );
}

#[test]
fn reclaim_summary_refuses_totals_beyond_i64() {
    let rows = vec![sized_row("a", Tier::Safe, false, i64::MAX), sized_row("b", Tier::Caution, false, 1)];
    assert_eq!(rows_total_checked(&rows, RowPick::Safe), Some(i64::MAX));
    assert_eq!(rows_total_checked(&rows, RowPick::Caution), Some(1));
    assert_eq!(rows_total_checked(&rows, RowPick::All), None);
    assert_eq!(reclaim_summary(&rows), None);
}
