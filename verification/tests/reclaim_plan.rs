use diskdeck::reclaim_plan::{build_plan, parse_goal_gb, parse_i64, try_build_plan, GoalError, OutcomeTracker, ReclaimPlan, GB};
use diskdeck::rules::{Action, Rec, Tier};

fn rec(id: &str, bytes: i64, tier: Tier, estimate: bool) -> Rec {
    Rec {
        id: id.to_string(),
        title: id.to_string(),
        path: format!("/fixture/{id}").into_bytes(),
        display: format!("/fixture/{id}"),
        bytes,
        tier,
        desc: "fixture",
        restore: "fixture",
        action: Action::Trash,
        command: None,
        allow_trash: true,
        allow_delete: true,
        note: String::new(),
        estimate,
    }
}

#[test]
fn goal_parser_requires_bounded_whole_gigabytes() {
    assert_eq!(parse_goal_gb("", 100 * GB), Err(GoalError::Empty));
    assert_eq!(parse_goal_gb("2.5", 100 * GB), Err(GoalError::NotWholeGigabytes));
    assert_eq!(parse_goal_gb("0", 100 * GB), Err(GoalError::Zero));
    assert_eq!(parse_goal_gb("101", 100 * GB), Err(GoalError::ExceedsUsedSpace));
    assert_eq!(parse_goal_gb(" 20 ", 100 * GB), Ok(20 * GB));
}

#[test]
fn measured_safe_items_win_before_estimates_and_caution() {
    let recs = vec![
        rec("estimated-large", 30 * GB, Tier::Safe, true),
        rec("measured-six", 6 * GB, Tier::Safe, false),
        rec("measured-five", 5 * GB, Tier::Safe, false),
        rec("caution-huge", 100 * GB, Tier::Caution, false),
    ];
    let plan = build_plan(&recs, 10 * GB);
    let ids: Vec<_> = plan.items.iter().map(|item| item.id.as_str()).collect();
    assert_eq!(ids, vec!["measured-six", "measured-five"]);
    assert_eq!(plan.measured_bytes, 11 * GB);
    assert_eq!(plan.estimated_bytes, 0);
    assert_eq!(plan.shortfall_bytes, 0);
    assert_eq!(plan.caution_bytes, 100 * GB);
}

#[test]
fn estimate_is_used_only_when_measured_items_cannot_reach_goal() {
    let recs = vec![
        rec("measured", 9 * GB, Tier::Safe, false),
        rec("estimated", 4 * GB, Tier::Safe, true),
    ];
    let plan = build_plan(&recs, 10 * GB);
    assert_eq!(plan.selected_bytes, 13 * GB);
    assert_eq!(plan.measured_bytes, 9 * GB);
    assert_eq!(plan.estimated_bytes, 4 * GB);
    assert_eq!(plan.shortfall_bytes, 0);
}

#[test]
fn shortfall_and_stable_identifier_tie_break_are_deterministic() {
    let recs = vec![
        rec("zeta", 3 * GB, Tier::Safe, false),
        rec("alpha", 3 * GB, Tier::Safe, false),
    ];
    let plan = build_plan(&recs, 10 * GB);
    let ids: Vec<_> = plan.items.iter().map(|item| item.id.as_str()).collect();
    assert_eq!(ids, vec!["alpha", "zeta"]);
    assert_eq!(plan.shortfall_bytes, 4 * GB);
}

#[test]
fn zero_and_negative_findings_never_enter_the_plan() {
    let recs = vec![rec("zero", 0, Tier::Safe, false), rec("negative", -1, Tier::Safe, false)];
    let plan = build_plan(&recs, 5 * GB);
    assert!(plan.items.is_empty());
    assert_eq!(plan.shortfall_bytes, 5 * GB);
}

#[test]
fn outcome_separates_actual_free_space_from_pending_trash() {
    let mut tracker = OutcomeTracker::new(20 * GB, 24 * GB, 4 * GB, vec!["a".to_string(), "b".to_string()]);
    tracker.record_result("a", true);
    tracker.record_result("b", false);
    tracker.record_result("b", false);
    tracker.record_result("unrelated", false);
    let outcome = tracker.finish(8 * GB, 6 * GB);
    assert_eq!(outcome.goal_bytes, 20 * GB);
    assert_eq!(outcome.planned_bytes, 24 * GB);
    assert_eq!(outcome.planned_estimated_bytes, 4 * GB);
    assert_eq!(outcome.actual_freed_bytes, 8 * GB);
    assert_eq!(outcome.pending_trash_bytes, 6 * GB);
    assert_eq!(outcome.goal_shortfall_bytes, 12 * GB);
    assert_eq!(outcome.attempted_items, 2);
    assert_eq!(outcome.failed_items, 1);
}

#[test]
fn outcome_clamps_negative_event_values_and_completed_goals() {
    let tracker = OutcomeTracker::new(5 * GB, 5 * GB, 0, vec!["a".to_string()]);
    let outcome = tracker.finish(-1, -1);
    assert_eq!(outcome.actual_freed_bytes, 0);
    assert_eq!(outcome.pending_trash_bytes, 0);
    assert_eq!(outcome.goal_shortfall_bytes, 5 * GB);

    let outcome = OutcomeTracker::new(5 * GB, 6 * GB, 0, vec!["a".to_string()]).finish(6 * GB, 0);
    assert_eq!(outcome.goal_shortfall_bytes, 0);
}

#[test]
fn integer_text_accepts_signs_and_rejects_overflow() {
    assert_eq!(parse_i64("+42"), Some(42));
    assert_eq!(parse_i64("-9223372036854775808"), Some(i64::MIN));
    assert_eq!(parse_i64("9223372036854775808"), None);
    assert_eq!(parse_i64("-"), None);
    assert_eq!(parse_i64("4x"), None);
    assert_eq!(parse_goal_gb("-3", 100 * GB), Err(GoalError::Zero));
    assert_eq!(parse_goal_gb("9999999999", i64::MAX), Err(GoalError::ExceedsUsedSpace));
    assert_eq!(parse_goal_gb("1", 0), Err(GoalError::ExceedsUsedSpace));
}

fn plan_ids(plan: &ReclaimPlan) -> Vec<String> {
    plan.items.iter().map(|item| item.id.clone()).collect()
}

#[test]
fn checked_plan_refuses_sums_beyond_i64_and_otherwise_matches() {
    let huge = vec![
        rec("first", i64::MAX / 2 + 1, Tier::Safe, false),
        rec("second", i64::MAX / 2 + 1, Tier::Safe, false),
    ];
    assert!(try_build_plan(&huge, i64::MAX).is_none());
    let caution = vec![
        rec("one", i64::MAX, Tier::Caution, false),
        rec("two", 1, Tier::Caution, false),
    ];
    assert!(try_build_plan(&caution, GB).is_none());

    let recs = vec![
        rec("measured", 9 * GB, Tier::Safe, false),
        rec("estimated", 4 * GB, Tier::Safe, true),
        rec("careful", 2 * GB, Tier::Caution, false),
    ];
    let checked = try_build_plan(&recs, 10 * GB).expect("these sums fit");
    let plain = build_plan(&recs, 10 * GB);
    assert_eq!(plan_ids(&checked), plan_ids(&plain));
    assert_eq!(checked.goal_bytes, plain.goal_bytes);
    assert_eq!(checked.selected_bytes, 13 * GB);
    assert_eq!(checked.measured_bytes, plain.measured_bytes);
    assert_eq!(checked.estimated_bytes, plain.estimated_bytes);
    assert_eq!(checked.shortfall_bytes, plain.shortfall_bytes);
    assert_eq!(checked.caution_bytes, 2 * GB);
}

#[test]
fn a_smaller_goal_plans_a_prefix_of_a_larger_one() {
    let recs = vec![
        rec("a", 7 * GB, Tier::Safe, false),
        rec("b", 5 * GB, Tier::Safe, false),
        rec("c", 3 * GB, Tier::Safe, false),
        rec("d", 6 * GB, Tier::Safe, true),
        rec("e", 50 * GB, Tier::Caution, false),
    ];
    let small = build_plan(&recs, 6 * GB);
    let large = build_plan(&recs, 18 * GB);
    assert_eq!(plan_ids(&small), vec!["a".to_string()]);
    assert_eq!(plan_ids(&large), vec!["a".to_string(), "b".to_string(), "c".to_string(), "d".to_string()]);
    assert!(plan_ids(&large).starts_with(&plan_ids(&small)));
    assert!(small.selected_bytes <= large.selected_bytes);
    assert_eq!(small.caution_bytes, large.caution_bytes);
    assert_eq!(small.caution_bytes, 50 * GB);
}

#[test]
fn each_known_failure_counts_once_whatever_follows() {
    let mut tracker =
        OutcomeTracker::new(10 * GB, 10 * GB, 0, vec!["a".to_string(), "b".to_string(), "c".to_string()]);
    tracker.record_result("a", false);
    tracker.record_result("a", true);
    tracker.record_result("a", false);
    tracker.record_result("c", true);
    tracker.record_result("ghost", false);
    tracker.record_result("b", false);
    let outcome = tracker.finish(0, 0);
    assert_eq!(outcome.attempted_items, 3);
    assert_eq!(outcome.failed_items, 2);
}
