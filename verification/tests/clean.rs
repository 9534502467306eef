use diskdeck::clean::{clean_step, fmt_bytes, fmt_count, step_result, tail_lines, CleanStep, StepOutcome};
use diskdeck::rules::{Action, Rec, Tier};

#[test]
fn tail_lines_cases() {
    assert_eq!(tail_lines("one\n\ntwo\nthree\nfour\n", 2), "three\nfour");
    assert_eq!(tail_lines("solo", 5), "solo");
    assert_eq!(tail_lines("", 3), "");
    assert_eq!(tail_lines("a\r\n  \r\nb\r\n", 5), "a\nb");
}

fn rec(action: Action, allow_trash: bool, allow_delete: bool) -> Rec {
    Rec {
        id: "x".to_string(),
        title: "x".to_string(),
        path: b"/x".to_vec(),
        display: "/x".to_string(),
        bytes: 1,
        tier: Tier::Safe,
        desc: "d",
        restore: "r",
        action,
        command: None,
        allow_trash,
        allow_delete,
        note: String::new(),
        estimate: false,
    }
}

#[test]
fn command_findings_stay_commands_and_refused_actions_do_nothing() {
    assert_eq!(clean_step(&rec(Action::Command, true, true), Action::Trash), CleanStep::Command);
    assert_eq!(clean_step(&rec(Action::Trash, false, true), Action::Trash), CleanStep::Refused);
    assert_eq!(clean_step(&rec(Action::Trash, true, false), Action::Delete), CleanStep::Refused);
    assert_eq!(clean_step(&rec(Action::Trash, true, true), Action::Delete), CleanStep::Delete);
    assert_eq!(clean_step(&rec(Action::Empty, false, false), Action::Empty), CleanStep::Empty);
}

#[test]
fn step_reports_follow_what_each_step_did() {
    let trashed = step_result(100, StepOutcome::Trashed(Ok(())));
    assert!(trashed.ok);
    assert_eq!((trashed.freed, trashed.pending), (0, 100));
    assert_eq!(trashed.message, "moved to Trash — empty it to free the space");

    let deleted = step_result(100, StepOutcome::Deleted(Ok(())));
    assert_eq!((deleted.ok, deleted.freed, deleted.pending), (true, 100, 0));

    let emptied = step_result(100, StepOutcome::Emptied { result: Ok(()), after: 30 });
    assert_eq!((emptied.ok, emptied.freed), (true, 70));

    let failed = step_result(100, StepOutcome::Deleted(Err("denied".to_string())));
    assert_eq!((failed.ok, failed.freed, failed.pending), (false, 0, 0));
    assert_eq!(failed.message, "denied");

    let command = step_result(100, StepOutcome::Command { output: "a\n\nb\nc\n".to_string(), ok: true, after: 120 });
    assert_eq!((command.ok, command.freed), (true, 0));
    assert_eq!(command.message, "b\nc");

    let refused = step_result(100, StepOutcome::Refused);
    assert!(!refused.ok);
    assert_eq!(refused.message, "action not allowed for this item");
}

#[test]
fn fmt_bytes_decimal() {
    assert_eq!(fmt_bytes(0), "0 B");
    assert_eq!(fmt_bytes(1_500_000), "1.5 MB");
    assert_eq!(fmt_bytes(56_200_000_000), "56.2 GB");
}

#[test]
fn sizes_pick_units_and_decimals() {
    assert_eq!(fmt_bytes(-7), "0 B");
    assert_eq!(fmt_bytes(999), "999 B");
    assert_eq!(fmt_bytes(1_000), "1.0 KB");
    assert_eq!(fmt_bytes(99_960), "100.0 KB");
    assert_eq!(fmt_bytes(123_456_789), "123 MB");
    assert_eq!(fmt_bytes(1_250_000), "1.2 MB");
    assert_eq!(fmt_bytes(999_999_999_999), "1000 GB");
    assert_eq!(fmt_bytes(2_000_000_000_000_000), "2000 TB");
    assert_eq!(fmt_bytes(i64::MAX), "9223372 TB");
}

#[test]
fn counts_shorten_thousands_and_millions() {
    assert_eq!(fmt_count(-3), "-3");
    assert_eq!(fmt_count(999), "999");
    assert_eq!(fmt_count(1_500), "1.5K");
    assert_eq!(fmt_count(2_340_000), "2.3M");
    assert_eq!(fmt_count(999_999), "1000.0K");
}

#[test]
fn clean_totals_add_each_step_and_refuse_overflow() {
    let mut totals = diskdeck::clean::CleanTotals::new();
    let step = |freed: i64, pending: i64| diskdeck::clean::CleanResult { ok: true, freed, pending, message: String::new() };
    assert!(totals.add(&step(10, 0)));
    assert!(totals.add(&step(0, 7)));
    assert_eq!((totals.freed, totals.pending), (10, 7));
    assert!(!totals.add(&step(i64::MAX, 0)));
    assert_eq!((totals.freed, totals.pending), (10, 7));
}
