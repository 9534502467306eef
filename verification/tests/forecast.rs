use diskdeck::forecast::{analyze, CapacityPoint, Confidence, ForecastState, StorageForecast, DAY_MS};

const GB: i64 = 1_000_000_000;

fn point(day: i64, free_gb: i64) -> CapacityPoint {
    CapacityPoint { captured_at_ms: day * DAY_MS, total_bytes: 250 * GB, free_bytes: free_gb * GB }
}

#[test]
fn needs_three_points_and_seven_days() {
    assert_eq!(
        analyze(&[point(0, 80), point(7, 70)], 15 * GB),
        ForecastState::NeedHistory { observations: 2, span_days: 7 }
    );
    assert_eq!(
        analyze(&[point(0, 80), point(3, 76), point(6, 72)], 15 * GB),
        ForecastState::NeedHistory { observations: 3, span_days: 6 }
    );
}

#[test]
fn confidence_follows_exact_evidence_thresholds() {
    let early = analyze(&[point(0, 80), point(3, 77), point(7, 73)], 15 * GB);
    assert!(matches!(early, ForecastState::Estimate(StorageForecast { confidence: Confidence::Early, .. })));

    let developing = analyze(
        &[point(0, 90), point(4, 86), point(8, 82), point(11, 79), point(14, 76)],
        15 * GB,
    );
    assert!(matches!(
        developing,
        ForecastState::Estimate(StorageForecast { confidence: Confidence::Developing, .. })
    ));

    let reliable = analyze(
        &[
            point(0, 100),
            point(5, 95),
            point(10, 90),
            point(15, 85),
            point(20, 80),
            point(24, 76),
            point(27, 73),
            point(30, 70),
        ],
        15 * GB,
    );
    assert!(matches!(
        reliable,
        ForecastState::Estimate(StorageForecast { confidence: Confidence::Reliable, .. })
    ));
}

#[test]
fn median_rate_ignores_one_cleanup_spike() {
    let state = analyze(&[point(0, 80), point(2, 76), point(4, 72), point(6, 90), point(8, 86)], 15 * GB);
    let ForecastState::Estimate(forecast) = state else { panic!("expected estimate") };
    assert_eq!(forecast.bytes_per_day, 2 * GB);
    assert!(forecast.days_low <= forecast.days_high);
}

#[test]
fn flat_improving_volatile_and_already_low_are_not_estimates() {
    assert!(matches!(analyze(&[point(0, 80), point(4, 80), point(8, 80)], 15 * GB), ForecastState::Flat { .. }));
    assert!(matches!(
        analyze(&[point(0, 70), point(4, 75), point(8, 80)], 15 * GB),
        ForecastState::Improving { .. }
    ));
    assert!(matches!(
        analyze(&[point(0, 80), point(2, 70), point(4, 82), point(6, 70), point(8, 82)], 15 * GB),
        ForecastState::Volatile { .. }
    ));
    assert!(matches!(
        analyze(&[point(0, 20), point(4, 16), point(8, 14)], 15 * GB),
        ForecastState::AlreadyLow { .. }
    ));
}

#[test]
fn invalid_duplicate_and_different_capacity_points_are_excluded() {
    let mut wrong_capacity = point(2, 78);
    wrong_capacity.total_bytes = 500 * GB;
    let impossible = CapacityPoint { captured_at_ms: 3 * DAY_MS, total_bytes: 250 * GB, free_bytes: 300 * GB };
    let state = analyze(&[point(0, 80), wrong_capacity, impossible, point(7, 73), point(7, 72)], 15 * GB);
    assert!(matches!(state, ForecastState::NeedHistory { observations: 2, .. }));
}

#[test]
fn out_of_order_points_form_one_increasing_timeline() {
    let state = analyze(&[point(7, 73), point(0, 80), point(3, 77)], 15 * GB);
    let ForecastState::Estimate(forecast) = state else { panic!("expected estimate") };
    assert_eq!(forecast.observations, 3);
    assert_eq!(forecast.span_days, 7);
    assert_eq!(forecast.latest_free_bytes, 73 * GB);
}

#[test]
fn checked_forecast_agrees_with_the_forecast() {
    let day = 86_400_000i64;
    let gb = 1_000_000_000i64;
    let points: Vec<diskdeck::forecast::CapacityPoint> = (0..8)
        .map(|d| diskdeck::forecast::CapacityPoint {
            captured_at_ms: d * day,
            total_bytes: 500 * gb,
            free_bytes: 200 * gb - d * 2 * gb,
        })
        .collect();
    assert_eq!(
        diskdeck::forecast::try_analyze(&points, 20 * gb),
        Some(diskdeck::forecast::analyze(&points, 20 * gb))
    );
    assert_eq!(
        diskdeck::forecast::try_analyze(&[], 20 * gb),
        Some(diskdeck::forecast::ForecastState::NeedHistory { observations: 0, span_days: 0 })
    );
}

#[test]
fn an_invalid_observation_at_either_end_changes_nothing() {
    let points = vec![point(0, 90), point(4, 86), point(8, 82), point(11, 79)];
    let base = analyze(&points, 15 * GB);
    let invalid = [
        CapacityPoint { captured_at_ms: -1, total_bytes: 250 * GB, free_bytes: 10 * GB },
        CapacityPoint { captured_at_ms: 20 * DAY_MS, total_bytes: 0, free_bytes: 0 },
        CapacityPoint { captured_at_ms: 20 * DAY_MS, total_bytes: 250 * GB, free_bytes: -1 },
        CapacityPoint { captured_at_ms: 20 * DAY_MS, total_bytes: 250 * GB, free_bytes: 251 * GB },
    ];
    for bad in invalid {
        let mut after = points.clone();
        after.push(bad);
        assert_eq!(analyze(&after, 15 * GB), base);
        let mut before = vec![bad];
        before.extend(points.iter().copied());
        assert_eq!(analyze(&before, 15 * GB), base);
    }
}
