//! Free-space forecast from recorded capacity observations.

use vstd::prelude::*;
use crate::sorting::{sort_stable, stable_sort};

verus! {

pub const DAY_MS: i64 = 86_400_000;
pub const MIN_RATE_BYTES_PER_DAY: i64 = 10_000_000;

#[derive(Clone, Copy, Debug, PartialEq, Eq)]
pub struct CapacityPoint {
    pub captured_at_ms: i64,
    pub total_bytes: i64,
    pub free_bytes: i64,
}

#[derive(Clone, Copy, Debug, PartialEq, Eq)]
pub enum Confidence {
    Early,
    Developing,
    Reliable,
}

#[derive(Clone, Debug, PartialEq, Eq)]
pub struct StorageForecast {
    pub confidence: Confidence,
    pub days_low: i64,
    pub days_high: i64,
    pub bytes_per_day: i64,
    pub observations: usize,
    pub span_days: i64,
    pub latest_free_bytes: i64,
    pub threshold_bytes: i64,
}

#[derive(Clone, Debug, PartialEq, Eq)]
pub enum ForecastState {
    NeedHistory { observations: usize, span_days: i64 },
    AlreadyLow { free_bytes: i64, threshold_bytes: i64 },
    Flat { observations: usize, span_days: i64 },
    Improving { bytes_per_day: i64, observations: usize, span_days: i64 },
    Volatile { observations: usize, span_days: i64 },
    Estimate(StorageForecast),
}

// ───────────────────────── arithmetic model ─────────────────────────

/// Division rounding toward zero, as Rust's integer `/` does.
pub open spec fn tdiv(a: int, b: int) -> int {
    if a >= 0 {
        a / b
    } else {
        -((-a) / b)
    }
}

pub open spec fn clamp_i64(v: int) -> int {
    if v < i64::MIN {
        i64::MIN as int
    } else if v > i64::MAX {
        i64::MAX as int
    } else {
        v
    }
}

pub open spec fn abs_int(v: int) -> int {
    if v < 0 {
        -v
    } else {
        v
    }
}

pub open spec fn max_int(a: int, b: int) -> int {
    if a >= b {
        a
    } else {
        b
    }
}

pub open spec fn min_int(a: int, b: int) -> int {
    if a <= b {
        a
    } else {
        b
    }
}

pub fn tdiv_i128(a: i128, b: i128) -> (q: i128)
    requires
        b > 0,
        a > i128::MIN,
    ensures
        q == tdiv(a as int, b as int),
{
    if a >= 0 {
        a / b
    } else {
        -((-a) / b)
    }
}

/// Saturate a wide value into `i64`.
pub fn clamp_i128(value: i128) -> (r: i64)
    ensures
        r == clamp_i64(value as int),
{
    if value < i64::MIN as i128 {
        i64::MIN
    } else if value > i64::MAX as i128 {
        i64::MAX
    } else {
        value as i64
    }
}

/// Days needed to consume `bytes` at `bytes_per_day` (at least one per day), rounded up.
pub open spec fn ceil_days_spec(bytes: i64, bytes_per_day: i64) -> i64 {
    if bytes <= 0 {
        0
    } else {
        let rate = max_int(bytes_per_day as int, 1);
        let q = (bytes + rate - 1) / rate;
        (if q < 1 {
            1
        } else if q > i64::MAX {
            i64::MAX as int
        } else {
            q
        }) as i64
    }
}

pub fn ceil_days(bytes: i64, bytes_per_day: i64) -> (r: i64)
    ensures
        r == ceil_days_spec(bytes, bytes_per_day),
{
    if bytes <= 0 {
        return 0;
    }
    let rate: i128 = if bytes_per_day >= 1 { bytes_per_day as i128 } else { 1 };
    let numerator: i128 = bytes as i128 + rate - 1;
    let q = numerator / rate;
    if q < 1 {
        1
    } else if q > i64::MAX as i128 {
        i64::MAX
    } else {
        q as i64
    }
}

// ───────────────────────── observation model ─────────────────────────

pub open spec fn point_valid(p: CapacityPoint) -> bool {
    &&& p.captured_at_ms >= 0
    &&& p.total_bytes > 0
    &&& p.free_bytes >= 0
    &&& p.free_bytes <= p.total_bytes
}

/// The observations that describe a possible volume state, in input order.
pub open spec fn valid_points(s: Seq<CapacityPoint>) -> Seq<CapacityPoint>
    decreases s.len(),
{
    if s.len() == 0 {
        s
    } else {
        let rest = valid_points(s.drop_last());
        if point_valid(s.last()) {
            rest.push(s.last())
        } else {
            rest
        }
    }
}

/// The newest observation; among equally new ones, the last given.
pub open spec fn latest_point(s: Seq<CapacityPoint>) -> CapacityPoint
    recommends
        s.len() > 0,
    decreases s.len(),
{
    if s.len() <= 1 {
        s[0]
    } else {
        let before = latest_point(s.drop_last());
        if s.last().captured_at_ms >= before.captured_at_ms {
            s.last()
        } else {
            before
        }
    }
}

/// The observations made on a volume of the given size, in input order.
pub open spec fn with_total(s: Seq<CapacityPoint>, total: i64) -> Seq<CapacityPoint>
    decreases s.len(),
{
    if s.len() == 0 {
        s
    } else {
        let rest = with_total(s.drop_last(), total);
        if s.last().total_bytes == total {
            rest.push(s.last())
        } else {
            rest
        }
    }
}

/// Index of the first observation at or after `i` that is not older than `ms`.
pub open spec fn first_not_before(t: Seq<CapacityPoint>, ms: i64, i: int) -> int
    decreases t.len() - i,
{
    if i < 0 || i >= t.len() {
        t.len() as int
    } else if t[i].captured_at_ms >= ms {
        i
    } else {
        first_not_before(t, ms, i + 1)
    }
}

/// Record `p` in a time-ordered series: it replaces an observation at the same instant.
pub open spec fn place_point(t: Seq<CapacityPoint>, p: CapacityPoint) -> Seq<CapacityPoint> {
    let k = first_not_before(t, p.captured_at_ms, 0);
    if k < t.len() && t[k].captured_at_ms == p.captured_at_ms {
        t.update(k, p)
    } else {
        t.insert(k, p)
    }
}

/// One observation per instant, oldest first; a later observation of an instant wins.
pub open spec fn timeline(s: Seq<CapacityPoint>) -> Seq<CapacityPoint>
    decreases s.len(),
{
    if s.len() == 0 {
        Seq::empty()
    } else {
        place_point(timeline(s.drop_last()), s.last())
    }
}

pub open spec fn strictly_increasing(t: Seq<CapacityPoint>) -> bool {
    forall|i: int, j: int|
        0 <= i < j < t.len() ==> #[trigger] t[i].captured_at_ms < #[trigger] t[j].captured_at_ms
}

pub open spec fn all_valid(t: Seq<CapacityPoint>) -> bool {
    forall|i: int| 0 <= i < t.len() ==> point_valid(#[trigger] t[i])
}

/// The series the forecast is computed from.
pub open spec fn forecast_series(points: Seq<CapacityPoint>) -> Seq<CapacityPoint> {
    let valid = valid_points(points);
    timeline(with_total(valid, latest_point(valid).total_bytes))
}

pub open spec fn span_days_of(t: Seq<CapacityPoint>) -> i64 {
    if t.len() == 0 {
        0
    } else {
        let d = tdiv(t.last().captured_at_ms - t[0].captured_at_ms, DAY_MS as int);
        (if d < 0 {
            0
        } else {
            d
        }) as i64
    }
}

pub open spec fn confidence_spec(observations: int, span_days: int) -> Option<Confidence> {
    if observations >= 8 && span_days >= 30 {
        Some(Confidence::Reliable)
    } else if observations >= 5 && span_days >= 14 {
        Some(Confidence::Developing)
    } else if observations >= 3 && span_days >= 7 {
        Some(Confidence::Early)
    } else {
        None
    }
}

pub open spec fn elapsed_ms(a: CapacityPoint, b: CapacityPoint) -> int {
    clamp_i64(b.captured_at_ms - a.captured_at_ms)
}

/// Bytes per day consumed between two observations, saturated into `i64`.
pub open spec fn pair_rate(a: CapacityPoint, b: CapacityPoint) -> i64 {
    clamp_i64(tdiv((a.free_bytes - b.free_bytes) * DAY_MS, elapsed_ms(a, b))) as i64
}

/// The consumption rate of every interval with a positive duration, oldest first.
pub open spec fn rates_of(t: Seq<CapacityPoint>) -> Seq<i64>
    decreases t.len(),
{
    if t.len() < 2 {
        Seq::empty()
    } else {
        let rest = rates_of(t.drop_last());
        let a = t[t.len() - 2];
        let b = t.last();
        if elapsed_ms(a, b) > 0 {
            rest.push(pair_rate(a, b))
        } else {
            rest
        }
    }
}

pub open spec fn i64_order() -> spec_fn(i64, i64) -> bool {
    |a: i64, b: i64| a > b
}

pub open spec fn median_of_sorted(t: Seq<i64>) -> i64
    recommends
        t.len() > 0,
{
    let m = t.len() / 2;
    if t.len() % 2 == 1 {
        t[m as int]
    } else {
        tdiv(t[m - 1] + t[m as int], 2) as i64
    }
}

/// The median of a non-empty list: the middle of its ascending order, or the
/// mean of the two middle values rounded toward zero.
pub open spec fn median_spec(s: Seq<i64>) -> i64 {
    median_of_sorted(stable_sort(s, i64_order()))
}

pub open spec fn count_positive(s: Seq<i64>) -> int
    decreases s.len(),
{
    if s.len() == 0 {
        0
    } else {
        count_positive(s.drop_last()) + if s.last() > 0 {
            1int
        } else {
            0int
        }
    }
}

pub open spec fn count_negative(s: Seq<i64>) -> int
    decreases s.len(),
{
    if s.len() == 0 {
        0
    } else {
        count_negative(s.drop_last()) + if s.last() < 0 {
            1int
        } else {
            0int
        }
    }
}

pub open spec fn deviations_of(s: Seq<i64>, center: i64) -> Seq<i64>
    decreases s.len(),
{
    if s.len() == 0 {
        Seq::empty()
    } else {
        deviations_of(s.drop_last(), center).push(
            clamp_i64(abs_int(s.last() - center)) as i64,
        )
    }
}

pub open spec fn floor_percent(confidence: Confidence) -> int {
    match confidence {
        Confidence::Early => 35,
        Confidence::Developing => 25,
        Confidence::Reliable => 15,
    }
}

/// The day range for a volume that is filling at `bytes_per_day`.
pub open spec fn estimate_spec(
    confidence: Confidence,
    bytes_per_day: i64,
    median_deviation: i64,
    observations: usize,
    span_days: i64,
    latest_free_bytes: i64,
    threshold_bytes: i64,
) -> StorageForecast {
    let floor_uncertainty = clamp_i64(tdiv(bytes_per_day * floor_percent(confidence), 100));
    let uncertainty = max_int(median_deviation as int, floor_uncertainty);
    let fast_rate = max_int(clamp_i64(bytes_per_day + uncertainty), 1) as i64;
    let slow_rate = max_int(
        max_int(clamp_i64(bytes_per_day - uncertainty), tdiv(bytes_per_day as int, 5)),
        1,
    ) as i64;
    let remaining = max_int(clamp_i64(latest_free_bytes - threshold_bytes), 0) as i64;
    let central_days = ceil_days_spec(remaining, bytes_per_day);
    let days_low = max_int(ceil_days_spec(remaining, fast_rate) as int, 1) as i64;
    let days_high = max_int(
        min_int(ceil_days_spec(remaining, slow_rate) as int, clamp_i64(central_days * 5)),
        days_low as int,
    ) as i64;
    StorageForecast {
        confidence,
        days_low,
        days_high,
        bytes_per_day,
        observations,
        span_days,
        latest_free_bytes,
        threshold_bytes,
    }
}

/// Whether the series reaches the magnitude test of the median rate with a
/// median of `i64::MIN`, whose absolute value does not fit in `i64`.
pub open spec fn rate_magnitude_overflows(points: Seq<CapacityPoint>, threshold_bytes: i64) -> bool {
    let valid = valid_points(points);
    let series = forecast_series(points);
    let observations = series.len();
    let span_days = span_days_of(series);
    let threshold = max_int(threshold_bytes as int, 0);
    let rates = rates_of(series);
    let bytes_per_day = median_spec(rates);
    let positive = count_positive(rates);
    let negative = count_negative(rates);
    &&& valid.len() > 0
    &&& confidence_spec(observations as int, span_days as int) is Some
    &&& series.last().free_bytes > threshold
    &&& !(positive > 0 && negative > 0 && positive * 2 <= rates.len())
    &&& bytes_per_day == i64::MIN
}

/// The forecast for a list of capacity observations and a low-space threshold.
pub open spec fn forecast_spec(points: Seq<CapacityPoint>, threshold_bytes: i64) -> ForecastState {
    let valid = valid_points(points);
    if valid.len() == 0 {
        ForecastState::NeedHistory { observations: 0, span_days: 0 }
    } else {
        let series = forecast_series(points);
        let observations = series.len() as usize;
        let span_days = span_days_of(series);
        match confidence_spec(observations as int, span_days as int) {
            None => ForecastState::NeedHistory { observations, span_days },
            Some(confidence) => {
                let latest_free_bytes = series.last().free_bytes;
                let threshold = max_int(threshold_bytes as int, 0) as i64;
                if latest_free_bytes <= threshold {
                    ForecastState::AlreadyLow { free_bytes: latest_free_bytes, threshold_bytes: threshold }
                } else {
                    let rates = rates_of(series);
                    let bytes_per_day = median_spec(rates);
                    let positive = count_positive(rates);
                    let negative = count_negative(rates);
                    if positive > 0 && negative > 0 && positive * 2 <= rates.len() {
                        ForecastState::Volatile { observations, span_days }
                    } else if abs_int(bytes_per_day as int) < MIN_RATE_BYTES_PER_DAY {
                        ForecastState::Flat { observations, span_days }
                    } else if bytes_per_day < 0 {
                        ForecastState::Improving { bytes_per_day, observations, span_days }
                    } else {
                        let median_deviation = median_spec(
                            deviations_of(stable_sort(rates, i64_order()), bytes_per_day),
                        );
                        if median_deviation > clamp_i64(bytes_per_day * 2) {
                            ForecastState::Volatile { observations, span_days }
                        } else {
                            ForecastState::Estimate(
                                estimate_spec(
                                    confidence,
                                    bytes_per_day,
                                    median_deviation,
                                    observations,
                                    span_days,
                                    latest_free_bytes,
                                    threshold,
                                ),
                            )
                        }
                    }
                }
            },
        }
    }
}

// ───────────────────────── lemmas ─────────────────────────

proof fn lemma_first_not_before(t: Seq<CapacityPoint>, ms: i64, i: int)
    requires
        0 <= i <= t.len(),
    ensures
        i <= first_not_before(t, ms, i) <= t.len(),
        forall|j: int| i <= j < first_not_before(t, ms, i) ==> #[trigger] t[j].captured_at_ms < ms,
        first_not_before(t, ms, i) < t.len() ==> t[first_not_before(t, ms, i)].captured_at_ms
            >= ms,
    decreases t.len() - i,
{
    if i < t.len() && t[i].captured_at_ms < ms {
        lemma_first_not_before(t, ms, i + 1);
    }
}

proof fn lemma_place_point(t: Seq<CapacityPoint>, p: CapacityPoint)
    requires
        strictly_increasing(t),
        all_valid(t),
        point_valid(p),
    ensures
        strictly_increasing(place_point(t, p)),
        all_valid(place_point(t, p)),
        place_point(t, p).len() >= 1,
{
    let k = first_not_before(t, p.captured_at_ms, 0);
    lemma_first_not_before(t, p.captured_at_ms, 0);
    let r = place_point(t, p);
    if k < t.len() && t[k].captured_at_ms == p.captured_at_ms {
        assert forall|i: int, j: int| 0 <= i < j < r.len() implies #[trigger] r[i].captured_at_ms
            < #[trigger] r[j].captured_at_ms by {
            if i == k {
                assert(t[k].captured_at_ms < t[j].captured_at_ms);
            } else if j == k {
                assert(t[i].captured_at_ms < t[k].captured_at_ms);
            }
        }
    } else {
        assert forall|i: int, j: int| 0 <= i < j < r.len() implies #[trigger] r[i].captured_at_ms
            < #[trigger] r[j].captured_at_ms by {
            if j < k {
                assert(r[i] == t[i] && r[j] == t[j]);
            } else if j == k {
                assert(r[i] == t[i]);
            } else if i < k {
                assert(r[i] == t[i] && r[j] == t[j - 1]);
                assert(t[k].captured_at_ms < t[j - 1].captured_at_ms || k == j - 1);
            } else if i == k {
                assert(r[j] == t[j - 1]);
                assert(t[k].captured_at_ms < t[j - 1].captured_at_ms || k == j - 1);
            } else {
                assert(r[i] == t[i - 1] && r[j] == t[j - 1]);
            }
        }
        assert forall|i: int| 0 <= i < r.len() implies point_valid(#[trigger] r[i]) by {
            if i < k {
                assert(r[i] == t[i]);
            } else if i > k {
                assert(r[i] == t[i - 1]);
            }
        }
    }
}

/// Each instant appears once in the forecast series, oldest first, and every
/// entry is a valid observation.
pub proof fn lemma_timeline_ordered(s: Seq<CapacityPoint>)
    requires
        all_valid(s),
    ensures
        strictly_increasing(timeline(s)),
        all_valid(timeline(s)),
        s.len() > 0 ==> timeline(s).len() > 0,
        timeline(s).len() <= s.len(),
    decreases s.len(),
{
    if s.len() > 0 {
        assert(all_valid(s.drop_last()));
        lemma_timeline_ordered(s.drop_last());
        assert(point_valid(s[s.len() - 1]));
        lemma_place_point(timeline(s.drop_last()), s.last());
        let t = timeline(s.drop_last());
        let k = first_not_before(t, s.last().captured_at_ms, 0);
        lemma_first_not_before(t, s.last().captured_at_ms, 0);
    }
}

proof fn lemma_valid_points_valid(s: Seq<CapacityPoint>)
    ensures
        all_valid(valid_points(s)),
        valid_points(s).len() <= s.len(),
    decreases s.len(),
{
    if s.len() > 0 {
        lemma_valid_points_valid(s.drop_last());
    }
}

proof fn lemma_with_total_valid(s: Seq<CapacityPoint>, total: i64)
    requires
        all_valid(s),
    ensures
        all_valid(with_total(s, total)),
        with_total(s, total).len() <= s.len(),
    decreases s.len(),
{
    if s.len() > 0 {
        assert(all_valid(s.drop_last()));
        lemma_with_total_valid(s.drop_last(), total);
    }
}

/// On a strictly increasing series every interval has a positive duration.
proof fn lemma_rates_len(t: Seq<CapacityPoint>)
    requires
        strictly_increasing(t),
        all_valid(t),
    ensures
        t.len() >= 1 ==> rates_of(t).len() == t.len() - 1,
    decreases t.len(),
{
    if t.len() >= 2 {
        assert(strictly_increasing(t.drop_last()));
        assert(all_valid(t.drop_last()));
        lemma_rates_len(t.drop_last());
        assert(t[t.len() - 2].captured_at_ms < t[t.len() - 1].captured_at_ms);
    }
}

// ───────────────────────── executable ─────────────────────────

fn i64_after(a: &i64, b: &i64) -> (r: bool)
    ensures
        r == (i64_order())(*a, *b),
{
    *a > *b
}

/// Sort `values` ascending and return their median.
pub fn median(values: &mut Vec<i64>) -> (m: i64)
    requires
        old(values).len() > 0,
    ensures
        final(values)@ == stable_sort(old(values)@, i64_order()),
        m == median_spec(old(values)@),
{
    let mut taken: Vec<i64> = Vec::new();
    std::mem::swap(&mut taken, values);
    let sorted = sort_stable(taken, i64_after, Ghost(i64_order()));
    *values = sorted;
    proof {
        crate::sorting::lemma_stable_sort_len(old(values)@, i64_order());
    }
    let middle = values.len() / 2;
    if values.len() % 2 == 1 {
        values[middle]
    } else {
        let sum = values[middle - 1] as i128 + values[middle] as i128;
        tdiv_i128(sum, 2) as i64
    }
}

/// The evidence level a series of this length and span supports, if any.
pub fn confidence(observations: usize, span_days: i64) -> (c: Option<Confidence>)
    ensures
        c == confidence_spec(observations as int, span_days as int),
{
    if observations >= 8 && span_days >= 30 {
        Some(Confidence::Reliable)
    } else if observations >= 5 && span_days >= 14 {
        Some(Confidence::Developing)
    } else if observations >= 3 && span_days >= 7 {
        Some(Confidence::Early)
    } else {
        None
    }
}

fn valid_of(points: &[CapacityPoint]) -> (valid: Vec<CapacityPoint>)
    ensures
        valid@ == valid_points(points@),
{
    let mut valid: Vec<CapacityPoint> = Vec::new();
    let mut i: usize = 0;
    while i < points.len()
        invariant
            i <= points.len(),
            valid@ == valid_points(points@.take(i as int)),
        decreases points.len() - i,
    {
        let p = points[i];
        if p.captured_at_ms >= 0 && p.total_bytes > 0 && p.free_bytes >= 0 && p.free_bytes
            <= p.total_bytes {
            valid.push(p);
        }
        proof {
            assert(points@.take(i + 1).drop_last() =~= points@.take(i as int));
        }
        i += 1;
    }
    assert(points@.take(points.len() as int) =~= points@);
    valid
}

fn latest_of(valid: &Vec<CapacityPoint>) -> (p: CapacityPoint)
    requires
        valid.len() > 0,
    ensures
        p == latest_point(valid@),
{
    let mut best = valid[0];
    let mut i: usize = 1;
    assert(valid@.take(1).drop_last().len() == 0);
    while i < valid.len()
        invariant
            1 <= i <= valid.len(),
            best == latest_point(valid@.take(i as int)),
        decreases valid.len() - i,
    {
        let p = valid[i];
        if p.captured_at_ms >= best.captured_at_ms {
            best = p;
        }
        proof {
            assert(valid@.take(i + 1).drop_last() =~= valid@.take(i as int));
        }
        i += 1;
    }
    assert(valid@.take(valid.len() as int) =~= valid@);
    best
}

fn series_of(valid: &Vec<CapacityPoint>, total: i64) -> (t: Vec<CapacityPoint>)
    ensures
        t@ == timeline(with_total(valid@, total)),
{
    let mut t: Vec<CapacityPoint> = Vec::new();
    let mut i: usize = 0;
    let ghost mut kept: Seq<CapacityPoint> = Seq::empty();
    while i < valid.len()
        invariant
            i <= valid.len(),
            kept == with_total(valid@.take(i as int), total),
            t@ == timeline(kept),
        decreases valid.len() - i,
    {
        let p = valid[i];
        proof {
            assert(valid@.take(i + 1).drop_last() =~= valid@.take(i as int));
        }
        if p.total_bytes == total {
            let mut k: usize = 0;
            while k < t.len() && t[k].captured_at_ms < p.captured_at_ms
                invariant
                    k <= t.len(),
                    first_not_before(t@, p.captured_at_ms, 0) == first_not_before(
                        t@,
                        p.captured_at_ms,
                        k as int,
                    ),
                decreases t.len() - k,
            {
                k += 1;
            }
            if k < t.len() && t[k].captured_at_ms == p.captured_at_ms {
                t.set(k, p);
            } else {
                t.insert(k, p);
            }
            proof {
                assert(kept.push(p).drop_last() =~= kept);
                kept = kept.push(p);
            }
        }
        i += 1;
    }
    assert(valid@.take(valid.len() as int) =~= valid@);
    t
}

fn rates_from(t: &Vec<CapacityPoint>) -> (rates: Vec<i64>)
    ensures
        rates@ == rates_of(t@),
{
    let mut rates: Vec<i64> = Vec::new();
    if t.len() < 2 {
        return rates;
    }
    let mut i: usize = 1;
    assert(rates_of(t@.take(1)) =~= Seq::<i64>::empty());
    while i < t.len()
        invariant
            1 <= i <= t.len(),
            rates@ == rates_of(t@.take(i as int)),
        decreases t.len() - i,
    {
        let a = t[i - 1];
        let b = t[i];
        let elapsed = clamp_i128(b.captured_at_ms as i128 - a.captured_at_ms as i128);
        if elapsed > 0 {
            let diff = a.free_bytes as i128 - b.free_bytes as i128;
            assert(-0x1_0000_0000_0000_0000 < diff < 0x1_0000_0000_0000_0000);
            assert(-0x1_0000_0000_0000_0000_0000_0000 < diff * 86_400_000 < 0x1_0000_0000_0000_0000_0000_0000) by (nonlinear_arith)
                requires
                    -0x1_0000_0000_0000_0000 < diff < 0x1_0000_0000_0000_0000,
            ;
            let numerator = diff * (DAY_MS as i128);
            let rate = clamp_i128(tdiv_i128(numerator, elapsed as i128));
            rates.push(rate);
        }
        proof {
            let s = t@.take(i + 1);
            assert(s.drop_last() =~= t@.take(i as int));
            assert(s[s.len() - 2] == a);
        }
        i += 1;
    }
    assert(t@.take(t.len() as int) =~= t@);
    rates
}

fn count_signs(rates: &Vec<i64>) -> (r: (usize, usize))
    ensures
        r.0 == count_positive(rates@),
        r.1 == count_negative(rates@),
        r.0 <= rates.len(),
{
    let mut pos: usize = 0;
    let mut neg: usize = 0;
    let mut i: usize = 0;
    while i < rates.len()
        invariant
            i <= rates.len(),
            pos == count_positive(rates@.take(i as int)),
            neg == count_negative(rates@.take(i as int)),
            pos <= i,
            neg <= i,
        decreases rates.len() - i,
    {
        proof {
            assert(rates@.take(i + 1).drop_last() =~= rates@.take(i as int));
        }
        if rates[i] > 0 {
            pos += 1;
        } else if rates[i] < 0 {
            neg += 1;
        }
        i += 1;
    }
    assert(rates@.take(rates.len() as int) =~= rates@);
    (pos, neg)
}

fn deviations_from(rates: &Vec<i64>, center: i64) -> (d: Vec<i64>)
    ensures
        d@ == deviations_of(rates@, center),
        d.len() == rates.len(),
{
    let mut d: Vec<i64> = Vec::new();
    let mut i: usize = 0;
    while i < rates.len()
        invariant
            i <= rates.len(),
            d@ == deviations_of(rates@.take(i as int), center),
            d.len() == i,
        decreases rates.len() - i,
    {
        let diff = rates[i] as i128 - center as i128;
        let magnitude = if diff < 0 { -diff } else { diff };
        d.push(clamp_i128(magnitude));
        proof {
            assert(rates@.take(i + 1).drop_last() =~= rates@.take(i as int));
        }
        i += 1;
    }
    assert(rates@.take(rates.len() as int) =~= rates@);
    d
}

fn estimate(
    confidence: Confidence,
    bytes_per_day: i64,
    median_deviation: i64,
    observations: usize,
    span_days: i64,
    latest_free_bytes: i64,
    threshold_bytes: i64,
) -> (f: StorageForecast)
    ensures
        f == estimate_spec(
            confidence,
            bytes_per_day,
            median_deviation,
            observations,
            span_days,
            latest_free_bytes,
            threshold_bytes,
        ),
{
    let floor_percent: i128 = match confidence {
        Confidence::Early => 35,
        Confidence::Developing => 25,
        Confidence::Reliable => 15,
    };
    let floor_uncertainty = clamp_i128(tdiv_i128(bytes_per_day as i128 * floor_percent, 100));
    let uncertainty = if median_deviation >= floor_uncertainty {
        median_deviation
    } else {
        floor_uncertainty
    };
    let fast_sum = clamp_i128(bytes_per_day as i128 + uncertainty as i128);
    let fast_rate = if fast_sum >= 1 { fast_sum } else { 1 };
    let slow_diff = clamp_i128(bytes_per_day as i128 - uncertainty as i128);
    let fifth = tdiv_i128(bytes_per_day as i128, 5) as i64;
    let slow_base = if slow_diff >= fifth { slow_diff } else { fifth };
    let slow_rate = if slow_base >= 1 { slow_base } else { 1 };
    let remaining_raw = clamp_i128(latest_free_bytes as i128 - threshold_bytes as i128);
    let remaining = if remaining_raw >= 0 { remaining_raw } else { 0 };
    let central_days = ceil_days(remaining, bytes_per_day);
    let low_raw = ceil_days(remaining, fast_rate);
    let days_low = if low_raw >= 1 { low_raw } else { 1 };
    let slow_days = ceil_days(remaining, slow_rate);
    let central_cap = clamp_i128(central_days as i128 * 5);
    let high_raw = if slow_days <= central_cap { slow_days } else { central_cap };
    let days_high = if high_raw >= days_low { high_raw } else { days_low };
    StorageForecast {
        confidence,
        days_low,
        days_high,
        bytes_per_day,
        observations,
        span_days,
        latest_free_bytes,
        threshold_bytes,
    }
}

/// Forecast when free space falls to `threshold_bytes`.
pub fn analyze(points: &[CapacityPoint], threshold_bytes: i64) -> (state: ForecastState)
    requires
        !rate_magnitude_overflows(points@, threshold_bytes),
    ensures
        state == forecast_spec(points@, threshold_bytes),
{
    try_analyze(points, threshold_bytes).unwrap()
}

/// The forecast, or `None` for the observations whose median rate of change
/// has no magnitude in `i64` (a rate of exactly `i64::MIN` bytes a day).
pub fn try_analyze(points: &[CapacityPoint], threshold_bytes: i64) -> (state: Option<ForecastState>)
    ensures
        rate_magnitude_overflows(points@, threshold_bytes) ==> state is None,
        !rate_magnitude_overflows(points@, threshold_bytes) ==> state == Some(forecast_spec(points@, threshold_bytes)),
{
    let valid = valid_of(points);
    if valid.len() == 0 {
        return Some(ForecastState::NeedHistory { observations: 0, span_days: 0 });
    }
    let latest_total = latest_of(&valid).total_bytes;
    let series = series_of(&valid, latest_total);
    proof {
        lemma_valid_points_valid(points@);
        lemma_with_total_valid(valid@, latest_total);
        lemma_timeline_ordered(with_total(valid@, latest_total));
    }
    let observations = series.len();
    let span_days = if observations == 0 {
        0
    } else {
        let first = series[0].captured_at_ms;
        let last = series[observations - 1].captured_at_ms;
        let d = tdiv_i128(last as i128 - first as i128, DAY_MS as i128);
        if d < 0 {
            0
        } else {
            d as i64
        }
    };
    let confidence = match confidence(observations, span_days) {
        Some(c) => c,
        None => {
            return Some(ForecastState::NeedHistory { observations, span_days });
        },
    };
    let latest_free_bytes = series[observations - 1].free_bytes;
    let threshold_bytes = if threshold_bytes >= 0 { threshold_bytes } else { 0 };
    if latest_free_bytes <= threshold_bytes {
        return Some(ForecastState::AlreadyLow { free_bytes: latest_free_bytes, threshold_bytes });
    }
    let mut rates = rates_from(&series);
    proof {
        lemma_rates_len(series@);
    }
    let (positive, negative) = count_signs(&rates);
    let ghost rates_before = rates@;
    let bytes_per_day = median(&mut rates);
    proof {
        crate::sorting::lemma_stable_sort_len(rates_before, i64_order());
    }
    let rate_count = rates.len();
    if positive > 0 && negative > 0 && positive <= rate_count / 2 {
        return Some(ForecastState::Volatile { observations, span_days });
    }
    if bytes_per_day == i64::MIN {
        return None;
    }
    let magnitude: i128 = if bytes_per_day < 0 {
        -(bytes_per_day as i128)
    } else {
        bytes_per_day as i128
    };
    if magnitude < MIN_RATE_BYTES_PER_DAY as i128 {
        return Some(ForecastState::Flat { observations, span_days });
    }
    if bytes_per_day < 0 {
        return Some(ForecastState::Improving { bytes_per_day, observations, span_days });
    }
    let mut deviations = deviations_from(&rates, bytes_per_day);
    let median_deviation = median(&mut deviations);
    let double_rate = clamp_i128(bytes_per_day as i128 * 2);
    if median_deviation > double_rate {
        return Some(ForecastState::Volatile { observations, span_days });
    }
    Some(ForecastState::Estimate(
        estimate(
            confidence,
            bytes_per_day,
            median_deviation,
            observations,
            span_days,
            latest_free_bytes,
            threshold_bytes,
        ),
    ))
}

proof fn lemma_valid_points_front(q: CapacityPoint, points: Seq<CapacityPoint>)
    requires
        !point_valid(q),
    ensures
        valid_points(seq![q] + points) == valid_points(points),
    decreases points.len(),
{
    let s = seq![q] + points;
    if points.len() == 0 {
        assert(s =~= seq![q]);
        assert(s.drop_last() =~= Seq::<CapacityPoint>::empty());
        assert(s.last() == q);
        assert(valid_points(s) == valid_points(s.drop_last()));
        assert(valid_points(s.drop_last()) =~= Seq::<CapacityPoint>::empty());
    } else {
        lemma_valid_points_front(q, points.drop_last());
        assert(s.drop_last() =~= seq![q] + points.drop_last());
        assert(s.last() == points.last());
    }
}

/// An observation that is not valid changes no forecast, whether it comes
/// first or last.
pub proof fn lemma_invalid_observation_ignored(points: Seq<CapacityPoint>, q: CapacityPoint, threshold_bytes: i64)
    requires
        !point_valid(q),
    ensures
        forecast_spec(points.push(q), threshold_bytes) == forecast_spec(points, threshold_bytes),
        forecast_spec(seq![q] + points, threshold_bytes) == forecast_spec(points, threshold_bytes),
        rate_magnitude_overflows(points.push(q), threshold_bytes) == rate_magnitude_overflows(points, threshold_bytes),
        rate_magnitude_overflows(seq![q] + points, threshold_bytes) == rate_magnitude_overflows(points, threshold_bytes),
{
    assert(points.push(q).drop_last() =~= points);
    assert(valid_points(points.push(q)) == valid_points(points));
    lemma_valid_points_front(q, points);
}

/// Rounding up a division by a larger rate gives no more days.
proof fn lemma_ceil_div_mono(r: int, a: int, b: int)
    requires
        r > 0,
        1 <= b <= a,
    ensures
        1 <= (r + a - 1) / a <= (r + b - 1) / b,
        (r + b - 1) / b <= r,
        r <= b ==> (r + b - 1) / b == 1,
{
    let q = (r + b - 1) / b;
    assert(q * b <= r + b - 1 && r + b - 1 < q * b + b) by (nonlinear_arith)
        requires
            b >= 1,
            q == (r + b - 1) / b,
    ;
    assert(q * b >= r);
    assert(q >= 1) by (nonlinear_arith)
        requires
            q * b >= r,
            r > 0,
            b >= 1,
    ;
    assert(q <= r) by (nonlinear_arith)
        requires
            q * b <= r + b - 1,
            b >= 1,
            q >= 1,
    ;
    assert(q * a >= r) by (nonlinear_arith)
        requires
            q * b >= r,
            a >= b,
            q >= 1,
    ;
    let p = (r + a - 1) / a;
    assert(p * a <= r + a - 1 && r + a - 1 < p * a + a) by (nonlinear_arith)
        requires
            a >= 1,
            p == (r + a - 1) / a,
    ;
    assert(p <= q) by (nonlinear_arith)
        requires
            p * a <= r + a - 1,
            q * a >= r,
            a >= 1,
    ;
    assert(p >= 1) by (nonlinear_arith)
        requires
            r + a - 1 < p * a + a,
            r > 0,
            a >= 1,
    ;
    if r <= b {
        assert(q <= 1) by (nonlinear_arith)
            requires
                q * b <= r + b - 1,
                r <= b,
                b >= 1,
        ;
    }
}

/// The days an estimate gives for a positive amount at a positive rate are
/// the division rounded up.
proof fn lemma_ceil_days_exact(bytes: i64, rate: i64)
    requires
        bytes > 0,
        rate >= 1,
    ensures
        ceil_days_spec(bytes, rate) == (bytes + rate - 1) / (rate as int),
{
    lemma_ceil_div_mono(bytes as int, rate as int, rate as int);
}

/// Every estimate brackets the days left until free space falls to the
/// threshold at the median rate: the short end comes no later and the long
/// end no earlier, and when a day's use already reaches the threshold the
/// short end is one day.
pub proof fn lemma_estimate_brackets_threshold(points: Seq<CapacityPoint>, threshold_bytes: i64)
    ensures
        forecast_spec(points, threshold_bytes) matches ForecastState::Estimate(f) ==> {
            let left = f.latest_free_bytes - f.threshold_bytes;
            let days = (left + f.bytes_per_day - 1) / (f.bytes_per_day as int);
            &&& f.threshold_bytes == max_int(threshold_bytes as int, 0)
            &&& left > 0
            &&& f.bytes_per_day > 0
            &&& f.days_low <= days <= f.days_high
            &&& left <= f.bytes_per_day ==> f.days_low == 1
        },
{
    if let ForecastState::Estimate(f) = forecast_spec(points, threshold_bytes) {
        let series = forecast_series(points);
        let rates = rates_of(series);
        let bpd = median_spec(rates);
        let md = median_spec(deviations_of(stable_sort(rates, i64_order()), bpd));
        let observations = series.len() as usize;
        let confidence = confidence_spec(observations as int, span_days_of(series) as int)->Some_0;
        let latest = series.last().free_bytes;
        let thr = max_int(threshold_bytes as int, 0) as i64;
        assert(f == estimate_spec(confidence, bpd, md, observations, span_days_of(series), latest, thr));
        assert(bpd >= MIN_RATE_BYTES_PER_DAY);
        assert(latest > thr);
        let pct = floor_percent(confidence);
        assert(bpd * pct >= 0) by (nonlinear_arith)
            requires
                bpd >= 0,
                pct >= 0,
        ;
        let floor_uncertainty = clamp_i64(tdiv(bpd * pct, 100));
        assert(floor_uncertainty >= 0);
        let uncertainty = max_int(md as int, floor_uncertainty);
        let fast = max_int(clamp_i64(bpd + uncertainty), 1) as i64;
        let slow = max_int(max_int(clamp_i64(bpd - uncertainty), tdiv(bpd as int, 5)), 1) as i64;
        assert(fast >= bpd);
        assert(1 <= slow <= bpd);
        let remaining = max_int(clamp_i64(latest - thr), 0) as i64;
        assert(remaining == latest - thr);
        lemma_ceil_div_mono(remaining as int, fast as int, bpd as int);
        lemma_ceil_div_mono(remaining as int, bpd as int, slow as int);
        lemma_ceil_days_exact(remaining, fast);
        lemma_ceil_days_exact(remaining, bpd);
        lemma_ceil_days_exact(remaining, slow);
        let central = ceil_days_spec(remaining, bpd);
        assert(clamp_i64(central * 5) >= central);
    }
}

} // verus!
