//! Guided reclaim: a whole-gigabyte goal, the plan that meets it with safe
//! findings, and the outcome once the cleanup ran.

use vstd::prelude::*;
use crate::rules::{Rec, Tier};
use crate::sorting::{stable_sort, sort_stable_with, lemma_stable_sort_len};
use crate::text::{trim, trim_spec};

verus! {

pub const GB: i64 = 1000000000;

#[derive(Clone, Copy, Debug, PartialEq, Eq, Structural)]
pub enum GoalError {
    Empty,
    NotWholeGigabytes,
    Zero,
    ExceedsUsedSpace,
}

// ───────────────────────── integer text ─────────────────────────

pub open spec fn is_digit(c: char) -> bool {
    '0' <= c && c <= '9'
}

pub open spec fn all_digits(s: Seq<char>) -> bool {
    forall|i: int| 0 <= i < s.len() ==> is_digit(#[trigger] s[i])
}

pub open spec fn digits_value(s: Seq<char>) -> nat
    decreases s.len(),
{
    if s.len() == 0 {
        0
    } else {
        digits_value(s.drop_last()) * 10 + ((s.last() as int) - 48) as nat
    }
}

/// `i64::from_str`: an optional `+` or `-`, then one or more ASCII digits,
/// with a value that fits.
pub open spec fn parse_i64_spec(s: Seq<char>) -> Option<i64> {
    if s.len() == 0 {
        None
    } else {
        let neg = s[0] == '-';
        let ds = if s[0] == '+' || neg {
            s.drop_first()
        } else {
            s
        };
        if ds.len() == 0 || !all_digits(ds) {
            None
        } else {
            let v = digits_value(ds) as int;
            let x = if neg {
                -v
            } else {
                v
            };
            if i64::MIN <= x <= i64::MAX {
                Some(x as i64)
            } else {
                None
            }
        }
    }
}

proof fn lemma_digits_grow(s: Seq<char>, i: int, j: int)
    requires
        0 <= i <= j <= s.len(),
        all_digits(s),
    ensures
        digits_value(s.take(i)) <= digits_value(s.take(j)),
    decreases j - i,
{
    if i < j {
        lemma_digits_grow(s, i, j - 1);
        assert(s.take(j).drop_last() =~= s.take(j - 1));
    }
}

pub fn parse_i64(s: &str) -> (r: Option<i64>)
    ensures
        r == parse_i64_spec(s@),
{
    let n = s.unicode_len();
    if n == 0 {
        return None;
    }
    let first = s.get_char(0);
    let neg = first == '-';
    let start: usize = if first == '+' || neg {
        1
    } else {
        0
    };
    let ghost ds = s@.skip(start as int);
    proof {
        if start == 1 {
            assert(ds =~= s@.drop_first());
        } else {
            assert(ds =~= s@);
        }
    }
    if start == n {
        return None;
    }
    let mut acc: u128 = 0;
    let mut i: usize = start;
    while i < n
        invariant
            n == s@.len(),
            start <= i <= n,
            ds == s@.skip(start as int),
            n > 0,
            start < n,
            ds == (if s@[0] == '+' || s@[0] == '-' {
                s@.drop_first()
            } else {
                s@
            }),
            neg == (s@[0] == '-'),
            forall|k: int| 0 <= k < i - start ==> is_digit(#[trigger] ds[k]),
            acc == digits_value(ds.take(i - start)),
            acc <= 9223372036854775808,
        decreases n - i,
    {
        let c = s.get_char(i);
        if !('0' <= c && c <= '9') {
            proof {
                assert(ds[i - start] == c);
                assert(!is_digit(ds[(i - start) as int]));
            }
            return None;
        }
        proof {
            assert(ds.take(i - start + 1).drop_last() =~= ds.take(i - start));
            assert(ds.take(i - start + 1).last() == c);
        }
        acc = acc * 10 + ((c as u32) - 48) as u128;
        proof {
            assert(acc == digits_value(ds.take(i - start + 1)));
        }
        if acc > 9223372036854775808 {
            proof {
                let j = i + 1 - start;
                if all_digits(ds) {
                    lemma_digits_grow(ds, j, ds.len() as int);
                    assert(ds.take(ds.len() as int) =~= ds);
                    assert(digits_value(ds) > 9223372036854775808);
                }
            }
            return None;
        }
        i += 1;
    }
    proof {
        assert(ds.take(n - start) =~= ds);
        assert(all_digits(ds));
    }
    if neg {
        if acc == 9223372036854775808 {
            Some(i64::MIN)
        } else {
            Some(-(acc as i64))
        }
    } else if acc <= 9223372036854775807 {
        Some(acc as i64)
    } else {
        None
    }
}

// ───────────────────────── the goal ─────────────────────────

/// The goal a typed answer asks for: whole gigabytes, above zero, and no more
/// than the space in use.
pub open spec fn goal_spec(input: Seq<char>, used_bytes: i64) -> Result<i64, GoalError> {
    let t = trim_spec(input);
    if t.len() == 0 {
        Err(GoalError::Empty)
    } else {
        match parse_i64_spec(t) {
            None => Err(GoalError::NotWholeGigabytes),
            Some(g) => if g <= 0 {
                Err(GoalError::Zero)
            } else if g * GB > i64::MAX {
                Err(GoalError::ExceedsUsedSpace)
            } else if used_bytes <= 0 || g * GB > used_bytes {
                Err(GoalError::ExceedsUsedSpace)
            } else {
                Ok((g * GB) as i64)
            },
        }
    }
}

pub fn parse_goal_gb(input: &str, used_bytes: i64) -> (r: Result<i64, GoalError>)
    ensures
        r == goal_spec(input@, used_bytes),
{
    let t = trim(input);
    if t.unicode_len() == 0 {
        return Err(GoalError::Empty);
    }
    let whole = match parse_i64(t) {
        Some(v) => v,
        None => {
            return Err(GoalError::NotWholeGigabytes);
        },
    };
    if whole <= 0 {
        return Err(GoalError::Zero);
    }
    let bytes = match whole.checked_mul(GB) {
        Some(b) => b,
        None => {
            return Err(GoalError::ExceedsUsedSpace);
        },
    };
    if used_bytes <= 0 || bytes > used_bytes {
        return Err(GoalError::ExceedsUsedSpace);
    }
    Ok(bytes)
}

// ───────────────────────── the plan ─────────────────────────

pub struct PlanItem {
    pub id: String,
    pub bytes: i64,
    pub estimate: bool,
}

impl Clone for PlanItem {
    fn clone(&self) -> (r: PlanItem)
        ensures
            r == *self,
    {
        PlanItem { id: self.id.clone(), bytes: self.bytes, estimate: self.estimate }
    }
}

pub struct ReclaimPlan {
    pub goal_bytes: i64,
    pub items: Vec<PlanItem>,
    pub selected_bytes: i64,
    pub measured_bytes: i64,
    pub estimated_bytes: i64,
    pub shortfall_bytes: i64,
    pub caution_bytes: i64,
}

pub open spec fn max0(v: int) -> int {
    if v < 0 {
        0
    } else {
        v
    }
}

/// `a + b`, held at the bounds of `i64`.
pub open spec fn sat_add(a: i64, b: i64) -> i64 {
    if a + b > i64::MAX {
        i64::MAX
    } else if a + b < i64::MIN {
        i64::MIN
    } else {
        (a + b) as i64
    }
}

pub fn saturating_add_i64(a: i64, b: i64) -> (r: i64)
    ensures
        r == sat_add(a, b),
{
    match a.checked_add(b) {
        Some(v) => v,
        None => if b > 0 {
            i64::MAX
        } else {
            i64::MIN
        },
    }
}

/// The bytes of the caution findings, negative sizes counted as zero.
pub open spec fn caution_total(recs: Seq<Rec>) -> int
    decreases recs.len(),
{
    if recs.len() == 0 {
        0
    } else {
        caution_total(recs.drop_last()) + if recs.last().tier == Tier::Caution {
            max0(recs.last().bytes as int)
        } else {
            0
        }
    }
}

/// The safe findings with a positive size, as plan items, in order.
pub open spec fn candidates(recs: Seq<Rec>) -> Seq<PlanItem>
    decreases recs.len(),
{
    if recs.len() == 0 {
        Seq::empty()
    } else {
        let rest = candidates(recs.drop_last());
        let r = recs.last();
        if r.tier == Tier::Safe && r.bytes > 0 {
            rest.push(PlanItem { id: r.id, bytes: r.bytes, estimate: r.estimate })
        } else {
            rest
        }
    }
}

/// Lexicographic order of character sequences by code point; for UTF-8 text
/// this is the order of `String`.
pub open spec fn chars_lt(a: Seq<char>, b: Seq<char>) -> bool
    decreases a.len(),
{
    if a.len() == 0 {
        b.len() > 0
    } else if b.len() == 0 {
        false
    } else if a[0] != b[0] {
        a[0] < b[0]
    } else {
        chars_lt(a.drop_first(), b.drop_first())
    }
}

pub fn chars_less(a: &str, b: &str) -> (r: bool)
    ensures
        r == chars_lt(a@, b@),
{
    let n = a.unicode_len();
    let m = b.unicode_len();
    let mut i: usize = 0;
    assert(a@.skip(0) =~= a@);
    assert(b@.skip(0) =~= b@);
    while i < n && i < m && a.get_char(i) == b.get_char(i)
        invariant
            n == a@.len(),
            m == b@.len(),
            i <= n,
            i <= m,
            chars_lt(a@, b@) == chars_lt(a@.skip(i as int), b@.skip(i as int)),
        decreases n - i,
    {
        proof {
            assert(a@.skip(i as int).drop_first() =~= a@.skip(i + 1));
            assert(b@.skip(i as int).drop_first() =~= b@.skip(i + 1));
        }
        i += 1;
    }
    if i == n {
        i < m
    } else if i == m {
        false
    } else {
        a.get_char(i) < b.get_char(i)
    }
}

/// `a` goes after `b`: estimates after measured items, then smaller first
/// is wrong way round (larger first), then by identifier.
pub open spec fn item_after(a: PlanItem, b: PlanItem) -> bool {
    (a.estimate && !b.estimate) || (a.estimate == b.estimate && (a.bytes < b.bytes || (a.bytes
        == b.bytes && chars_lt(b.id@, a.id@))))
}

fn item_after_exec(_ctx: &(), a: &PlanItem, b: &PlanItem) -> (r: bool)
    ensures
        r == item_after(*a, *b),
{
    (a.estimate && !b.estimate) || (a.estimate == b.estimate && (a.bytes < b.bytes || (a.bytes
        == b.bytes && chars_less(b.id.as_str(), a.id.as_str()))))
}

/// Items taken in order while the running total is below the goal.
pub open spec fn select(cands: Seq<PlanItem>, goal: i64, acc: i64) -> Seq<PlanItem>
    decreases cands.len(),
{
    if cands.len() == 0 || acc >= goal {
        Seq::empty()
    } else {
        seq![cands[0]] + select(cands.drop_first(), goal, sat_add(acc, cands[0].bytes))
    }
}

/// The running total after taking `items`, held at the bounds of `i64`.
pub open spec fn sat_total(items: Seq<PlanItem>, acc: i64) -> i64
    decreases items.len(),
{
    if items.len() == 0 {
        acc
    } else {
        sat_total(items.drop_first(), sat_add(acc, items[0].bytes))
    }
}

pub open spec fn sum_where(items: Seq<PlanItem>, estimate: bool) -> int
    decreases items.len(),
{
    if items.len() == 0 {
        0
    } else {
        sum_where(items.drop_last(), estimate) + if items.last().estimate == estimate {
            items.last().bytes as int
        } else {
            0
        }
    }
}

pub open spec fn plan_order(recs: Seq<Rec>) -> Seq<PlanItem> {
    stable_sort(candidates(recs), |a: PlanItem, b: PlanItem| item_after(a, b))
}

/// The items of the plan for `goal`: measured safe findings first, larger
/// first, then by identifier; estimates only after them; taken until the goal
/// is met.
pub open spec fn plan_items(recs: Seq<Rec>, goal: i64) -> Seq<PlanItem> {
    select(plan_order(recs), if goal < 0 { 0 } else { goal }, 0)
}

proof fn lemma_select_step(cands: Seq<PlanItem>, goal: i64, acc: i64, i: int)
    requires
        0 <= i < cands.len(),
        acc < goal,
    ensures
        select(cands.skip(i), goal, acc) == seq![cands[i]] + select(
            cands.skip(i + 1),
            goal,
            sat_add(acc, cands[i].bytes),
        ),
{
    assert(cands.skip(i).drop_first() =~= cands.skip(i + 1));
}

proof fn lemma_candidates_positive(recs: Seq<Rec>)
    ensures
        forall|k: int| 0 <= k < candidates(recs).len() ==> #[trigger] candidates(recs)[k].bytes > 0,
    decreases recs.len(),
{
    if recs.len() > 0 {
        lemma_candidates_positive(recs.drop_last());
        let rest = candidates(recs.drop_last());
        assert forall|k: int| 0 <= k < candidates(recs).len() implies #[trigger] candidates(recs)[k].bytes > 0 by {
            if k < rest.len() {
                assert(candidates(recs)[k] == rest[k]);
            }
        }
    }
}

proof fn lemma_sat_total_push(s: Seq<PlanItem>, x: PlanItem, acc: i64)
    ensures
        sat_total(s.push(x), acc) == sat_add(sat_total(s, acc), x.bytes),
    decreases s.len(),
{
    if s.len() > 0 {
        assert(s.push(x)[0] == s[0]);
        assert(s.push(x).drop_first() =~= s.drop_first().push(x));
        lemma_sat_total_push(s.drop_first(), x, sat_add(acc, s[0].bytes));
        assert(sat_total(s.push(x), acc) == sat_total(s.drop_first().push(x), sat_add(acc, s[0].bytes)));
    } else {
        assert(s.push(x)[0] == x);
        assert(s.push(x).drop_first() =~= Seq::<PlanItem>::empty());
        assert(sat_total(s.push(x), acc) == sat_total(Seq::<PlanItem>::empty(), sat_add(acc, x.bytes)));
    }
}

proof fn lemma_caution_mono(recs: Seq<Rec>, i: int)
    requires
        0 <= i <= recs.len(),
    ensures
        caution_total(recs.take(i)) <= caution_total(recs),
        caution_total(recs.take(i)) >= 0,
    decreases recs.len() - i,
{
    lemma_caution_nonneg(recs.take(i));
    if i < recs.len() {
        lemma_caution_mono(recs, i + 1);
        assert(recs.take(i + 1).drop_last() =~= recs.take(i));
    } else {
        assert(recs.take(i) =~= recs);
        lemma_caution_nonneg(recs);
    }
}

proof fn lemma_caution_nonneg(recs: Seq<Rec>)
    ensures
        caution_total(recs) >= 0,
    decreases recs.len(),
{
    if recs.len() > 0 {
        lemma_caution_nonneg(recs.drop_last());
    }
}

proof fn lemma_sum_mono(items: Seq<PlanItem>, i: int, e: bool)
    requires
        0 <= i <= items.len(),
        forall|m: int| 0 <= m < items.len() ==> #[trigger] items[m].bytes > 0,
    ensures
        sum_where(items.take(i), e) <= sum_where(items, e),
        sum_where(items.take(i), e) >= 0,
    decreases items.len() - i,
{
    assert(forall|m: int| 0 <= m < items.take(i).len() ==> #[trigger] items.take(i)[m] == items[m]);
    lemma_sum_nonneg(items.take(i), e);
    if i < items.len() {
        lemma_sum_mono(items, i + 1, e);
        assert(items.take(i + 1).drop_last() =~= items.take(i));
    } else {
        assert(items.take(i) =~= items);
        lemma_sum_nonneg(items, e);
    }
}

proof fn lemma_sum_nonneg(items: Seq<PlanItem>, e: bool)
    requires
        forall|m: int| 0 <= m < items.len() ==> #[trigger] items[m].bytes > 0,
    ensures
        sum_where(items, e) >= 0,
    decreases items.len(),
{
    if items.len() > 0 {
        assert(forall|m: int| 0 <= m < items.drop_last().len() ==> #[trigger] items.drop_last()[m] == items[m]);
        lemma_sum_nonneg(items.drop_last(), e);
    }
}

/// The totals a plan reports fit in `i64`.
pub open spec fn plan_sums_fit(recs: Seq<Rec>, goal_bytes: i64) -> bool {
    &&& caution_total(recs) <= i64::MAX
    &&& sum_where(plan_items(recs, goal_bytes), false) <= i64::MAX
    &&& sum_where(plan_items(recs, goal_bytes), true) <= i64::MAX
}

/// The plan a goal gives.
pub open spec fn plan_fits(p: ReclaimPlan, recs: Seq<Rec>, goal_bytes: i64) -> bool {
    &&& p.goal_bytes == max0(goal_bytes as int)
    &&& p.items@ == plan_items(recs, goal_bytes)
    &&& p.selected_bytes == sat_total(plan_items(recs, goal_bytes), 0)
    &&& p.measured_bytes == sum_where(plan_items(recs, goal_bytes), false)
    &&& p.estimated_bytes == sum_where(plan_items(recs, goal_bytes), true)
    &&& p.shortfall_bytes == max0(max0(goal_bytes as int) - p.selected_bytes)
    &&& p.caution_bytes == caution_total(recs)
}

pub fn build_plan(recs: &[Rec], goal_bytes: i64) -> (p: ReclaimPlan)
    requires
        caution_total(recs@) <= i64::MAX,
        sum_where(plan_items(recs@, goal_bytes), false) <= i64::MAX,
        sum_where(plan_items(recs@, goal_bytes), true) <= i64::MAX,
    ensures
        p.goal_bytes == max0(goal_bytes as int),
        p.items@ == plan_items(recs@, goal_bytes),
        p.selected_bytes == sat_total(plan_items(recs@, goal_bytes), 0),
        p.measured_bytes == sum_where(plan_items(recs@, goal_bytes), false),
        p.estimated_bytes == sum_where(plan_items(recs@, goal_bytes), true),
        p.shortfall_bytes == max0(max0(goal_bytes as int) - p.selected_bytes),
        p.caution_bytes == caution_total(recs@),
{
    try_build_plan(recs, goal_bytes).unwrap()
}

/// The plan for a goal, or `None` when one of the totals it reports does
/// not fit in `i64`.
pub fn try_build_plan(recs: &[Rec], goal_bytes: i64) -> (r: Option<ReclaimPlan>)
    ensures
        r is Some <==> plan_sums_fit(recs@, goal_bytes),
        r matches Some(p) ==> plan_fits(p, recs@, goal_bytes),
{
    let goal = if goal_bytes < 0 {
        0
    } else {
        goal_bytes
    };
    let mut caution: i64 = 0;
    let mut cands: Vec<PlanItem> = Vec::new();
    let mut i: usize = 0;
    while i < recs.len()
        invariant
            i <= recs@.len(),
            caution == caution_total(recs@.take(i as int)),
            cands@ == candidates(recs@.take(i as int)),
        decreases recs.len() - i,
    {
        let r = &recs[i];
        proof {
            assert(recs@.take(i + 1).drop_last() =~= recs@.take(i as int));
            assert(recs@.take(i + 1).last() == recs@[i as int]);
            lemma_caution_mono(recs@, i + 1);
        }
        if r.tier == Tier::Caution {
            let b = if r.bytes < 0 {
                0
            } else {
                r.bytes
            };
            if caution > i64::MAX - b {
                return None;
            }
            caution = caution + b;
        }
        if r.tier == Tier::Safe && r.bytes > 0 {
            cands.push(PlanItem { id: r.id.clone(), bytes: r.bytes, estimate: r.estimate });
        }
        i += 1;
    }
    proof {
        assert(recs@.take(recs@.len() as int) =~= recs@);
    }
    let ghost after = |a: PlanItem, b: PlanItem| item_after(a, b);
    let ghost ok = |a: PlanItem| a.bytes > 0;
    proof {
        lemma_candidates_positive(recs@);
    }
    let sorted = sort_stable_with(cands, &(), item_after_exec, Ghost(after), Ghost(ok));
    proof {
        lemma_stable_sort_len(candidates(recs@), after);
    }
    let ghost all = sorted@;
    let mut items: Vec<PlanItem> = Vec::new();
    let mut selected: i64 = 0;
    let mut k: usize = 0;
    proof {
        assert(all.skip(0) =~= all);
    }
    while k < sorted.len() && selected < goal
        invariant
            k <= sorted@.len(),
            all == sorted@,
            goal >= 0,
            forall|m: int| 0 <= m < all.len() ==> #[trigger] all[m].bytes > 0,
            items@ + select(all.skip(k as int), goal, selected) == select(all, goal, 0),
            sat_total(items@, 0) == selected,
            selected >= 0,
            forall|m: int| 0 <= m < items@.len() ==> #[trigger] items@[m].bytes > 0,
        decreases sorted.len() - k,
    {
        let item = sorted[k].clone();
        let ghost before = items@;
        proof {
            lemma_select_step(all, goal, selected, k as int);
            lemma_sat_total_push(items@, item, 0);
        }
        selected = saturating_add_i64(selected, item.bytes);
        items.push(item);
        proof {
            let rest = select(all.skip(k + 1), goal, selected);
            assert(before + (seq![item] + rest) =~= items@ + rest);
        }
        k += 1;
    }
    proof {
        if k == sorted.len() {
            assert(all.skip(k as int) =~= Seq::<PlanItem>::empty());
        }
        assert(items@ =~= select(all, goal, 0));
    }
    let mut measured: i64 = 0;
    let mut estimated: i64 = 0;
    let mut j: usize = 0;
    while j < items.len()
        invariant
            j <= items@.len(),
            items@ == plan_items(recs@, goal_bytes),
            caution_total(recs@) <= i64::MAX,
            forall|m: int| 0 <= m < items@.len() ==> #[trigger] items@[m].bytes > 0,
            measured == sum_where(items@.take(j as int), false),
            estimated == sum_where(items@.take(j as int), true),
        decreases items.len() - j,
    {
        proof {
            assert(items@.take(j + 1).drop_last() =~= items@.take(j as int));
            lemma_sum_mono(items@, j + 1, false);
            lemma_sum_mono(items@, j + 1, true);
        }
        if items[j].estimate {
            if estimated > i64::MAX - items[j].bytes {
                return None;
            }
            estimated = estimated + items[j].bytes;
        } else {
            if measured > i64::MAX - items[j].bytes {
                return None;
            }
            measured = measured + items[j].bytes;
        }
        j += 1;
    }
    proof {
        assert(items@.take(items@.len() as int) =~= items@);
    }
    let shortfall = if goal - selected > 0 {
        goal - selected
    } else {
        0
    };
    Some(ReclaimPlan {
        goal_bytes: goal,
        items,
        selected_bytes: selected,
        measured_bytes: measured,
        estimated_bytes: estimated,
        shortfall_bytes: shortfall,
        caution_bytes: caution,
    })
}


// ───────────────────────── the outcome ─────────────────────────

pub open spec fn views(v: Seq<String>) -> Seq<Seq<char>> {
    v.map_values(|s: String| s@)
}

pub proof fn lemma_push_to_set<A>(s: Seq<A>, x: A)
    ensures
        s.push(x).to_set() == s.to_set().insert(x),
{
    let t = s.push(x);
    assert forall|a: A| #[trigger] t.to_set().contains(a) == s.to_set().insert(x).contains(a) by {
        if t.contains(a) {
            let i = choose|i: int| 0 <= i < t.len() && t[i] == a;
            if i < s.len() {
                assert(s[i] == a);
                assert(s.contains(a));
            }
        }
        if s.contains(a) {
            let i = choose|i: int| 0 <= i < s.len() && s[i] == a;
            assert(t[i] == a);
            assert(t.contains(a));
        }
        if a == x {
            assert(t[s.len() as int] == x);
            assert(t.contains(a));
        }
    }
    assert(t.to_set() =~= s.to_set().insert(x));
}

/// Whether `v` holds a string with the characters of `s`.
pub fn contains_text(v: &Vec<String>, s: &str) -> (r: bool)
    ensures
        r == views(v@).contains(s@),
{
    let mut i: usize = 0;
    while i < v.len()
        invariant
            i <= v@.len(),
            forall|k: int| 0 <= k < i ==> views(v@)[k] != s@,
        decreases v.len() - i,
    {
        if crate::text::str_eq(v[i].as_str(), s) {
            assert(views(v@)[i as int] == s@);
            return true;
        }
        i += 1;
    }
    false
}

/// The failed items after one more result: a failure of an item of the
/// plan is added.
pub open spec fn record_step(failed: Set<Seq<char>>, items: Set<Seq<char>>, id: Seq<char>, ok: bool) -> Set<
    Seq<char>,
> {
    if !ok && items.contains(id) {
        failed.insert(id)
    } else {
        failed
    }
}

/// The failed items after the results given in order, starting from none.
pub open spec fn failed_after(items: Set<Seq<char>>, results: Seq<(Seq<char>, bool)>) -> Set<Seq<char>>
    decreases results.len(),
{
    if results.len() == 0 {
        Set::empty()
    } else {
        record_step(failed_after(items, results.drop_last()), items, results.last().0, results.last().1)
    }
}

/// The items of the plan that some result reports failed.
pub open spec fn failed_items_of(items: Set<Seq<char>>, results: Seq<(Seq<char>, bool)>) -> Set<Seq<char>> {
    Set::new(|id: Seq<char>| items.contains(id) && exists|k: int| 0 <= k < results.len() && #[trigger] results[k] == (id, false))
}

/// Whatever results are recorded, in any order and however often, the failed
/// items are exactly the items of the plan that some result reports failed:
/// a repeated failure counts once, and successes and unknown identifiers
/// count not at all; so there are never more failures than attempts.
pub proof fn lemma_failures_counted_once(items: Set<Seq<char>>, results: Seq<(Seq<char>, bool)>)
    ensures
        failed_after(items, results) == failed_items_of(items, results),
        failed_after(items, results).subset_of(items),
        items.finite() ==> failed_after(items, results).len() <= items.len(),
    decreases results.len(),
{
    if results.len() > 0 {
        let init = results.drop_last();
        lemma_failures_counted_once(items, init);
        let last = results.last();
        assert forall|id: Seq<char>| #[trigger] failed_after(items, results).contains(id) == failed_items_of(items, results).contains(id) by {
            if failed_items_of(items, init).contains(id) {
                let k = choose|k: int| 0 <= k < init.len() && #[trigger] init[k] == (id, false);
                assert(results[k] == init[k]);
            }
            if failed_items_of(items, results).contains(id) {
                let k = choose|k: int| 0 <= k < results.len() && #[trigger] results[k] == (id, false);
                if k < init.len() {
                    assert(init[k] == results[k]);
                }
            }
            if !last.1 && items.contains(last.0) && id == last.0 {
                assert(results[results.len() - 1] == (id, false));
            }
        }
        assert(failed_after(items, results) =~= failed_items_of(items, results));
    } else {
        assert(failed_items_of(items, results) =~= Set::<Seq<char>>::empty());
    }
    if items.finite() {
        vstd::set_lib::lemma_len_subset(failed_after(items, results), items);
    }
}

pub struct OutcomeTracker {
    goal_bytes: i64,
    planned_bytes: i64,
    planned_estimated_bytes: i64,
    item_ids: Vec<String>,
    failed_ids: Vec<String>,
}

pub struct TrackerView {
    pub goal_bytes: i64,
    pub planned_bytes: i64,
    pub planned_estimated_bytes: i64,
    pub item_ids: Set<Seq<char>>,
    pub failed_ids: Set<Seq<char>>,
}

pub struct ReclaimOutcome {
    pub goal_bytes: i64,
    pub planned_bytes: i64,
    pub planned_estimated_bytes: i64,
    pub actual_freed_bytes: i64,
    pub pending_trash_bytes: i64,
    pub goal_shortfall_bytes: i64,
    pub attempted_items: usize,
    pub failed_items: usize,
}

impl View for OutcomeTracker {
    type V = TrackerView;

    closed spec fn view(&self) -> TrackerView {
        TrackerView {
            goal_bytes: self.goal_bytes,
            planned_bytes: self.planned_bytes,
            planned_estimated_bytes: self.planned_estimated_bytes,
            item_ids: views(self.item_ids@).to_set(),
            failed_ids: views(self.failed_ids@).to_set(),
        }
    }
}

impl OutcomeTracker {
    /// The identifiers are kept once each; the failures seen so far are a
    /// subset of them.
    pub closed spec fn wf(&self) -> bool {
        &&& views(self.item_ids@).no_duplicates()
        &&& views(self.failed_ids@).no_duplicates()
        &&& self.goal_bytes >= 0
    }

    /// A tracker for a plan: negative sizes count as zero, and each
    /// identifier is attempted once.
    pub fn new(
        goal_bytes: i64,
        planned_bytes: i64,
        planned_estimated_bytes: i64,
        item_ids: Vec<String>,
    ) -> (t: OutcomeTracker)
        ensures
            t.wf(),
            t@.goal_bytes == max0(goal_bytes as int),
            t@.planned_bytes == max0(planned_bytes as int),
            t@.planned_estimated_bytes == max0(planned_estimated_bytes as int),
            t@.item_ids == views(item_ids@).to_set(),
            t@.failed_ids == Set::<Seq<char>>::empty(),
    {
        let mut ids: Vec<String> = Vec::new();
        let mut i: usize = 0;
        while i < item_ids.len()
            invariant
                i <= item_ids@.len(),
                views(ids@).no_duplicates(),
                views(ids@).to_set() == views(item_ids@.take(i as int)).to_set(),
            decreases item_ids.len() - i,
        {
            let s = &item_ids[i];
            let ghost before = ids@;
            proof {
                assert(views(item_ids@.take(i + 1)) =~= views(item_ids@.take(i as int)).push(s@));
            }
            if !contains_text(&ids, s.as_str()) {
                ids.push(s.clone());
                proof {
                    assert(views(ids@) =~= views(before).push(s@));
                    lemma_push_to_set(views(before), s@);
                    lemma_push_to_set(views(item_ids@.take(i as int)), s@);
                    assert forall|a: int, b: int|
                        0 <= a < views(ids@).len() && 0 <= b < views(ids@).len() && a != b implies views(ids@)[a] != views(ids@)[b] by {
                        if a == before.len() {
                            assert(!views(before).contains(views(ids@)[b]) || views(ids@)[b] != s@);
                        } else if b == before.len() {
                            if views(ids@)[a] == s@ {
                                assert(views(before)[a] == s@);
                            }
                        }
                    }
                }
            } else {
                proof {
                    lemma_push_to_set(views(item_ids@.take(i as int)), s@);
                    assert(views(ids@).to_set().contains(s@));
                    assert(views(ids@).to_set().insert(s@) =~= views(ids@).to_set());
                }
            }
            i += 1;
        }
        proof {
            assert(item_ids@.take(item_ids@.len() as int) =~= item_ids@);
            assert(views(Seq::<String>::empty()).to_set() =~= Set::<Seq<char>>::empty());
        }
        let failed: Vec<String> = Vec::new();
        proof {
            assert(views(failed@) =~= Seq::<Seq<char>>::empty());
            assert(views(failed@).to_set() =~= Set::<Seq<char>>::empty());
        }
        OutcomeTracker {
            goal_bytes: if goal_bytes < 0 {
                0
            } else {
                goal_bytes
            },
            planned_bytes: if planned_bytes < 0 {
                0
            } else {
                planned_bytes
            },
            planned_estimated_bytes: if planned_estimated_bytes < 0 {
                0
            } else {
                planned_estimated_bytes
            },
            item_ids: ids,
            failed_ids: failed,
        }
    }

    /// Records one item's result; a failure counts once, and only for an
    /// item of the plan.
    pub fn record_result(&mut self, id: &str, ok: bool)
        requires
            old(self).wf(),
        ensures
            final(self).wf(),
            final(self)@.goal_bytes == old(self)@.goal_bytes,
            final(self)@.planned_bytes == old(self)@.planned_bytes,
            final(self)@.planned_estimated_bytes == old(self)@.planned_estimated_bytes,
            final(self)@.item_ids == old(self)@.item_ids,
            final(self)@.failed_ids == record_step(old(self)@.failed_ids, old(self)@.item_ids, id@, ok),
    {
        if !ok && contains_text(&self.item_ids, id) && !contains_text(&self.failed_ids, id) {
            let ghost before = self.failed_ids@;
            self.failed_ids.push(crate::text::owned(id));
            proof {
                assert(views(self.failed_ids@) =~= views(before).push(id@));
                lemma_push_to_set(views(before), id@);
                assert forall|a: int, b: int|
                    0 <= a < views(self.failed_ids@).len() && 0 <= b < views(self.failed_ids@).len() && a != b implies views(self.failed_ids@)[a] != views(self.failed_ids@)[b] by {
                    if a == before.len() {
                        if views(self.failed_ids@)[b] == id@ {
                            assert(views(before)[b] == id@);
                        }
                    } else if b == before.len() {
                        if views(self.failed_ids@)[a] == id@ {
                            assert(views(before)[a] == id@);
                        }
                    }
                }
            }
        } else {
            proof {
                if !ok && views(self.item_ids@).contains(id@) {
                    assert(views(self.failed_ids@).to_set().insert(id@) =~= views(
                        self.failed_ids@,
                    ).to_set());
                }
            }
        }
    }

    /// The outcome once the cleanup ran: negative event values count as
    /// zero, and the shortfall is what the freed bytes left of the goal.
    pub fn finish(self, freed: i64, pending: i64) -> (o: ReclaimOutcome)
        requires
            self.wf(),
        ensures
            o.goal_bytes == self@.goal_bytes,
            o.planned_bytes == self@.planned_bytes,
            o.planned_estimated_bytes == self@.planned_estimated_bytes,
            o.actual_freed_bytes == max0(freed as int),
            o.pending_trash_bytes == max0(pending as int),
            o.goal_shortfall_bytes == max0(self@.goal_bytes - max0(freed as int)),
            o.attempted_items == self@.item_ids.len(),
            o.failed_items == self@.failed_ids.len(),
    {
        let actual = if freed < 0 {
            0
        } else {
            freed
        };
        proof {
            views(self.item_ids@).unique_seq_to_set();
            views(self.failed_ids@).unique_seq_to_set();
        }
        let shortfall = if self.goal_bytes - actual > 0 {
            self.goal_bytes - actual
        } else {
            0
        };
        ReclaimOutcome {
            goal_bytes: self.goal_bytes,
            planned_bytes: self.planned_bytes,
            planned_estimated_bytes: self.planned_estimated_bytes,
            actual_freed_bytes: actual,
            pending_trash_bytes: if pending < 0 {
                0
            } else {
                pending
            },
            goal_shortfall_bytes: shortfall,
            attempted_items: self.item_ids.len(),
            failed_items: self.failed_ids.len(),
        }
    }
}

proof fn lemma_candidates_from(recs: Seq<Rec>)
    ensures
        forall|k: int|
            0 <= k < candidates(recs).len() ==> exists|j: int|
                0 <= j < recs.len() && recs[j].tier == Tier::Safe && recs[j].bytes > 0 && recs[j].id
                    == (#[trigger] candidates(recs)[k]).id && recs[j].bytes == candidates(recs)[k].bytes,
    decreases recs.len(),
{
    if recs.len() > 0 {
        let init = recs.drop_last();
        lemma_candidates_from(init);
        let c = candidates(recs);
        let ci = candidates(init);
        assert forall|k: int| 0 <= k < c.len() implies exists|j: int|
            0 <= j < recs.len() && recs[j].tier == Tier::Safe && recs[j].bytes > 0 && recs[j].id
                == (#[trigger] c[k]).id && recs[j].bytes == c[k].bytes by {
            if k < ci.len() {
                assert(c[k] == ci[k]);
                let j = choose|j: int|
                    0 <= j < init.len() && init[j].tier == Tier::Safe && init[j].bytes > 0 && init[j].id
                        == ci[k].id && init[j].bytes == ci[k].bytes;
                assert(recs[j] == init[j]);
            } else {
                assert(recs[recs.len() - 1] == recs.last());
            }
        }
    }
}

proof fn lemma_select_elements(cands: Seq<PlanItem>, goal: i64, acc: i64)
    ensures
        forall|k: int| 0 <= k < select(cands, goal, acc).len() ==> cands.contains(#[trigger] select(cands, goal, acc)[k]),
    decreases cands.len(),
{
    if cands.len() > 0 && acc < goal {
        let rest = cands.drop_first();
        lemma_select_elements(rest, goal, sat_add(acc, cands[0].bytes));
        let t = select(rest, goal, sat_add(acc, cands[0].bytes));
        assert forall|k: int| 0 <= k < select(cands, goal, acc).len() implies cands.contains(
            #[trigger] select(cands, goal, acc)[k],
        ) by {
            if k == 0 {
                assert(cands[0] == select(cands, goal, acc)[0]);
            } else {
                assert(select(cands, goal, acc)[k] == t[k - 1]);
                let m = choose|m: int| 0 <= m < rest.len() && rest[m] == t[k - 1];
                assert(cands[m + 1] == rest[m]);
            }
        }
    }
}

/// A guided plan names only safe findings that hold something, each with the
/// identifier and size the finding reports.
pub proof fn lemma_plan_only_safe(recs: Seq<Rec>, goal: i64)
    ensures
        forall|k: int|
            0 <= k < plan_items(recs, goal).len() ==> exists|j: int|
                0 <= j < recs.len() && recs[j].tier == Tier::Safe && recs[j].bytes > 0 && recs[j].id
                    == (#[trigger] plan_items(recs, goal)[k]).id && recs[j].bytes == plan_items(recs, goal)[k].bytes,
{
    let g: i64 = if goal < 0 {
        0
    } else {
        goal
    };
    let order = plan_order(recs);
    let after = |a: PlanItem, b: PlanItem| item_after(a, b);
    lemma_candidates_from(recs);
    crate::sorting::lemma_stable_sort_elements(candidates(recs), after);
    lemma_select_elements(order, g, 0);
    let items = plan_items(recs, goal);
    assert forall|k: int| 0 <= k < items.len() implies exists|j: int|
        0 <= j < recs.len() && recs[j].tier == Tier::Safe && recs[j].bytes > 0 && recs[j].id
            == (#[trigger] items[k]).id && recs[j].bytes == items[k].bytes by {
        assert(order.contains(items[k]));
        let m = choose|m: int| 0 <= m < order.len() && order[m] == items[k];
        assert(candidates(recs).contains(order[m]));
        let c = choose|c: int| 0 <= c < candidates(recs).len() && candidates(recs)[c] == order[m];
        assert(candidates(recs)[c] == items[k]);
    }
}

proof fn lemma_select_stops(cands: Seq<PlanItem>, goal: i64, acc: i64)
    requires
        select(cands, goal, acc).len() > 0,
    ensures
        sat_total(select(cands, goal, acc).drop_last(), acc) < goal,
    decreases cands.len(),
{
    let t = select(cands.drop_first(), goal, sat_add(acc, cands[0].bytes));
    let s = select(cands, goal, acc);
    assert(s == seq![cands[0]] + t);
    if t.len() == 0 {
        assert(s.drop_last() =~= Seq::<PlanItem>::empty());
    } else {
        lemma_select_stops(cands.drop_first(), goal, sat_add(acc, cands[0].bytes));
        assert(s.drop_last() =~= seq![cands[0]] + t.drop_last());
        assert((seq![cands[0]] + t.drop_last()).drop_first() =~= t.drop_last());
    }
}

/// A guided plan stops as soon as its goal is met: without its last item the
/// plan's running total falls short of the goal.
pub proof fn lemma_plan_stops_at_goal(recs: Seq<Rec>, goal: i64)
    requires
        plan_items(recs, goal).len() > 0,
    ensures
        sat_total(plan_items(recs, goal).drop_last(), 0) < goal,
{
    let g: i64 = if goal < 0 {
        0
    } else {
        goal
    };
    lemma_select_stops(plan_order(recs), g, 0);
}

proof fn lemma_select_prefix(cands: Seq<PlanItem>, g1: i64, g2: i64, acc: i64)
    requires
        g1 <= g2,
    ensures
        select(cands, g1, acc).len() <= select(cands, g2, acc).len(),
        select(cands, g1, acc) == select(cands, g2, acc).take(select(cands, g1, acc).len() as int),
    decreases cands.len(),
{
    if cands.len() == 0 || acc >= g1 {
        assert(select(cands, g1, acc) =~= Seq::<PlanItem>::empty());
        assert(select(cands, g2, acc).take(0) =~= Seq::<PlanItem>::empty());
    } else {
        let next = sat_add(acc, cands[0].bytes);
        lemma_select_prefix(cands.drop_first(), g1, g2, next);
        let t1 = select(cands.drop_first(), g1, next);
        let t2 = select(cands.drop_first(), g2, next);
        assert((seq![cands[0]] + t2).take(1 + t1.len() as int) =~= seq![cands[0]] + t2.take(t1.len() as int));
    }
}

proof fn lemma_sat_total_grows(items: Seq<PlanItem>, acc: i64)
    requires
        forall|m: int| 0 <= m < items.len() ==> #[trigger] items[m].bytes > 0,
    ensures
        sat_total(items, acc) >= acc,
    decreases items.len(),
{
    if items.len() > 0 {
        assert(forall|m: int| 0 <= m < items.drop_first().len() ==> #[trigger] items.drop_first()[m] == items[m + 1]);
        lemma_sat_total_grows(items.drop_first(), sat_add(acc, items[0].bytes));
    }
}

proof fn lemma_sat_total_prefix(items: Seq<PlanItem>, k: int, acc: i64)
    requires
        0 <= k <= items.len(),
        forall|m: int| 0 <= m < items.len() ==> #[trigger] items[m].bytes > 0,
    ensures
        sat_total(items.take(k), acc) <= sat_total(items, acc),
    decreases k,
{
    if k == 0 {
        assert(items.take(0) =~= Seq::<PlanItem>::empty());
        lemma_sat_total_grows(items, acc);
    } else {
        let rest = items.drop_first();
        assert(forall|m: int| 0 <= m < rest.len() ==> #[trigger] rest[m] == items[m + 1]);
        assert(items.take(k).drop_first() =~= rest.take(k - 1));
        assert(items.take(k)[0] == items[0]);
        lemma_sat_total_prefix(rest, k - 1, sat_add(acc, items[0].bytes));
    }
}

/// A smaller goal gives a plan that is the start of the plan for a larger
/// goal, and selects no more.
pub proof fn lemma_plan_grows_with_goal(recs: Seq<Rec>, g1: i64, g2: i64)
    requires
        0 <= g1 <= g2,
    ensures
        plan_items(recs, g1).len() <= plan_items(recs, g2).len(),
        plan_items(recs, g1) == plan_items(recs, g2).take(plan_items(recs, g1).len() as int),
        sat_total(plan_items(recs, g1), 0) <= sat_total(plan_items(recs, g2), 0),
{
    let order = plan_order(recs);
    lemma_select_prefix(order, g1, g2, 0);
    lemma_candidates_positive(recs);
    let after = |a: PlanItem, b: PlanItem| item_after(a, b);
    crate::sorting::lemma_stable_sort_elements(candidates(recs), after);
    assert forall|m: int| 0 <= m < order.len() implies #[trigger] order[m].bytes > 0 by {
        assert(candidates(recs).contains(order[m]));
    }
    lemma_select_elements(order, g2, 0);
    let p2 = plan_items(recs, g2);
    assert forall|m: int| 0 <= m < p2.len() implies #[trigger] p2[m].bytes > 0 by {
        assert(order.contains(p2[m]));
    }
    lemma_sat_total_prefix(p2, plan_items(recs, g1).len() as int, 0);
}


/// Two plans of the same recommendations, for goals `g1 <= g2`: the first
/// plan's items begin the second's, it selects no more, and both report the
/// same caution total.
pub proof fn lemma_plans_for_two_goals(recs: Seq<Rec>, g1: i64, p1: ReclaimPlan, g2: i64, p2: ReclaimPlan)
    requires
        0 <= g1 <= g2,
        plan_fits(p1, recs, g1),
        plan_fits(p2, recs, g2),
    ensures
        p1.items@.len() <= p2.items@.len(),
        p1.items@ == p2.items@.take(p1.items@.len() as int),
        p1.selected_bytes <= p2.selected_bytes,
        p1.caution_bytes == p2.caution_bytes,
{
    lemma_plan_grows_with_goal(recs, g1, g2);
}

/// No reclaim plan for the recommendations of a scan selects the Xcode
/// Archives finding: plans take safe findings only, and that one needs
/// caution.
pub proof fn lemma_plans_leave_xcode_archives(
    nodes: Seq<crate::scan::Node>,
    root: int,
    inputs: crate::rules::RecInputs,
    recs: Seq<Rec>,
    goal: i64,
)
    requires
        crate::rules::recs_view(recs) == crate::rules::recommendations_spec(nodes, root, inputs),
    ensures
        forall|k: int| 0 <= k < plan_items(recs, goal).len() ==> (#[trigger] plan_items(recs, goal)[k]).id@ != "xcode-archives"@,
{
    crate::rules::lemma_xcode_archives_need_caution(nodes, root, inputs);
    lemma_plan_only_safe(recs, goal);
    let items = plan_items(recs, goal);
    assert forall|k: int| 0 <= k < items.len() implies (#[trigger] items[k]).id@ != "xcode-archives"@ by {
        let j = choose|j: int|
            0 <= j < recs.len() && recs[j].tier == Tier::Safe && recs[j].bytes > 0 && recs[j].id == items[k].id
                && recs[j].bytes == items[k].bytes;
        assert(crate::rules::recs_view(recs)[j] == recs[j]@);
    }
}

} // verus!
