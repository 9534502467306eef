//! Cleanup decisions: which way an item is reclaimed, and what a finished
//! step reports.

use vstd::prelude::*;
use crate::rules::{Action, Rec};
use crate::text::{
    append_str, digit_char, int_text, nat_text, push_char, push_decimal, push_nat, trim_spec,
};

verus! {

pub struct CleanJob {
    pub rec: Rec,
    pub action: Action,
}

pub enum CleanEvent {
    Started { id: String, title: String },
    Result { id: String, title: String, ok: bool, freed: i64, pending: i64, message: String },
    Done { freed: i64, pending: i64 },
}

// ───────────────────────── output lines ─────────────────────────

/// Lines read left to right: the finished lines (each without a `\r` before
/// its `\n`) and the line still open.
pub open spec fn scan_lines(s: Seq<char>) -> (Seq<Seq<char>>, Seq<char>)
    decreases s.len(),
{
    if s.len() == 0 {
        (Seq::empty(), Seq::empty())
    } else {
        let (done, cur) = scan_lines(s.drop_last());
        if s.last() == '\n' {
            let line = if cur.len() > 0 && cur.last() == '\r' {
                cur.drop_last()
            } else {
                cur
            };
            (done.push(line), Seq::empty())
        } else {
            (done, cur.push(s.last()))
        }
    }
}

/// The lines of `s` as `str::lines` gives them.
pub open spec fn lines_spec(s: Seq<char>) -> Seq<Seq<char>> {
    let (done, cur) = scan_lines(s);
    if cur.len() > 0 {
        done.push(cur)
    } else {
        done
    }
}

/// The lines that hold more than whitespace.
pub open spec fn nonblank(ls: Seq<Seq<char>>) -> Seq<Seq<char>>
    decreases ls.len(),
{
    if ls.len() == 0 {
        ls
    } else {
        let rest = nonblank(ls.drop_last());
        if trim_spec(ls.last()).len() > 0 {
            rest.push(ls.last())
        } else {
            rest
        }
    }
}

pub open spec fn join_lines(ls: Seq<Seq<char>>) -> Seq<char>
    decreases ls.len(),
{
    if ls.len() == 0 {
        Seq::empty()
    } else if ls.len() == 1 {
        ls[0]
    } else {
        join_lines(ls.drop_last()) + seq!['\n'] + ls.last()
    }
}

/// The last `n` non-blank lines of `s`, joined by `\n`.
pub open spec fn tail_lines_spec(s: Seq<char>, n: nat) -> Seq<char> {
    let ls = nonblank(lines_spec(s));
    let start = if ls.len() > n {
        ls.len() - n
    } else {
        0
    };
    join_lines(ls.skip(start))
}

fn is_blank(s: &str) -> (r: bool)
    ensures
        r == (trim_spec(s@).len() == 0),
{
    crate::text::trim(s).unicode_len() == 0
}

fn push_str(out: &mut String, s: &str)
    ensures
        final(out)@ == old(out)@ + s@,
{
    let n = s.unicode_len();
    let mut i: usize = 0;
    while i < n
        invariant
            n == s@.len(),
            i <= n,
            out@ == old(out)@ + s@.take(i as int),
        decreases n - i,
    {
        push_char(out, s.get_char(i));
        assert(s@.take(i + 1) =~= s@.take(i as int).push(s@[i as int]));
        i += 1;
    }
    assert(s@.take(n as int) =~= s@);
}

/// The last `n` non-blank lines of command output.
pub fn tail_lines(s: &str, n: usize) -> (r: String)
    ensures
        r@ == tail_lines_spec(s@, n as nat),
{
    let len = s.unicode_len();
    let mut lines: Vec<String> = Vec::new();
    let mut cur = String::new();
    let mut i: usize = 0;
    while i < len
        invariant
            len == s@.len(),
            i <= len,
            lines@.len() == scan_lines(s@.take(i as int)).0.len(),
            forall|k: int| 0 <= k < lines@.len() ==> #[trigger] lines@[k]@ == scan_lines(s@.take(i as int)).0[k],
            cur@ == scan_lines(s@.take(i as int)).1,
        decreases len - i,
    {
        let c = s.get_char(i);
        proof {
            assert(s@.take(i + 1).drop_last() =~= s@.take(i as int));
            assert(s@.take(i + 1).last() == c);
        }
        if c == '\n' {
            let m = cur.as_str().unicode_len();
            let mut line = String::new();
            let keep = if m > 0 && cur.as_str().get_char(m - 1) == '\r' {
                m - 1
            } else {
                m
            };
            let mut j: usize = 0;
            while j < keep
                invariant
                    keep <= m,
                    m == cur@.len(),
                    j <= keep,
                    line@ == cur@.take(j as int),
                decreases keep - j,
            {
                push_char(&mut line, cur.as_str().get_char(j));
                assert(cur@.take(j + 1) =~= cur@.take(j as int).push(cur@[j as int]));
                j += 1;
            }
            proof {
                if keep < m {
                    assert(cur@.take(keep as int) =~= cur@.drop_last());
                } else {
                    assert(cur@.take(keep as int) =~= cur@);
                }
            }
            lines.push(line);
            cur = String::new();
        } else {
            push_char(&mut cur, c);
        }
        i += 1;
    }
    proof {
        assert(s@.take(len as int) =~= s@);
    }
    if cur.as_str().unicode_len() > 0 {
        lines.push(cur);
    }
    let ghost all = lines_spec(s@);
    let mut kept: Vec<String> = Vec::new();
    let mut k: usize = 0;
    while k < lines.len()
        invariant
            k <= lines@.len(),
            lines@.len() == all.len(),
            forall|m: int| 0 <= m < lines@.len() ==> #[trigger] lines@[m]@ == all[m],
            kept@.len() == nonblank(all.take(k as int)).len(),
            forall|m: int| 0 <= m < kept@.len() ==> #[trigger] kept@[m]@ == nonblank(all.take(k as int))[m],
        decreases lines.len() - k,
    {
        proof {
            assert(all.take(k + 1).drop_last() =~= all.take(k as int));
            assert(all.take(k + 1).last() == lines@[k as int]@);
        }
        if !is_blank(lines[k].as_str()) {
            kept.push(lines[k].clone());
        }
        k += 1;
    }
    proof {
        assert(all.take(lines@.len() as int) =~= all);
    }
    let ghost ls = nonblank(all);
    let start = if kept.len() > n {
        kept.len() - n
    } else {
        0
    };
    let mut out = String::new();
    let mut j: usize = start;
    proof {
        assert(ls.skip(start as int).take(0) =~= Seq::<Seq<char>>::empty());
    }
    while j < kept.len()
        invariant
            start <= j <= kept@.len(),
            kept@.len() == ls.len(),
            forall|m: int| 0 <= m < kept@.len() ==> #[trigger] kept@[m]@ == ls[m],
            out@ == join_lines(ls.skip(start as int).take(j - start)),
        decreases kept.len() - j,
    {
        let ghost part = ls.skip(start as int).take(j + 1 - start);
        proof {
            assert(part.drop_last() =~= ls.skip(start as int).take(j - start));
            assert(part.last() == ls[j as int]);
        }
        if j > start {
            push_char(&mut out, '\n');
        }
        push_str(&mut out, kept[j].as_str());
        proof {
            if j > start {
                assert(out@ =~= join_lines(part.drop_last()) + seq!['\n'] + part.last());
            } else {
                assert(part.len() == 1);
                assert(out@ =~= part[0]);
            }
        }
        j += 1;
    }
    proof {
        assert(ls.skip(start as int).take(kept.len() - start) =~= ls.skip(start as int));
    }
    out
}

// ───────────────────────── cleanup steps ─────────────────────────

/// How one item is reclaimed.
#[derive(Clone, Copy, Debug, PartialEq, Eq, Structural)]
pub enum CleanStep {
    Command,
    Trash,
    Delete,
    Empty,
    Refused,
}

/// A command finding is always reclaimed by its command, whatever was asked;
/// otherwise the requested action runs if the finding allows it.
pub open spec fn clean_step_spec(rec_action: Action, allow_trash: bool, allow_delete: bool, requested: Action) -> CleanStep {
    let action = if rec_action == Action::Command {
        Action::Command
    } else {
        requested
    };
    match action {
        Action::Command => CleanStep::Command,
        Action::Trash => if allow_trash {
            CleanStep::Trash
        } else {
            CleanStep::Refused
        },
        Action::Delete => if allow_delete {
            CleanStep::Delete
        } else {
            CleanStep::Refused
        },
        Action::Empty => CleanStep::Empty,
    }
}

pub fn clean_step(rec: &Rec, requested: Action) -> (s: CleanStep)
    ensures
        s == clean_step_spec(rec.action, rec.allow_trash, rec.allow_delete, requested),
{
    let action = if rec.action == Action::Command {
        Action::Command
    } else {
        requested
    };
    match action {
        Action::Command => CleanStep::Command,
        Action::Trash => if rec.allow_trash {
            CleanStep::Trash
        } else {
            CleanStep::Refused
        },
        Action::Delete => if rec.allow_delete {
            CleanStep::Delete
        } else {
            CleanStep::Refused
        },
        Action::Empty => CleanStep::Empty,
    }
}

// ───────────────────────── what a step reports ─────────────────────────

/// What one cleanup step reports.
pub struct CleanResult {
    pub ok: bool,
    pub freed: i64,
    pub pending: i64,
    pub message: String,
}

/// How an executed step ended, with what was measured after it where that
/// matters.
pub enum StepOutcome {
    /// The finding's command ran; its output, whether it succeeded, and the
    /// folder's size afterwards.
    Command { output: String, ok: bool, after: i64 },
    Trashed(Result<(), String>),
    Deleted(Result<(), String>),
    /// The folder's contents were deleted; the result and its size afterwards.
    Emptied { result: Result<(), String>, after: i64 },
    Refused,
}

/// The differences a step report computes stay within `i64`.
pub open spec fn step_fits(before: i64, outcome: StepOutcome) -> bool {
    match outcome {
        StepOutcome::Command { after, .. } => i64::MIN <= before - after <= i64::MAX,
        StepOutcome::Emptied { result, after } => result is Ok ==> i64::MIN <= before - after <= i64::MAX,
        _ => true,
    }
}

/// The report of a step, given the finding's size before it: a command frees
/// what the folder shrank by (never below zero) and reports the last lines of
/// its output; a move to the Trash frees nothing yet and leaves the size
/// pending; a deletion frees the size; emptying frees what the folder shrank
/// by; a refused or failed step frees nothing.
pub fn step_result(before: i64, outcome: StepOutcome) -> (r: CleanResult)
    requires
        step_fits(before, outcome),
    ensures
        match outcome {
            StepOutcome::Command { output, ok, after } => r.ok == ok && r.freed == (if before - after > 0 {
                before - after
            } else {
                0
            }) && r.pending == 0 && r.message@ == tail_lines_spec(output@, if ok { 2 } else { 3 }),
            StepOutcome::Trashed(Ok(())) => r.ok && r.freed == 0 && r.pending == before && r.message@
                == "moved to Trash \u{2014} empty it to free the space"@,
            StepOutcome::Deleted(Ok(())) => r.ok && r.freed == before && r.pending == 0 && r.message@.len() == 0,
            StepOutcome::Emptied { result: Ok(()), after } => r.ok && r.freed == before - after && r.pending == 0
                && r.message@.len() == 0,
            StepOutcome::Trashed(Err(e)) | StepOutcome::Deleted(Err(e)) | StepOutcome::Emptied {
                result: Err(e),
                ..
            } => !r.ok && r.freed == 0 && r.pending == 0 && r.message@ == e@,
            StepOutcome::Refused => !r.ok && r.freed == 0 && r.pending == 0 && r.message@
                == "action not allowed for this item"@,
        },
{
    match outcome {
        StepOutcome::Command { output, ok, after } => {
            let shrink = before - after;
            CleanResult {
                ok,
                freed: if shrink > 0 {
                    shrink
                } else {
                    0
                },
                pending: 0,
                message: tail_lines(output.as_str(), if ok {
                    2
                } else {
                    3
                }),
            }
        },
        StepOutcome::Trashed(Ok(())) => CleanResult {
            ok: true,
            freed: 0,
            pending: before,
            message: crate::text::owned("moved to Trash \u{2014} empty it to free the space"),
        },
        StepOutcome::Deleted(Ok(())) => CleanResult { ok: true, freed: before, pending: 0, message: String::new() },
        StepOutcome::Emptied { result: Ok(()), after } => CleanResult {
            ok: true,
            freed: before - after,
            pending: 0,
            message: String::new(),
        },
        StepOutcome::Trashed(Err(e)) | StepOutcome::Deleted(Err(e)) | StepOutcome::Emptied {
            result: Err(e),
            ..
        } => CleanResult { ok: false, freed: 0, pending: 0, message: e },
        StepOutcome::Refused => CleanResult {
            ok: false,
            freed: 0,
            pending: 0,
            message: crate::text::owned("action not allowed for this item"),
        },
    }
}

/// What a clean-up has freed and left in the Trash so far.
#[derive(Clone, Copy, Debug, PartialEq, Eq)]
pub struct CleanTotals {
    pub freed: i64,
    pub pending: i64,
}

impl CleanTotals {
    /// Nothing freed or pending yet.
    pub fn new() -> (t: CleanTotals)
        ensures
            t == (CleanTotals { freed: 0, pending: 0 }),
    {
        CleanTotals { freed: 0, pending: 0 }
    }

    /// Adds what one step freed and left pending, when both totals still
    /// fit in `i64`; otherwise changes nothing and says so.
    pub fn add(&mut self, result: &CleanResult) -> (added: bool)
        ensures
            added == (i64::MIN <= old(self).freed + result.freed <= i64::MAX && i64::MIN <= old(self).pending
                + result.pending <= i64::MAX),
            added ==> *final(self) == (CleanTotals {
                freed: (old(self).freed + result.freed) as i64,
                pending: (old(self).pending + result.pending) as i64,
            }),
            !added ==> *final(self) == *old(self),
    {
        let freed = self.freed as i128 + result.freed as i128;
        let pending = self.pending as i128 + result.pending as i128;
        if freed < i64::MIN as i128 || freed > i64::MAX as i128 || pending < i64::MIN as i128 || pending
            > i64::MAX as i128 {
            return false;
        }
        self.freed = freed as i64;
        self.pending = pending as i64;
        true
    }
}

// ───────────────────────── sizes and counts as text ─────────────────────────

/// `1000` to the power `i`.
pub open spec fn scale(i: nat) -> int
    decreases i,
{
    if i == 0 {
        1
    } else {
        1000 * scale((i - 1) as nat)
    }
}

/// The unit a size of `m` bytes is shown in: the largest of B, KB, MB, GB
/// and TB that `m` reaches, counting from `i`.
pub open spec fn unit_from(m: int, i: nat) -> nat
    decreases 4 - i,
{
    if i < 4 && m >= scale(i + 1) {
        unit_from(m, i + 1)
    } else {
        i
    }
}

pub open spec fn unit_name(i: nat) -> Seq<char> {
    if i == 0 {
        "B"@
    } else if i == 1 {
        "KB"@
    } else if i == 2 {
        "MB"@
    } else if i == 3 {
        "GB"@
    } else {
        "TB"@
    }
}

/// `a / d` rounded to the nearest whole number, halves to the even one.
pub open spec fn round_half_even(a: int, d: int) -> int {
    let q = a / d;
    let r = a % d;
    if 2 * r > d || (2 * r == d && q % 2 == 1) {
        q + 1
    } else {
        q
    }
}

/// `t` tenths, written with one decimal.
pub open spec fn tenths_text(t: int) -> Seq<char> {
    nat_text((t / 10) as nat) + seq!['.', digit_char((t % 10) as nat)]
}

/// A size in decimal units: whole numbers for bytes and from 100 of a unit
/// on, one decimal below that; negative sizes show as zero.
pub open spec fn bytes_text(n: i64) -> Seq<char> {
    let m: int = if n < 0 { 0 } else { n as int };
    let i = unit_from(m, 0);
    if i == 0 || m >= 100 * scale(i) {
        nat_text(round_half_even(m, scale(i)) as nat) + " "@ + unit_name(i)
    } else {
        tenths_text(round_half_even(10 * m, scale(i))) + " "@ + unit_name(i)
    }
}

/// A count: in millions or thousands with one decimal from a thousand on.
pub open spec fn count_text(n: i64) -> Seq<char> {
    if n >= 1_000_000 {
        tenths_text(round_half_even(10 * n, 1_000_000)) + "M"@
    } else if n >= 1_000 {
        tenths_text(round_half_even(10 * n, 1_000)) + "K"@
    } else {
        int_text(n as int)
    }
}

fn round_half_even_exec(a: u128, d: u128) -> (r: u128)
    requires
        d > 0,
        d <= 1_000_000_000_000,
        a < 0x1_0000_0000_0000_0000_0000_0000,
    ensures
        r == round_half_even(a as int, d as int),
        r <= a / d + 1,
{
    let q = a / d;
    let rem = a % d;
    if 2 * rem > d || (2 * rem == d && q % 2 == 1) {
        q + 1
    } else {
        q
    }
}

fn push_tenths(out: &mut String, t: u128)
    requires
        t / 10 <= u64::MAX,
    ensures
        final(out)@ == old(out)@ + tenths_text(t as int),
{
    push_nat(out, (t / 10) as u64);
    let d = (t % 10) as u8;
    push_char(out, '.');
    push_char(out, (48u8 + d) as char);
}

pub fn fmt_bytes(n: i64) -> (s: String)
    ensures
        s@ == bytes_text(n),
{
    let m: u128 = if n < 0 { 0 } else { n as u128 };
    let mut i: usize = 0;
    let mut d: u128 = 1;
    while i < 4 && m >= d * 1000
        invariant
            i <= 4,
            d == scale(i as nat),
            (i == 0 && d == 1) || (i == 1 && d == 1000) || (i == 2 && d == 1_000_000) || (i == 3 && d
                == 1_000_000_000) || (i == 4 && d == 1_000_000_000_000),
            m <= i64::MAX,
            unit_from(m as int, 0) == unit_from(m as int, i as nat),
        decreases 4 - i,
    {
        d = d * 1000;
        i += 1;
    }
    assert(unit_from(m as int, i as nat) == i);
    let units = ["B", "KB", "MB", "GB", "TB"];
    let mut out = String::new();
    if i == 0 || m >= 100 * d {
        let whole = round_half_even_exec(m, d);
        assert(whole <= m + 1) by (nonlinear_arith)
            requires
                whole <= m / d + 1,
                d >= 1,
        ;
        push_nat(&mut out, whole as u64);
    } else {
        let t = round_half_even_exec(10 * m, d);
        assert(t <= 10 * m + 1) by (nonlinear_arith)
            requires
                t as int <= (10 * (m as int)) / (d as int) + 1,
                d >= 1,
        ;
        push_tenths(&mut out, t);
    }
    append_str(&mut out, " ");
    append_str(&mut out, units[i]);
    proof {
        assert(units[i as int]@ == unit_name(i as nat)) by {
            reveal_strlit("B");
            reveal_strlit("KB");
            reveal_strlit("MB");
            reveal_strlit("GB");
            reveal_strlit("TB");
        }
        assert(out@ =~= bytes_text(n));
    }
    out
}

pub fn fmt_count(n: i64) -> (s: String)
    ensures
        s@ == count_text(n),
{
    let mut out = String::new();
    if n >= 1_000_000 {
        let t = round_half_even_exec(10 * (n as u128), 1_000_000);
        push_tenths(&mut out, t);
        append_str(&mut out, "M");
    } else if n >= 1_000 {
        let t = round_half_even_exec(10 * (n as u128), 1_000);
        push_tenths(&mut out, t);
        append_str(&mut out, "K");
    } else {
        push_decimal(&mut out, n);
    }
    out
}

} // verus!
