//! Stable insertion sort with an exact specification.
//!
//! Rust's `sort_by` is stable: elements that compare equal keep their input
//! order. The specification below states that order directly: each element,
//! taken in input order, is placed just before the first already-placed
//! element that must come after it.

use vstd::prelude::*;

verus! {

/// Index of the first element of `t`, at or after `i`, that must come after `x`.
pub open spec fn first_after<T>(t: Seq<T>, x: T, after: spec_fn(T, T) -> bool, i: int) -> int
    decreases t.len() - i,
{
    if i >= t.len() || i < 0 {
        t.len() as int
    } else if after(t[i], x) {
        i
    } else {
        first_after(t, x, after, i + 1)
    }
}

/// `t` with `x` inserted before the first element that must come after it.
pub open spec fn insert_stable<T>(t: Seq<T>, x: T, after: spec_fn(T, T) -> bool) -> Seq<T> {
    t.insert(first_after(t, x, after, 0), x)
}

/// The stable sort of `s`: `after(a, b)` holds when `a` must be placed after `b`.
pub open spec fn stable_sort<T>(s: Seq<T>, after: spec_fn(T, T) -> bool) -> Seq<T>
    decreases s.len(),
{
    if s.len() == 0 {
        s
    } else {
        insert_stable(stable_sort(s.drop_last(), after), s.last(), after)
    }
}

pub proof fn lemma_first_after_bounds<T>(t: Seq<T>, x: T, after: spec_fn(T, T) -> bool, i: int)
    requires
        0 <= i <= t.len(),
    ensures
        i <= first_after(t, x, after, i) <= t.len(),
        forall|j: int| i <= j < first_after(t, x, after, i) ==> !after(#[trigger] t[j], x),
        first_after(t, x, after, i) < t.len() ==> after(t[first_after(t, x, after, i)], x),
    decreases t.len() - i,
{
    if i < t.len() && !after(t[i], x) {
        lemma_first_after_bounds(t, x, after, i + 1);
    }
}

pub proof fn lemma_stable_sort_len<T>(s: Seq<T>, after: spec_fn(T, T) -> bool)
    ensures
        stable_sort(s, after).len() == s.len(),
    decreases s.len(),
{
    if s.len() > 0 {
        lemma_stable_sort_len(s.drop_last(), after);
        lemma_first_after_bounds(stable_sort(s.drop_last(), after), s.last(), after, 0);
    }
}


proof fn lemma_first_after_map<A, B>(
    t: Seq<A>,
    x: A,
    f: spec_fn(A) -> B,
    after_a: spec_fn(A, A) -> bool,
    after_b: spec_fn(B, B) -> bool,
    i: int,
)
    requires
        0 <= i <= t.len(),
        forall|p: A, q: A| #[trigger] after_a(p, q) == after_b(f(p), f(q)),
    ensures
        first_after(t.map_values(f), f(x), after_b, i) == first_after(t, x, after_a, i),
    decreases t.len() - i,
{
    if i < t.len() {
        assert(t.map_values(f)[i] == f(t[i]));
        assert(after_a(t[i], x) == after_b(f(t[i]), f(x)));
        lemma_first_after_map(t, x, f, after_a, after_b, i + 1);
    }
}

/// Sorting and then mapping is mapping and then sorting, when the order of
/// the mapped values is the order of the values.
pub proof fn lemma_sort_map<A, B>(
    s: Seq<A>,
    f: spec_fn(A) -> B,
    after_a: spec_fn(A, A) -> bool,
    after_b: spec_fn(B, B) -> bool,
)
    requires
        forall|p: A, q: A| #[trigger] after_a(p, q) == after_b(f(p), f(q)),
    ensures
        stable_sort(s, after_a).map_values(f) == stable_sort(s.map_values(f), after_b),
    decreases s.len(),
{
    if s.len() > 0 {
        lemma_sort_map(s.drop_last(), f, after_a, after_b);
        let t = stable_sort(s.drop_last(), after_a);
        assert(s.map_values(f).drop_last() =~= s.drop_last().map_values(f));
        lemma_stable_sort_len(s.drop_last(), after_a);
        lemma_first_after_bounds(t, s.last(), after_a, 0);
        lemma_first_after_map(t, s.last(), f, after_a, after_b, 0);
        let k = first_after(t, s.last(), after_a, 0);
        assert(t.insert(k, s.last()).map_values(f) =~= t.map_values(f).insert(k, f(s.last())));
    } else {
        assert(s.map_values(f) =~= Seq::<B>::empty());
    }
}

/// Sorts `v` stably; `after_exec(a, b)` decides whether `a` must come after `b`.
pub fn sort_stable<T, F: Fn(&T, &T) -> bool>(
    v: Vec<T>,
    after_exec: F,
    Ghost(after): Ghost<spec_fn(T, T) -> bool>,
) -> (r: Vec<T>)
    requires
        forall|a: &T, b: &T| after_exec.requires((a, b)),
        forall|a: &T, b: &T, res: bool| after_exec.ensures((a, b), res) ==> res == after(*a, *b),
    ensures
        r@ == stable_sort(v@, after),
{
    let ghost orig = v@;
    let mut rest = v;
    let mut out: Vec<T> = Vec::new();
    let n = rest.len();
    let mut i: usize = 0;
    assert(orig.take(0) =~= Seq::<T>::empty());
    assert(orig.skip(0) =~= orig);
    while i < n
        invariant
            n == orig.len(),
            i <= n,
            rest@ == orig.skip(i as int),
            out@ == stable_sort(orig.take(i as int), after),
            forall|a: &T, b: &T| after_exec.requires((a, b)),
            forall|a: &T, b: &T, res: bool|
                after_exec.ensures((a, b), res) ==> res == after(*a, *b),
        decreases n - i,
    {
        let x = rest.remove(0);
        assert(x == orig[i as int]);
        let mut j: usize = 0;
        let mut found = false;
        proof {
            lemma_stable_sort_len(orig.take(i as int), after);
        }
        while j < out.len() && !found
            invariant
                j <= out.len(),
                found ==> j < out.len() && first_after(out@, x, after, 0) == j,
                !found ==> first_after(out@, x, after, 0) == first_after(out@, x, after, j as int),
                forall|a: &T, b: &T| after_exec.requires((a, b)),
                forall|a: &T, b: &T, res: bool|
                    after_exec.ensures((a, b), res) ==> res == after(*a, *b),
            decreases out.len() - j + (if found { 0int } else { 1int }),
        {
            if after_exec(&out[j], &x) {
                found = true;
            } else {
                j += 1;
            }
        }
        proof {
            if !found {
                assert(first_after(out@, x, after, j as int) == out.len());
            }
        }
        out.insert(j, x);
        proof {
            assert(orig.take(i + 1).drop_last() =~= orig.take(i as int));
            assert(orig.take(i + 1).last() == x);
            assert(rest@ =~= orig.skip(i + 1));
        }
        i += 1;
    }
    assert(orig.take(n as int) =~= orig);
    out
}

/// Sorts `v` stably; `after_exec(ctx, a, b)` decides whether `a` must come after `b`.
pub fn sort_stable_with<C, T, F: Fn(&C, &T, &T) -> bool>(
    v: Vec<T>,
    ctx: &C,
    after_exec: F,
    Ghost(after): Ghost<spec_fn(T, T) -> bool>,
    Ghost(ok): Ghost<spec_fn(T) -> bool>,
) -> (r: Vec<T>)
    requires
        forall|j: int| 0 <= j < v@.len() ==> ok(#[trigger] v@[j]),
        forall|a: &T, b: &T| ok(*a) && ok(*b) ==> after_exec.requires((ctx, a, b)),
        forall|a: &T, b: &T, res: bool| after_exec.ensures((ctx, a, b), res) ==> res == after(*a, *b),
    ensures
        r@ == stable_sort(v@, after),
        forall|j: int| 0 <= j < r@.len() ==> ok(#[trigger] r@[j]),
{
    let ghost orig = v@;
    let mut rest = v;
    let mut out: Vec<T> = Vec::new();
    let n = rest.len();
    let mut i: usize = 0;
    assert(orig.take(0) =~= Seq::<T>::empty());
    assert(orig.skip(0) =~= orig);
    while i < n
        invariant
            n == orig.len(),
            i <= n,
            rest@ == orig.skip(i as int),
            out@ == stable_sort(orig.take(i as int), after),
            forall|j: int| 0 <= j < orig.len() ==> ok(#[trigger] orig[j]),
            forall|j: int| 0 <= j < out@.len() ==> ok(#[trigger] out@[j]),
            forall|a: &T, b: &T| ok(*a) && ok(*b) ==> after_exec.requires((ctx, a, b)),
            forall|a: &T, b: &T, res: bool|
                after_exec.ensures((ctx, a, b), res) ==> res == after(*a, *b),
        decreases n - i,
    {
        let x = rest.remove(0);
        assert(x == orig[i as int]);
        let mut j: usize = 0;
        let mut found = false;
        proof {
            lemma_stable_sort_len(orig.take(i as int), after);
        }
        while j < out.len() && !found
            invariant
                j <= out.len(),
                found ==> j < out.len() && first_after(out@, x, after, 0) == j,
                !found ==> first_after(out@, x, after, 0) == first_after(out@, x, after, j as int),
                ok(x),
                forall|j: int| 0 <= j < out@.len() ==> ok(#[trigger] out@[j]),
                forall|a: &T, b: &T| ok(*a) && ok(*b) ==> after_exec.requires((ctx, a, b)),
                forall|a: &T, b: &T, res: bool|
                    after_exec.ensures((ctx, a, b), res) ==> res == after(*a, *b),
            decreases out.len() - j + (if found { 0int } else { 1int }),
        {
            if after_exec(ctx, &out[j], &x) {
                found = true;
            } else {
                j += 1;
            }
        }
        proof {
            if !found {
                assert(first_after(out@, x, after, j as int) == out.len());
            }
        }
        let ghost before = out@;
        out.insert(j, x);
        proof {
            assert forall|m: int| 0 <= m < out@.len() implies ok(#[trigger] out@[m]) by {
                if m < j {
                    assert(out@[m] == before[m]);
                } else if m > j {
                    assert(out@[m] == before[m - 1]);
                }
            }
            assert(orig.take(i + 1).drop_last() =~= orig.take(i as int));
            assert(orig.take(i + 1).last() == x);
            assert(rest@ =~= orig.skip(i + 1));
        }
        i += 1;
    }
    assert(orig.take(n as int) =~= orig);
    out
}

/// Every element of a stable sort is an element of what was sorted.
pub proof fn lemma_stable_sort_elements<T>(s: Seq<T>, after: spec_fn(T, T) -> bool)
    ensures
        forall|k: int| 0 <= k < stable_sort(s, after).len() ==> s.contains(#[trigger] stable_sort(s, after)[k]),
    decreases s.len(),
{
    lemma_stable_sort_len(s, after);
    if s.len() > 0 {
        let init = s.drop_last();
        lemma_stable_sort_elements(init, after);
        lemma_stable_sort_len(init, after);
        let t = stable_sort(init, after);
        let i = first_after(t, s.last(), after, 0);
        lemma_first_after_bounds(t, s.last(), after, 0);
        let r = stable_sort(s, after);
        assert(r == t.insert(i, s.last()));
        assert forall|k: int| 0 <= k < r.len() implies s.contains(#[trigger] r[k]) by {
            if k < i {
                assert(r[k] == t[k]);
                assert(init.contains(t[k]));
                let m = choose|m: int| 0 <= m < init.len() && init[m] == t[k];
                assert(s[m] == init[m]);
            } else if k == i {
                assert(s[s.len() - 1] == s.last());
            } else {
                assert(r[k] == t[k - 1]);
                assert(init.contains(t[k - 1]));
                let m = choose|m: int| 0 <= m < init.len() && init[m] == t[k - 1];
                assert(s[m] == init[m]);
            }
        }
    }
}

/// `after` chains: `a` after `b` and `b` after `c` make `a` after `c`.
pub open spec fn transitive<T>(after: spec_fn(T, T) -> bool) -> bool {
    forall|a: T, b: T, c: T| #[trigger] after(a, b) && #[trigger] after(b, c) ==> after(a, c)
}

/// Nothing must come after itself.
pub open spec fn irreflexive<T>(after: spec_fn(T, T) -> bool) -> bool {
    forall|a: T| !#[trigger] after(a, a)
}

/// No element of `t` must come after a later one.
pub open spec fn in_order<T>(t: Seq<T>, after: spec_fn(T, T) -> bool) -> bool {
    forall|i: int, j: int| 0 <= i < j < t.len() ==> !after(#[trigger] t[i], #[trigger] t[j])
}

proof fn lemma_first_after_skips<T>(t: Seq<T>, x: T, after: spec_fn(T, T) -> bool, i: int, m: int)
    requires
        0 <= i <= m < first_after(t, x, after, i),
        m < t.len(),
    ensures
        !after(t[m], x),
    decreases t.len() - i,
{
    if i < t.len() && !after(t[i], x) && i < m {
        lemma_first_after_skips(t, x, after, i + 1, m);
    }
}

proof fn lemma_first_after_hit<T>(t: Seq<T>, x: T, after: spec_fn(T, T) -> bool, i: int)
    requires
        0 <= i,
        first_after(t, x, after, i) < t.len(),
    ensures
        after(t[first_after(t, x, after, i)], x),
    decreases t.len() - i,
{
    if i < t.len() && !after(t[i], x) {
        lemma_first_after_hit(t, x, after, i + 1);
    }
}

/// A stable sort by a chaining `after` leaves no element before one it must
/// come after.
pub proof fn lemma_stable_sort_in_order<T>(s: Seq<T>, after: spec_fn(T, T) -> bool)
    requires
        transitive(after),
        irreflexive(after),
    ensures
        in_order(stable_sort(s, after), after),
    decreases s.len(),
{
    if s.len() > 0 {
        let init = s.drop_last();
        let x = s.last();
        lemma_stable_sort_in_order(init, after);
        lemma_stable_sort_len(init, after);
        let t = stable_sort(init, after);
        let k = first_after(t, x, after, 0);
        lemma_first_after_bounds(t, x, after, 0);
        let r = t.insert(k, x);
        assert(stable_sort(s, after) == r);
        assert forall|i: int, j: int| 0 <= i < j < r.len() implies !after(#[trigger] r[i], #[trigger] r[j]) by {
            if j < k {
                assert(r[i] == t[i] && r[j] == t[j]);
            } else if j == k {
                assert(r[i] == t[i]);
                lemma_first_after_skips(t, x, after, 0, i);
            } else if i == k {
                assert(r[j] == t[j - 1]);
                lemma_first_after_hit(t, x, after, 0);
                if after(x, t[j - 1]) {
                    assert(after(t[k], x));
                    assert(after(t[k], t[j - 1]));
                    if j - 1 > k {
                        assert(!after(t[k], t[j - 1]));
                    } else {
                        assert(!after(t[k], t[k]));
                    }
                }
            } else if i < k {
                assert(r[i] == t[i] && r[j] == t[j - 1]);
            } else {
                assert(r[i] == t[i - 1] && r[j] == t[j - 1]);
            }
        }
    }
}

proof fn lemma_first_after_past<T>(t: Seq<T>, x: T, after: spec_fn(T, T) -> bool, i: int)
    requires
        0 <= i <= t.len(),
        forall|j: int| i <= j < t.len() ==> !after(#[trigger] t[j], x),
    ensures
        first_after(t, x, after, i) == t.len(),
    decreases t.len() - i,
{
    if i < t.len() {
        lemma_first_after_past(t, x, after, i + 1);
    }
}

/// Sorting what is already in order changes nothing.
pub proof fn lemma_stable_sort_sorted<T>(s: Seq<T>, after: spec_fn(T, T) -> bool)
    requires
        in_order(s, after),
    ensures
        stable_sort(s, after) == s,
    decreases s.len(),
{
    if s.len() > 0 {
        let init = s.drop_last();
        let x = s.last();
        assert forall|i: int, j: int| 0 <= i < j < init.len() implies !after(#[trigger] init[i], #[trigger] init[j]) by {
            assert(init[i] == s[i] && init[j] == s[j]);
        }
        lemma_stable_sort_sorted(init, after);
        assert forall|j: int| 0 <= j < init.len() implies !after(#[trigger] init[j], x) by {
            assert(init[j] == s[j]);
            assert(x == s[s.len() - 1]);
        }
        lemma_first_after_past(init, x, after, 0);
        assert(init.insert(init.len() as int, x) =~= s);
    }
}

/// A stable sort by an `after` that agrees with an integer key (a larger key
/// always comes after, and nothing comes after an element of larger key)
/// leaves the keys in ascending order.
pub proof fn lemma_stable_sort_by_key<T>(s: Seq<T>, after: spec_fn(T, T) -> bool, key: spec_fn(T) -> int)
    requires
        forall|a: T, b: T| key(a) > key(b) ==> #[trigger] after(a, b),
        forall|a: T, b: T| #[trigger] after(a, b) ==> key(a) >= key(b),
    ensures
        forall|i: int, j: int|
            0 <= i < j < stable_sort(s, after).len() ==> key(#[trigger] stable_sort(s, after)[i]) <= key(
                #[trigger] stable_sort(s, after)[j],
            ),
    decreases s.len(),
{
    lemma_stable_sort_len(s, after);
    if s.len() > 0 {
        let init = s.drop_last();
        let x = s.last();
        lemma_stable_sort_by_key(init, after, key);
        lemma_stable_sort_len(init, after);
        let t = stable_sort(init, after);
        let k = first_after(t, x, after, 0);
        lemma_first_after_bounds(t, x, after, 0);
        let r = t.insert(k, x);
        assert(stable_sort(s, after) == r);
        assert forall|i: int, j: int| 0 <= i < j < r.len() implies key(#[trigger] r[i]) <= key(#[trigger] r[j]) by {
            if j < k {
                assert(r[i] == t[i] && r[j] == t[j]);
            } else if j == k {
                assert(r[i] == t[i]);
                assert(!after(t[i], x));
            } else if i == k {
                assert(r[j] == t[j - 1]);
                assert(after(t[k], x));
                if j - 1 > k {
                    assert(key(t[k]) <= key(t[j - 1]));
                }
            } else if i < k {
                assert(r[i] == t[i] && r[j] == t[j - 1]);
            } else {
                assert(r[i] == t[i - 1] && r[j] == t[j - 1]);
            }
        }
    }
}

/// Every element of what was sorted is an element of the stable sort.
pub proof fn lemma_stable_sort_keeps<T>(s: Seq<T>, after: spec_fn(T, T) -> bool)
    ensures
        forall|k: int| 0 <= k < s.len() ==> stable_sort(s, after).contains(#[trigger] s[k]),
    decreases s.len(),
{
    if s.len() > 0 {
        let init = s.drop_last();
        lemma_stable_sort_keeps(init, after);
        lemma_stable_sort_len(init, after);
        let t = stable_sort(init, after);
        let i = first_after(t, s.last(), after, 0);
        lemma_first_after_bounds(t, s.last(), after, 0);
        let r = stable_sort(s, after);
        assert(r == t.insert(i, s.last()));
        assert forall|k: int| 0 <= k < s.len() implies r.contains(#[trigger] s[k]) by {
            if k == s.len() - 1 {
                assert(r[i] == s.last());
            } else {
                assert(s[k] == init[k]);
                assert(t.contains(init[k]));
                let m = choose|m: int| 0 <= m < t.len() && t[m] == init[k];
                if m < i {
                    assert(r[m] == t[m]);
                } else {
                    assert(r[m + 1] == t[m]);
                }
            }
        }
    }
}

} // verus!
