//! Unix paths as raw bytes: joining and component structure.
//!
//! A path is a byte string. Its components are read the way the standard
//! library reads them: a leading `/` is the root, empty pieces and inner `.`
//! pieces are skipped, a leading `.` of a relative path is the current
//! directory and `..` is the parent directory.

use vstd::prelude::*;

verus! {

pub const SLASH: u8 = 47;
pub const DOT: u8 = 46;

pub open spec fn ascii_of(s: Seq<char>) -> Seq<u8> {
    s.map_values(|c: char| c as u8)
}

/// The bytes of a string whose characters are all ASCII.
pub fn ascii_bytes(s: &str) -> (b: Vec<u8>)
    ensures
        b@ == ascii_of(s@),
{
    let n = s.unicode_len();
    let mut b: Vec<u8> = Vec::new();
    let mut i: usize = 0;
    while i < n
        invariant
            n == s@.len(),
            i <= n,
            b@ == ascii_of(s@.take(i as int)),
        decreases n - i,
    {
        let c = s.get_char(i);
        b.push(c as u8);
        assert(ascii_of(s@.take(i + 1)) =~= ascii_of(s@.take(i as int)).push(c as u8));
        i += 1;
    }
    assert(s@.take(n as int) =~= s@);
    b
}

/// `base` extended by `rel` with one separator between them; an absolute
/// `rel` replaces `base`.
pub open spec fn join_spec(base: Seq<u8>, rel: Seq<u8>) -> Seq<u8> {
    if rel.len() > 0 && rel[0] == SLASH {
        rel
    } else if base.len() == 0 || base.last() == SLASH {
        base + rel
    } else {
        base + seq![SLASH] + rel
    }
}

pub fn join_path(base: &[u8], rel: &[u8]) -> (p: Vec<u8>)
    ensures
        p@ == join_spec(base@, rel@),
{
    let mut out: Vec<u8> = Vec::new();
    if rel.len() > 0 && rel[0] == SLASH {
        crate::bytes::push_bytes(&mut out, rel);
        assert(out@ =~= rel@);
        return out;
    }
    crate::bytes::push_bytes(&mut out, base);
    if !(base.len() == 0 || base[base.len() - 1] == SLASH) {
        out.push(SLASH);
    }
    crate::bytes::push_bytes(&mut out, rel);
    assert(out@ =~= join_spec(base@, rel@));
    out
}


// ───────────────────────── components ─────────────────────────

/// The pieces between separators, empty ones included.
pub open spec fn pieces(p: Seq<u8>) -> Seq<Seq<u8>>
    decreases p.len(),
{
    if p.len() == 0 {
        seq![Seq::<u8>::empty()]
    } else {
        let r = pieces(p.drop_last());
        if p.last() == SLASH {
            r.push(Seq::<u8>::empty())
        } else {
            r.update(r.len() - 1, r.last().push(p.last()))
        }
    }
}

pub proof fn lemma_pieces_nonempty(p: Seq<u8>)
    ensures
        pieces(p).len() >= 1,
    decreases p.len(),
{
    if p.len() > 0 {
        lemma_pieces_nonempty(p.drop_last());
    }
}

/// A path component as the standard library reads it.
#[derive(Clone, Debug, PartialEq, Eq)]
pub enum Component {
    RootDir,
    CurDir,
    ParentDir,
    Normal(Vec<u8>),
}

pub enum Comp {
    Root,
    Cur,
    Parent,
    Normal(Seq<u8>),
}

impl View for Component {
    type V = Comp;

    open spec fn view(&self) -> Comp {
        match self {
            Component::RootDir => Comp::Root,
            Component::CurDir => Comp::Cur,
            Component::ParentDir => Comp::Parent,
            Component::Normal(b) => Comp::Normal(b@),
        }
    }
}

pub open spec fn comps_view(v: Seq<Component>) -> Seq<Comp> {
    v.map_values(|c: Component| c@)
}

pub open spec fn is_dot(piece: Seq<u8>) -> bool {
    piece == seq![DOT]
}

pub open spec fn is_dot_dot(piece: Seq<u8>) -> bool {
    piece == seq![DOT, DOT]
}

/// The component a piece stands for; `first_relative` marks the first piece
/// of a path without a root, the only place where `.` is kept.
pub open spec fn piece_comp(piece: Seq<u8>, first_relative: bool) -> Option<Comp> {
    if piece.len() == 0 {
        None
    } else if is_dot(piece) {
        if first_relative {
            Some(Comp::Cur)
        } else {
            None
        }
    } else if is_dot_dot(piece) {
        Some(Comp::Parent)
    } else {
        Some(Comp::Normal(piece))
    }
}

pub open spec fn comps_of_pieces(ps: Seq<Seq<u8>>, rooted: bool) -> Seq<Comp>
    decreases ps.len(),
{
    if ps.len() == 0 {
        if rooted {
            seq![Comp::Root]
        } else {
            Seq::empty()
        }
    } else {
        let r = comps_of_pieces(ps.drop_last(), rooted);
        match piece_comp(ps.last(), !rooted && ps.len() == 1) {
            Some(c) => r.push(c),
            None => r,
        }
    }
}

pub open spec fn has_root(p: Seq<u8>) -> bool {
    p.len() > 0 && p[0] == SLASH
}

/// The components of a path.
pub open spec fn components(p: Seq<u8>) -> Seq<Comp> {
    comps_of_pieces(pieces(p), has_root(p))
}

fn piece_component(piece: &Vec<u8>, first_relative: bool) -> (c: Option<Component>)
    ensures
        match piece_comp(piece@, first_relative) {
            Some(v) => c is Some && c->Some_0@ == v,
            None => c is None,
        },
{
    if piece.len() == 0 {
        None
    } else if piece.len() == 1 && piece[0] == DOT {
        assert(piece@ =~= seq![DOT]);
        if first_relative {
            Some(Component::CurDir)
        } else {
            None
        }
    } else if piece.len() == 2 && piece[0] == DOT && piece[1] == DOT {
        assert(piece@ =~= seq![DOT, DOT]);
        Some(Component::ParentDir)
    } else {
        assert(!is_dot(piece@) && !is_dot_dot(piece@)) by {
            if is_dot(piece@) {
                assert(piece@.len() == 1);
            }
            if is_dot_dot(piece@) {
                assert(piece@.len() == 2);
            }
        }
        Some(Component::Normal(piece.clone()))
    }
}

/// Split a path into its components.
pub fn components_of(p: &[u8]) -> (out: Vec<Component>)
    ensures
        comps_view(out@) == components(p@),
{
    let rooted = p.len() > 0 && p[0] == SLASH;
    let mut out: Vec<Component> = Vec::new();
    if rooted {
        out.push(Component::RootDir);
    }
    let mut cur: Vec<u8> = Vec::new();
    let mut done: usize = 0;
    let mut i: usize = 0;
    proof {
        assert(p@.take(0) =~= Seq::<u8>::empty());
        assert(comps_view(out@) =~= comps_of_pieces(Seq::empty(), rooted));
    }
    while i < p.len()
        invariant
            i <= p.len(),
            done <= i,
            rooted == has_root(p@),
            pieces(p@.take(i as int)).len() == done + 1,
            cur@ == pieces(p@.take(i as int)).last(),
            comps_view(out@) == comps_of_pieces(pieces(p@.take(i as int)).drop_last(), rooted),
        decreases p.len() - i,
    {
        let ghost prev = pieces(p@.take(i as int));
        proof {
            assert(p@.take(i + 1).drop_last() =~= p@.take(i as int));
            lemma_pieces_nonempty(p@.take(i as int));
        }
        if p[i] == SLASH {
            let c = piece_component(&cur, !rooted && done == 0);
            match c {
                Some(comp) => {
                    out.push(comp);
                },
                None => {},
            }
            proof {
                let next = pieces(p@.take(i + 1));
                assert(next =~= prev.push(Seq::<u8>::empty()));
                assert(next.drop_last() =~= prev);
                assert(prev.drop_last().len() + 1 == prev.len());
                assert(prev =~= prev.drop_last().push(prev.last()));
                assert(comps_view(out@) =~= comps_of_pieces(prev, rooted));
            }
            cur = Vec::new();
            done = done + 1;
        } else {
            cur.push(p[i]);
            proof {
                let next = pieces(p@.take(i + 1));
                assert(next.drop_last() =~= prev.drop_last());
            }
        }
        i += 1;
    }
    let ghost all = pieces(p@.take(i as int));
    proof {
        assert(p@.take(i as int) =~= p@);
        lemma_pieces_nonempty(p@);
        assert(all =~= all.drop_last().push(all.last()));
    }
    let c = piece_component(&cur, !rooted && done == 0);
    match c {
        Some(comp) => {
            out.push(comp);
        },
        None => {},
    }
    proof {
        assert(comps_view(out@) =~= comps_of_pieces(all, rooted));
    }
    out
}


// ───────────────────────── comparing components ─────────────────────────

pub fn component_eq(a: &Component, b: &Component) -> (r: bool)
    ensures
        r == (a@ == b@),
{
    match (a, b) {
        (Component::RootDir, Component::RootDir) => true,
        (Component::CurDir, Component::CurDir) => true,
        (Component::ParentDir, Component::ParentDir) => true,
        (Component::Normal(x), Component::Normal(y)) => crate::bytes::bytes_eq(
            x.as_slice(),
            y.as_slice(),
        ),
        _ => false,
    }
}

pub open spec fn comps_prefix(base: Seq<Comp>, p: Seq<Comp>) -> bool {
    base.len() <= p.len() && p.take(base.len() as int) == base
}

/// Whether `base` lists the first components of `p`.
pub fn components_start_with(p: &Vec<Component>, base: &Vec<Component>) -> (r: bool)
    ensures
        r == comps_prefix(comps_view(base@), comps_view(p@)),
{
    if base.len() > p.len() {
        return false;
    }
    let mut i: usize = 0;
    while i < base.len()
        invariant
            i <= base.len() <= p.len(),
            comps_view(p@).take(i as int) == comps_view(base@).take(i as int),
        decreases base.len() - i,
    {
        if !component_eq(&p[i], &base[i]) {
            assert(comps_view(p@)[i as int] != comps_view(base@)[i as int]);
            assert(comps_view(p@).take(base.len() as int)[i as int] == comps_view(p@)[i as int]);
            return false;
        }
        assert(comps_view(p@).take(i + 1) =~= comps_view(p@).take(i as int).push(
            comps_view(p@)[i as int],
        ));
        assert(comps_view(base@).take(i + 1) =~= comps_view(base@).take(i as int).push(
            comps_view(base@)[i as int],
        ));
        i += 1;
    }
    assert(comps_view(base@).take(base.len() as int) =~= comps_view(base@));
    true
}

/// Whether two component lists are equal.
pub fn components_eq(a: &Vec<Component>, b: &Vec<Component>) -> (r: bool)
    ensures
        r == (comps_view(a@) == comps_view(b@)),
{
    if a.len() != b.len() {
        assert(comps_view(a@).len() != comps_view(b@).len());
        return false;
    }
    let r = components_start_with(a, b);
    proof {
        assert(comps_view(a@) =~= comps_view(a@).take(b.len() as int));
    }
    r
}

pub open spec fn is_absolute(p: Seq<u8>) -> bool {
    has_root(p)
}

/// Whether any component is `.` or `..`.
pub open spec fn has_dot_comp(p: Seq<u8>) -> bool {
    exists|i: int| 0 <= i < components(p).len() && (#[trigger] components(p)[i] is Cur
        || components(p)[i] is Parent)
}

pub fn has_dot_component(p: &[u8]) -> (r: bool)
    ensures
        r == has_dot_comp(p@),
{
    let comps = components_of(p);
    let mut i: usize = 0;
    while i < comps.len()
        invariant
            i <= comps.len(),
            comps_view(comps@) == components(p@),
            forall|j: int| 0 <= j < i ==> !(#[trigger] components(p@)[j] is Cur || components(p@)[j] is Parent),
        decreases comps.len() - i,
    {
        match &comps[i] {
            Component::CurDir => {
                assert(components(p@)[i as int] is Cur);
                return true;
            },
            Component::ParentDir => {
                assert(components(p@)[i as int] is Parent);
                return true;
            },
            _ => {},
        }
        i += 1;
    }
    false
}

// ───────────────────────── trimming and stripping ─────────────────────────

/// Index of the first separator in `p`, or its length.
pub open spec fn first_slash(p: Seq<u8>, i: int) -> int
    decreases p.len() - i,
{
    if i < 0 || i >= p.len() {
        p.len() as int
    } else if p[i] == SLASH {
        i
    } else {
        first_slash(p, i + 1)
    }
}

/// Index of the last separator in `p[..end]`, or -1.
pub open spec fn last_slash(p: Seq<u8>, end: int) -> int
    decreases end,
{
    if end <= 0 || end > p.len() {
        -1
    } else if p[end - 1] == SLASH {
        end - 1
    } else {
        last_slash(p, end - 1)
    }
}

pub open spec fn skippable(piece: Seq<u8>) -> bool {
    piece.len() == 0 || piece == seq![DOT]
}

/// Drop leading empty and `.` pieces.
pub open spec fn trim_front(p: Seq<u8>) -> Seq<u8>
    decreases p.len(),
{
    if p.len() == 0 {
        p
    } else {
        let k = first_slash(p, 0);
        if skippable(p.take(k)) {
            let next = if k + 1 <= p.len() { k + 1 } else { p.len() as int };
            if next <= 0 {
                p
            } else {
                trim_front(p.skip(next))
            }
        } else {
            p
        }
    }
}

/// Drop trailing empty and `.` pieces.
pub open spec fn trim_back(p: Seq<u8>) -> Seq<u8>
    decreases p.len(),
{
    if p.len() == 0 {
        p
    } else {
        let k = last_slash(p, p.len() as int);
        if skippable(p.skip(k + 1)) {
            let keep = if k >= 0 { k } else { 0 };
            if keep >= p.len() {
                p
            } else {
                trim_back(p.take(keep))
            }
        } else {
            p
        }
    }
}

pub proof fn lemma_first_slash(p: Seq<u8>, i: int)
    requires
        0 <= i <= p.len(),
    ensures
        i <= first_slash(p, i) <= p.len(),
        forall|j: int| i <= j < first_slash(p, i) ==> p[j] != SLASH,
        first_slash(p, i) < p.len() ==> p[first_slash(p, i)] == SLASH,
    decreases p.len() - i,
{
    if i < p.len() && p[i] != SLASH {
        lemma_first_slash(p, i + 1);
    }
}

pub proof fn lemma_last_slash(p: Seq<u8>, end: int)
    requires
        0 <= end <= p.len(),
    ensures
        -1 <= last_slash(p, end) < end,
        forall|j: int| last_slash(p, end) < j < end ==> p[j] != SLASH,
        last_slash(p, end) >= 0 ==> p[last_slash(p, end)] == SLASH,
    decreases end,
{
    if end > 0 && p[end - 1] != SLASH {
        lemma_last_slash(p, end - 1);
    }
}

pub fn is_skippable(p: &[u8], from: usize, to: usize) -> (r: bool)
    requires
        from <= to <= p.len(),
    ensures
        r == skippable(p@.subrange(from as int, to as int)),
{
    if to == from {
        true
    } else if to == from + 1 && p[from] == DOT {
        assert(p@.subrange(from as int, to as int) =~= seq![DOT]);
        true
    } else {
        assert(p@.subrange(from as int, to as int).len() != 1 || p@.subrange(from as int, to as int)[0] != DOT);
        false
    }
}

pub fn trim_front_exec(p: &[u8]) -> (r: Vec<u8>)
    ensures
        r@ == trim_front(p@),
{
    let mut start: usize = 0;
    let mut done = false;
    assert(p@.skip(0) =~= p@);
    while !done
        invariant
            start <= p.len(),
            done ==> trim_front(p@.skip(start as int)) == p@.skip(start as int),
            trim_front(p@) == trim_front(p@.skip(start as int)),
        decreases p.len() - start + (if done { 0int } else { 1int }),
    {
        let ghost rest = p@.skip(start as int);
        if start == p.len() {
            done = true;
        } else {
            let mut k = start;
            while k < p.len() && p[k] != SLASH
                invariant
                    start <= k <= p.len(),
                    forall|j: int| start <= j < k ==> p@[j] != SLASH,
                decreases p.len() - k,
            {
                k += 1;
            }
            proof {
                lemma_first_slash(rest, 0);
                let fk = first_slash(rest, 0);
                assert(fk == k - start) by {
                    if fk < k - start {
                        assert(rest[fk] == p@[start + fk]);
                    } else if fk > k - start {
                        assert(rest[k - start] == p@[k as int]);
                    }
                }
                assert(rest.take(k - start) =~= p@.subrange(start as int, k as int));
            }
            if is_skippable(p, start, k) {
                let next = if k < p.len() { k + 1 } else { p.len() };
                proof {
                    assert(rest.skip(next - start) =~= p@.skip(next as int));
                }
                start = next;
            } else {
                done = true;
            }
        }
    }
    crate::bytes::copy_range(p, start, p.len() - start)
}

pub fn trim_back_exec(p: &[u8]) -> (r: Vec<u8>)
    ensures
        r@ == trim_back(p@),
{
    let mut end: usize = p.len();
    let mut done = false;
    assert(p@.take(p.len() as int) =~= p@);
    while !done
        invariant
            end <= p.len(),
            done ==> trim_back(p@.take(end as int)) == p@.take(end as int),
            trim_back(p@) == trim_back(p@.take(end as int)),
        decreases end + (if done { 0int } else { 1int }),
    {
        let ghost cur = p@.take(end as int);
        if end == 0 {
            done = true;
        } else {
            let mut k = end;
            while k > 0 && p[k - 1] != SLASH
                invariant
                    0 <= k <= end <= p.len(),
                    forall|j: int| k <= j < end ==> p@[j] != SLASH,
                decreases k,
            {
                k -= 1;
            }
            let ghost ls = last_slash(cur, end as int);
            proof {
                lemma_last_slash(cur, end as int);
                assert(ls == k - 1) by {
                    if ls < k - 1 {
                        assert(cur[k - 1] == p@[k - 1]);
                    } else if ls > k - 1 {
                        assert(cur[ls] == p@[ls]);
                    }
                }
                assert(cur.skip(ls + 1) =~= p@.subrange(k as int, end as int));
            }
            if is_skippable(p, k, end) {
                let keep = if k >= 1 { k - 1 } else { 0 };
                proof {
                    assert(cur.take(keep as int) =~= p@.take(keep as int));
                }
                end = keep;
            } else {
                done = true;
            }
        }
    }
    crate::bytes::copy_range(p, 0, end)
}


/// What is left of the relative bytes `p` once its first `n` components have
/// been read, as the standard library's `Components::as_path` shows it from
/// the front.
pub open spec fn drop_comps(p: Seq<u8>, n: nat) -> Seq<u8>
    decreases n,
{
    let t = trim_front(p);
    if n == 0 || t.len() == 0 {
        t
    } else {
        let k = first_slash(t, 0);
        let next = if k + 1 <= t.len() {
            k + 1
        } else {
            t.len() as int
        };
        drop_comps(t.skip(next), (n - 1) as nat)
    }
}

/// `Path::strip_prefix` for an absolute `base`: the rest of `p` below `base`
/// when `base`'s components start `p`'s.
pub open spec fn strip_rooted(p: Seq<u8>, base: Seq<u8>) -> Option<Seq<u8>> {
    if has_root(base) && comps_prefix(components(base), components(p)) {
        Some(trim_back(drop_comps(p.skip(1), (components(base).len() - 1) as nat)))
    } else {
        None
    }
}

pub proof fn lemma_trim_front_shorter(p: Seq<u8>)
    ensures
        trim_front(p).len() <= p.len(),
    decreases p.len(),
{
    if p.len() > 0 {
        let k = first_slash(p, 0);
        lemma_first_slash(p, 0);
        if skippable(p.take(k)) {
            let next = if k + 1 <= p.len() { k + 1 } else { p.len() as int };
            if next > 0 {
                lemma_trim_front_shorter(p.skip(next));
            }
        }
    }
}

pub fn drop_comps_exec(p: &[u8], n: usize) -> (r: Vec<u8>)
    ensures
        r@ == drop_comps(p@, n as nat),
{
    let mut t = trim_front_exec(p);
    let mut left = n;
    proof {
        lemma_trim_front_idem(p@);
        if left > 0 && t@.len() > 0 {
            assert(drop_comps(p@, n as nat) == drop_comps(t@, left as nat));
        }
    }
    while left > 0 && t.len() > 0
        invariant
            left <= n,
            t@ == trim_front(t@),
            drop_comps(p@, n as nat) == (if left == 0 || t@.len() == 0 {
                t@
            } else {
                drop_comps(t@, left as nat)
            }),
        decreases left,
    {
        let mut k: usize = 0;
        while k < t.len() && t[k] != SLASH
            invariant
                k <= t@.len(),
                forall|j: int| 0 <= j < k ==> t@[j] != SLASH,
            decreases t.len() - k,
        {
            k += 1;
        }
        proof {
            lemma_first_slash(t@, 0);
            let fk = first_slash(t@, 0);
            assert(fk == k) by {
                if fk < k {
                    assert(t@[fk] != SLASH);
                }
            }
        }
        let next = if k < t.len() { k + 1 } else { t.len() };
        let rest = crate::bytes::copy_range(t.as_slice(), next, t.len() - next);
        proof {
            assert(rest@ =~= t@.skip(next as int));
            assert(trim_front(t@) == t@);
        }
        let ghost old_t = t@;
        t = trim_front_exec(rest.as_slice());
        left = left - 1;
        proof {
            lemma_trim_front_idem(rest@);
            assert(drop_comps(old_t, (left + 1) as nat) == drop_comps(rest@, left as nat));
            if left > 0 && t@.len() > 0 {
                assert(drop_comps(rest@, left as nat) == drop_comps(t@, left as nat));
            }
        }
    }
    t
}

pub proof fn lemma_trim_front_idem(p: Seq<u8>)
    ensures
        trim_front(trim_front(p)) == trim_front(p),
    decreases p.len(),
{
    if p.len() > 0 {
        let k = first_slash(p, 0);
        lemma_first_slash(p, 0);
        if skippable(p.take(k)) {
            let next = if k + 1 <= p.len() { k + 1 } else { p.len() as int };
            if next > 0 {
                lemma_trim_front_idem(p.skip(next));
            }
        }
    }
}

pub proof fn lemma_rooted_first(ps: Seq<Seq<u8>>)
    ensures
        comps_of_pieces(ps, true).len() >= 1,
        comps_of_pieces(ps, true)[0] == Comp::Root,
    decreases ps.len(),
{
    if ps.len() > 0 {
        lemma_rooted_first(ps.drop_last());
    }
}

/// The rest of `p` below the absolute `base`, or `None`.
pub fn strip_rooted_exec(p: &[u8], base: &[u8]) -> (r: Option<Vec<u8>>)
    requires
        has_root(base@),
    ensures
        r matches Some(v) ==> strip_rooted(p@, base@) == Some(v@),
        r is None ==> strip_rooted(p@, base@) is None,
{
    let bc = components_of(base);
    let pc = components_of(p);
    if !components_start_with(&pc, &bc) {
        return None;
    }
    proof {
        lemma_rooted_first(pieces(base@));
        if p@.len() == 0 {
            assert(pieces(p@) =~= seq![Seq::<u8>::empty()]);
            assert(pieces(p@).drop_last() =~= Seq::<Seq<u8>>::empty());
            assert(pieces(p@).last() =~= Seq::<u8>::empty());
            assert(comps_of_pieces(pieces(p@).drop_last(), false) =~= Seq::<Comp>::empty());
            assert(piece_comp(pieces(p@).last(), true) is None);
            assert(components(p@).len() == 0);
        }
    }
    let rest = crate::bytes::copy_range(p, 1, p.len() - 1);
    assert(rest@ =~= p@.skip(1));
    let dropped = drop_comps_exec(rest.as_slice(), bc.len() - 1);
    Some(trim_back_exec(dropped.as_slice()))
}

// ───────────────────────── ordering paths ─────────────────────────

/// The rank of a component kind in `Path`'s order.
pub open spec fn comp_rank(c: Comp) -> int {
    match c {
        Comp::Root => 1,
        Comp::Cur => 2,
        Comp::Parent => 3,
        Comp::Normal(_) => 4,
    }
}

pub open spec fn comp_lt(a: Comp, b: Comp) -> bool {
    comp_rank(a) < comp_rank(b) || match (a, b) {
        (Comp::Normal(x), Comp::Normal(y)) => crate::bytes::bytes_lt(x, y),
        _ => false,
    }
}

/// `Path`'s order: components compared one by one.
pub open spec fn comps_lt(a: Seq<Comp>, b: Seq<Comp>) -> bool
    decreases a.len(),
{
    if a.len() == 0 {
        b.len() > 0
    } else if b.len() == 0 {
        false
    } else if a[0] != b[0] {
        comp_lt(a[0], b[0])
    } else {
        comps_lt(a.drop_first(), b.drop_first())
    }
}

proof fn lemma_comp_lt_strict(a: Comp, b: Comp, c: Comp)
    ensures
        !comp_lt(a, a),
        comp_lt(a, b) && comp_lt(b, c) ==> comp_lt(a, c),
{
    if let Comp::Normal(x) = a {
        crate::bytes::lemma_bytes_lt_irreflexive(x);
        if let Comp::Normal(y) = b {
            if let Comp::Normal(z) = c {
                if crate::bytes::bytes_lt(x, y) && crate::bytes::bytes_lt(y, z) {
                    crate::bytes::lemma_bytes_lt_transitive(x, y, z);
                }
            }
        }
    }
}

/// No path comes before itself in `Path`'s order.
pub proof fn lemma_comps_lt_irreflexive(a: Seq<Comp>)
    ensures
        !comps_lt(a, a),
    decreases a.len(),
{
    if a.len() > 0 {
        lemma_comps_lt_irreflexive(a.drop_first());
    }
}

/// `Path`'s order chains.
pub proof fn lemma_comps_lt_transitive(a: Seq<Comp>, b: Seq<Comp>, c: Seq<Comp>)
    requires
        comps_lt(a, b),
        comps_lt(b, c),
    ensures
        comps_lt(a, c),
    decreases a.len(),
{
    if a.len() > 0 && b.len() > 0 && c.len() > 0 {
        lemma_comp_lt_strict(a[0], b[0], c[0]);
        lemma_comp_lt_strict(b[0], a[0], c[0]);
        lemma_comp_lt_strict(c[0], a[0], b[0]);
        if a[0] == b[0] && b[0] == c[0] {
            lemma_comps_lt_transitive(a.drop_first(), b.drop_first(), c.drop_first());
        }
    }
}

fn comp_rank_exec(c: &Component) -> (r: u8)
    ensures
        r == comp_rank(c@),
{
    match c {
        Component::RootDir => 1,
        Component::CurDir => 2,
        Component::ParentDir => 3,
        Component::Normal(_) => 4,
    }
}

fn comp_less(a: &Component, b: &Component) -> (r: bool)
    ensures
        r == comp_lt(a@, b@),
{
    let ra = comp_rank_exec(a);
    let rb = comp_rank_exec(b);
    if ra < rb {
        return true;
    }
    match (a, b) {
        (Component::Normal(x), Component::Normal(y)) => crate::bytes::bytes_less(x.as_slice(), y.as_slice()),
        _ => false,
    }
}

/// Whether `a` sorts before `b` as paths.
pub fn path_less(a: &[u8], b: &[u8]) -> (r: bool)
    ensures
        r == comps_lt(components(a@), components(b@)),
{
    let ca = components_of(a);
    let cb = components_of(b);
    let ghost va = comps_view(ca@);
    let ghost vb = comps_view(cb@);
    let mut i: usize = 0;
    assert(va.skip(0) =~= va);
    assert(vb.skip(0) =~= vb);
    while i < ca.len() && i < cb.len() && component_eq(&ca[i], &cb[i])
        invariant
            va == comps_view(ca@),
            vb == comps_view(cb@),
            va == components(a@),
            vb == components(b@),
            i <= ca@.len(),
            i <= cb@.len(),
            comps_lt(va, vb) == comps_lt(va.skip(i as int), vb.skip(i as int)),
        decreases ca.len() - i,
    {
        proof {
            assert(va.skip(i as int).drop_first() =~= va.skip(i + 1));
            assert(vb.skip(i as int).drop_first() =~= vb.skip(i + 1));
        }
        i += 1;
    }
    if i == ca.len() {
        i < cb.len()
    } else if i == cb.len() {
        false
    } else {
        proof {
            assert(va.skip(i as int)[0] == ca@[i as int]@);
            assert(vb.skip(i as int)[0] == cb@[i as int]@);
        }
        comp_less(&ca[i], &cb[i])
    }
}

// ───────────────────────── ASCII text on bytes ─────────────────────────

pub open spec fn lower(b: u8) -> u8 {
    if 65 <= b <= 90 {
        (b + 32) as u8
    } else {
        b
    }
}

pub fn lower_byte(b: u8) -> (r: u8)
    ensures
        r == lower(b),
{
    if 65 <= b && b <= 90 {
        b + 32
    } else {
        b
    }
}

pub open spec fn lower_all(s: Seq<u8>) -> Seq<u8> {
    s.map_values(|b: u8| lower(b))
}

pub fn lowercase_bytes(s: &[u8]) -> (r: Vec<u8>)
    ensures
        r@ == lower_all(s@),
{
    let mut r: Vec<u8> = Vec::new();
    let mut i: usize = 0;
    while i < s.len()
        invariant
            i <= s.len(),
            r@ == lower_all(s@.take(i as int)),
        decreases s.len() - i,
    {
        r.push(lower_byte(s[i]));
        assert(lower_all(s@.take(i + 1)) =~= lower_all(s@.take(i as int)).push(lower(s@[i as int])));
        i += 1;
    }
    assert(s@.take(s.len() as int) =~= s@);
    r
}

pub open spec fn bytes_prefix(prefix: Seq<u8>, s: Seq<u8>) -> bool {
    prefix.len() <= s.len() && s.take(prefix.len() as int) == prefix
}

pub open spec fn bytes_suffix(suffix: Seq<u8>, s: Seq<u8>) -> bool {
    suffix.len() <= s.len() && s.skip(s.len() - suffix.len()) == suffix
}

pub fn starts_with_bytes(s: &[u8], prefix: &[u8]) -> (r: bool)
    ensures
        r == bytes_prefix(prefix@, s@),
{
    if prefix.len() > s.len() {
        return false;
    }
    let head = crate::bytes::copy_range(s, 0, prefix.len());
    assert(head@ =~= s@.take(prefix.len() as int));
    crate::bytes::bytes_eq(head.as_slice(), prefix)
}

pub fn ends_with_bytes(s: &[u8], suffix: &[u8]) -> (r: bool)
    ensures
        r == bytes_suffix(suffix@, s@),
{
    if suffix.len() > s.len() {
        return false;
    }
    let tail = crate::bytes::copy_range(s, s.len() - suffix.len(), suffix.len());
    assert(tail@ =~= s@.skip(s.len() - suffix.len()));
    crate::bytes::bytes_eq(tail.as_slice(), suffix)
}

} // verus!
