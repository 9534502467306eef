//! Scan history: compact snapshots of the scanned tree, their file format,
//! what grew between two of them, and Growth Watch over many of them.

use vstd::prelude::*;
use crate::bytes::{
    bytes_eq, copy_range, i64_at, le_i64, le_u32, lemma_i64_round_trip, lemma_u32_round_trip, push_bytes,
    push_i64, push_u32, u32_at,
};
use crate::codec::{lemma_part_at, span_end, Reader};
use crate::paths::{has_root, strip_rooted, strip_rooted_exec, components, components_of, components_start_with, comps_lt, comps_prefix, comps_view, ends_with_bytes, path_less, starts_with_bytes, Component};
use crate::forecast::{clamp_i128, clamp_i64, tdiv, tdiv_i128, CapacityPoint};
use crate::sorting::{lemma_sort_map, lemma_stable_sort_len, sort_stable, stable_sort};
use crate::volumes::{path_eq, same_path};
use crate::scan::{Node, ScanTree};

verus! {

pub const MIN_GROWTH_BYTES: i64 = 10485760;

pub const MAX_ENTRIES: usize = 1000000;

pub const MAX_PATH_BYTES: usize = 1048576;

pub const MAX_WATCHED: usize = 128;

#[derive(Clone, Debug, PartialEq, Eq)]
pub struct Entry {
    pub path: Vec<u8>,
    pub bytes: i64,
    pub files: i64,
    pub is_dir: bool,
}

#[derive(Clone, Debug, PartialEq, Eq)]
pub struct Snapshot {
    pub captured_at_ms: i64,
    pub root: Vec<u8>,
    pub total_bytes: i64,
    pub volume_total_bytes: Option<i64>,
    pub volume_free_bytes: Option<i64>,
    pub entries: Vec<Entry>,
}

pub struct EntryView {
    pub path: Seq<u8>,
    pub bytes: i64,
    pub files: i64,
    pub is_dir: bool,
}

pub struct SnapshotView {
    pub captured_at_ms: i64,
    pub root: Seq<u8>,
    pub total_bytes: i64,
    pub volume_total_bytes: Option<i64>,
    pub volume_free_bytes: Option<i64>,
    pub entries: Seq<EntryView>,
}

impl View for Entry {
    type V = EntryView;

    open spec fn view(&self) -> EntryView {
        EntryView { path: self.path@, bytes: self.bytes, files: self.files, is_dir: self.is_dir }
    }
}

pub open spec fn entries_view(v: Seq<Entry>) -> Seq<EntryView> {
    v.map_values(|e: Entry| e@)
}

impl View for Snapshot {
    type V = SnapshotView;

    open spec fn view(&self) -> SnapshotView {
        SnapshotView {
            captured_at_ms: self.captured_at_ms,
            root: self.root@,
            total_bytes: self.total_bytes,
            volume_total_bytes: self.volume_total_bytes,
            volume_free_bytes: self.volume_free_bytes,
            entries: entries_view(self.entries@),
        }
    }
}

#[derive(Clone, Copy, Debug, PartialEq, Eq, Structural)]
pub enum HistoryError {
    Truncated,
    Unsupported,
    PathTooLong,
    TooManyEntries,
    InvalidFlag,
    Trailing,
}

pub open spec fn history_error_text(e: HistoryError) -> Seq<char> {
    match e {
        HistoryError::Truncated => "snapshot is truncated"@,
        HistoryError::Unsupported => "snapshot format is not supported"@,
        HistoryError::PathTooLong => "snapshot path is too long"@,
        HistoryError::TooManyEntries => "snapshot has too many entries"@,
        HistoryError::InvalidFlag => "snapshot contains an invalid entry flag"@,
        HistoryError::Trailing => "snapshot contains trailing data"@,
    }
}

impl HistoryError {
    pub fn message(self) -> (m: &'static str)
        ensures
            m@ == history_error_text(self),
    {
        match self {
            HistoryError::Truncated => "snapshot is truncated",
            HistoryError::Unsupported => "snapshot format is not supported",
            HistoryError::PathTooLong => "snapshot path is too long",
            HistoryError::TooManyEntries => "snapshot has too many entries",
            HistoryError::InvalidFlag => "snapshot contains an invalid entry flag",
            HistoryError::Trailing => "snapshot contains trailing data",
        }
    }
}

// ───────────────────────── the snapshot format ─────────────────────────

/// `DDHIST1` and a zero byte.
pub open spec fn magic_v1() -> Seq<u8> {
    seq![68u8, 68u8, 72u8, 73u8, 83u8, 84u8, 49u8, 0u8]
}

/// `DDHIST2` and a zero byte.
pub open spec fn magic_v2() -> Seq<u8> {
    seq![68u8, 68u8, 72u8, 73u8, 83u8, 84u8, 50u8, 0u8]
}

pub open spec fn path_rec(p: Seq<u8>) -> Seq<u8> {
    le_u32(p.len() as u32) + p
}

pub open spec fn entry_bytes(e: EntryView) -> Seq<u8> {
    path_rec(e.path) + le_i64(e.bytes) + le_i64(e.files) + seq![if e.is_dir { 1u8 } else { 0u8 }]
}

pub open spec fn entries_bytes(es: Seq<EntryView>) -> Seq<u8>
    decreases es.len(),
{
    if es.len() == 0 {
        Seq::empty()
    } else {
        entries_bytes(es.drop_last()) + entry_bytes(es.last())
    }
}

pub open spec fn or_minus_one(v: Option<i64>) -> i64 {
    match v {
        Some(x) => x,
        None => -1i64,
    }
}

/// The bytes of a snapshot, written in the current (second) format.
pub open spec fn snapshot_bytes(s: SnapshotView) -> Seq<u8> {
    magic_v2() + le_i64(s.captured_at_ms) + le_i64(s.total_bytes) + le_i64(
        or_minus_one(s.volume_total_bytes),
    ) + le_i64(or_minus_one(s.volume_free_bytes)) + path_rec(s.root) + le_u32(
        s.entries.len() as u32,
    ) + entries_bytes(s.entries)
}

/// Whether a snapshot can be written: bounded entry count and path lengths.
pub open spec fn snapshot_encodable(s: SnapshotView) -> bool {
    &&& s.entries.len() <= MAX_ENTRIES
    &&& s.root.len() <= MAX_PATH_BYTES
    &&& forall|k: int| 0 <= k < s.entries.len() ==> (#[trigger] s.entries[k]).path.len() <= MAX_PATH_BYTES
}

pub open spec fn parse_hpath(b: Seq<u8>, off: int) -> Result<(Seq<u8>, int), HistoryError> {
    match span_end(b, off, 4) {
        None => Err(HistoryError::Truncated),
        Some(o1) => {
            let len = u32_at(b, off) as int;
            if len > MAX_PATH_BYTES {
                Err(HistoryError::PathTooLong)
            } else {
                match span_end(b, o1, len) {
                    None => Err(HistoryError::Truncated),
                    Some(o2) => Ok((b.subrange(o1, o2), o2)),
                }
            }
        },
    }
}

pub open spec fn parse_entry(b: Seq<u8>, off: int) -> Result<(EntryView, int), HistoryError> {
    match parse_hpath(b, off) {
        Err(e) => Err(e),
        Ok((path, o1)) => match span_end(b, o1, 8) {
            None => Err(HistoryError::Truncated),
            Some(o2) => match span_end(b, o2, 8) {
                None => Err(HistoryError::Truncated),
                Some(o3) => match span_end(b, o3, 1) {
                    None => Err(HistoryError::Truncated),
                    Some(o4) => if b[o3] > 1 {
                        Err(HistoryError::InvalidFlag)
                    } else {
                        Ok(
                            (
                                EntryView {
                                    path,
                                    bytes: i64_at(b, o1),
                                    files: i64_at(b, o2),
                                    is_dir: b[o3] == 1,
                                },
                                o4,
                            ),
                        )
                    },
                },
            },
        },
    }
}

pub open spec fn parse_entries(b: Seq<u8>, off: int, n: nat) -> Result<(Seq<EntryView>, int), HistoryError>
    decreases n,
{
    if n == 0 {
        Ok((Seq::empty(), off))
    } else {
        match parse_entries(b, off, (n - 1) as nat) {
            Err(e) => Err(e),
            Ok((es, o)) => match parse_entry(b, o) {
                Err(e) => Err(e),
                Ok((e, o2)) => Ok((es.push(e), o2)),
            },
        }
    }
}

/// A capacity value as written: a negative one means none was observed.
pub open spec fn observed(v: i64) -> Option<i64> {
    if v >= 0 {
        Some(v)
    } else {
        None
    }
}

/// What a snapshot file decodes to. The first format has no capacity values.
pub open spec fn decode_spec(b: Seq<u8>) -> Result<SnapshotView, HistoryError> {
    if b.len() < 8 {
        Err(HistoryError::Truncated)
    } else if b.subrange(0, 8) != magic_v2() && b.subrange(0, 8) != magic_v1() {
        Err(HistoryError::Unsupported)
    } else if b.len() < 24 {
        Err(HistoryError::Truncated)
    } else {
        let v2 = b.subrange(0, 8) == magic_v2();
        let head: int = if v2 {
            40
        } else {
            24
        };
        if v2 && b.len() < 40 {
            Err(HistoryError::Truncated)
        } else {
            match parse_hpath(b, head) {
                Err(e) => Err(e),
                Ok((root, o1)) => match span_end(b, o1, 4) {
                    None => Err(HistoryError::Truncated),
                    Some(o2) => {
                        let count = u32_at(b, o1);
                        if count > MAX_ENTRIES {
                            Err(HistoryError::TooManyEntries)
                        } else {
                            match parse_entries(b, o2, count as nat) {
                                Err(e) => Err(e),
                                Ok((es, end)) => if end != b.len() {
                                    Err(HistoryError::Trailing)
                                } else {
                                    Ok(
                                        SnapshotView {
                                            captured_at_ms: i64_at(b, 8),
                                            root,
                                            total_bytes: i64_at(b, 16),
                                            volume_total_bytes: if v2 {
                                                observed(i64_at(b, 24))
                                            } else {
                                                None
                                            },
                                            volume_free_bytes: if v2 {
                                                observed(i64_at(b, 32))
                                            } else {
                                                None
                                            },
                                            entries: es,
                                        },
                                    )
                                },
                            }
                        }
                    },
                },
            }
        }
    }
}

fn magic_v2_vec() -> (m: Vec<u8>)
    ensures
        m@ == magic_v2(),
{
    let m = vec![68u8, 68u8, 72u8, 73u8, 83u8, 84u8, 50u8, 0u8];
    assert(m@ =~= magic_v2());
    m
}

fn magic_v1_vec() -> (m: Vec<u8>)
    ensures
        m@ == magic_v1(),
{
    let m = vec![68u8, 68u8, 72u8, 73u8, 83u8, 84u8, 49u8, 0u8];
    assert(m@ =~= magic_v1());
    m
}

fn put_hpath(out: &mut Vec<u8>, p: &[u8])
    requires
        p@.len() <= MAX_PATH_BYTES,
    ensures
        final(out)@ == old(out)@ + path_rec(p@),
{
    push_u32(out, p.len() as u32);
    push_bytes(out, p);
    assert(final(out)@ =~= old(out)@ + path_rec(p@));
}

/// Writes a snapshot in the current format; too many entries or a path over
/// 1 MiB is refused.
pub fn encode(snapshot: &Snapshot) -> (r: Result<Vec<u8>, HistoryError>)
    ensures
        snapshot_encodable(snapshot@) ==> r is Ok && r->Ok_0@ == snapshot_bytes(snapshot@),
        snapshot@.entries.len() > MAX_ENTRIES ==> r == Err::<Vec<u8>, HistoryError>(
            HistoryError::TooManyEntries,
        ),
        snapshot@.entries.len() <= MAX_ENTRIES && !snapshot_encodable(snapshot@) ==> r == Err::<
            Vec<u8>,
            HistoryError,
        >(HistoryError::PathTooLong),
{
    let ghost s = snapshot@;
    if snapshot.entries.len() > MAX_ENTRIES {
        return Err(HistoryError::TooManyEntries);
    }
    if snapshot.root.len() > MAX_PATH_BYTES {
        return Err(HistoryError::PathTooLong);
    }
    let mut out = magic_v2_vec();
    push_i64(&mut out, snapshot.captured_at_ms);
    push_i64(&mut out, snapshot.total_bytes);
    let vt = match snapshot.volume_total_bytes {
        Some(v) => v,
        None => -1,
    };
    let vf = match snapshot.volume_free_bytes {
        Some(v) => v,
        None => -1,
    };
    push_i64(&mut out, vt);
    push_i64(&mut out, vf);
    put_hpath(&mut out, snapshot.root.as_slice());
    push_u32(&mut out, snapshot.entries.len() as u32);
    let ghost head = out@;
    let mut i: usize = 0;
    while i < snapshot.entries.len()
        invariant
            i <= snapshot.entries@.len() <= MAX_ENTRIES,
            s == snapshot@,
            out@ == head + entries_bytes(s.entries.take(i as int)),
            forall|j: int| 0 <= j < i ==> (#[trigger] s.entries[j]).path.len() <= MAX_PATH_BYTES,
        decreases snapshot.entries.len() - i,
    {
        let e = &snapshot.entries[i];
        if e.path.len() > MAX_PATH_BYTES {
            assert(s.entries[i as int].path.len() > MAX_PATH_BYTES);
            return Err(HistoryError::PathTooLong);
        }
        let ghost before = out@;
        put_hpath(&mut out, e.path.as_slice());
        push_i64(&mut out, e.bytes);
        push_i64(&mut out, e.files);
        out.push(if e.is_dir { 1u8 } else { 0u8 });
        proof {
            assert(s.entries[i as int] == e@);
            assert(s.entries.take(i + 1).drop_last() =~= s.entries.take(i as int));
            assert(out@ =~= before + entry_bytes(e@));
        }
        i += 1;
    }
    proof {
        assert(s.entries.take(snapshot.entries.len() as int) =~= s.entries);
        assert(out@ =~= snapshot_bytes(s));
    }
    Ok(out)
}

fn read_hpath(r: &mut Reader) -> (p: Result<Vec<u8>, HistoryError>)
    requires
        old(r).offset <= old(r).bytes@.len(),
    ensures
        final(r).bytes == old(r).bytes,
        final(r).offset <= final(r).bytes@.len(),
        match parse_hpath(old(r).bytes@, old(r).offset as int) {
            Ok((v, end)) => p is Ok && p->Ok_0@ == v && final(r).offset == end,
            Err(e) => p == Err::<Vec<u8>, HistoryError>(e),
        },
{
    let len = match r.u32() {
        Some(v) => v,
        None => {
            return Err(HistoryError::Truncated);
        },
    };
    if len as usize > MAX_PATH_BYTES {
        return Err(HistoryError::PathTooLong);
    }
    match r.take(len as usize) {
        Some(v) => Ok(v),
        None => Err(HistoryError::Truncated),
    }
}

fn read_entry(r: &mut Reader) -> (p: Result<Entry, HistoryError>)
    requires
        old(r).offset <= old(r).bytes@.len(),
    ensures
        final(r).bytes == old(r).bytes,
        final(r).offset <= final(r).bytes@.len(),
        match parse_entry(old(r).bytes@, old(r).offset as int) {
            Ok((v, end)) => p is Ok && p->Ok_0@ == v && final(r).offset == end,
            Err(e) => p == Err::<Entry, HistoryError>(e),
        },
{
    let path = read_hpath(r)?;
    let bytes = match r.i64() {
        Some(v) => v,
        None => {
            return Err(HistoryError::Truncated);
        },
    };
    let files = match r.i64() {
        Some(v) => v,
        None => {
            return Err(HistoryError::Truncated);
        },
    };
    let flag = match r.u8() {
        Some(v) => v,
        None => {
            return Err(HistoryError::Truncated);
        },
    };
    if flag > 1 {
        return Err(HistoryError::InvalidFlag);
    }
    Ok(Entry { path, bytes, files, is_dir: flag == 1 })
}

proof fn lemma_parse_entries_err(b: Seq<u8>, off: int, i: nat, n: nat)
    requires
        i < n,
        parse_entries(b, off, (i + 1) as nat) is Err,
    ensures
        parse_entries(b, off, n) == parse_entries(b, off, (i + 1) as nat),
    decreases n - i,
{
    if n > i + 1 {
        lemma_parse_entries_err(b, off, i, (n - 1) as nat);
    }
}

/// Reads a snapshot in either format; anything else is refused.
pub fn decode(bytes: &[u8]) -> (r: Result<Snapshot, HistoryError>)
    ensures
        match decode_spec(bytes@) {
            Ok(s) => r is Ok && r->Ok_0@ == s,
            Err(e) => r == Err::<Snapshot, HistoryError>(e),
        },
{
    if bytes.len() < 8 {
        return Err(HistoryError::Truncated);
    }
    let head = crate::bytes::copy_range(bytes, 0, 8);
    let v2m = magic_v2_vec();
    let v1m = magic_v1_vec();
    let v2 = bytes_eq(head.as_slice(), v2m.as_slice());
    if !v2 && !bytes_eq(head.as_slice(), v1m.as_slice()) {
        return Err(HistoryError::Unsupported);
    }
    if bytes.len() < 24 {
        return Err(HistoryError::Truncated);
    }
    if v2 && bytes.len() < 40 {
        return Err(HistoryError::Truncated);
    }
    let captured_at_ms = crate::bytes::read_i64(bytes, 8);
    let total_bytes = crate::bytes::read_i64(bytes, 16);
    let (vt, vf) = if v2 {
        let t = crate::bytes::read_i64(bytes, 24);
        let f = crate::bytes::read_i64(bytes, 32);
        (if t >= 0 { Some(t) } else { None }, if f >= 0 { Some(f) } else { None })
    } else {
        (None, None)
    };
    let mut reader = Reader { bytes, offset: if v2 { 40 } else { 24 } };
    let root = read_hpath(&mut reader)?;
    let count = match reader.u32() {
        Some(c) => c as usize,
        None => {
            return Err(HistoryError::Truncated);
        },
    };
    if count > MAX_ENTRIES {
        return Err(HistoryError::TooManyEntries);
    }
    let ghost start = reader.offset as int;
    proof {
        assert(head@ == bytes@.subrange(0, 8));
    }
    let mut entries: Vec<Entry> = Vec::new();
    let mut i: usize = 0;
    assert(entries_view(entries@) =~= Seq::<EntryView>::empty());
    while i < count
        invariant
            i <= count,
            reader.bytes == bytes,
            reader.offset <= bytes@.len(),
            parse_entries(bytes@, start, i as nat) == Ok::<(Seq<EntryView>, int), HistoryError>(
                (entries_view(entries@), reader.offset as int),
            ),
            decode_spec(bytes@) == match parse_entries(bytes@, start, count as nat) {
                Err(e) => Err(e),
                Ok((es, end)) => if end != bytes@.len() {
                    Err(HistoryError::Trailing)
                } else {
                    Ok(
                        SnapshotView {
                            captured_at_ms,
                            root: root@,
                            total_bytes,
                            volume_total_bytes: vt,
                            volume_free_bytes: vf,
                            entries: es,
                        },
                    )
                },
            },
        decreases count - i,
    {
        let ghost prev_off = reader.offset as int;
        let ghost prev = entries_view(entries@);
        assert(parse_entries(bytes@, start, (i + 1) as nat) == match parse_entry(bytes@, prev_off) {
            Err(e) => Err(e),
            Ok((e, o2)) => Ok::<(Seq<EntryView>, int), HistoryError>((prev.push(e), o2)),
        });
        let e = match read_entry(&mut reader) {
            Ok(e) => e,
            Err(err) => {
                proof {
                    lemma_parse_entries_err(bytes@, start, i as nat, count as nat);
                }
                return Err(err);
            },
        };
        let ghost ev = e@;
        entries.push(e);
        proof {
            assert(entries_view(entries@) =~= prev.push(ev));
        }
        i += 1;
    }
    if reader.offset != bytes.len() {
        return Err(HistoryError::Trailing);
    }
    Ok(Snapshot {
        captured_at_ms,
        root,
        total_bytes,
        volume_total_bytes: vt,
        volume_free_bytes: vf,
        entries,
    })
}


// ───────────────────────── round trip ─────────────────────────

proof fn lemma_parse_hpath_at(b: Seq<u8>, off: int, p: Seq<u8>)
    requires
        0 <= off,
        off + 4 + p.len() <= b.len(),
        p.len() <= MAX_PATH_BYTES,
        b.subrange(off, off + 4 + p.len()) == path_rec(p),
    ensures
        parse_hpath(b, off) == Ok::<(Seq<u8>, int), HistoryError>((p, off + 4 + p.len())),
{
    let pb = path_rec(p);
    assert(pb.subrange(0, 4) =~= le_u32(p.len() as u32));
    assert(pb.subrange(4, 4 + p.len() as int) =~= p);
    lemma_part_at(b, off, pb, 0, le_u32(p.len() as u32));
    lemma_part_at(b, off, pb, 4, p);
    lemma_u32_round_trip(p.len() as u32, b, off);
}

proof fn lemma_parse_entry_at(b: Seq<u8>, off: int, e: EntryView)
    requires
        0 <= off,
        off + entry_bytes(e).len() <= b.len(),
        e.path.len() <= MAX_PATH_BYTES,
        b.subrange(off, off + entry_bytes(e).len()) == entry_bytes(e),
    ensures
        parse_entry(b, off) == Ok::<(EntryView, int), HistoryError>((e, off + entry_bytes(e).len())),
{
    let w = entry_bytes(e);
    let pr = path_rec(e.path);
    let lp: int = pr.len() as int;
    assert(w.subrange(0, lp) =~= pr);
    assert(w.subrange(lp, lp + 8) =~= le_i64(e.bytes));
    assert(w.subrange(lp + 8, lp + 16) =~= le_i64(e.files));
    lemma_part_at(b, off, w, 0, pr);
    lemma_part_at(b, off, w, lp, le_i64(e.bytes));
    lemma_part_at(b, off, w, lp + 8, le_i64(e.files));
    lemma_parse_hpath_at(b, off, e.path);
    lemma_i64_round_trip(e.bytes, b, off + lp);
    lemma_i64_round_trip(e.files, b, off + lp + 8);
    assert(b[off + lp + 16] == w[lp + 16]);
}

proof fn lemma_entries_bytes_prefix(es: Seq<EntryView>, n: int)
    requires
        0 <= n <= es.len(),
    ensures
        entries_bytes(es.take(n)).len() <= entries_bytes(es).len(),
        entries_bytes(es).subrange(0, entries_bytes(es.take(n)).len() as int) == entries_bytes(
            es.take(n),
        ),
    decreases es.len() - n,
{
    if n == es.len() {
        assert(es.take(n) =~= es);
        assert(entries_bytes(es).subrange(0, entries_bytes(es).len() as int) =~= entries_bytes(es));
    } else {
        lemma_entries_bytes_prefix(es.drop_last(), n);
        assert(es.drop_last().take(n) =~= es.take(n));
        let a = entries_bytes(es.drop_last());
        let k = entries_bytes(es.take(n)).len() as int;
        assert(entries_bytes(es) == a + entry_bytes(es.last()));
        assert((a + entry_bytes(es.last())).subrange(0, k) =~= a.subrange(0, k));
    }
}

pub open spec fn snapshot_head(s: SnapshotView) -> Seq<u8> {
    magic_v2() + le_i64(s.captured_at_ms) + le_i64(s.total_bytes) + le_i64(
        or_minus_one(s.volume_total_bytes),
    ) + le_i64(or_minus_one(s.volume_free_bytes)) + path_rec(s.root) + le_u32(
        s.entries.len() as u32,
    )
}

#[verifier::spinoff_prover]
#[verifier::rlimit(40)]
proof fn lemma_parse_entries_prefix(b: Seq<u8>, s: SnapshotView, n: nat)
    requires
        b == snapshot_bytes(s),
        snapshot_encodable(s),
        n <= s.entries.len(),
    ensures
        parse_entries(b, snapshot_head(s).len() as int, n) == Ok::<(Seq<EntryView>, int), HistoryError>(
            (
                s.entries.take(n as int),
                snapshot_head(s).len() + entries_bytes(s.entries.take(n as int)).len() as int,
            ),
        ),
    decreases n,
{
    let h: int = snapshot_head(s).len() as int;
    if n == 0 {
        assert(s.entries.take(0) =~= Seq::<EntryView>::empty());
    } else {
        let m = (n - 1) as nat;
        lemma_parse_entries_prefix(b, s, m);
        let es = s.entries;
        let prev = es.take(m as int);
        let e = es[m as int];
        assert(es.take(n as int).drop_last() =~= prev);
        assert(es.take(n as int) =~= prev.push(e));
        let o: int = h + entries_bytes(prev).len() as int;
        let le: int = entry_bytes(e).len() as int;
        let all = entries_bytes(es);
        lemma_entries_bytes_prefix(es, n as int);
        let upto = entries_bytes(es.take(n as int));
        assert(upto == entries_bytes(prev) + entry_bytes(e));
        assert(b == snapshot_head(s) + all);
        assert(b.subrange(o, o + le) =~= entry_bytes(e)) by {
            assert forall|k: int| 0 <= k < le implies b.subrange(o, o + le)[k] == entry_bytes(e)[k] by {
                let idx = entries_bytes(prev).len() + k;
                assert(b[o + k] == all[idx]);
                assert(all.subrange(0, upto.len() as int)[idx] == upto[idx]);
                assert(upto[idx] == entry_bytes(e)[k]);
            }
        }
        assert(e.path.len() <= MAX_PATH_BYTES);
        lemma_parse_entry_at(b, o, e);
    }
}

/// A capacity value that decoding gives back as written: none, or not negative.
pub open spec fn capacity_kept(v: Option<i64>) -> bool {
    match v {
        Some(x) => x >= 0,
        None => true,
    }
}

proof fn lemma_head_fields(s: SnapshotView)
    ensures
        snapshot_head(s).len() == 44 + path_rec(s.root).len(),
        snapshot_head(s).subrange(0, 8) == magic_v2(),
        snapshot_head(s).subrange(8, 16) == le_i64(s.captured_at_ms),
        snapshot_head(s).subrange(16, 24) == le_i64(s.total_bytes),
        snapshot_head(s).subrange(24, 32) == le_i64(or_minus_one(s.volume_total_bytes)),
        snapshot_head(s).subrange(32, 40) == le_i64(or_minus_one(s.volume_free_bytes)),
        snapshot_head(s).subrange(40, 40 + path_rec(s.root).len() as int) == path_rec(s.root),
        snapshot_head(s).subrange(40 + path_rec(s.root).len() as int, 44 + path_rec(s.root).len() as int)
            == le_u32(s.entries.len() as u32),
{
    let h = snapshot_head(s);
    let pr = path_rec(s.root);
    let l: int = pr.len() as int;
    assert(h.subrange(0, 8) =~= magic_v2());
    assert(h.subrange(8, 16) =~= le_i64(s.captured_at_ms));
    assert(h.subrange(16, 24) =~= le_i64(s.total_bytes));
    assert(h.subrange(24, 32) =~= le_i64(or_minus_one(s.volume_total_bytes)));
    assert(h.subrange(32, 40) =~= le_i64(or_minus_one(s.volume_free_bytes)));
    assert(h.subrange(40, 40 + l) =~= pr);
    assert(h.subrange(40 + l, 44 + l) =~= le_u32(s.entries.len() as u32));
}

/// Reading a written snapshot gives it back, when its capacity values are
/// none or not negative (a negative value reads back as none).
#[verifier::spinoff_prover]
#[verifier::rlimit(60)]
pub proof fn lemma_snapshot_round_trip(s: SnapshotView)
    requires
        snapshot_encodable(s),
        capacity_kept(s.volume_total_bytes),
        capacity_kept(s.volume_free_bytes),
    ensures
        decode_spec(snapshot_bytes(s)) == Ok::<SnapshotView, HistoryError>(s),
{
    let b = snapshot_bytes(s);
    let head = snapshot_head(s);
    let vt = or_minus_one(s.volume_total_bytes);
    let vf = or_minus_one(s.volume_free_bytes);
    let pr = path_rec(s.root);
    let l: int = pr.len() as int;
    assert(b == head + entries_bytes(s.entries));
    lemma_head_fields(s);
    assert(b.subrange(0, head.len() as int) =~= head);
    lemma_part_at(b, 0, head, 0, magic_v2());
    lemma_part_at(b, 0, head, 8, le_i64(s.captured_at_ms));
    lemma_part_at(b, 0, head, 16, le_i64(s.total_bytes));
    lemma_part_at(b, 0, head, 24, le_i64(vt));
    lemma_part_at(b, 0, head, 32, le_i64(vf));
    lemma_part_at(b, 0, head, 40, pr);
    lemma_part_at(b, 0, head, 40 + l, le_u32(s.entries.len() as u32));
    lemma_i64_round_trip(s.captured_at_ms, b, 8);
    lemma_i64_round_trip(s.total_bytes, b, 16);
    lemma_i64_round_trip(vt, b, 24);
    lemma_i64_round_trip(vf, b, 32);
    lemma_parse_hpath_at(b, 40, s.root);
    lemma_u32_round_trip(s.entries.len() as u32, b, 40 + l);
    lemma_parse_entries_prefix(b, s, s.entries.len());
    assert(s.entries.take(s.entries.len() as int) =~= s.entries);
}

// ───────────────────────── cut and extended files ─────────────────────────

/// `c` begins with all of `b`.
pub open spec fn begins_with(c: Seq<u8>, b: Seq<u8>) -> bool {
    &&& b.len() <= c.len()
    &&& forall|i: int| 0 <= i < b.len() ==> #[trigger] c[i] == b[i]
}

proof fn lemma_u32_at_same(b: Seq<u8>, c: Seq<u8>, o: int)
    requires
        begins_with(c, b),
        0 <= o,
        o + 4 <= b.len(),
    ensures
        u32_at(c, o) == u32_at(b, o),
{
    assert(c[o] == b[o]);
    assert(c[o + 1] == b[o + 1]);
    assert(c[o + 2] == b[o + 2]);
    assert(c[o + 3] == b[o + 3]);
}

proof fn lemma_i64_at_same(b: Seq<u8>, c: Seq<u8>, o: int)
    requires
        begins_with(c, b),
        0 <= o,
        o + 8 <= b.len(),
    ensures
        i64_at(c, o) == i64_at(b, o),
{
    lemma_u32_at_same(b, c, o);
    lemma_u32_at_same(b, c, o + 4);
}

proof fn lemma_parse_hpath_extends(b: Seq<u8>, c: Seq<u8>, off: int)
    requires
        begins_with(c, b),
        0 <= off,
        parse_hpath(b, off) is Ok,
    ensures
        parse_hpath(c, off) == parse_hpath(b, off),
        off <= parse_hpath(b, off)->Ok_0.1,
{
    lemma_u32_at_same(b, c, off);
    let len = u32_at(b, off) as int;
    assert(c.subrange(off + 4, off + 4 + len) =~= b.subrange(off + 4, off + 4 + len));
}

proof fn lemma_parse_entry_extends(b: Seq<u8>, c: Seq<u8>, off: int)
    requires
        begins_with(c, b),
        0 <= off,
        parse_entry(b, off) is Ok,
    ensures
        parse_entry(c, off) == parse_entry(b, off),
        off <= parse_entry(b, off)->Ok_0.1,
{
    lemma_parse_hpath_extends(b, c, off);
    let o1 = parse_hpath(b, off)->Ok_0.1;
    lemma_i64_at_same(b, c, o1);
    lemma_i64_at_same(b, c, o1 + 8);
    assert(c[o1 + 16] == b[o1 + 16]);
}

proof fn lemma_parse_entries_extends(b: Seq<u8>, c: Seq<u8>, off: int, n: nat)
    requires
        begins_with(c, b),
        0 <= off,
        parse_entries(b, off, n) is Ok,
    ensures
        parse_entries(c, off, n) == parse_entries(b, off, n),
        off <= parse_entries(b, off, n)->Ok_0.1,
    decreases n,
{
    if n > 0 {
        let m = (n - 1) as nat;
        lemma_parse_entries_extends(b, c, off, m);
        let o = parse_entries(b, off, m)->Ok_0.1;
        lemma_parse_entry_extends(b, c, o);
    }
}

/// Whatever decodes is complete: no byte string that goes on past a
/// decodable one decodes too.
#[verifier::spinoff_prover]
#[verifier::rlimit(40)]
pub proof fn lemma_decoded_bytes_end_the_file(b: Seq<u8>, c: Seq<u8>)
    requires
        decode_spec(b) is Ok,
        begins_with(c, b),
        b.len() < c.len(),
    ensures
        decode_spec(c) is Err,
{
    assert(c.subrange(0, 8) =~= b.subrange(0, 8));
    let v2 = b.subrange(0, 8) == magic_v2();
    let head: int = if v2 { 40 } else { 24 };
    lemma_parse_hpath_extends(b, c, head);
    let o1 = parse_hpath(b, head)->Ok_0.1;
    lemma_u32_at_same(b, c, o1);
    let count = u32_at(b, o1);
    lemma_parse_entries_extends(b, c, o1 + 4, count as nat);
}

/// A written snapshot is refused when it is cut short anywhere, and when a
/// byte follows it.
pub proof fn lemma_snapshot_cut_or_extended_refused(s: SnapshotView, k: int, extra: u8)
    requires
        snapshot_encodable(s),
        capacity_kept(s.volume_total_bytes),
        capacity_kept(s.volume_free_bytes),
        0 <= k < snapshot_bytes(s).len(),
    ensures
        decode_spec(snapshot_bytes(s).take(k)) is Err,
        decode_spec(snapshot_bytes(s).push(extra)) is Err,
{
    let b = snapshot_bytes(s);
    lemma_snapshot_round_trip(s);
    lemma_decoded_bytes_end_the_file(b, b.push(extra));
    if decode_spec(b.take(k)) is Ok {
        lemma_decoded_bytes_end_the_file(b.take(k), b);
    }
}


// ───────────────────────── comparing two snapshots ─────────────────────────

#[derive(Clone, Debug, PartialEq, Eq)]
pub struct Growth {
    pub path: Vec<u8>,
    pub bytes_delta: i64,
}

#[derive(Clone, Debug, PartialEq, Eq)]
pub struct GrowthSummary {
    pub previous_at_ms: i64,
    pub total_delta: i64,
    pub growers: Vec<Growth>,
}

pub struct GrowthView {
    pub path: Seq<u8>,
    pub bytes_delta: i64,
}

impl View for Growth {
    type V = GrowthView;

    open spec fn view(&self) -> GrowthView {
        GrowthView { path: self.path@, bytes_delta: self.bytes_delta }
    }
}

pub open spec fn growths_view(v: Seq<Growth>) -> Seq<GrowthView> {
    v.map_values(|g: Growth| g@)
}

pub enum HistoryEvent {
    BaselineSaved,
    Compared(GrowthSummary),
    Failed(String),
}

/// The size `entries` record for `p`: the last entry with the same path, or
/// zero.
pub open spec fn bytes_before(es: Seq<Entry>, p: Seq<u8>) -> i64
    decreases es.len(),
{
    if es.len() == 0 {
        0
    } else if same_path(es.last().path@, p) {
        es.last().bytes
    } else {
        bytes_before(es.drop_last(), p)
    }
}

/// The entries of `cur` that grew by at least 10 MiB since `prev`, in order.
pub open spec fn growers_of(prev: Seq<Entry>, cur: Seq<Entry>) -> Seq<GrowthView>
    decreases cur.len(),
{
    if cur.len() == 0 {
        Seq::empty()
    } else {
        let rest = growers_of(prev, cur.drop_last());
        let e = cur.last();
        let delta = e.bytes - bytes_before(prev, e.path@);
        if delta >= MIN_GROWTH_BYTES {
            rest.push(GrowthView { path: e.path@, bytes_delta: delta as i64 })
        } else {
            rest
        }
    }
}

/// Every difference `compare` takes fits in an `i64`.
pub open spec fn deltas_fit(prev: Snapshot, cur: Snapshot) -> bool {
    &&& i64::MIN <= cur.total_bytes - prev.total_bytes <= i64::MAX
    &&& forall|k: int|
        0 <= k < cur.entries@.len() ==> i64::MIN <= (#[trigger] cur.entries@[k]).bytes
            - bytes_before(prev.entries@, cur.entries@[k].path@) <= i64::MAX
}

/// `a` is listed after `b`: smaller growth, or equal growth and a later path.
pub open spec fn growth_after(a: GrowthView, b: GrowthView) -> bool {
    a.bytes_delta < b.bytes_delta || (a.bytes_delta == b.bytes_delta && comps_lt(
        components(b.path),
        components(a.path),
    ))
}

pub open spec fn ranked_growers(prev: Seq<Entry>, cur: Seq<Entry>) -> Seq<GrowthView> {
    stable_sort(growers_of(prev, cur), |a: GrowthView, b: GrowthView| growth_after(a, b))
}

fn growth_after_exec(a: &Growth, b: &Growth) -> (r: bool)
    ensures
        r == growth_after(a@, b@),
{
    a.bytes_delta < b.bytes_delta || (a.bytes_delta == b.bytes_delta && path_less(
        b.path.as_slice(),
        a.path.as_slice(),
    ))
}

fn before_of(es: &Vec<Entry>, p: &[u8]) -> (r: i64)
    ensures
        r == bytes_before(es@, p@),
{
    let mut i = es.len();
    assert(es@.take(i as int) =~= es@);
    while i > 0
        invariant
            i <= es@.len(),
            bytes_before(es@, p@) == bytes_before(es@.take(i as int), p@),
        decreases i,
    {
        proof {
            assert(es@.take(i as int).drop_last() =~= es@.take(i - 1));
            assert(es@.take(i as int).last() == es@[i - 1]);
        }
        if path_eq(es[i - 1].path.as_slice(), p) {
            return es[i - 1].bytes;
        }
        i -= 1;
    }
    0
}

/// Whether every difference `compare` takes fits in an `i64`.
pub fn deltas_fit_exec(previous: &Snapshot, current: &Snapshot) -> (r: bool)
    ensures
        r == deltas_fit(*previous, *current),
{
    let total = current.total_bytes as i128 - previous.total_bytes as i128;
    if total < i64::MIN as i128 || total > i64::MAX as i128 {
        return false;
    }
    let mut k: usize = 0;
    while k < current.entries.len()
        invariant
            k <= current.entries@.len(),
            i64::MIN <= current.total_bytes - previous.total_bytes <= i64::MAX,
            forall|j: int|
                0 <= j < k ==> i64::MIN <= (#[trigger] current.entries@[j]).bytes - bytes_before(
                    previous.entries@,
                    current.entries@[j].path@,
                ) <= i64::MAX,
        decreases current.entries@.len() - k,
    {
        let before = before_of(&previous.entries, current.entries[k].path.as_slice());
        let d = current.entries[k].bytes as i128 - before as i128;
        if d < i64::MIN as i128 || d > i64::MAX as i128 {
            return false;
        }
        k += 1;
    }
    true
}

/// `compare`, when every difference it takes fits in an `i64`; `None` when
/// one does not.
pub fn compare_checked(previous: &Snapshot, current: &Snapshot) -> (r: Option<Option<GrowthSummary>>)
    ensures
        !deltas_fit(*previous, *current) ==> r is None,
        deltas_fit(*previous, *current) ==> r is Some && (!same_path(previous.root@, current.root@) ==> r->Some_0 is None)
            && (same_path(previous.root@, current.root@) ==> r->Some_0 is Some && {
            let g = r->Some_0->Some_0;
            let ranked = ranked_growers(previous.entries@, current.entries@);
            &&& g.previous_at_ms == previous.captured_at_ms
            &&& g.total_delta == current.total_bytes - previous.total_bytes
            &&& growths_view(g.growers@) == ranked.take(vstd::math::min(ranked.len() as int, 5))
        }),
{
    if deltas_fit_exec(previous, current) {
        Some(compare(previous, current))
    } else {
        None
    }
}

/// What grew between two snapshots of the same root: the total change and
/// the five largest growers of at least 10 MiB, larger first, then by path.
/// Snapshots of different roots are not compared.
pub fn compare(previous: &Snapshot, current: &Snapshot) -> (r: Option<GrowthSummary>)
    requires
        deltas_fit(*previous, *current),
    ensures
        !same_path(previous.root@, current.root@) ==> r is None,
        same_path(previous.root@, current.root@) ==> r is Some && {
            let g = r->Some_0;
            let ranked = ranked_growers(previous.entries@, current.entries@);
            &&& g.previous_at_ms == previous.captured_at_ms
            &&& g.total_delta == current.total_bytes - previous.total_bytes
            &&& growths_view(g.growers@) == ranked.take(vstd::math::min(ranked.len() as int, 5))
        },
{
    if !path_eq(previous.root.as_slice(), current.root.as_slice()) {
        return None;
    }
    let mut growers: Vec<Growth> = Vec::new();
    let mut i: usize = 0;
    while i < current.entries.len()
        invariant
            i <= current.entries@.len(),
            deltas_fit(*previous, *current),
            growths_view(growers@) == growers_of(previous.entries@, current.entries@.take(i as int)),
        decreases current.entries.len() - i,
    {
        let e = &current.entries[i];
        proof {
            assert(current.entries@.take(i + 1).drop_last() =~= current.entries@.take(i as int));
            assert(current.entries@.take(i + 1).last() == current.entries@[i as int]);
        }
        let before = before_of(&previous.entries, e.path.as_slice());
        let delta = e.bytes - before;
        let ghost before_push = growers@;
        if delta >= MIN_GROWTH_BYTES {
            growers.push(Growth { path: e.path.clone(), bytes_delta: delta });
            proof {
                assert(growths_view(growers@) =~= growths_view(before_push).push(growers@.last()@));
            }
        }
        i += 1;
    }
    proof {
        assert(current.entries@.take(current.entries@.len() as int) =~= current.entries@);
    }
    let ghost after = |a: Growth, b: Growth| growth_after(a@, b@);
    let ghost after_v = |a: GrowthView, b: GrowthView| growth_after(a, b);
    let ghost unsorted = growers@;
    let mut sorted = sort_stable(growers, growth_after_exec, Ghost(after));
    proof {
        lemma_sort_map(unsorted, |g: Growth| g@, after, after_v);
        assert(growths_view(unsorted) =~= unsorted.map_values(|g: Growth| g@));
        assert(growths_view(sorted@) =~= sorted@.map_values(|g: Growth| g@));
    }
    let ghost full = sorted@;
    if sorted.len() > 5 {
        sorted.truncate(5);
    }
    proof {
        lemma_stable_sort_len(unsorted, after);
        assert(growths_view(sorted@) =~= growths_view(full).take(vstd::math::min(full.len() as int, 5)));
    }
    Some(GrowthSummary {
        previous_at_ms: previous.captured_at_ms,
        total_delta: current.total_bytes - previous.total_bytes,
        growers: sorted,
    })
}


// ───────────────────────── Growth Watch ─────────────────────────

#[derive(Clone, Copy, Debug, PartialEq, Eq)]
pub struct TimelinePoint {
    pub captured_at_ms: i64,
    pub total_bytes: i64,
}

#[derive(Clone, Copy, Debug, PartialEq, Eq)]
pub struct FolderPoint {
    pub captured_at_ms: i64,
    pub bytes: i64,
}

#[derive(Clone, Debug, PartialEq, Eq)]
pub struct FolderSeries {
    pub path: Vec<u8>,
    pub points: Vec<FolderPoint>,
    pub bytes_delta: i64,
    pub percent_tenths: Option<i64>,
}

#[derive(Clone, Debug, PartialEq, Eq)]
pub struct RecurringGrowth {
    pub path: Vec<u8>,
    pub positive_intervals: usize,
    pub bytes_delta: i64,
    pub current_bytes: i64,
    pub percent_tenths: Option<i64>,
    pub watched: bool,
}

#[derive(Clone, Debug, PartialEq, Eq)]
pub struct GrowthWatch {
    pub timeline: Vec<TimelinePoint>,
    pub capacity: Vec<CapacityPoint>,
    pub recurring: Vec<RecurringGrowth>,
    pub watched: Vec<FolderSeries>,
}

/// `a - b`, held at the bounds of `i64`.
pub open spec fn sat_sub(a: i64, b: i64) -> i64 {
    clamp_i64(a - b) as i64
}

pub fn saturating_sub_i64(a: i64, b: i64) -> (r: i64)
    ensures
        r == sat_sub(a, b),
{
    clamp_i128(a as i128 - b as i128)
}

/// A change in tenths of a percent of `before`, rounded toward zero; none
/// when `before` is not positive.
pub open spec fn percent_tenths_spec(before: i64, delta: i64) -> Option<i64> {
    if before > 0 {
        Some(clamp_i64(tdiv(delta * 1000, before as int)) as i64)
    } else {
        None
    }
}

pub fn percentage_tenths(before: i64, delta: i64) -> (r: Option<i64>)
    ensures
        r == percent_tenths_spec(before, delta),
{
    if before > 0 {
        let q = tdiv_i128(delta as i128 * 1000, before as i128);
        Some(clamp_i128(q))
    } else {
        None
    }
}

/// The size the last directory entry with path `p` records, if any.
pub open spec fn dir_bytes_last(es: Seq<Entry>, p: Seq<u8>) -> Option<i64>
    decreases es.len(),
{
    if es.len() == 0 {
        None
    } else if es.last().is_dir && same_path(es.last().path@, p) {
        Some(es.last().bytes)
    } else {
        dir_bytes_last(es.drop_last(), p)
    }
}

/// The size the first directory entry with path `p` records, or zero.
pub open spec fn dir_bytes_first(es: Seq<Entry>, p: Seq<u8>) -> i64
    decreases es.len(),
{
    if es.len() == 0 {
        0
    } else if es[0].is_dir && same_path(es[0].path@, p) {
        es[0].bytes
    } else {
        dir_bytes_first(es.drop_first(), p)
    }
}

pub open spec fn or_zero(v: Option<i64>) -> i64 {
    match v {
        Some(x) => x,
        None => 0,
    }
}

/// A folder that grew in at least one interval: how often, and its size
/// before the first such interval.
pub struct AggregateView {
    pub path: Seq<u8>,
    pub positive_intervals: int,
    pub first_before: i64,
}

pub open spec fn find_aggregate(aggs: Seq<AggregateView>, p: Seq<u8>) -> int
    decreases aggs.len(),
{
    if aggs.len() == 0 {
        -1
    } else if same_path(aggs.last().path, p) && find_aggregate(aggs.drop_last(), p) < 0 {
        aggs.len() - 1
    } else {
        find_aggregate(aggs.drop_last(), p)
    }
}

/// One directory entry of the later snapshot of a pair, counted when it grew
/// by at least 10 MiB over the earlier one.
pub open spec fn count_entry(aggs: Seq<AggregateView>, prev: Seq<Entry>, e: Entry) -> Seq<AggregateView> {
    if !e.is_dir {
        aggs
    } else {
        let before = or_zero(dir_bytes_last(prev, e.path@));
        let delta = sat_sub(e.bytes, before);
        if delta < MIN_GROWTH_BYTES {
            aggs
        } else {
            let i = find_aggregate(aggs, e.path@);
            if i >= 0 {
                aggs.update(
                    i,
                    AggregateView {
                        path: aggs[i].path,
                        positive_intervals: aggs[i].positive_intervals + 1,
                        first_before: aggs[i].first_before,
                    },
                )
            } else {
                aggs.push(AggregateView { path: e.path@, positive_intervals: 1, first_before: before })
            }
        }
    }
}

pub open spec fn count_pair(aggs: Seq<AggregateView>, prev: Seq<Entry>, cur: Seq<Entry>) -> Seq<AggregateView>
    decreases cur.len(),
{
    if cur.len() == 0 {
        aggs
    } else {
        count_entry(count_pair(aggs, prev, cur.drop_last()), prev, cur.last())
    }
}

/// The growth of every folder over each consecutive pair of snapshots.
pub open spec fn aggregate_all(snaps: Seq<Snapshot>) -> Seq<AggregateView>
    decreases snaps.len(),
{
    if snaps.len() < 2 {
        Seq::empty()
    } else {
        count_pair(
            aggregate_all(snaps.drop_last()),
            snaps[snaps.len() - 2].entries@,
            snaps.last().entries@,
        )
    }
}

pub struct RecurringView {
    pub path: Seq<u8>,
    pub positive_intervals: int,
    pub bytes_delta: i64,
    pub current_bytes: i64,
    pub percent_tenths: Option<i64>,
    pub watched: bool,
}

impl View for RecurringGrowth {
    type V = RecurringView;

    open spec fn view(&self) -> RecurringView {
        RecurringView {
            path: self.path@,
            positive_intervals: self.positive_intervals as int,
            bytes_delta: self.bytes_delta,
            current_bytes: self.current_bytes,
            percent_tenths: self.percent_tenths,
            watched: self.watched,
        }
    }
}

pub open spec fn is_watched(watched: Seq<Vec<u8>>, p: Seq<u8>) -> bool {
    exists|k: int| 0 <= k < watched.len() && same_path(#[trigger] watched[k]@, p)
}

pub open spec fn latest_entries(snaps: Seq<Snapshot>) -> Seq<Entry> {
    if snaps.len() == 0 {
        Seq::empty()
    } else {
        snaps.last().entries@
    }
}

pub open spec fn recurring_of(a: AggregateView, latest: Seq<Entry>, watched: Seq<Vec<u8>>) -> RecurringView {
    let current = or_zero(dir_bytes_last(latest, a.path));
    let delta = sat_sub(current, a.first_before);
    RecurringView {
        path: a.path,
        positive_intervals: a.positive_intervals,
        bytes_delta: delta,
        current_bytes: current,
        percent_tenths: percent_tenths_spec(a.first_before, delta),
        watched: is_watched(watched, a.path),
    }
}

/// The folders that grew in two intervals or more and are larger now than
/// before they first grew.
pub open spec fn recurring_candidates(aggs: Seq<AggregateView>, latest: Seq<Entry>, watched: Seq<Vec<u8>>) -> Seq<RecurringView>
    decreases aggs.len(),
{
    if aggs.len() == 0 {
        Seq::empty()
    } else {
        let rest = recurring_candidates(aggs.drop_last(), latest, watched);
        let r = recurring_of(aggs.last(), latest, watched);
        if r.bytes_delta > 0 && r.positive_intervals >= 2 {
            rest.push(r)
        } else {
            rest
        }
    }
}

/// `other` explains `c`: a different folder inside `c` that grew as often and
/// by at least 80% as much.
pub open spec fn explains(other: RecurringView, c: RecurringView) -> bool {
    &&& !same_path(other.path, c.path)
    &&& comps_prefix(components(c.path), components(other.path))
    &&& other.positive_intervals >= c.positive_intervals
    &&& other.bytes_delta * 100 >= c.bytes_delta * 80
}

pub open spec fn explained(c: RecurringView, all: Seq<RecurringView>) -> bool {
    exists|k: int| 0 <= k < all.len() && explains(#[trigger] all[k], c)
}

pub open spec fn unexplained(cs: Seq<RecurringView>, all: Seq<RecurringView>) -> Seq<RecurringView>
    decreases cs.len(),
{
    if cs.len() == 0 {
        Seq::empty()
    } else {
        let rest = unexplained(cs.drop_last(), all);
        if explained(cs.last(), all) {
            rest
        } else {
            rest.push(cs.last())
        }
    }
}

/// `a` is listed after `b`: fewer growing intervals, then less growth, then
/// a later path.
pub open spec fn recurring_after(a: RecurringView, b: RecurringView) -> bool {
    a.positive_intervals < b.positive_intervals || (a.positive_intervals == b.positive_intervals
        && (a.bytes_delta < b.bytes_delta || (a.bytes_delta == b.bytes_delta && comps_lt(
        components(b.path),
        components(a.path),
    ))))
}

/// The recurring growers Growth Watch lists: at most twelve, most frequent
/// first.
pub open spec fn recurring_spec(snaps: Seq<Snapshot>, watched: Seq<Vec<u8>>) -> Seq<RecurringView> {
    let cands = recurring_candidates(aggregate_all(snaps), latest_entries(snaps), watched);
    let sorted = stable_sort(
        unexplained(cands, cands),
        |a: RecurringView, b: RecurringView| recurring_after(a, b),
    );
    sorted.take(vstd::math::min(sorted.len() as int, 12))
}

/// Growth Watch lists the folders that grew most often first; among those
/// that grew equally often, the larger net growth first; and among those
/// equal in both, in path order.
pub proof fn lemma_recurring_ranked(snaps: Seq<Snapshot>, watched: Seq<Vec<u8>>)
    ensures
        forall|i: int, j: int|
            0 <= i < j < recurring_spec(snaps, watched).len() ==> {
                let a = #[trigger] recurring_spec(snaps, watched)[i];
                let b = #[trigger] recurring_spec(snaps, watched)[j];
                &&& a.positive_intervals >= b.positive_intervals
                &&& a.positive_intervals == b.positive_intervals ==> a.bytes_delta >= b.bytes_delta
                &&& a.positive_intervals == b.positive_intervals && a.bytes_delta == b.bytes_delta ==> !comps_lt(
                    components(b.path),
                    components(a.path),
                )
            },
{
    let after = |a: RecurringView, b: RecurringView| recurring_after(a, b);
    let key = |v: RecurringView| -(v.positive_intervals * 0x2_0000_0000_0000_0000int + (v.bytes_delta
        + 0x8000_0000_0000_0000int));
    assert forall|a: RecurringView, b: RecurringView| key(a) > key(b) implies #[trigger] after(a, b) by {
        if a.positive_intervals > b.positive_intervals {
            assert(key(a) < key(b));
        }
    }
    assert forall|a: RecurringView, b: RecurringView| #[trigger] after(a, b) implies key(a) >= key(b) by {}
    assert forall|a: RecurringView, b: RecurringView, c: RecurringView|
        #[trigger] after(a, b) && #[trigger] after(b, c) implies after(a, c) by {
        let (pa, pb, pc) = (components(a.path), components(b.path), components(c.path));
        if comps_lt(pb, pa) && comps_lt(pc, pb) {
            crate::paths::lemma_comps_lt_transitive(pc, pb, pa);
        }
    }
    assert forall|a: RecurringView| !#[trigger] after(a, a) by {
        crate::paths::lemma_comps_lt_irreflexive(components(a.path));
    }
    let cands = recurring_candidates(aggregate_all(snaps), latest_entries(snaps), watched);
    let list = unexplained(cands, cands);
    crate::sorting::lemma_stable_sort_by_key(list, after, key);
    crate::sorting::lemma_stable_sort_in_order(list, after);
    let sorted = stable_sort(list, after);
    let r = recurring_spec(snaps, watched);
    assert(r == sorted.take(vstd::math::min(sorted.len() as int, 12)));
    assert forall|i: int, j: int| 0 <= i < j < r.len() implies {
        let a = #[trigger] r[i];
        let b = #[trigger] r[j];
        &&& a.positive_intervals >= b.positive_intervals
        &&& a.positive_intervals == b.positive_intervals ==> a.bytes_delta >= b.bytes_delta
        &&& a.positive_intervals == b.positive_intervals && a.bytes_delta == b.bytes_delta ==> !comps_lt(
            components(b.path),
            components(a.path),
        )
    } by {
        assert(r[i] == sorted[i] && r[j] == sorted[j]);
        assert(!after(sorted[i], sorted[j]));
        assert(key(sorted[i]) <= key(sorted[j]));
        if r[i].positive_intervals < r[j].positive_intervals {
            assert(key(r[i]) > key(r[j]));
        }
    }
}

pub open spec fn timeline_spec(snaps: Seq<Snapshot>) -> Seq<TimelinePoint> {
    snaps.map_values(|s: Snapshot| TimelinePoint { captured_at_ms: s.captured_at_ms, total_bytes: s.total_bytes })
}

/// The capacity observations of the snapshots that recorded both values.
pub open spec fn capacity_spec(snaps: Seq<Snapshot>) -> Seq<CapacityPoint>
    decreases snaps.len(),
{
    if snaps.len() == 0 {
        Seq::empty()
    } else {
        let rest = capacity_spec(snaps.drop_last());
        let s = snaps.last();
        match (s.volume_total_bytes, s.volume_free_bytes) {
            (Some(t), Some(f)) => rest.push(CapacityPoint { captured_at_ms: s.captured_at_ms, total_bytes: t, free_bytes: f }),
            _ => rest,
        }
    }
}

pub open spec fn folder_points(snaps: Seq<Snapshot>, p: Seq<u8>) -> Seq<FolderPoint> {
    snaps.map_values(|s: Snapshot| FolderPoint { captured_at_ms: s.captured_at_ms, bytes: dir_bytes_first(s.entries@, p) })
}

pub struct SeriesView {
    pub path: Seq<u8>,
    pub points: Seq<FolderPoint>,
    pub bytes_delta: i64,
    pub percent_tenths: Option<i64>,
}

impl View for FolderSeries {
    type V = SeriesView;

    open spec fn view(&self) -> SeriesView {
        SeriesView { path: self.path@, points: self.points@, bytes_delta: self.bytes_delta, percent_tenths: self.percent_tenths }
    }
}

/// A watched folder's size at each snapshot and its change from the first to
/// the last.
pub open spec fn series_spec(snaps: Seq<Snapshot>, p: Seq<u8>) -> SeriesView {
    let points = folder_points(snaps, p);
    let before = if points.len() > 0 { points[0].bytes } else { 0 };
    let current = if points.len() > 0 { points.last().bytes } else { 0 };
    let delta = sat_sub(current, before);
    SeriesView { path: p, points, bytes_delta: delta, percent_tenths: percent_tenths_spec(before, delta) }
}


/// How many entries the snapshots hold in all.
pub open spec fn entry_count(snaps: Seq<Snapshot>) -> int
    decreases snaps.len(),
{
    if snaps.len() == 0 {
        0
    } else {
        entry_count(snaps.drop_last()) + snaps.last().entries@.len()
    }
}

proof fn lemma_entry_count_mono(snaps: Seq<Snapshot>, i: int)
    requires
        0 <= i <= snaps.len(),
    ensures
        0 <= entry_count(snaps.take(i)) <= entry_count(snaps),
    decreases snaps.len() - i,
{
    lemma_entry_count_nonneg(snaps.take(i));
    if i < snaps.len() {
        lemma_entry_count_mono(snaps, i + 1);
        assert(snaps.take(i + 1).drop_last() =~= snaps.take(i));
    } else {
        assert(snaps.take(i) =~= snaps);
        lemma_entry_count_nonneg(snaps);
    }
}

proof fn lemma_entry_count_nonneg(snaps: Seq<Snapshot>)
    ensures
        entry_count(snaps) >= 0,
    decreases snaps.len(),
{
    if snaps.len() > 0 {
        lemma_entry_count_nonneg(snaps.drop_last());
    }
}

/// A folder's growth count while snapshots are compared.
pub struct Aggregate {
    pub path: Vec<u8>,
    pub positive_intervals: usize,
    pub first_before: i64,
}

impl View for Aggregate {
    type V = AggregateView;

    open spec fn view(&self) -> AggregateView {
        AggregateView {
            path: self.path@,
            positive_intervals: self.positive_intervals as int,
            first_before: self.first_before,
        }
    }
}

pub open spec fn aggs_view(v: Seq<Aggregate>) -> Seq<AggregateView> {
    v.map_values(|a: Aggregate| a@)
}

fn dir_last_of(es: &Vec<Entry>, p: &[u8]) -> (r: Option<i64>)
    ensures
        r == dir_bytes_last(es@, p@),
{
    let mut i = es.len();
    assert(es@.take(i as int) =~= es@);
    while i > 0
        invariant
            i <= es@.len(),
            dir_bytes_last(es@, p@) == dir_bytes_last(es@.take(i as int), p@),
        decreases i,
    {
        proof {
            assert(es@.take(i as int).drop_last() =~= es@.take(i - 1));
            assert(es@.take(i as int).last() == es@[i - 1]);
        }
        if es[i - 1].is_dir && path_eq(es[i - 1].path.as_slice(), p) {
            return Some(es[i - 1].bytes);
        }
        i -= 1;
    }
    None
}

fn dir_first_of(es: &Vec<Entry>, p: &[u8]) -> (r: i64)
    ensures
        r == dir_bytes_first(es@, p@),
{
    let mut i: usize = 0;
    assert(es@.skip(0) =~= es@);
    while i < es.len()
        invariant
            i <= es@.len(),
            dir_bytes_first(es@, p@) == dir_bytes_first(es@.skip(i as int), p@),
        decreases es.len() - i,
    {
        proof {
            assert(es@.skip(i as int).drop_first() =~= es@.skip(i + 1));
            assert(es@.skip(i as int)[0] == es@[i as int]);
        }
        if es[i].is_dir && path_eq(es[i].path.as_slice(), p) {
            return es[i].bytes;
        }
        i += 1;
    }
    0
}

fn find_aggregate_exec(aggs: &Vec<Aggregate>, p: &[u8]) -> (r: Option<usize>)
    ensures
        match r {
            Some(i) => i < aggs@.len() && find_aggregate(aggs_view(aggs@), p@) == i,
            None => find_aggregate(aggs_view(aggs@), p@) == -1,
        },
{
    let mut i: usize = 0;
    while i < aggs.len()
        invariant
            i <= aggs@.len(),
            forall|k: int| 0 <= k < i ==> !same_path(#[trigger] aggs@[k].path@, p@),
        decreases aggs.len() - i,
    {
        if path_eq(aggs[i].path.as_slice(), p) {
            proof {
                lemma_find_first(aggs_view(aggs@), p@, i as int);
            }
            return Some(i);
        }
        i += 1;
    }
    proof {
        lemma_find_none(aggs_view(aggs@), p@);
    }
    None
}

proof fn lemma_find_first(aggs: Seq<AggregateView>, p: Seq<u8>, i: int)
    requires
        0 <= i < aggs.len(),
        same_path(aggs[i].path, p),
        forall|k: int| 0 <= k < i ==> !same_path(#[trigger] aggs[k].path, p),
    ensures
        find_aggregate(aggs, p) == i,
    decreases aggs.len(),
{
    if aggs.len() - 1 > i {
        lemma_find_first(aggs.drop_last(), p, i);
    } else {
        lemma_find_none(aggs.drop_last(), p);
    }
}

proof fn lemma_find_none(aggs: Seq<AggregateView>, p: Seq<u8>)
    requires
        forall|k: int| 0 <= k < aggs.len() ==> !same_path(#[trigger] aggs[k].path, p),
    ensures
        find_aggregate(aggs, p) == -1,
    decreases aggs.len(),
{
    if aggs.len() > 0 {
        lemma_find_none(aggs.drop_last(), p);
    }
}

proof fn lemma_find_bounds(aggs: Seq<AggregateView>, p: Seq<u8>)
    ensures
        -1 <= find_aggregate(aggs, p) < aggs.len(),
    decreases aggs.len(),
{
    if aggs.len() > 0 {
        lemma_find_bounds(aggs.drop_last(), p);
    }
}

fn count_entry_exec(aggs: &mut Vec<Aggregate>, prev: &Vec<Entry>, e: &Entry, Ghost(bound): Ghost<int>)
    requires
        forall|k: int| 0 <= k < old(aggs)@.len() ==> (#[trigger] old(aggs)@[k]).positive_intervals < bound,
        1 <= bound <= usize::MAX,
    ensures
        aggs_view(final(aggs)@) == count_entry(aggs_view(old(aggs)@), prev@, *e),
        forall|k: int| 0 <= k < final(aggs)@.len() ==> (#[trigger] final(aggs)@[k]).positive_intervals <= bound,
{
    if !e.is_dir {
        return;
    }
    let before = match dir_last_of(prev, e.path.as_slice()) {
        Some(v) => v,
        None => 0,
    };
    let delta = saturating_sub_i64(e.bytes, before);
    if delta < MIN_GROWTH_BYTES {
        return;
    }
    let ghost old_view = aggs_view(aggs@);
    match find_aggregate_exec(aggs, e.path.as_slice()) {
        Some(i) => {
            let ghost old_aggs = aggs@;
            let n = aggs[i].positive_intervals + 1;
            aggs[i].positive_intervals = n;
            proof {
                assert forall|k: int| 0 <= k < aggs@.len() implies (#[trigger] aggs@[k]).positive_intervals <= bound by {
                    if k != i {
                        assert(aggs@[k] == old_aggs[k]);
                    }
                }
                assert(aggs_view(aggs@) =~= old_view.update(
                    i as int,
                    AggregateView {
                        path: old_view[i as int].path,
                        positive_intervals: old_view[i as int].positive_intervals + 1,
                        first_before: old_view[i as int].first_before,
                    },
                ));
            }
        },
        None => {
            let ghost old_aggs = aggs@;
            aggs.push(Aggregate { path: e.path.clone(), positive_intervals: 1, first_before: before });
            proof {
                assert forall|k: int| 0 <= k < aggs@.len() implies (#[trigger] aggs@[k]).positive_intervals <= bound by {
                    if k < old_aggs.len() {
                        assert(aggs@[k] == old_aggs[k]);
                    }
                }
                assert(aggs_view(aggs@) =~= old_view.push(
                    AggregateView { path: e.path@, positive_intervals: 1, first_before: before },
                ));
            }
        },
    }
}

fn aggregate_exec(snapshots: &[Snapshot]) -> (r: Vec<Aggregate>)
    requires
        entry_count(snapshots@) < usize::MAX,
    ensures
        aggs_view(r@) == aggregate_all(snapshots@),
{
    let mut aggs: Vec<Aggregate> = Vec::new();
    if snapshots.len() < 2 {
        assert(aggs_view(aggs@) =~= Seq::<AggregateView>::empty());
        return aggs;
    }
    let mut i: usize = 1;
    proof {
        assert(snapshots@.take(1).len() == 1);
        assert(aggs_view(aggs@) =~= aggregate_all(snapshots@.take(1)));
        assert(snapshots@.take(1).drop_last() =~= Seq::<Snapshot>::empty());
        assert(entry_count(snapshots@.take(0)) == 0);
        lemma_entry_count_nonneg(snapshots@.take(1));
    }
    let ghost done: int = 0;
    while i < snapshots.len()
        invariant
            1 <= i <= snapshots@.len(),
            entry_count(snapshots@) < usize::MAX,
            aggs_view(aggs@) == aggregate_all(snapshots@.take(i as int)),
            0 <= done <= entry_count(snapshots@.take(i as int)),
            forall|k: int| 0 <= k < aggs@.len() ==> (#[trigger] aggs@[k]).positive_intervals <= done,
        decreases snapshots.len() - i,
    {
        let prev = &snapshots[i - 1].entries;
        let cur = &snapshots[i].entries;
        let ghost base = aggs_view(aggs@);
        proof {
            lemma_entry_count_mono(snapshots@, i + 1);
            assert(snapshots@.take(i + 1).drop_last() =~= snapshots@.take(i as int));
        }
        let mut j: usize = 0;
        while j < cur.len()
            invariant
                j <= cur@.len(),
                aggs_view(aggs@) == count_pair(base, prev@, cur@.take(j as int)),
                0 <= done <= entry_count(snapshots@.take(i as int)),
                done + j <= entry_count(snapshots@.take(i as int)) + cur@.len(),
                entry_count(snapshots@.take(i as int)) + cur@.len() <= entry_count(snapshots@),
                entry_count(snapshots@) < usize::MAX,
                forall|k: int| 0 <= k < aggs@.len() ==> (#[trigger] aggs@[k]).positive_intervals <= done + j,
            decreases cur.len() - j,
        {
            proof {
                assert(cur@.take(j + 1).drop_last() =~= cur@.take(j as int));
                assert(cur@.take(j + 1).last() == cur@[j as int]);
            }
            count_entry_exec(&mut aggs, prev, &cur[j], Ghost(done + j + 1));
            j += 1;
        }
        proof {
            assert(cur@.take(cur@.len() as int) =~= cur@);
            let t = snapshots@.take(i + 1);
            assert(t[t.len() - 2] == snapshots@[i - 1]);
            assert(t.last() == snapshots@[i as int]);
            done = done + cur@.len();
        }
        i += 1;
    }
    proof {
        assert(snapshots@.take(snapshots@.len() as int) =~= snapshots@);
    }
    aggs
}


pub open spec fn recurring_views(v: Seq<RecurringGrowth>) -> Seq<RecurringView> {
    v.map_values(|r: RecurringGrowth| r@)
}

fn is_watched_exec(watched: &[Vec<u8>], p: &[u8]) -> (r: bool)
    ensures
        r == is_watched(watched@, p@),
{
    let mut k: usize = 0;
    while k < watched.len()
        invariant
            k <= watched@.len(),
            forall|j: int| 0 <= j < k ==> !same_path(#[trigger] watched@[j]@, p@),
        decreases watched.len() - k,
    {
        if path_eq(watched[k].as_slice(), p) {
            return true;
        }
        k += 1;
    }
    false
}

fn candidates_exec(aggs: &Vec<Aggregate>, latest: &Vec<Entry>, watched: &[Vec<u8>]) -> (r: Vec<RecurringGrowth>)
    ensures
        recurring_views(r@) == recurring_candidates(aggs_view(aggs@), latest@, watched@),
{
    let mut out: Vec<RecurringGrowth> = Vec::new();
    let mut i: usize = 0;
    while i < aggs.len()
        invariant
            i <= aggs@.len(),
            recurring_views(out@) == recurring_candidates(aggs_view(aggs@.take(i as int)), latest@, watched@),
        decreases aggs.len() - i,
    {
        let a = &aggs[i];
        proof {
            assert(aggs_view(aggs@.take(i + 1)).drop_last() =~= aggs_view(aggs@.take(i as int)));
            assert(aggs_view(aggs@.take(i + 1)).last() == a@);
        }
        let current = match dir_last_of(latest, a.path.as_slice()) {
            Some(v) => v,
            None => 0,
        };
        let delta = saturating_sub_i64(current, a.first_before);
        let ghost before_out = out@;
        if delta > 0 && a.positive_intervals >= 2 {
            let percent = percentage_tenths(a.first_before, delta);
            let w = is_watched_exec(watched, a.path.as_slice());
            out.push(RecurringGrowth {
                path: a.path.clone(),
                positive_intervals: a.positive_intervals,
                bytes_delta: delta,
                current_bytes: current,
                percent_tenths: percent,
                watched: w,
            });
            proof {
                assert(recurring_views(out@) =~= recurring_views(before_out).push(out@.last()@));
            }
        }
        i += 1;
    }
    proof {
        assert(aggs@.take(aggs@.len() as int) =~= aggs@);
    }
    out
}

fn copy_recurring(r: &RecurringGrowth) -> (o: RecurringGrowth)
    ensures
        o@ == r@,
{
    RecurringGrowth {
        path: r.path.clone(),
        positive_intervals: r.positive_intervals,
        bytes_delta: r.bytes_delta,
        current_bytes: r.current_bytes,
        percent_tenths: r.percent_tenths,
        watched: r.watched,
    }
}

fn explains_exec(other: &RecurringGrowth, c: &RecurringGrowth) -> (r: bool)
    ensures
        r == explains(other@, c@),
{
    if path_eq(other.path.as_slice(), c.path.as_slice()) {
        return false;
    }
    let oc = components_of(other.path.as_slice());
    let cc = components_of(c.path.as_slice());
    components_start_with(&oc, &cc) && other.positive_intervals >= c.positive_intervals && (
    other.bytes_delta as i128) * 100 >= (c.bytes_delta as i128) * 80
}

fn unexplained_exec(cands: &Vec<RecurringGrowth>) -> (r: Vec<RecurringGrowth>)
    ensures
        recurring_views(r@) == unexplained(recurring_views(cands@), recurring_views(cands@)),
{
    let ghost all = recurring_views(cands@);
    let mut out: Vec<RecurringGrowth> = Vec::new();
    let mut i: usize = 0;
    while i < cands.len()
        invariant
            i <= cands@.len(),
            all == recurring_views(cands@),
            recurring_views(out@) == unexplained(all.take(i as int), all),
        decreases cands.len() - i,
    {
        let c = &cands[i];
        proof {
            assert(all.take(i + 1).drop_last() =~= all.take(i as int));
            assert(all.take(i + 1).last() == c@);
        }
        let mut found = false;
        let mut k: usize = 0;
        while k < cands.len()
            invariant
                k <= cands@.len(),
                all == recurring_views(cands@),
                found == exists|j: int| 0 <= j < k && explains(#[trigger] all[j], c@),
            decreases cands.len() - k,
        {
            if explains_exec(&cands[k], c) {
                assert(explains(all[k as int], c@));
                found = true;
            }
            k += 1;
        }
        let ghost before_out = out@;
        if !found {
            out.push(copy_recurring(c));
            proof {
                assert(recurring_views(out@) =~= recurring_views(before_out).push(c@));
            }
        }
        i += 1;
    }
    proof {
        assert(all.take(cands@.len() as int) =~= all);
    }
    out
}

fn recurring_after_exec(a: &RecurringGrowth, b: &RecurringGrowth) -> (r: bool)
    ensures
        r == recurring_after(a@, b@),
{
    a.positive_intervals < b.positive_intervals || (a.positive_intervals == b.positive_intervals
        && (a.bytes_delta < b.bytes_delta || (a.bytes_delta == b.bytes_delta && path_less(
        b.path.as_slice(),
        a.path.as_slice(),
    ))))
}

fn series_exec(snapshots: &[Snapshot], p: &Vec<u8>) -> (r: FolderSeries)
    ensures
        r@ == series_spec(snapshots@, p@),
{
    let mut points: Vec<FolderPoint> = Vec::new();
    let mut i: usize = 0;
    while i < snapshots.len()
        invariant
            i <= snapshots@.len(),
            points@ == folder_points(snapshots@.take(i as int), p@),
        decreases snapshots.len() - i,
    {
        let s = &snapshots[i];
        let b = dir_first_of(&s.entries, p.as_slice());
        points.push(FolderPoint { captured_at_ms: s.captured_at_ms, bytes: b });
        proof {
            assert(folder_points(snapshots@.take(i + 1), p@) =~= folder_points(
                snapshots@.take(i as int),
                p@,
            ).push(FolderPoint { captured_at_ms: s.captured_at_ms, bytes: b }));
        }
        i += 1;
    }
    proof {
        assert(snapshots@.take(snapshots@.len() as int) =~= snapshots@);
    }
    let before = if points.len() > 0 {
        points[0].bytes
    } else {
        0
    };
    let current = if points.len() > 0 {
        points[points.len() - 1].bytes
    } else {
        0
    };
    let delta = saturating_sub_i64(current, before);
    let percent = percentage_tenths(before, delta);
    FolderSeries { path: p.clone(), points, bytes_delta: delta, percent_tenths: percent }
}

/// Growth Watch over snapshots ordered by time: the total size at each one,
/// the capacity observations, the folders that keep growing, and the series
/// of each watched folder.
pub fn build_growth_watch(snapshots: &[Snapshot], watched_paths: &[Vec<u8>]) -> (w: GrowthWatch)
    requires
        entry_count(snapshots@) < usize::MAX,
    ensures
        w.timeline@ == timeline_spec(snapshots@),
        w.capacity@ == capacity_spec(snapshots@),
        recurring_views(w.recurring@) == recurring_spec(snapshots@, watched_paths@),
        forall|k: int, m: int|
            0 <= k < m < w.recurring@.len() ==> {
                &&& (#[trigger] w.recurring@[k]).positive_intervals >= (#[trigger] w.recurring@[m]).positive_intervals
                &&& w.recurring@[k].positive_intervals == w.recurring@[m].positive_intervals
                    ==> w.recurring@[k].bytes_delta >= w.recurring@[m].bytes_delta
            },
        w.watched@.len() == watched_paths@.len(),
        forall|k: int| 0 <= k < w.watched@.len() ==> (#[trigger] w.watched@[k])@ == series_spec(
            snapshots@,
            watched_paths@[k]@,
        ),
{
    let mut timeline: Vec<TimelinePoint> = Vec::new();
    let mut capacity: Vec<CapacityPoint> = Vec::new();
    let mut i: usize = 0;
    while i < snapshots.len()
        invariant
            i <= snapshots@.len(),
            timeline@ == timeline_spec(snapshots@.take(i as int)),
            capacity@ == capacity_spec(snapshots@.take(i as int)),
        decreases snapshots.len() - i,
    {
        let s = &snapshots[i];
        proof {
            assert(snapshots@.take(i + 1).drop_last() =~= snapshots@.take(i as int));
            assert(snapshots@.take(i + 1).last() == *s);
        }
        timeline.push(TimelinePoint { captured_at_ms: s.captured_at_ms, total_bytes: s.total_bytes });
        proof {
            assert(timeline_spec(snapshots@.take(i + 1)) =~= timeline_spec(snapshots@.take(i as int)).push(
                TimelinePoint { captured_at_ms: s.captured_at_ms, total_bytes: s.total_bytes },
            ));
        }
        match (s.volume_total_bytes, s.volume_free_bytes) {
            (Some(t), Some(f)) => {
                capacity.push(CapacityPoint { captured_at_ms: s.captured_at_ms, total_bytes: t, free_bytes: f });
            },
            _ => {},
        }
        i += 1;
    }
    proof {
        assert(snapshots@.take(snapshots@.len() as int) =~= snapshots@);
    }
    let aggs = aggregate_exec(snapshots);
    let empty: Vec<Entry> = Vec::new();
    let latest = if snapshots.len() > 0 {
        &snapshots[snapshots.len() - 1].entries
    } else {
        &empty
    };
    assert(latest@ == latest_entries(snapshots@));
    let cands = candidates_exec(&aggs, latest, watched_paths);
    let kept = unexplained_exec(&cands);
    let ghost after = |a: RecurringGrowth, b: RecurringGrowth| recurring_after(a@, b@);
    let ghost after_v = |a: RecurringView, b: RecurringView| recurring_after(a, b);
    let ghost unsorted = kept@;
    let mut sorted = sort_stable(kept, recurring_after_exec, Ghost(after));
    proof {
        lemma_sort_map(unsorted, |r: RecurringGrowth| r@, after, after_v);
        assert(recurring_views(unsorted) =~= unsorted.map_values(|r: RecurringGrowth| r@));
        assert(recurring_views(sorted@) =~= sorted@.map_values(|r: RecurringGrowth| r@));
        lemma_stable_sort_len(unsorted, after);
    }
    let ghost full = sorted@;
    if sorted.len() > 12 {
        sorted.truncate(12);
    }
    proof {
        assert(recurring_views(sorted@) =~= recurring_views(full).take(vstd::math::min(full.len() as int, 12)));
    }
    let mut watched: Vec<FolderSeries> = Vec::new();
    let mut k: usize = 0;
    while k < watched_paths.len()
        invariant
            k <= watched_paths@.len(),
            watched@.len() == k,
            forall|m: int| 0 <= m < k ==> (#[trigger] watched@[m])@ == series_spec(snapshots@, watched_paths@[m]@),
        decreases watched_paths.len() - k,
    {
        let s = series_exec(snapshots, &watched_paths[k]);
        watched.push(s);
        k += 1;
    }
    proof {
        lemma_recurring_ranked(snapshots@, watched_paths@);
        assert forall|k: int, m: int| 0 <= k < m < sorted@.len() implies {
            &&& (#[trigger] sorted@[k]).positive_intervals >= (#[trigger] sorted@[m]).positive_intervals
            &&& sorted@[k].positive_intervals == sorted@[m].positive_intervals
                ==> sorted@[k].bytes_delta >= sorted@[m].bytes_delta
        } by {
            assert(recurring_views(sorted@)[k] == sorted@[k]@);
            assert(recurring_views(sorted@)[m] == sorted@[m]@);
        }
    }
    GrowthWatch { timeline, capacity, recurring: sorted, watched }
}


// ───────────────────────── snapshot files and the watch list ─────────────────────────

/// The last component of a path when it is a name.
pub open spec fn file_name_spec(p: Seq<u8>) -> Option<Seq<u8>> {
    let c = components(p);
    if c.len() > 0 && c.last() is Normal {
        Some(c.last()->Normal_0)
    } else {
        None
    }
}

pub open spec fn ascii_digits(s: Seq<u8>) -> bool {
    s.len() > 0 && forall|i: int| 0 <= i < s.len() ==> 48 <= #[trigger] s[i] <= 57
}

pub open spec fn digits_num(s: Seq<u8>) -> nat
    decreases s.len(),
{
    if s.len() == 0 {
        0
    } else {
        digits_num(s.drop_last()) * 10 + (s.last() - 48) as nat
    }
}

/// `snapshot-`
pub open spec fn snapshot_prefix() -> Seq<u8> {
    seq![115u8, 110u8, 97u8, 112u8, 115u8, 104u8, 111u8, 116u8, 45u8]
}

/// `.ddhist`
pub open spec fn snapshot_suffix() -> Seq<u8> {
    seq![46u8, 100u8, 100u8, 104u8, 105u8, 115u8, 116u8]
}

/// The time and process of a snapshot file named
/// `snapshot-<digits>-<digits>.ddhist`, when both numbers fit.
pub open spec fn snapshot_key_spec(p: Seq<u8>) -> Option<(i64, u32)> {
    match file_name_spec(p) {
        None => None,
        Some(name) => if name.len() < 16 || name.take(9) != snapshot_prefix() || name.skip(
            name.len() - 7,
        ) != snapshot_suffix() {
            None
        } else {
            let middle = name.subrange(9, name.len() - 7);
            let dash = last_dash(middle, middle.len() as int);
            if dash < 0 {
                None
            } else {
                let a = middle.take(dash);
                let b = middle.skip(dash + 1);
                if !ascii_digits(a) || !ascii_digits(b) || digits_num(a) > i64::MAX
                    || digits_num(b) > u32::MAX {
                    None
                } else {
                    Some((digits_num(a) as i64, digits_num(b) as u32))
                }
            }
        },
    }
}

/// The index of the last `-` before `end`, or -1.
pub open spec fn last_dash(s: Seq<u8>, end: int) -> int
    decreases end,
{
    if end <= 0 || end > s.len() {
        -1
    } else if s[end - 1] == 45u8 {
        end - 1
    } else {
        last_dash(s, end - 1)
    }
}

proof fn lemma_last_dash(s: Seq<u8>, end: int)
    requires
        0 <= end <= s.len(),
    ensures
        -1 <= last_dash(s, end) < end,
        forall|j: int| last_dash(s, end) < j < end ==> s[j] != 45u8,
        last_dash(s, end) >= 0 ==> s[last_dash(s, end)] == 45u8,
    decreases end,
{
    if end > 0 && s[end - 1] != 45u8 {
        lemma_last_dash(s, end - 1);
    }
}

fn number_of(s: &[u8], limit: u64) -> (r: Option<u64>)
    ensures
        match r {
            Some(v) => ascii_digits(s@) && digits_num(s@) == v && v <= limit,
            None => !ascii_digits(s@) || digits_num(s@) > limit,
        },
{
    if s.len() == 0 {
        return None;
    }
    let mut acc: u64 = 0;
    let mut i: usize = 0;
    while i < s.len()
        invariant
            i <= s@.len(),
            s@.len() > 0,
            forall|k: int| 0 <= k < i ==> 48 <= #[trigger] s@[k] <= 57,
            acc == digits_num(s@.take(i as int)),
            acc <= limit,
        decreases s.len() - i,
    {
        let c = s[i];
        if c < 48 || c > 57 {
            return None;
        }
        proof {
            assert(s@.take(i + 1).drop_last() =~= s@.take(i as int));
        }
        let d = (c - 48) as u64;
        let next: u128 = acc as u128 * 10 + d as u128;
        if next > limit as u128 {
            proof {
                assert(digits_num(s@.take(i + 1)) == next);
                lemma_digits_num_grow(s@, i + 1);
            }
            return None;
        }
        acc = next as u64;
        i += 1;
    }
    proof {
        assert(s@.take(s@.len() as int) =~= s@);
    }
    Some(acc)
}

proof fn lemma_digits_num_grow(s: Seq<u8>, i: int)
    requires
        0 <= i <= s.len(),
    ensures
        ascii_digits(s) ==> digits_num(s.take(i)) <= digits_num(s),
    decreases s.len() - i,
{
    if i < s.len() {
        lemma_digits_num_grow(s, i + 1);
        assert(s.take(i + 1).drop_last() =~= s.take(i));
    } else {
        assert(s.take(i) =~= s);
    }
}

pub fn snapshot_key(p: &[u8]) -> (r: Option<(i64, u32)>)
    ensures
        r == snapshot_key_spec(p@),
{
    let comps = components_of(p);
    if comps.len() == 0 {
        return None;
    }
    let name = match &comps[comps.len() - 1] {
        Component::Normal(b) => b,
        _ => {
            return None;
        },
    };
    proof {
        assert(comps_view(comps@).last() == comps@[comps@.len() - 1]@);
    }
    let n = name.len();
    let prefix: [u8; 9] = [115, 110, 97, 112, 115, 104, 111, 116, 45];
    let suffix: [u8; 7] = [46, 100, 100, 104, 105, 115, 116];
    assert(prefix@ =~= snapshot_prefix());
    assert(suffix@ =~= snapshot_suffix());
    if n < 16 || !starts_with_bytes(name.as_slice(), prefix.as_slice()) || !ends_with_bytes(
        name.as_slice(),
        suffix.as_slice(),
    ) {
        return None;
    }
    let middle = copy_range(name.as_slice(), 9, n - 16);
    assert(middle@ =~= name@.subrange(9, n - 7));
    let m = middle.len();
    let mut k = m;
    while k > 0 && middle[k - 1] != 45u8
        invariant
            k <= m,
            m == middle@.len(),
            last_dash(middle@, m as int) == last_dash(middle@, k as int),
        decreases k,
    {
        k -= 1;
    }
    if k == 0 {
        return None;
    }
    let dash = k - 1;
    let a = copy_range(middle.as_slice(), 0, dash);
    let b = copy_range(middle.as_slice(), dash + 1, m - dash - 1);
    assert(a@ =~= middle@.take(dash as int));
    assert(b@ =~= middle@.skip(dash + 1));
    let av = match number_of(a.as_slice(), 9223372036854775807u64) {
        Some(v) => v,
        None => {
            return None;
        },
    };
    let bv = match number_of(b.as_slice(), 4294967295u64) {
        Some(v) => v,
        None => {
            return None;
        },
    };
    Some((av as i64, bv as u32))
}

/// A watched folder is a non-empty path of plain names, relative to the scan
/// root, of at most 1 MiB.
pub open spec fn normalized_relative_spec(p: Seq<u8>) -> bool {
    let c = components(p);
    &&& c.len() > 0
    &&& forall|i: int| 0 <= i < c.len() ==> #[trigger] c[i] is Normal
    &&& p.len() <= MAX_PATH_BYTES
}

pub fn normalized_relative_path(p: &[u8]) -> (r: bool)
    ensures
        r == normalized_relative_spec(p@),
{
    let c = components_of(p);
    let mut i: usize = 0;
    while i < c.len()
        invariant
            i <= c@.len(),
            comps_view(c@) == components(p@),
            forall|j: int| 0 <= j < i ==> #[trigger] components(p@)[j] is Normal,
        decreases c.len() - i,
    {
        match &c[i] {
            Component::Normal(_) => {},
            _ => {
                assert(!(components(p@)[i as int] is Normal));
                return false;
            },
        }
        i += 1;
    }
    c.len() > 0 && p.len() <= MAX_PATH_BYTES
}


#[derive(Clone, Copy, Debug, PartialEq, Eq, Structural)]
pub enum WatchError {
    TooMany,
    NotNormalized,
    Unsupported,
    Truncated,
    PathTooLong,
    UnsafePath,
    Trailing,
}

pub open spec fn watch_error_text(e: WatchError) -> Seq<char> {
    match e {
        WatchError::TooMany => "Growth Watch has too many watched folders"@,
        WatchError::NotNormalized => "Growth Watch paths must be normalized scan-relative folders"@,
        WatchError::Unsupported => "Growth Watch format is not supported"@,
        WatchError::Truncated => "snapshot is truncated"@,
        WatchError::PathTooLong => "snapshot path is too long"@,
        WatchError::UnsafePath => "Growth Watch contains an unsafe path"@,
        WatchError::Trailing => "Growth Watch contains trailing data"@,
    }
}

impl WatchError {
    pub fn message(self) -> (m: &'static str)
        ensures
            m@ == watch_error_text(self),
    {
        match self {
            WatchError::TooMany => "Growth Watch has too many watched folders",
            WatchError::NotNormalized => "Growth Watch paths must be normalized scan-relative folders",
            WatchError::Unsupported => "Growth Watch format is not supported",
            WatchError::Truncated => "snapshot is truncated",
            WatchError::PathTooLong => "snapshot path is too long",
            WatchError::UnsafePath => "Growth Watch contains an unsafe path",
            WatchError::Trailing => "Growth Watch contains trailing data",
        }
    }
}

/// `DDWATCH1`
pub open spec fn watch_magic() -> Seq<u8> {
    seq![68u8, 68u8, 87u8, 65u8, 84u8, 67u8, 72u8, 49u8]
}

pub open spec fn path_views(v: Seq<Vec<u8>>) -> Seq<Seq<u8>> {
    v.map_values(|p: Vec<u8>| p@)
}

pub open spec fn path_recs(ps: Seq<Seq<u8>>) -> Seq<u8>
    decreases ps.len(),
{
    if ps.len() == 0 {
        Seq::empty()
    } else {
        path_recs(ps.drop_last()) + path_rec(ps.last())
    }
}

pub open spec fn watch_bytes(ps: Seq<Seq<u8>>) -> Seq<u8> {
    watch_magic() + le_u32(ps.len() as u32) + path_recs(ps)
}

pub open spec fn all_normalized(ps: Seq<Seq<u8>>) -> bool {
    forall|i: int| 0 <= i < ps.len() ==> normalized_relative_spec(#[trigger] ps[i])
}

/// The watch list file for `paths`: at most 128 normalized folders.
pub fn encode_watchlist(paths: &[Vec<u8>]) -> (r: Result<Vec<u8>, WatchError>)
    ensures
        paths@.len() > MAX_WATCHED ==> r == Err::<Vec<u8>, WatchError>(WatchError::TooMany),
        paths@.len() <= MAX_WATCHED && !all_normalized(path_views(paths@)) ==> r == Err::<
            Vec<u8>,
            WatchError,
        >(WatchError::NotNormalized),
        paths@.len() <= MAX_WATCHED && all_normalized(path_views(paths@)) ==> r is Ok && r->Ok_0@
            == watch_bytes(path_views(paths@)),
{
    let ghost ps = path_views(paths@);
    if paths.len() > MAX_WATCHED {
        return Err(WatchError::TooMany);
    }
    let mut out: Vec<u8> = vec![68u8, 68u8, 87u8, 65u8, 84u8, 67u8, 72u8, 49u8];
    assert(out@ =~= watch_magic());
    push_u32(&mut out, paths.len() as u32);
    let ghost head = out@;
    let mut i: usize = 0;
    while i < paths.len()
        invariant
            i <= paths@.len() <= MAX_WATCHED,
            ps == path_views(paths@),
            out@ == head + path_recs(ps.take(i as int)),
            forall|j: int| 0 <= j < i ==> normalized_relative_spec(#[trigger] ps[j]),
        decreases paths.len() - i,
    {
        if !normalized_relative_path(paths[i].as_slice()) {
            assert(!normalized_relative_spec(ps[i as int]));
            return Err(WatchError::NotNormalized);
        }
        let ghost before = out@;
        put_hpath(&mut out, paths[i].as_slice());
        proof {
            assert(ps.take(i + 1).drop_last() =~= ps.take(i as int));
            assert(ps[i as int] == paths@[i as int]@);
            assert(out@ =~= before + path_rec(ps[i as int]));
        }
        i += 1;
    }
    proof {
        assert(ps.take(paths@.len() as int) =~= ps);
    }
    Ok(out)
}

/// `a` sorts after `b` as paths.
pub open spec fn path_after(a: Seq<u8>, b: Seq<u8>) -> bool {
    comps_lt(components(b), components(a))
}

/// `s` without the repeats of a path that directly follow it.
pub open spec fn dedup_paths(s: Seq<Seq<u8>>) -> Seq<Seq<u8>>
    decreases s.len(),
{
    if s.len() == 0 {
        s
    } else {
        let rest = dedup_paths(s.drop_last());
        if rest.len() > 0 && same_path(rest.last(), s.last()) {
            rest
        } else {
            rest.push(s.last())
        }
    }
}

/// A watch list in its kept form: sorted as paths, repeats dropped.
pub open spec fn tidy_watchlist(s: Seq<Seq<u8>>) -> Seq<Seq<u8>> {
    dedup_paths(stable_sort(s, |a: Seq<u8>, b: Seq<u8>| path_after(a, b)))
}

fn path_after_exec(a: &Vec<u8>, b: &Vec<u8>) -> (r: bool)
    ensures
        r == path_after(a@, b@),
{
    path_less(b.as_slice(), a.as_slice())
}

pub fn tidy_paths(paths: Vec<Vec<u8>>) -> (r: Vec<Vec<u8>>)
    ensures
        path_views(r@) == tidy_watchlist(path_views(paths@)),
{
    let ghost unsorted = paths@;
    let ghost after = |a: Vec<u8>, b: Vec<u8>| path_after(a@, b@);
    let ghost after_v = |a: Seq<u8>, b: Seq<u8>| path_after(a, b);
    let sorted = sort_stable(paths, path_after_exec, Ghost(after));
    proof {
        lemma_sort_map(unsorted, |p: Vec<u8>| p@, after, after_v);
        assert(path_views(unsorted) =~= unsorted.map_values(|p: Vec<u8>| p@));
        assert(path_views(sorted@) =~= sorted@.map_values(|p: Vec<u8>| p@));
    }
    let ghost sv = path_views(sorted@);
    let mut out: Vec<Vec<u8>> = Vec::new();
    let mut i: usize = 0;
    while i < sorted.len()
        invariant
            i <= sorted@.len(),
            sv == path_views(sorted@),
            path_views(out@) == dedup_paths(sv.take(i as int)),
        decreases sorted.len() - i,
    {
        proof {
            assert(sv.take(i + 1).drop_last() =~= sv.take(i as int));
            assert(sv.take(i + 1).last() == sorted@[i as int]@);
        }
        let keep = if out.len() > 0 {
            proof {
                assert(path_views(out@).last() == out@[out@.len() - 1]@);
            }
            !path_eq(out[out.len() - 1].as_slice(), sorted[i].as_slice())
        } else {
            true
        };
        if keep {
            let ghost before = out@;
            out.push(sorted[i].clone());
            proof {
                assert(path_views(out@) =~= path_views(before).push(sorted@[i as int]@));
            }
        }
        i += 1;
    }
    proof {
        assert(sv.take(sorted@.len() as int) =~= sv);
    }
    out
}

/// The watch list once `folder` is watched or no longer watched: the folder
/// must be normalized; other folders stay; the list is kept sorted without
/// repeats.
pub open spec fn updated_watchlist(existing: Seq<Seq<u8>>, folder: Seq<u8>, watched: bool) -> Seq<Seq<u8>> {
    let kept = existing.filter(|p: Seq<u8>| !same_path(p, folder));
    tidy_watchlist(if watched { kept.push(folder) } else { kept })
}

/// The new contents of the watch list file when `folder` is marked watched
/// or not, given the folders watched so far.
pub fn set_folder_watched(existing: &[Vec<u8>], folder: &[u8], watched: bool) -> (r: Result<Vec<u8>, WatchError>)
    ensures
        !normalized_relative_spec(folder@) ==> r == Err::<Vec<u8>, WatchError>(WatchError::NotNormalized),
        normalized_relative_spec(folder@) ==> {
            let next = updated_watchlist(path_views(existing@), folder@, watched);
            &&& next.len() > MAX_WATCHED ==> r == Err::<Vec<u8>, WatchError>(WatchError::TooMany)
            &&& next.len() <= MAX_WATCHED && all_normalized(next) ==> r is Ok && r->Ok_0@ == watch_bytes(next)
            &&& next.len() <= MAX_WATCHED && !all_normalized(next) ==> r == Err::<Vec<u8>, WatchError>(WatchError::NotNormalized)
        },
{
    if !normalized_relative_path(folder) {
        return Err(WatchError::NotNormalized);
    }
    let ghost ev = path_views(existing@);
    let mut kept: Vec<Vec<u8>> = Vec::new();
    let mut i: usize = 0;
    while i < existing.len()
        invariant
            i <= existing@.len(),
            ev == path_views(existing@),
            path_views(kept@) == ev.take(i as int).filter(|p: Seq<u8>| !same_path(p, folder@)),
        decreases existing.len() - i,
    {
        proof {
            assert(ev.take(i + 1).drop_last() =~= ev.take(i as int));
            assert(ev.take(i + 1).last() == existing@[i as int]@);
            reveal_with_fuel(Seq::filter, 1);
        }
        if !path_eq(existing[i].as_slice(), folder) {
            let ghost before = kept@;
            kept.push(existing[i].clone());
            proof {
                assert(path_views(kept@) =~= path_views(before).push(existing@[i as int]@));
            }
        }
        i += 1;
    }
    proof {
        assert(ev.take(existing@.len() as int) =~= ev);
    }
    if watched {
        let ghost before = kept@;
        let mut f: Vec<u8> = Vec::new();
        push_bytes(&mut f, folder);
        kept.push(f);
        proof {
            assert(path_views(kept@) =~= path_views(before).push(folder@));
        }
    }
    let tidy = tidy_paths(kept);
    encode_watchlist(tidy.as_slice())
}


pub open spec fn watch_path_error(e: HistoryError) -> WatchError {
    match e {
        HistoryError::PathTooLong => WatchError::PathTooLong,
        _ => WatchError::Truncated,
    }
}

pub open spec fn parse_watch_paths(b: Seq<u8>, off: int, n: nat) -> Result<(Seq<Seq<u8>>, int), WatchError>
    decreases n,
{
    if n == 0 {
        Ok((Seq::empty(), off))
    } else {
        match parse_watch_paths(b, off, (n - 1) as nat) {
            Err(e) => Err(e),
            Ok((ps, o)) => match parse_hpath(b, o) {
                Err(e) => Err(watch_path_error(e)),
                Ok((path, o2)) => if !normalized_relative_spec(path) {
                    Err(WatchError::UnsafePath)
                } else {
                    Ok((ps.push(path), o2))
                },
            },
        }
    }
}

/// What a watch list file holds, kept sorted without repeats.
pub open spec fn decode_watchlist_spec(b: Seq<u8>) -> Result<Seq<Seq<u8>>, WatchError> {
    if b.len() < 8 {
        Err(WatchError::Truncated)
    } else if b.subrange(0, 8) != watch_magic() {
        Err(WatchError::Unsupported)
    } else if b.len() < 12 {
        Err(WatchError::Truncated)
    } else if u32_at(b, 8) > MAX_WATCHED {
        Err(WatchError::TooMany)
    } else {
        match parse_watch_paths(b, 12, u32_at(b, 8) as nat) {
            Err(e) => Err(e),
            Ok((ps, end)) => if end != b.len() {
                Err(WatchError::Trailing)
            } else {
                Ok(tidy_watchlist(ps))
            },
        }
    }
}

proof fn lemma_path_recs_prefix(ps: Seq<Seq<u8>>, n: int)
    requires
        0 <= n <= ps.len(),
    ensures
        path_recs(ps.take(n)).len() <= path_recs(ps).len(),
        path_recs(ps).subrange(0, path_recs(ps.take(n)).len() as int) == path_recs(ps.take(n)),
    decreases ps.len() - n,
{
    if n == ps.len() {
        assert(ps.take(n) =~= ps);
        assert(path_recs(ps).subrange(0, path_recs(ps).len() as int) =~= path_recs(ps));
    } else {
        lemma_path_recs_prefix(ps.drop_last(), n);
        assert(ps.drop_last().take(n) =~= ps.take(n));
        let a = path_recs(ps.drop_last());
        let k = path_recs(ps.take(n)).len() as int;
        assert(path_recs(ps) == a + path_rec(ps.last()));
        assert((a + path_rec(ps.last())).subrange(0, k) =~= a.subrange(0, k));
    }
}

#[verifier::spinoff_prover]
#[verifier::rlimit(40)]
proof fn lemma_parse_watch_prefix(ps: Seq<Seq<u8>>, n: nat)
    requires
        ps.len() <= MAX_WATCHED,
        all_normalized(ps),
        n <= ps.len(),
    ensures
        parse_watch_paths(watch_bytes(ps), 12, n) == Ok::<(Seq<Seq<u8>>, int), WatchError>(
            (ps.take(n as int), 12 + path_recs(ps.take(n as int)).len() as int),
        ),
    decreases n,
{
    let b = watch_bytes(ps);
    if n == 0 {
        assert(ps.take(0) =~= Seq::<Seq<u8>>::empty());
    } else {
        let m = (n - 1) as nat;
        lemma_parse_watch_prefix(ps, m);
        let prev = ps.take(m as int);
        let p = ps[m as int];
        assert(ps.take(n as int).drop_last() =~= prev);
        assert(ps.take(n as int) =~= prev.push(p));
        let o: int = 12 + path_recs(prev).len() as int;
        let lp: int = path_rec(p).len() as int;
        let all = path_recs(ps);
        lemma_path_recs_prefix(ps, n as int);
        let upto = path_recs(ps.take(n as int));
        assert(upto == path_recs(prev) + path_rec(p));
        let head = watch_magic() + le_u32(ps.len() as u32);
        assert(head.len() == 12);
        assert(b == head + all);
        assert(b.subrange(o, o + lp) =~= path_rec(p)) by {
            assert forall|k: int| 0 <= k < lp implies b.subrange(o, o + lp)[k] == path_rec(p)[k] by {
                let idx = path_recs(prev).len() + k;
                assert(b[o + k] == all[idx]);
                assert(all.subrange(0, upto.len() as int)[idx] == upto[idx]);
                assert(upto[idx] == path_rec(p)[k]);
            }
        }
        assert(normalized_relative_spec(p));
        lemma_parse_hpath_at(b, o, p);
    }
}

/// Reading a written watch list gives back its folders sorted by path without
/// repeats.
pub proof fn lemma_watchlist_round_trip(ps: Seq<Seq<u8>>)
    requires
        ps.len() <= MAX_WATCHED,
        all_normalized(ps),
    ensures
        decode_watchlist_spec(watch_bytes(ps)) == Ok::<Seq<Seq<u8>>, WatchError>(tidy_watchlist(ps)),
{
    let b = watch_bytes(ps);
    let head = watch_magic() + le_u32(ps.len() as u32);
    assert(b == head + path_recs(ps));
    assert(b.subrange(0, 8) =~= watch_magic());
    assert(b.subrange(8, 12) =~= le_u32(ps.len() as u32));
    lemma_u32_round_trip(ps.len() as u32, b, 8);
    lemma_parse_watch_prefix(ps, ps.len());
    assert(ps.take(ps.len() as int) =~= ps);
}

proof fn lemma_parse_watch_err(b: Seq<u8>, off: int, i: nat, n: nat)
    requires
        i < n,
        parse_watch_paths(b, off, (i + 1) as nat) is Err,
    ensures
        parse_watch_paths(b, off, n) == parse_watch_paths(b, off, (i + 1) as nat),
    decreases n - i,
{
    if n > i + 1 {
        lemma_parse_watch_err(b, off, i, (n - 1) as nat);
    }
}

pub fn decode_watchlist(bytes: &[u8]) -> (r: Result<Vec<Vec<u8>>, WatchError>)
    ensures
        match decode_watchlist_spec(bytes@) {
            Ok(ps) => r is Ok && path_views(r->Ok_0@) == ps,
            Err(e) => r == Err::<Vec<Vec<u8>>, WatchError>(e),
        },
{
    if bytes.len() < 8 {
        return Err(WatchError::Truncated);
    }
    let head = copy_range(bytes, 0, 8);
    let m: Vec<u8> = vec![68u8, 68u8, 87u8, 65u8, 84u8, 67u8, 72u8, 49u8];
    assert(m@ =~= watch_magic());
    if !bytes_eq(head.as_slice(), m.as_slice()) {
        return Err(WatchError::Unsupported);
    }
    if bytes.len() < 12 {
        return Err(WatchError::Truncated);
    }
    let count = crate::bytes::read_u32(bytes, 8) as usize;
    if count > MAX_WATCHED {
        return Err(WatchError::TooMany);
    }
    let mut reader = Reader { bytes, offset: 12 };
    let mut paths: Vec<Vec<u8>> = Vec::new();
    let mut i: usize = 0;
    assert(path_views(paths@) =~= Seq::<Seq<u8>>::empty());
    while i < count
        invariant
            i <= count,
            count == u32_at(bytes@, 8),
            reader.bytes == bytes,
            reader.offset <= bytes@.len(),
            parse_watch_paths(bytes@, 12, i as nat) == Ok::<(Seq<Seq<u8>>, int), WatchError>(
                (path_views(paths@), reader.offset as int),
            ),
            decode_watchlist_spec(bytes@) == match parse_watch_paths(bytes@, 12, count as nat) {
                Err(e) => Err(e),
                Ok((ps, end)) => if end != bytes@.len() {
                    Err(WatchError::Trailing)
                } else {
                    Ok(tidy_watchlist(ps))
                },
            },
        decreases count - i,
    {
        let ghost prev = path_views(paths@);
        let ghost prev_off = reader.offset as int;
        let p = match read_hpath(&mut reader) {
            Ok(p) => p,
            Err(e) => {
                proof {
                    lemma_parse_watch_err(bytes@, 12, i as nat, count as nat);
                }
                return Err(if e == HistoryError::PathTooLong {
                    WatchError::PathTooLong
                } else {
                    WatchError::Truncated
                });
            },
        };
        if !normalized_relative_path(p.as_slice()) {
            proof {
                lemma_parse_watch_err(bytes@, 12, i as nat, count as nat);
            }
            return Err(WatchError::UnsafePath);
        }
        let ghost pv = p@;
        paths.push(p);
        proof {
            assert(path_views(paths@) =~= prev.push(pv));
        }
        i += 1;
    }
    if reader.offset != bytes.len() {
        return Err(WatchError::Trailing);
    }
    Ok(tidy_paths(paths))
}

// ───────────────────────── capturing a scan ─────────────────────────

/// The entries of the nodes below the children of `i` from its `k`-th on, in
/// depth-first order, with paths relative to `base`; a node whose path is not
/// under `base` is left out with everything below it.
pub open spec fn capture_walk(nodes: Seq<Node>, base: Seq<u8>, i: int, k: int) -> Seq<EntryView>
    decreases nodes.len() - i, nodes[i].children@.len() - k,
{
    if 0 <= i < nodes.len() && 0 <= k < nodes[i].children@.len() {
        let c = nodes[i].children@[k];
        if i < c < nodes.len() {
            let n = nodes[c as int];
            match strip_rooted(n.path@, base) {
                None => capture_walk(nodes, base, i, k + 1),
                Some(rel) => {
                    let inner = if n.is_dir {
                        capture_walk(nodes, base, c as int, 0)
                    } else {
                        Seq::empty()
                    };
                    seq![EntryView { path: rel, bytes: n.bytes, files: n.files, is_dir: n.is_dir }] + inner
                        + capture_walk(nodes, base, i, k + 1)
                },
            }
        } else {
            capture_walk(nodes, base, i, k + 1)
        }
    } else {
        Seq::empty()
    }
}

fn capture_into(tree: &ScanTree, base: &[u8], i: usize, out: &mut Vec<Entry>)
    requires
        tree.wf(),
        i < tree@.len(),
        has_root(base@),
    ensures
        entries_view(final(out)@) == entries_view(old(out)@) + capture_walk(tree@, base@, i as int, 0),
    decreases tree@.len() - i,
{
    proof {
        tree.lemma_wf();
        assert(entries_view(old(out)@) + capture_walk(tree@, base@, i as int, 0) =~= entries_view(out@)
            + capture_walk(tree@, base@, i as int, 0));
    }
    let n = tree.node(i).children.len();
    let mut k: usize = 0;
    while k < n
        invariant
            tree.wf(),
            crate::scan::nodes_wf(tree@),
            i < tree@.len(),
            has_root(base@),
            n == tree@[i as int].children@.len(),
            k <= n,
            entries_view(old(out)@) + capture_walk(tree@, base@, i as int, 0) == entries_view(out@)
                + capture_walk(tree@, base@, i as int, k as int),
        decreases n - k,
    {
        let c = tree.node(i).children[k];
        proof {
            assert(crate::scan::children_ok(tree@, i as int));
        }
        let ghost before = entries_view(out@);
        let child = tree.node(c);
        match strip_rooted_exec(child.path.as_slice(), base) {
            None => {
                proof {
                    assert(capture_walk(tree@, base@, i as int, k as int) == capture_walk(
                        tree@,
                        base@,
                        i as int,
                        k + 1,
                    ));
                }
            },
            Some(rel) => {
                let ghost rv = rel@;
                out.push(Entry { path: rel, bytes: child.bytes, files: child.files, is_dir: child.is_dir });
                proof {
                    assert(entries_view(out@) =~= before.push(EntryView { path: rv, bytes: tree@[c as int].bytes, files: tree@[c as int].files, is_dir: tree@[c as int].is_dir }));
                }
                let ghost mid = entries_view(out@);
                if child.is_dir {
                    capture_into(tree, base, c, out);
                }
                proof {
                    let inner = if tree@[c as int].is_dir {
                        capture_walk(tree@, base@, c as int, 0)
                    } else {
                        Seq::empty()
                    };
                    assert(entries_view(out@) =~= mid + inner);
                    assert(capture_walk(tree@, base@, i as int, k as int) == seq![
                        EntryView { path: rv, bytes: tree@[c as int].bytes, files: tree@[c as int].files, is_dir: tree@[c as int].is_dir },
                    ] + inner + capture_walk(tree@, base@, i as int, k + 1));
                    assert(before + capture_walk(tree@, base@, i as int, k as int) =~= entries_view(out@)
                        + capture_walk(tree@, base@, i as int, k + 1));
                }
            },
        }
        k += 1;
    }
    proof {
        assert(entries_view(out@) + capture_walk(tree@, base@, i as int, n as int) =~= entries_view(out@));
    }
}

/// A snapshot of the scanned tree below `root`: every node with its path
/// relative to the root, the root's total, and the volume's capacity and free
/// space when they were read.
pub fn capture(tree: &ScanTree, root: usize, captured_at_ms: i64, capacity: Option<(i64, i64)>) -> (s: Snapshot)
    requires
        tree.wf(),
        root < tree@.len(),
        has_root(tree@[root as int].path@),
    ensures
        s@ == (SnapshotView {
            captured_at_ms,
            root: tree@[root as int].path@,
            total_bytes: tree@[root as int].bytes,
            volume_total_bytes: match capacity {
                Some(c) => Some(c.0),
                None => None,
            },
            volume_free_bytes: match capacity {
                Some(c) => Some(c.1),
                None => None,
            },
            entries: capture_walk(tree@, tree@[root as int].path@, root as int, 0),
        }),
{
    let base = tree.node(root).path.clone();
    let mut entries: Vec<Entry> = Vec::new();
    assert(entries_view(entries@) =~= Seq::<EntryView>::empty());
    capture_into(tree, base.as_slice(), root, &mut entries);
    assert(entries_view(entries@) =~= capture_walk(tree@, base@, root as int, 0));
    let (volume_total_bytes, volume_free_bytes) = match capacity {
        Some((t, f)) => (Some(t), Some(f)),
        None => (None, None),
    };
    Snapshot {
        captured_at_ms,
        root: base,
        total_bytes: tree.node(root).bytes,
        volume_total_bytes,
        volume_free_bytes,
        entries,
    }
}

// ───────────────────────── the history folder ─────────────────────────

/// How many snapshots the history folder keeps.
pub const KEPT_SNAPSHOTS: usize = 12;

/// Newest first: a larger key comes first; equal keys keep their order.
pub open spec fn key_older() -> spec_fn(((i64, u32), Vec<u8>), ((i64, u32), Vec<u8>)) -> bool {
    |a: ((i64, u32), Vec<u8>), b: ((i64, u32), Vec<u8>)| a.0.0 < b.0.0 || (a.0.0 == b.0.0 && a.0.1 < b.0.1)
}

fn key_older_exec(a: &((i64, u32), Vec<u8>), b: &((i64, u32), Vec<u8>)) -> (r: bool)
    ensures
        r == (a.0.0 < b.0.0 || (a.0.0 == b.0.0 && a.0.1 < b.0.1)),
{
    a.0.0 < b.0.0 || (a.0.0 == b.0.0 && a.0.1 < b.0.1)
}

/// The snapshot files found, each with its `snapshot_key`, newest first.
pub fn newest_first(found: Vec<((i64, u32), Vec<u8>)>) -> (r: Vec<Vec<u8>>)
    ensures
        r@ == stable_sort(found@, key_older()).map_values(|x: ((i64, u32), Vec<u8>)| x.1),
{
    let ghost orig = found@;
    let sorted = sort_stable(found, key_older_exec, Ghost(key_older()));
    let ghost all = sorted@;
    let n = sorted.len();
    let mut rest = sorted;
    let mut out: Vec<Vec<u8>> = Vec::new();
    let mut i: usize = 0;
    assert(all.skip(0) =~= all);
    while i < n
        invariant
            n == all.len(),
            i <= n,
            rest@ == all.skip(i as int),
            out@ == all.take(i as int).map_values(|x: ((i64, u32), Vec<u8>)| x.1),
        decreases n - i,
    {
        let x = rest.remove(0);
        assert(x == all[i as int]);
        assert(rest@ =~= all.skip(i + 1));
        out.push(x.1);
        assert(out@ =~= all.take(i + 1).map_values(|x: ((i64, u32), Vec<u8>)| x.1));
        i += 1;
    }
    assert(all.take(n as int) =~= all);
    out
}

/// The snapshot files beyond the newest twelve, given newest first.
pub fn stale_snapshots(newest: Vec<Vec<u8>>) -> (r: Vec<Vec<u8>>)
    ensures
        newest@.len() <= KEPT_SNAPSHOTS ==> r@.len() == 0,
        newest@.len() > KEPT_SNAPSHOTS ==> r@ == newest@.skip(KEPT_SNAPSHOTS as int),
{
    let mut rest = newest;
    if rest.len() <= KEPT_SNAPSHOTS {
        return Vec::new();
    }
    let stale = rest.split_off(KEPT_SNAPSHOTS);
    stale
}

/// The index of the first snapshot, at or after `i`, of the same root.
pub open spec fn first_same_root(s: Seq<Snapshot>, root: Seq<u8>, i: int) -> int
    decreases s.len() - i,
{
    if i < 0 || i >= s.len() {
        -1
    } else if same_path(s[i].root@, root) {
        i
    } else {
        first_same_root(s, root, i + 1)
    }
}

/// The newest readable snapshot of `root`, given the readable snapshots
/// newest first.
pub fn latest_same_root(snapshots: Vec<Snapshot>, root: &[u8]) -> (r: Option<Snapshot>)
    ensures
        first_same_root(snapshots@, root@, 0) < 0 ==> r is None,
        first_same_root(snapshots@, root@, 0) >= 0 ==> r == Some(snapshots@[first_same_root(snapshots@, root@, 0)]),
{
    let mut i: usize = 0;
    while i < snapshots.len()
        invariant
            i <= snapshots@.len(),
            first_same_root(snapshots@, root@, 0) == first_same_root(snapshots@, root@, i as int),
        decreases snapshots@.len() - i,
    {
        if path_eq(snapshots[i].root.as_slice(), root) {
            let mut all = snapshots;
            let found = all.remove(i);
            return Some(found);
        }
        i += 1;
    }
    None
}

/// The snapshots of `root`, in the order given.
pub open spec fn same_root(s: Seq<Snapshot>, root: Seq<u8>) -> Seq<Snapshot>
    decreases s.len(),
{
    if s.len() == 0 {
        Seq::empty()
    } else if same_path(s.last().root@, root) {
        same_root(s.drop_last(), root).push(s.last())
    } else {
        same_root(s.drop_last(), root)
    }
}

/// Oldest first; snapshots taken at the same time keep their order.
pub open spec fn later_capture() -> spec_fn(Snapshot, Snapshot) -> bool {
    |a: Snapshot, b: Snapshot| a.captured_at_ms > b.captured_at_ms
}

fn later_capture_exec(a: &Snapshot, b: &Snapshot) -> (r: bool)
    ensures
        r == (a.captured_at_ms > b.captured_at_ms),
{
    a.captured_at_ms > b.captured_at_ms
}

/// The snapshots Growth Watch reads: those of `root`, oldest first.
pub fn growth_snapshots(snapshots: Vec<Snapshot>, root: &[u8]) -> (r: Vec<Snapshot>)
    ensures
        r@ == stable_sort(same_root(snapshots@, root@), later_capture()),
{
    let ghost orig = snapshots@;
    let n = snapshots.len();
    let mut rest = snapshots;
    let mut kept: Vec<Snapshot> = Vec::new();
    let mut i: usize = 0;
    assert(orig.take(0) =~= Seq::<Snapshot>::empty());
    assert(orig.skip(0) =~= orig);
    while i < n
        invariant
            n == orig.len(),
            i <= n,
            rest@ == orig.skip(i as int),
            kept@ == same_root(orig.take(i as int), root@),
        decreases n - i,
    {
        let s = rest.remove(0);
        assert(orig.take(i + 1).drop_last() =~= orig.take(i as int));
        assert(orig.take(i + 1).last() == orig[i as int]);
        assert(rest@ =~= orig.skip(i + 1));
        if path_eq(s.root.as_slice(), root) {
            kept.push(s);
        }
        i += 1;
    }
    assert(orig.take(n as int) =~= orig);
    sort_stable(kept, later_capture_exec, Ghost(later_capture()))
}

/// The watch list file in a history folder.
pub open spec fn watchlist_path_spec(dir: Seq<u8>) -> Seq<u8> {
    crate::paths::join_spec(dir, crate::paths::ascii_of("watchlist.ddwatch"@))
}

pub fn watchlist_path(dir: &[u8]) -> (p: Vec<u8>)
    ensures
        p@ == watchlist_path_spec(dir@),
{
    let name = crate::paths::ascii_bytes("watchlist.ddwatch");
    crate::paths::join_path(dir, name.as_slice())
}

/// `s` with zeros in front, to at least `width` characters.
pub open spec fn zero_padded(s: Seq<char>, width: nat) -> Seq<char> {
    if s.len() < width {
        Seq::new((width - s.len()) as nat, |i: int| '0') + s
    } else {
        s
    }
}

/// The name a snapshot is saved under: its capture time (never below zero)
/// in twenty digits, and the saving process.
pub open spec fn snapshot_name_spec(captured_at_ms: i64, pid: u32) -> Seq<char> {
    let t: nat = if captured_at_ms < 0 { 0 } else { captured_at_ms as nat };
    "snapshot-"@ + zero_padded(crate::text::nat_text(t), 20) + "-"@ + crate::text::nat_text(pid as nat) + ".ddhist"@
}

pub fn snapshot_file_name(captured_at_ms: i64, pid: u32) -> (name: String)
    ensures
        name@ == snapshot_name_spec(captured_at_ms, pid),
{
    let t: u64 = if captured_at_ms < 0 { 0 } else { captured_at_ms as u64 };
    let mut digits = String::new();
    crate::text::push_nat(&mut digits, t);
    let ghost d = digits@;
    let mut name = String::new();
    crate::text::append_str(&mut name, "snapshot-");
    let ghost head = name@;
    let n = digits.as_str().unicode_len();
    let mut k: usize = n;
    while k < 20
        invariant
            n == d.len(),
            n <= k <= 20 || (n > 20 && k == n),
            name@ == head + Seq::new((k - n) as nat, |i: int| '0'),
        decreases 20 - k,
    {
        crate::text::push_char(&mut name, '0');
        assert(Seq::new((k + 1 - n) as nat, |i: int| '0') =~= Seq::new((k - n) as nat, |i: int| '0').push('0'));
        k += 1;
    }
    crate::text::append_str(&mut name, digits.as_str());
    crate::text::append_str(&mut name, "-");
    crate::text::push_nat(&mut name, pid as u64);
    crate::text::append_str(&mut name, ".ddhist");
    proof {
        if n < 20 {
            assert(k == 20);
        } else {
            assert(Seq::new((k - n) as nat, |i: int| '0') =~= Seq::<char>::empty());
        }
        assert(name@ =~= snapshot_name_spec(captured_at_ms, pid));
    }
    name
}

/// A reading of the volume's capacity worth keeping with a snapshot: a
/// positive total and free space within it.
pub fn capacity_reading(total_bytes: i64, free_bytes: i64) -> (r: Option<(i64, i64)>)
    ensures
        r == (if total_bytes > 0 && 0 <= free_bytes <= total_bytes {
            Some((total_bytes, free_bytes))
        } else {
            None::<(i64, i64)>
        }),
{
    if total_bytes > 0 && free_bytes >= 0 && free_bytes <= total_bytes {
        Some((total_bytes, free_bytes))
    } else {
        None
    }
}

} // verus!
