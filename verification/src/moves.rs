//! Durable move records: the registry format and its updates.

use vstd::prelude::*;
use crate::bytes::{
    bytes_eq, copy_range, i64_at, le_i64, le_u32, lemma_i64_round_trip, lemma_u32_round_trip,
    push_bytes, push_i64, push_u32, read_i64, read_u32, u32_at,
};
use crate::paths::{ascii_bytes, ascii_of, join_path, join_spec};
use crate::sorting::{sort_stable, stable_sort};
use crate::volumes::{path_eq, same_path};

verus! {

pub const MAX_DECODE_RECORDS: usize = 4096;
pub const MAX_RECORDS: usize = 512;
pub const MAX_PATH_BYTES: usize = 1024 * 1024;

#[derive(Clone, Debug, PartialEq, Eq)]
pub struct MoveRecord {
    pub origin: Vec<u8>,
    pub dest: Vec<u8>,
    pub moved_at: i64,
    pub bytes: i64,
    pub symlinked: bool,
    pub restored_at: Option<i64>,
}

pub struct MoveRecordView {
    pub origin: Seq<u8>,
    pub dest: Seq<u8>,
    pub moved_at: i64,
    pub bytes: i64,
    pub symlinked: bool,
    pub restored_at: Option<i64>,
}

impl View for MoveRecord {
    type V = MoveRecordView;

    open spec fn view(&self) -> MoveRecordView {
        MoveRecordView {
            origin: self.origin@,
            dest: self.dest@,
            moved_at: self.moved_at,
            bytes: self.bytes,
            symlinked: self.symlinked,
            restored_at: self.restored_at,
        }
    }
}

pub open spec fn records_view(v: Seq<MoveRecord>) -> Seq<MoveRecordView> {
    v.map_values(|r: MoveRecord| r@)
}

/// `DDMOVE1` followed by a zero byte.
pub open spec fn moves_magic() -> Seq<u8> {
    seq![68u8, 68u8, 77u8, 79u8, 86u8, 69u8, 49u8, 0u8]
}

pub open spec fn flags_byte(r: MoveRecordView) -> u8 {
    ((if r.symlinked { 1int } else { 0int }) + (if r.restored_at is Some { 2int } else { 0int })) as u8
}

pub open spec fn path_bytes(p: Seq<u8>) -> Seq<u8> {
    le_u32(p.len() as u32) + p
}

pub open spec fn record_bytes(r: MoveRecordView) -> Seq<u8> {
    le_i64(r.moved_at) + le_i64(r.bytes) + seq![flags_byte(r)] + le_i64(
        match r.restored_at {
            Some(v) => v,
            None => 0,
        },
    ) + path_bytes(r.origin) + path_bytes(r.dest)
}

pub open spec fn records_bytes(rs: Seq<MoveRecordView>) -> Seq<u8>
    decreases rs.len(),
{
    if rs.len() == 0 {
        Seq::empty()
    } else {
        records_bytes(rs.drop_last()) + record_bytes(rs.last())
    }
}

/// The registry file for a list of records.
pub open spec fn registry_bytes(rs: Seq<MoveRecordView>) -> Seq<u8> {
    moves_magic() + le_u32(rs.len() as u32) + records_bytes(rs)
}

pub open spec fn record_paths_fit(r: MoveRecordView) -> bool {
    r.origin.len() <= MAX_PATH_BYTES && r.dest.len() <= MAX_PATH_BYTES
}

pub open spec fn registry_encodable(rs: Seq<MoveRecordView>) -> bool {
    rs.len() <= MAX_DECODE_RECORDS && forall|i: int|
        0 <= i < rs.len() ==> record_paths_fit(#[trigger] rs[i])
}

#[derive(Clone, Copy, Debug, PartialEq, Eq)]
pub enum RegistryError {
    LengthOverflow,
    Truncated,
    Format,
    TooMany,
    UnknownFlags,
    PathTooLong,
    Trailing,
}

pub open spec fn registry_error_text(e: RegistryError) -> Seq<char> {
    match e {
        RegistryError::LengthOverflow => "move registry length overflow"@,
        RegistryError::Truncated => "move registry is truncated"@,
        RegistryError::Format => "unsupported move registry format"@,
        RegistryError::TooMany => "move registry has too many records"@,
        RegistryError::UnknownFlags => "move registry contains unknown flags"@,
        RegistryError::PathTooLong => "move record path exceeds 1 MiB"@,
        RegistryError::Trailing => "move registry contains trailing data"@,
    }
}

pub fn registry_error_message(e: RegistryError) -> (s: String)
    ensures
        s@ == registry_error_text(e),
{
    match e {
        RegistryError::LengthOverflow => "move registry length overflow".to_owned(),
        RegistryError::Truncated => "move registry is truncated".to_owned(),
        RegistryError::Format => "unsupported move registry format".to_owned(),
        RegistryError::TooMany => "move registry has too many records".to_owned(),
        RegistryError::UnknownFlags => "move registry contains unknown flags".to_owned(),
        RegistryError::PathTooLong => "move record path exceeds 1 MiB".to_owned(),
        RegistryError::Trailing => "move registry contains trailing data".to_owned(),
    }
}

// ───────────────────────── decoding model ─────────────────────────

/// The end of a `len`-byte run starting at `off`.
pub open spec fn take_spec(b: Seq<u8>, off: int, len: int) -> Result<int, RegistryError> {
    if off + len > usize::MAX {
        Err(RegistryError::LengthOverflow)
    } else if off + len > b.len() {
        Err(RegistryError::Truncated)
    } else {
        Ok(off + len)
    }
}

pub open spec fn parse_path(b: Seq<u8>, off: int) -> Result<(Seq<u8>, int), RegistryError> {
    match take_spec(b, off, 4) {
        Err(e) => Err(e),
        Ok(o1) => {
            let len = u32_at(b, off) as int;
            if len > MAX_PATH_BYTES {
                Err(RegistryError::PathTooLong)
            } else {
                match take_spec(b, o1, len) {
                    Err(e) => Err(e),
                    Ok(o2) => Ok((b.subrange(o1, o2), o2)),
                }
            }
        },
    }
}

pub open spec fn parse_record(b: Seq<u8>, off: int) -> Result<(MoveRecordView, int), RegistryError> {
    match take_spec(b, off, 8) {
        Err(e) => Err(e),
        Ok(o1) => match take_spec(b, o1, 8) {
            Err(e) => Err(e),
            Ok(o2) => match take_spec(b, o2, 1) {
                Err(e) => Err(e),
                Ok(o3) => {
                    let flags = b[o2];
                    if flags > 3 {
                        Err(RegistryError::UnknownFlags)
                    } else {
                        match take_spec(b, o3, 8) {
                            Err(e) => Err(e),
                            Ok(o4) => match parse_path(b, o4) {
                                Err(e) => Err(e),
                                Ok((origin, o5)) => match parse_path(b, o5) {
                                    Err(e) => Err(e),
                                    Ok((dest, o6)) => Ok(
                                        (
                                            MoveRecordView {
                                                origin,
                                                dest,
                                                moved_at: i64_at(b, off),
                                                bytes: i64_at(b, o1),
                                                symlinked: flags % 2 == 1,
                                                restored_at: if flags >= 2 {
                                                    Some(i64_at(b, o3))
                                                } else {
                                                    None
                                                },
                                            },
                                            o6,
                                        ),
                                    ),
                                },
                            },
                        }
                    }
                },
            },
        },
    }
}

pub open spec fn parse_records(b: Seq<u8>, off: int, n: nat) -> Result<
    (Seq<MoveRecordView>, int),
    RegistryError,
>
    decreases n,
{
    if n == 0 {
        Ok((Seq::empty(), off))
    } else {
        match parse_records(b, off, (n - 1) as nat) {
            Err(e) => Err(e),
            Ok((rs, o)) => match parse_record(b, o) {
                Err(e) => Err(e),
                Ok((r, o2)) => Ok((rs.push(r), o2)),
            },
        }
    }
}

/// What a registry file decodes to.
pub open spec fn decode_registry_spec(b: Seq<u8>) -> Result<Seq<MoveRecordView>, RegistryError> {
    match take_spec(b, 0, 8) {
        Err(e) => Err(e),
        Ok(o1) => if b.subrange(0, 8) != moves_magic() {
            Err(RegistryError::Format)
        } else {
            match take_spec(b, o1, 4) {
                Err(e) => Err(e),
                Ok(o2) => {
                    let count = u32_at(b, 8);
                    if count > MAX_DECODE_RECORDS {
                        Err(RegistryError::TooMany)
                    } else {
                        match parse_records(b, o2, count as nat) {
                            Err(e) => Err(e),
                            Ok((rs, end)) => if end != b.len() {
                                Err(RegistryError::Trailing)
                            } else {
                                Ok(rs)
                            },
                        }
                    }
                },
            }
        },
    }
}

// ───────────────────────── executable codec ─────────────────────────

fn magic() -> (m: Vec<u8>)
    ensures
        m@ == moves_magic(),
{
    let m = vec![68u8, 68u8, 77u8, 79u8, 86u8, 69u8, 49u8, 0u8];
    assert(m@ =~= moves_magic());
    m
}

/// The move registry file below a home folder.
pub open spec fn registry_path_spec(home: Seq<u8>) -> Seq<u8> {
    join_spec(
        join_spec(
            join_spec(join_spec(join_spec(home, ascii_of("Library"@)), ascii_of("Application Support"@)), ascii_of("DiskDeck"@)),
            ascii_of("Moves"@),
        ),
        ascii_of("index.ddmoves"@),
    )
}

pub fn registry_path_for_home(home: &[u8]) -> (p: Vec<u8>)
    ensures
        p@ == registry_path_spec(home@),
{
    let a = join_path(home, ascii_bytes("Library").as_slice());
    let b = join_path(a.as_slice(), ascii_bytes("Application Support").as_slice());
    let c = join_path(b.as_slice(), ascii_bytes("DiskDeck").as_slice());
    let d = join_path(c.as_slice(), ascii_bytes("Moves").as_slice());
    join_path(d.as_slice(), ascii_bytes("index.ddmoves").as_slice())
}

/// Append a length-prefixed path.
pub fn put_path(out: &mut Vec<u8>, path: &[u8]) -> (r: Result<(), String>)
    ensures
        path@.len() <= MAX_PATH_BYTES ==> r is Ok && final(out)@ == old(out)@ + path_bytes(path@),
        path@.len() > MAX_PATH_BYTES ==> r is Err && r->Err_0@ == registry_error_text(
            RegistryError::PathTooLong,
        ),
{
    if path.len() > MAX_PATH_BYTES {
        return Err(registry_error_message(RegistryError::PathTooLong));
    }
    push_u32(out, path.len() as u32);
    push_bytes(out, path);
    assert(final(out)@ =~= old(out)@ + path_bytes(path@));
    Ok(())
}

/// Encode the registry.
pub fn encode_registry(records: &[MoveRecord]) -> (r: Result<Vec<u8>, String>)
    ensures
        registry_encodable(records_view(records@)) ==> r is Ok && r->Ok_0@ == registry_bytes(
            records_view(records@),
        ),
        records@.len() > MAX_DECODE_RECORDS ==> r is Err && r->Err_0@ == registry_error_text(
            RegistryError::TooMany,
        ),
        records@.len() <= MAX_DECODE_RECORDS && !registry_encodable(records_view(records@)) ==> r is Err
            && r->Err_0@ == registry_error_text(RegistryError::PathTooLong),
{
    let ghost rs = records_view(records@);
    if records.len() > MAX_DECODE_RECORDS {
        return Err(registry_error_message(RegistryError::TooMany));
    }
    let mut out = magic();
    push_u32(&mut out, records.len() as u32);
    let mut i: usize = 0;
    while i < records.len()
        invariant
            i <= records.len() <= MAX_DECODE_RECORDS,
            rs == records_view(records@),
            out@ == moves_magic() + le_u32(records.len() as u32) + records_bytes(rs.take(i as int)),
            forall|j: int| 0 <= j < i ==> record_paths_fit(#[trigger] rs[j]),
        decreases records.len() - i,
    {
        let record = &records[i];
        let ghost before = out@;
        push_i64(&mut out, record.moved_at);
        push_i64(&mut out, record.bytes);
        let flags: u8 = (if record.symlinked { 1u8 } else { 0u8 }) + (if record.restored_at.is_some() { 2u8 } else { 0u8 });
        out.push(flags);
        let restored_value = match record.restored_at {
            Some(v) => v,
            None => 0,
        };
        push_i64(&mut out, restored_value);
        match put_path(&mut out, record.origin.as_slice()) {
            Ok(()) => {},
            Err(e) => {
                assert(!record_paths_fit(rs[i as int]));
                return Err(e);
            },
        }
        match put_path(&mut out, record.dest.as_slice()) {
            Ok(()) => {},
            Err(e) => {
                assert(!record_paths_fit(rs[i as int]));
                return Err(e);
            },
        }
        proof {
            assert(rs[i as int] == record@);
            assert(rs.take(i + 1).drop_last() =~= rs.take(i as int));
            assert(out@ =~= before + record_bytes(record@));
        }
        i += 1;
    }
    assert(rs.take(records.len() as int) =~= rs);
    Ok(out)
}

struct Decoder<'a> {
    bytes: &'a [u8],
    offset: usize,
}

impl<'a> Decoder<'a> {
    fn take(&mut self, len: usize) -> (r: Result<Vec<u8>, RegistryError>)
        requires
            old(self).offset <= old(self).bytes@.len(),
        ensures
            final(self).bytes == old(self).bytes,
            final(self).offset <= final(self).bytes@.len(),
            match take_spec(old(self).bytes@, old(self).offset as int, len as int) {
                Ok(end) => r is Ok && final(self).offset == end && r->Ok_0@ == old(self).bytes@.subrange(
                    old(self).offset as int,
                    end,
                ),
                Err(e) => r == Err::<Vec<u8>, RegistryError>(e),
            },
    {
        let end = match self.offset.checked_add(len) {
            Some(end) => end,
            None => {
                return Err(RegistryError::LengthOverflow);
            },
        };
        if end > self.bytes.len() {
            return Err(RegistryError::Truncated);
        }
        let value = copy_range(self.bytes, self.offset, len);
        self.offset = end;
        Ok(value)
    }

    fn u8(&mut self) -> (r: Result<u8, RegistryError>)
        requires
            old(self).offset <= old(self).bytes@.len(),
        ensures
            final(self).bytes == old(self).bytes,
            final(self).offset <= final(self).bytes@.len(),
            match take_spec(old(self).bytes@, old(self).offset as int, 1) {
                Ok(end) => r == Ok::<u8, RegistryError>(old(self).bytes@[old(self).offset as int])
                    && final(self).offset == end,
                Err(e) => r == Err::<u8, RegistryError>(e),
            },
    {
        let v = self.take(1)?;
        Ok(v[0])
    }

    fn u32(&mut self) -> (r: Result<u32, RegistryError>)
        requires
            old(self).offset <= old(self).bytes@.len(),
        ensures
            final(self).bytes == old(self).bytes,
            final(self).offset <= final(self).bytes@.len(),
            match take_spec(old(self).bytes@, old(self).offset as int, 4) {
                Ok(end) => r == Ok::<u32, RegistryError>(u32_at(old(self).bytes@, old(self).offset as int))
                    && final(self).offset == end,
                Err(e) => r == Err::<u32, RegistryError>(e),
            },
    {
        let start = self.offset;
        let _ = self.take(4)?;
        Ok(read_u32(self.bytes, start))
    }

    fn i64(&mut self) -> (r: Result<i64, RegistryError>)
        requires
            old(self).offset <= old(self).bytes@.len(),
        ensures
            final(self).bytes == old(self).bytes,
            final(self).offset <= final(self).bytes@.len(),
            match take_spec(old(self).bytes@, old(self).offset as int, 8) {
                Ok(end) => r == Ok::<i64, RegistryError>(i64_at(old(self).bytes@, old(self).offset as int))
                    && final(self).offset == end,
                Err(e) => r == Err::<i64, RegistryError>(e),
            },
    {
        let start = self.offset;
        let _ = self.take(8)?;
        Ok(read_i64(self.bytes, start))
    }

    fn path(&mut self) -> (r: Result<Vec<u8>, RegistryError>)
        requires
            old(self).offset <= old(self).bytes@.len(),
        ensures
            final(self).bytes == old(self).bytes,
            final(self).offset <= final(self).bytes@.len(),
            match parse_path(old(self).bytes@, old(self).offset as int) {
                Ok((p, end)) => r is Ok && r->Ok_0@ == p && final(self).offset == end,
                Err(e) => r == Err::<Vec<u8>, RegistryError>(e),
            },
    {
        let len = self.u32()?;
        if len as usize > MAX_PATH_BYTES {
            return Err(RegistryError::PathTooLong);
        }
        self.take(len as usize)
    }

    fn record(&mut self) -> (r: Result<MoveRecord, RegistryError>)
        requires
            old(self).offset <= old(self).bytes@.len(),
        ensures
            final(self).bytes == old(self).bytes,
            final(self).offset <= final(self).bytes@.len(),
            match parse_record(old(self).bytes@, old(self).offset as int) {
                Ok((rec, end)) => r is Ok && r->Ok_0@ == rec && final(self).offset == end,
                Err(e) => r == Err::<MoveRecord, RegistryError>(e),
            },
    {
        let moved_at = self.i64()?;
        let record_bytes = self.i64()?;
        let flags = self.u8()?;
        if flags > 3 {
            return Err(RegistryError::UnknownFlags);
        }
        let restored_value = self.i64()?;
        let origin = self.path()?;
        let dest = self.path()?;
        Ok(MoveRecord {
            origin,
            dest,
            moved_at,
            bytes: record_bytes,
            symlinked: flags % 2 == 1,
            restored_at: if flags >= 2 { Some(restored_value) } else { None },
        })
    }
}

proof fn lemma_parse_records_err(b: Seq<u8>, off: int, i: nat, n: nat)
    requires
        i < n,
        parse_records(b, off, (i + 1) as nat) is Err,
    ensures
        parse_records(b, off, n) == parse_records(b, off, (i + 1) as nat),
    decreases n - i,
{
    if n > i + 1 {
        lemma_parse_records_err(b, off, i, (n - 1) as nat);
    }
}

fn decode_inner(bytes: &[u8]) -> (r: Result<Vec<MoveRecord>, RegistryError>)
    ensures
        match decode_registry_spec(bytes@) {
            Ok(rs) => r is Ok && records_view(r->Ok_0@) == rs,
            Err(e) => r == Err::<Vec<MoveRecord>, RegistryError>(e),
        },
{
    let mut decoder = Decoder { bytes, offset: 0 };
    let head = decoder.take(8)?;
    let m = magic();
    if !bytes_eq(head.as_slice(), m.as_slice()) {
        return Err(RegistryError::Format);
    }
    let count = decoder.u32()? as usize;
    if count > MAX_DECODE_RECORDS {
        return Err(RegistryError::TooMany);
    }
    let mut records: Vec<MoveRecord> = Vec::new();
    let mut i: usize = 0;
    assert(records_view(records@) =~= Seq::<MoveRecordView>::empty());
    while i < count
        invariant
            i <= count,
            decoder.bytes == bytes,
            decoder.offset <= bytes@.len(),
            count == u32_at(bytes@, 8),
            count <= MAX_DECODE_RECORDS,
            bytes@.len() >= 12,
            bytes@.subrange(0, 8) == moves_magic(),
            parse_records(bytes@, 12, i as nat) == Ok::<(Seq<MoveRecordView>, int), RegistryError>(
                (records_view(records@), decoder.offset as int),
            ),
        decreases count - i,
    {
        let ghost prev_off = decoder.offset as int;
        let ghost prev_rs = records_view(records@);
        assert(parse_records(bytes@, 12, (i + 1) as nat) == match parse_record(bytes@, prev_off) {
            Err(e) => Err(e),
            Ok((r, o2)) => Ok::<(Seq<MoveRecordView>, int), RegistryError>((prev_rs.push(r), o2)),
        });
        let record = match decoder.record() {
            Ok(record) => record,
            Err(e) => {
                proof {
                    lemma_parse_records_err(bytes@, 12, i as nat, count as nat);
                }
                return Err(e);
            },
        };
        let ghost rv = record@;
        records.push(record);
        proof {
            assert(records_view(records@) =~= prev_rs.push(rv));
        }
        i += 1;
    }
    if decoder.offset != bytes.len() {
        return Err(RegistryError::Trailing);
    }
    Ok(records)
}

/// Decode the registry; a wrong, truncated or over-long file is refused.
pub fn decode_registry(bytes: &[u8]) -> (r: Result<Vec<MoveRecord>, String>)
    ensures
        match decode_registry_spec(bytes@) {
            Ok(rs) => r is Ok && records_view(r->Ok_0@) == rs,
            Err(e) => r is Err && r->Err_0@ == registry_error_text(e),
        },
{
    match decode_inner(bytes) {
        Ok(records) => Ok(records),
        Err(e) => Err(registry_error_message(e)),
    }
}


/// The records a registry file holds, given its bytes or `None` when there
/// is no file yet.
pub fn load_records(existing: Option<&[u8]>) -> (r: Result<Vec<MoveRecord>, String>)
    ensures
        existing is None ==> r is Ok && r->Ok_0@.len() == 0,
        existing matches Some(b) ==> match decode_registry_spec(b@) {
            Ok(rs) => r is Ok && records_view(r->Ok_0@) == rs,
            Err(e) => r is Err && r->Err_0@ == registry_error_text(e),
        },
{
    match existing {
        None => Ok(Vec::new()),
        Some(b) => decode_registry(b),
    }
}

// ───────────────────────── registry updates ─────────────────────────

/// Two records of one move: their origins are the same path and their
/// destinations are the same path, compared by components.
pub open spec fn same_item(a: MoveRecord, b: MoveRecord) -> bool {
    same_path(a.origin@, b.origin@) && same_path(a.dest@, b.dest@)
}

/// The records that are not about the same origin and destination as `r`.
pub open spec fn without_item(rs: Seq<MoveRecord>, r: MoveRecord) -> Seq<MoveRecord>
    decreases rs.len(),
{
    if rs.len() == 0 {
        rs
    } else {
        let rest = without_item(rs.drop_last(), r);
        if same_item(rs.last(), r) {
            rest
        } else {
            rest.push(rs.last())
        }
    }
}

/// `a` is placed after `b` when it was moved earlier.
pub open spec fn older_after() -> spec_fn(MoveRecord, MoveRecord) -> bool {
    |a: MoveRecord, b: MoveRecord| a.moved_at < b.moved_at
}

pub open spec fn cap_records(s: Seq<MoveRecord>) -> Seq<MoveRecord> {
    if s.len() > MAX_RECORDS {
        s.take(MAX_RECORDS as int)
    } else {
        s
    }
}

/// The registry after recording `record`: an earlier record of the same move
/// is replaced, newest first, at most `MAX_RECORDS` kept.
pub open spec fn upsert_spec(rs: Seq<MoveRecord>, record: MoveRecord) -> Seq<MoveRecord> {
    cap_records(stable_sort(without_item(rs, record).push(record), older_after()))
}

fn older(a: &MoveRecord, b: &MoveRecord) -> (r: bool)
    ensures
        r == (older_after())(*a, *b),
{
    a.moved_at < b.moved_at
}

fn same_move(a: &MoveRecord, b: &MoveRecord) -> (r: bool)
    ensures
        r == same_item(*a, *b),
{
    path_eq(a.origin.as_slice(), b.origin.as_slice()) && path_eq(a.dest.as_slice(), b.dest.as_slice())
}

/// Record a move in a loaded registry.
pub fn upsert_record(records: Vec<MoveRecord>, record: MoveRecord) -> (r: Vec<MoveRecord>)
    ensures
        r@ == upsert_spec(records@, record),
{
    let ghost orig = records@;
    let mut kept: Vec<MoveRecord> = Vec::new();
    let mut rest = records;
    let n = rest.len();
    let mut i: usize = 0;
    assert(orig.take(0) =~= Seq::<MoveRecord>::empty());
    assert(orig.skip(0) =~= orig);
    while i < n
        invariant
            n == orig.len(),
            i <= n,
            rest@ == orig.skip(i as int),
            kept@ == without_item(orig.take(i as int), record),
        decreases n - i,
    {
        let item = rest.remove(0);
        assert(item == orig[i as int]);
        assert(orig.take(i + 1).drop_last() =~= orig.take(i as int));
        assert(rest@ =~= orig.skip(i + 1));
        if !same_move(&item, &record) {
            kept.push(item);
        }
        i += 1;
    }
    assert(orig.take(n as int) =~= orig);
    kept.push(record);
    let mut sorted = sort_stable(kept, older, Ghost(older_after()));
    sorted.truncate(MAX_RECORDS);
    sorted
}

/// Index of the first record, at or after `i`, of the move from `origin` to `dest`.
pub open spec fn find_item(rs: Seq<MoveRecord>, record: MoveRecord, i: int) -> int
    decreases rs.len() - i,
{
    if i < 0 || i >= rs.len() {
        -1
    } else if same_item(rs[i], record) {
        i
    } else {
        find_item(rs, record, i + 1)
    }
}

pub open spec fn registry_missing_text() -> Seq<char> {
    "move record is no longer in the registry"@
}

/// Mark the record of a move restored; the record must still be in the registry.
pub fn mark_restored(records: &mut Vec<MoveRecord>, record: &MoveRecord, restored_at: i64) -> (r: Result<(), String>)
    ensures
        find_item(old(records)@, *record, 0) >= 0 ==> r is Ok && final(records)@ == old(records)@.update(
            find_item(old(records)@, *record, 0),
            MoveRecord { restored_at: Some(restored_at), ..old(records)@[find_item(old(records)@, *record, 0)] },
        ),
        find_item(old(records)@, *record, 0) < 0 ==> r is Err && r->Err_0@ == registry_missing_text()
            && final(records)@ == old(records)@,
{
    let mut i: usize = 0;
    while i < records.len()
        invariant
            i <= records.len(),
            records@ == old(records)@,
            find_item(records@, *record, 0) == find_item(records@, *record, i as int),
        decreases records.len() - i,
    {
        if same_move(&records[i], record) {
            let mut stored = records.remove(i);
            stored.restored_at = Some(restored_at);
            records.insert(i, stored);
            assert(records@ =~= old(records)@.update(i as int, stored));
            return Ok(());
        }
        i += 1;
    }
    Err("move record is no longer in the registry".to_owned())
}

// ───────────────────────── round trip ─────────────────────────

proof fn lemma_parse_path_at(b: Seq<u8>, off: int, p: Seq<u8>)
    requires
        0 <= off,
        off + 4 + p.len() <= b.len() <= usize::MAX,
        p.len() <= MAX_PATH_BYTES,
        b.subrange(off, off + 4 + p.len()) == path_bytes(p),
    ensures
        parse_path(b, off) == Ok::<(Seq<u8>, int), RegistryError>((p, off + 4 + p.len())),
{
    let pb = path_bytes(p);
    assert(b.subrange(off, off + 4) =~= le_u32(p.len() as u32)) by {
        assert forall|k: int| 0 <= k < 4 implies #[trigger] b.subrange(off, off + 4)[k] == le_u32(
            p.len() as u32,
        )[k] by {
            assert(b.subrange(off, off + 4)[k] == pb[k]);
        }
    }
    lemma_u32_round_trip(p.len() as u32, b, off);
    assert(b.subrange(off + 4, off + 4 + p.len()) =~= p) by {
        assert forall|k: int| 0 <= k < p.len() implies b.subrange(off + 4, off + 4 + p.len())[k]
            == p[k] by {
            assert(b.subrange(off + 4, off + 4 + p.len())[k] == pb[k + 4]);
        }
    }
}

proof fn lemma_sub8(b: Seq<u8>, off: int, whole: Seq<u8>, at: int, part: Seq<u8>)
    requires
        0 <= off,
        0 <= at,
        at + part.len() <= whole.len(),
        off + whole.len() <= b.len(),
        b.subrange(off, off + whole.len()) == whole,
        whole.subrange(at, at + part.len()) == part,
    ensures
        b.subrange(off + at, off + at + part.len()) == part,
{
    assert(b.subrange(off + at, off + at + part.len()) =~= part) by {
        assert forall|k: int| 0 <= k < part.len() implies b.subrange(
            off + at,
            off + at + part.len(),
        )[k] == part[k] by {
            assert(b.subrange(off, off + whole.len())[at + k] == whole[at + k]);
            assert(whole.subrange(at, at + part.len())[k] == whole[at + k]);
        }
    }
}

proof fn lemma_parse_record_at(b: Seq<u8>, off: int, r: MoveRecordView)
    requires
        0 <= off,
        off + record_bytes(r).len() <= b.len() <= usize::MAX,
        record_paths_fit(r),
        b.subrange(off, off + record_bytes(r).len()) == record_bytes(r),
    ensures
        parse_record(b, off) == Ok::<(MoveRecordView, int), RegistryError>(
            (r, off + record_bytes(r).len()),
        ),
{
    let w = record_bytes(r);
    let restored = match r.restored_at {
        Some(v) => v,
        None => 0,
    };
    let po = path_bytes(r.origin);
    let pd = path_bytes(r.dest);
    let lo: int = po.len() as int;
    let ld: int = pd.len() as int;
    assert(w.subrange(0, 8) =~= le_i64(r.moved_at));
    assert(w.subrange(8, 16) =~= le_i64(r.bytes));
    assert(w.subrange(17, 25) =~= le_i64(restored));
    assert(w.subrange(25, 25 + lo) =~= po);
    assert(w.subrange(25 + lo, 25 + lo + ld) =~= pd);
    lemma_sub8(b, off, w, 0, le_i64(r.moved_at));
    lemma_sub8(b, off, w, 8, le_i64(r.bytes));
    lemma_sub8(b, off, w, 17, le_i64(restored));
    lemma_sub8(b, off, w, 25, po);
    lemma_sub8(b, off, w, 25 + lo, pd);
    lemma_i64_round_trip(r.moved_at, b, off);
    lemma_i64_round_trip(r.bytes, b, off + 8);
    lemma_i64_round_trip(restored, b, off + 17);
    assert(b[off + 16] == w[16]);
    assert(w[16] == flags_byte(r));
    lemma_parse_path_at(b, off + 25, r.origin);
    lemma_parse_path_at(b, off + 25 + lo, r.dest);
}

proof fn lemma_records_bytes_prefix(rs: Seq<MoveRecordView>, n: int)
    requires
        0 <= n <= rs.len(),
    ensures
        records_bytes(rs.take(n)).len() <= records_bytes(rs).len(),
        records_bytes(rs).subrange(0, records_bytes(rs.take(n)).len() as int) == records_bytes(
            rs.take(n),
        ),
    decreases rs.len() - n,
{
    if n == rs.len() {
        assert(rs.take(n) =~= rs);
        assert(records_bytes(rs).subrange(0, records_bytes(rs).len() as int) =~= records_bytes(rs));
    } else {
        lemma_records_bytes_prefix(rs.drop_last(), n);
        assert(rs.drop_last().take(n) =~= rs.take(n));
        let a = records_bytes(rs.drop_last());
        let k = records_bytes(rs.take(n)).len() as int;
        assert(records_bytes(rs) == a + record_bytes(rs.last()));
        assert((a + record_bytes(rs.last())).subrange(0, k) =~= a.subrange(0, k));
    }
}

#[verifier::spinoff_prover]
#[verifier::rlimit(40)]
proof fn lemma_parse_records_prefix(b: Seq<u8>, rs: Seq<MoveRecordView>, n: nat)
    requires
        b == registry_bytes(rs),
        b.len() <= usize::MAX,
        registry_encodable(rs),
        n <= rs.len(),
    ensures
        parse_records(b, 12, n) == Ok::<(Seq<MoveRecordView>, int), RegistryError>(
            (rs.take(n as int), 12 + records_bytes(rs.take(n as int)).len() as int),
        ),
    decreases n,
{
    if n == 0 {
        assert(rs.take(0) =~= Seq::<MoveRecordView>::empty());
    } else {
        let m = (n - 1) as nat;
        lemma_parse_records_prefix(b, rs, m);
        let prev = rs.take(m as int);
        let r = rs[m as int];
        assert(rs.take(n as int).drop_last() =~= prev);
        assert(rs.take(n as int) =~= prev.push(r));
        let o: int = 12 + records_bytes(prev).len() as int;
        let lr: int = record_bytes(r).len() as int;
        let all = records_bytes(rs);
        lemma_records_bytes_prefix(rs, n as int);
        let upto = records_bytes(rs.take(n as int));
        assert(upto == records_bytes(prev) + record_bytes(r));
        let head = moves_magic() + le_u32(rs.len() as u32);
        assert(b == head + all);
        assert(b.subrange(o, o + lr) =~= record_bytes(r)) by {
            assert forall|k: int| 0 <= k < lr implies b.subrange(o, o + lr)[k] == record_bytes(r)[k] by {
                let idx = records_bytes(prev).len() + k;
                assert(b[o + k] == all[idx]);
                assert(all.subrange(0, upto.len() as int)[idx] == upto[idx]);
                assert(upto[idx] == record_bytes(r)[k]);
            }
        }
        lemma_parse_record_at(b, o, r);
    }
}

/// Decoding an encoded registry gives back the same records.
pub proof fn lemma_registry_round_trip(rs: Seq<MoveRecordView>)
    requires
        registry_encodable(rs),
        registry_bytes(rs).len() <= usize::MAX,
    ensures
        decode_registry_spec(registry_bytes(rs)) == Ok::<Seq<MoveRecordView>, RegistryError>(rs),
{
    let b = registry_bytes(rs);
    let head = moves_magic() + le_u32(rs.len() as u32);
    assert(b.subrange(0, 8) =~= moves_magic());
    assert(b.subrange(8, 12) =~= le_u32(rs.len() as u32));
    lemma_u32_round_trip(rs.len() as u32, b, 8);
    lemma_parse_records_prefix(b, rs, rs.len());
    assert(rs.take(rs.len() as int) =~= rs);
}

proof fn lemma_without_item_elements(rs: Seq<MoveRecord>, r: MoveRecord)
    ensures
        forall|k: int| 0 <= k < without_item(rs, r).len() ==> !same_item(#[trigger] without_item(rs, r)[k], r),
        forall|k: int| 0 <= k < without_item(rs, r).len() ==> rs.contains(#[trigger] without_item(rs, r)[k]),
    decreases rs.len(),
{
    if rs.len() > 0 {
        lemma_without_item_elements(rs.drop_last(), r);
        let rest = without_item(rs.drop_last(), r);
        assert forall|k: int| 0 <= k < without_item(rs, r).len() implies rs.contains(
            #[trigger] without_item(rs, r)[k],
        ) by {
            if k < rest.len() {
                assert(without_item(rs, r)[k] == rest[k]);
                assert(rs.drop_last().contains(rest[k]));
                let m = choose|m: int| 0 <= m < rs.drop_last().len() && rs.drop_last()[m] == rest[k];
                assert(rs[m] == rs.drop_last()[m]);
            } else {
                assert(rs[rs.len() - 1] == rs.last());
            }
        }
    }
}

/// Recording a move keeps the registry bounded and newest first, and leaves
/// no other record of the same origin and destination.
pub proof fn lemma_upsert_bounded_newest_first_unique(rs: Seq<MoveRecord>, record: MoveRecord)
    ensures
        upsert_spec(rs, record).len() <= MAX_RECORDS,
        crate::sorting::in_order(upsert_spec(rs, record), older_after()),
        forall|k: int|
            0 <= k < upsert_spec(rs, record).len() && same_item(#[trigger] upsert_spec(rs, record)[k], record)
                ==> upsert_spec(rs, record)[k] == record,
{
    let pushed = without_item(rs, record).push(record);
    let sorted = stable_sort(pushed, older_after());
    crate::sorting::lemma_stable_sort_in_order(pushed, older_after());
    crate::sorting::lemma_stable_sort_elements(pushed, older_after());
    crate::sorting::lemma_stable_sort_len(pushed, older_after());
    lemma_without_item_elements(rs, record);
    let out = upsert_spec(rs, record);
    assert forall|k: int| 0 <= k < out.len() && same_item(#[trigger] out[k], record) implies out[k] == record by {
        assert(out[k] == sorted[k]);
        assert(pushed.contains(sorted[k]));
        let m = choose|m: int| 0 <= m < pushed.len() && pushed[m] == sorted[k];
        if m < pushed.len() - 1 {
            assert(pushed[m] == without_item(rs, record)[m]);
        }
    }
    assert forall|i: int, j: int| 0 <= i < j < out.len() implies !(older_after())(#[trigger] out[i], #[trigger] out[j]) by {
        assert(out[i] == sorted[i] && out[j] == sorted[j]);
    }
}

} // verus!
