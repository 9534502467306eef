//! Cleanup receipts and verified Trash recovery.
//!
//! A receipt records one completed cleanup. Receipts are evidence only: they
//! never grant cleanup or command authority, and a history file that does not
//! decode is never overwritten. Restoring an item from the Trash is allowed
//! only when the item in the Trash is exactly the one the receipt recorded and
//! its original place is free and safe.

use vstd::prelude::*;
use vstd::utf8::{decode_utf8, encode_utf8, encode_utf8_decode_utf8, encode_utf8_valid_utf8, valid_utf8};
use crate::bytes::{
    le_i64, le_u128, le_u32, le_u64, push_bytes, push_i64, push_u128, push_u32, push_u64, i64_at,
    u128_at, u32_at, u64_at,
};
use crate::bytes::{
    bytes_eq, copy_range, lemma_i64_round_trip, lemma_u128_round_trip, lemma_u32_round_trip, lemma_u64_round_trip,
};
use crate::codec::Reader;
use crate::text::{append_str, lossy_string, lossy_text, owned, utf8_string};
use crate::paths::{components, components_eq, components_of, components_start_with, comps_prefix, comps_view, join_path, join_spec, Comp, Component};
use crate::reclaim_plan::{sat_add, saturating_add_i64};
use crate::sorting::{sort_stable, stable_sort};

verus! {

pub const MAX_RECEIPTS: usize = 200;

pub const MAX_PATH_BYTES: usize = 4096;

pub const MAX_TEXT_BYTES: usize = 512;

#[derive(Clone, Copy, Debug, PartialEq, Eq, Structural)]
pub enum FileKind {
    File,
    Directory,
}

/// The device, inode and kind of an item: what tells one item from another
/// that later took its path.
#[derive(Clone, Copy, Debug, PartialEq, Eq, Structural)]
pub struct FileIdentity {
    pub dev: u64,
    pub ino: u64,
    pub kind: FileKind,
}

#[derive(Clone, Debug, PartialEq, Eq)]
pub struct TrashEvidence {
    pub path: Vec<u8>,
    pub identity: FileIdentity,
}

#[derive(Clone, Debug, PartialEq, Eq)]
pub enum TrashOutcome {
    Exact(TrashEvidence),
    FinderManaged,
}

#[derive(Clone, Copy, Debug, PartialEq, Eq, Structural)]
pub enum ReceiptAction {
    Trash,
    Delete,
    Empty,
    Command,
}

#[derive(Clone, Debug, PartialEq, Eq)]
pub struct Receipt {
    pub event_id: u128,
    pub completed_at_ms: i64,
    pub rec_id: String,
    pub title: String,
    pub origin: Vec<u8>,
    pub action: ReceiptAction,
    pub freed_bytes: i64,
    pub pending_bytes: i64,
    pub trash: Option<TrashEvidence>,
    pub finder_managed: bool,
    pub restored_at_ms: Option<i64>,
}

pub struct TrashView {
    pub path: Seq<u8>,
    pub identity: FileIdentity,
}

pub struct ReceiptView {
    pub event_id: u128,
    pub completed_at_ms: i64,
    pub rec_id: Seq<char>,
    pub title: Seq<char>,
    pub origin: Seq<u8>,
    pub action: ReceiptAction,
    pub freed_bytes: i64,
    pub pending_bytes: i64,
    pub trash: Option<TrashView>,
    pub finder_managed: bool,
    pub restored_at_ms: Option<i64>,
}

impl View for TrashEvidence {
    type V = TrashView;

    open spec fn view(&self) -> TrashView {
        TrashView { path: self.path@, identity: self.identity }
    }
}

pub open spec fn trash_view(t: Option<TrashEvidence>) -> Option<TrashView> {
    match t {
        Some(e) => Some(e@),
        None => None,
    }
}

impl View for Receipt {
    type V = ReceiptView;

    open spec fn view(&self) -> ReceiptView {
        ReceiptView {
            event_id: self.event_id,
            completed_at_ms: self.completed_at_ms,
            rec_id: self.rec_id@,
            title: self.title@,
            origin: self.origin@,
            action: self.action,
            freed_bytes: self.freed_bytes,
            pending_bytes: self.pending_bytes,
            trash: trash_view(self.trash),
            finder_managed: self.finder_managed,
            restored_at_ms: self.restored_at_ms,
        }
    }
}

pub open spec fn receipts_view(s: Seq<Receipt>) -> Seq<ReceiptView> {
    s.map_values(|r: Receipt| r@)
}

#[derive(Clone, Copy, Debug, PartialEq, Eq, Structural)]
pub enum ReceiptField {
    RecommendationId,
    Title,
    OriginPath,
    TrashPath,
}

#[derive(Clone, Copy, Debug, PartialEq, Eq, Structural)]
pub enum ReceiptFlag {
    TrashEvidence,
    FinderManaged,
    Restored,
}

#[derive(Clone, Copy, Debug, PartialEq, Eq, Structural)]
pub enum ReceiptError {
    NegativeValue,
    OutcomeMismatch,
    PermanentWithTrashState,
    TooMany,
    TooLong(ReceiptField),
    Unsupported,
    Truncated,
    NotUtf8(ReceiptField),
    InvalidFlag(ReceiptFlag),
    InvalidAction,
    InvalidKind,
    Trailing,
    NegativeRestoredAt,
    ReceiptGone,
    NotTrashReceipt,
}

pub open spec fn receipt_error_text(e: ReceiptError) -> Seq<char> {
    match e {
        ReceiptError::NegativeValue => "receipt contains a negative value"@,
        ReceiptError::OutcomeMismatch => "Trash receipt must have exactly one destination outcome"@,
        ReceiptError::PermanentWithTrashState => "non-Trash receipt contains Trash state"@,
        ReceiptError::TooMany => "too many reclaim receipts"@,
        ReceiptError::TooLong(field) => match field {
            ReceiptField::RecommendationId => "recommendation id is too long"@,
            ReceiptField::Title => "title is too long"@,
            ReceiptField::OriginPath => "origin path is too long"@,
            ReceiptField::TrashPath => "Trash path is too long"@,
        },
        ReceiptError::Unsupported => "reclaim history format is not supported"@,
        ReceiptError::Truncated => "reclaim history is truncated"@,
        ReceiptError::NotUtf8(field) => match field {
            ReceiptField::RecommendationId => "recommendation id is not UTF-8"@,
            ReceiptField::Title => "title is not UTF-8"@,
            ReceiptField::OriginPath => "origin path is not UTF-8"@,
            ReceiptField::TrashPath => "Trash path is not UTF-8"@,
        },
        ReceiptError::InvalidFlag(flag) => match flag {
            ReceiptFlag::TrashEvidence => "reclaim history contains an invalid Trash evidence flag"@,
            ReceiptFlag::FinderManaged => "reclaim history contains an invalid Finder-managed flag"@,
            ReceiptFlag::Restored => "reclaim history contains an invalid restored flag"@,
        },
        ReceiptError::InvalidAction => "reclaim history contains an invalid action"@,
        ReceiptError::InvalidKind => "reclaim history contains an invalid file kind"@,
        ReceiptError::Trailing => "reclaim history contains trailing data"@,
        ReceiptError::NegativeRestoredAt => "restored timestamp is negative"@,
        ReceiptError::ReceiptGone => "reclaim receipt no longer exists"@,
        ReceiptError::NotTrashReceipt => "only a Trash receipt can be marked restored"@,
    }
}

impl ReceiptError {
    pub fn message(self) -> (m: &'static str)
        ensures
            m@ == receipt_error_text(self),
    {
        match self {
            ReceiptError::NegativeValue => "receipt contains a negative value",
            ReceiptError::OutcomeMismatch => "Trash receipt must have exactly one destination outcome",
            ReceiptError::PermanentWithTrashState => "non-Trash receipt contains Trash state",
            ReceiptError::TooMany => "too many reclaim receipts",
            ReceiptError::TooLong(field) => match field {
                ReceiptField::RecommendationId => "recommendation id is too long",
                ReceiptField::Title => "title is too long",
                ReceiptField::OriginPath => "origin path is too long",
                ReceiptField::TrashPath => "Trash path is too long",
            },
            ReceiptError::Unsupported => "reclaim history format is not supported",
            ReceiptError::Truncated => "reclaim history is truncated",
            ReceiptError::NotUtf8(field) => match field {
                ReceiptField::RecommendationId => "recommendation id is not UTF-8",
                ReceiptField::Title => "title is not UTF-8",
                ReceiptField::OriginPath => "origin path is not UTF-8",
                ReceiptField::TrashPath => "Trash path is not UTF-8",
            },
            ReceiptError::InvalidFlag(flag) => match flag {
                ReceiptFlag::TrashEvidence => "reclaim history contains an invalid Trash evidence flag",
                ReceiptFlag::FinderManaged => "reclaim history contains an invalid Finder-managed flag",
                ReceiptFlag::Restored => "reclaim history contains an invalid restored flag",
            },
            ReceiptError::InvalidAction => "reclaim history contains an invalid action",
            ReceiptError::InvalidKind => "reclaim history contains an invalid file kind",
            ReceiptError::Trailing => "reclaim history contains trailing data",
            ReceiptError::NegativeRestoredAt => "restored timestamp is negative",
            ReceiptError::ReceiptGone => "reclaim receipt no longer exists",
            ReceiptError::NotTrashReceipt => "only a Trash receipt can be marked restored",
        }
    }
}

// ───────────────────────── receipt rules ─────────────────────────

/// Why a receipt is not well formed, if it is not: no negative amount or time,
/// a Trash receipt has exactly one destination outcome, and any other receipt
/// carries no Trash state.
pub open spec fn receipt_validity(r: ReceiptView) -> Option<ReceiptError> {
    if r.completed_at_ms < 0 || r.freed_bytes < 0 || r.pending_bytes < 0 || (r.restored_at_ms
        is Some && r.restored_at_ms->Some_0 < 0) {
        Some(ReceiptError::NegativeValue)
    } else if r.action == ReceiptAction::Trash {
        if (r.trash is Some) == r.finder_managed {
            Some(ReceiptError::OutcomeMismatch)
        } else {
            None
        }
    } else if r.trash is Some || r.finder_managed || r.restored_at_ms is Some {
        Some(ReceiptError::PermanentWithTrashState)
    } else {
        None
    }
}

fn valid_receipt(r: &Receipt) -> (res: Result<(), ReceiptError>)
    ensures
        match receipt_validity(r@) {
            Some(e) => res == Err::<(), ReceiptError>(e),
            None => res is Ok,
        },
{
    let restored_negative = match r.restored_at_ms {
        Some(v) => v < 0,
        None => false,
    };
    if r.completed_at_ms < 0 || r.freed_bytes < 0 || r.pending_bytes < 0 || restored_negative {
        return Err(ReceiptError::NegativeValue);
    }
    match r.action {
        ReceiptAction::Trash => {
            if r.trash.is_some() == r.finder_managed {
                Err(ReceiptError::OutcomeMismatch)
            } else {
                Ok(())
            }
        },
        _ => {
            if r.trash.is_some() || r.finder_managed || r.restored_at_ms.is_some() {
                Err(ReceiptError::PermanentWithTrashState)
            } else {
                Ok(())
            }
        },
    }
}

// ───────────────────────── the DDRH1 format ─────────────────────────

/// `DDRH1`.
pub open spec fn magic() -> Seq<u8> {
    seq![68u8, 68u8, 82u8, 72u8, 49u8]
}

fn magic_vec() -> (m: Vec<u8>)
    ensures
        m@ == magic(),
{
    let m: Vec<u8> = vec![68u8, 68u8, 82u8, 72u8, 49u8];
    assert(m@ =~= magic());
    m
}

pub open spec fn action_code(a: ReceiptAction) -> u8 {
    match a {
        ReceiptAction::Trash => 0,
        ReceiptAction::Delete => 1,
        ReceiptAction::Empty => 2,
        ReceiptAction::Command => 3,
    }
}

pub open spec fn action_of(code: u8) -> Option<ReceiptAction> {
    if code == 0 {
        Some(ReceiptAction::Trash)
    } else if code == 1 {
        Some(ReceiptAction::Delete)
    } else if code == 2 {
        Some(ReceiptAction::Empty)
    } else if code == 3 {
        Some(ReceiptAction::Command)
    } else {
        None
    }
}

pub open spec fn kind_code(k: FileKind) -> u8 {
    match k {
        FileKind::File => 0,
        FileKind::Directory => 1,
    }
}

pub open spec fn kind_of(code: u8) -> Option<FileKind> {
    if code == 0 {
        Some(FileKind::File)
    } else if code == 1 {
        Some(FileKind::Directory)
    } else {
        None
    }
}

pub open spec fn flag_byte(b: bool) -> u8 {
    if b {
        1
    } else {
        0
    }
}

/// A length-prefixed byte run.
pub open spec fn blob_rec(p: Seq<u8>) -> Seq<u8> {
    le_u32(p.len() as u32) + p
}

/// A length-prefixed UTF-8 text.
pub open spec fn text_rec(t: Seq<char>) -> Seq<u8> {
    blob_rec(encode_utf8(t))
}

pub open spec fn trash_rec(t: Option<TrashView>) -> Seq<u8> {
    match t {
        None => seq![0u8],
        Some(e) => seq![1u8] + (blob_rec(e.path) + (le_u64(e.identity.dev) + (le_u64(e.identity.ino)
            + seq![kind_code(e.identity.kind)]))),
    }
}

pub open spec fn restored_rec(v: Option<i64>) -> Seq<u8> {
    match v {
        None => seq![0u8],
        Some(x) => seq![1u8] + le_i64(x),
    }
}

/// The last fields of a receipt: its Trash outcome and restore mark.
pub open spec fn receipt_tail(r: ReceiptView) -> Seq<u8> {
    trash_rec(r.trash) + (seq![flag_byte(r.finder_managed)] + restored_rec(r.restored_at_ms))
}

/// The action and amounts of a receipt, then its last fields.
pub open spec fn receipt_middle(r: ReceiptView) -> Seq<u8> {
    seq![action_code(r.action)] + (le_i64(r.freed_bytes) + (le_i64(r.pending_bytes) + receipt_tail(r)))
}

/// The bytes of one receipt.
pub open spec fn receipt_bytes(r: ReceiptView) -> Seq<u8> {
    le_u128(r.event_id) + (le_i64(r.completed_at_ms) + (text_rec(r.rec_id) + (text_rec(r.title) + (
    blob_rec(r.origin) + receipt_middle(r)))))
}

pub open spec fn receipts_bytes(rs: Seq<ReceiptView>) -> Seq<u8>
    decreases rs.len(),
{
    if rs.len() == 0 {
        Seq::empty()
    } else {
        receipts_bytes(rs.drop_last()) + receipt_bytes(rs.last())
    }
}

/// Why a receipt cannot be written, if it cannot: it is not well formed, or a
/// text is over 512 bytes, or a path over 4096 bytes.
pub open spec fn receipt_problem(r: ReceiptView) -> Option<ReceiptError> {
    match receipt_validity(r) {
        Some(e) => Some(e),
        None => if encode_utf8(r.rec_id).len() > MAX_TEXT_BYTES {
            Some(ReceiptError::TooLong(ReceiptField::RecommendationId))
        } else if encode_utf8(r.title).len() > MAX_TEXT_BYTES {
            Some(ReceiptError::TooLong(ReceiptField::Title))
        } else if r.origin.len() > MAX_PATH_BYTES {
            Some(ReceiptError::TooLong(ReceiptField::OriginPath))
        } else {
            match r.trash {
                Some(e) => if e.path.len() > MAX_PATH_BYTES {
                    Some(ReceiptError::TooLong(ReceiptField::TrashPath))
                } else {
                    None
                },
                None => None,
            }
        },
    }
}

/// The first receipt problem, in order.
pub open spec fn receipts_problem(rs: Seq<ReceiptView>) -> Option<ReceiptError>
    decreases rs.len(),
{
    if rs.len() == 0 {
        None
    } else {
        match receipts_problem(rs.drop_last()) {
            Some(e) => Some(e),
            None => receipt_problem(rs.last()),
        }
    }
}

/// What writing a list of receipts gives: the magic, the count and each receipt.
pub open spec fn encode_spec(rs: Seq<ReceiptView>) -> Result<Seq<u8>, ReceiptError> {
    if rs.len() > MAX_RECEIPTS {
        Err(ReceiptError::TooMany)
    } else {
        match receipts_problem(rs) {
            Some(e) => Err(e),
            None => Ok(magic() + le_u32(rs.len() as u32) + receipts_bytes(rs)),
        }
    }
}

fn put_blob(out: &mut Vec<u8>, b: &[u8])
    requires
        b@.len() <= MAX_PATH_BYTES,
    ensures
        final(out)@ == old(out)@ + blob_rec(b@),
{
    push_u32(out, b.len() as u32);
    push_bytes(out, b);
    assert(final(out)@ =~= old(out)@ + blob_rec(b@));
}

fn put_receipt(out: &mut Vec<u8>, r: &Receipt) -> (res: Result<(), ReceiptError>)
    ensures
        match receipt_problem(r@) {
            Some(e) => res == Err::<(), ReceiptError>(e),
            None => res is Ok && final(out)@ == old(out)@ + receipt_bytes(r@),
        },
{
    valid_receipt(r)?;
    let rec_id = r.rec_id.as_str().as_bytes();
    let title = r.title.as_str().as_bytes();
    if rec_id.len() > MAX_TEXT_BYTES {
        return Err(ReceiptError::TooLong(ReceiptField::RecommendationId));
    }
    if title.len() > MAX_TEXT_BYTES {
        return Err(ReceiptError::TooLong(ReceiptField::Title));
    }
    if r.origin.len() > MAX_PATH_BYTES {
        return Err(ReceiptError::TooLong(ReceiptField::OriginPath));
    }
    if let Some(e) = &r.trash {
        if e.path.len() > MAX_PATH_BYTES {
            return Err(ReceiptError::TooLong(ReceiptField::TrashPath));
        }
    }
    let middle = middle_bytes(r);
    let mut part: Vec<u8> = Vec::new();
    push_u128(&mut part, r.event_id);
    push_i64(&mut part, r.completed_at_ms);
    put_blob(&mut part, rec_id);
    put_blob(&mut part, title);
    put_blob(&mut part, r.origin.as_slice());
    push_bytes(&mut part, middle.as_slice());
    proof {
        assert(part@ =~= receipt_bytes(r@));
    }
    push_bytes(out, part.as_slice());
    Ok(())
}

fn tail_bytes(r: &Receipt) -> (tail: Vec<u8>)
    requires
        r.trash is Some ==> r.trash->Some_0.path@.len() <= MAX_PATH_BYTES,
    ensures
        tail@ == receipt_tail(r@),
{
    let ghost v = r@;
    let mut tail: Vec<u8> = Vec::new();
    match &r.trash {
        None => tail.push(0u8),
        Some(e) => {
            tail.push(1u8);
            put_blob(&mut tail, e.path.as_slice());
            push_u64(&mut tail, e.identity.dev);
            push_u64(&mut tail, e.identity.ino);
            tail.push(match e.identity.kind {
                FileKind::File => 0u8,
                FileKind::Directory => 1u8,
            });
        },
    }
    proof {
        assert(tail@ =~= trash_rec(v.trash));
    }
    tail.push(if r.finder_managed { 1u8 } else { 0u8 });
    let ghost flagged = tail@;
    match r.restored_at_ms {
        None => tail.push(0u8),
        Some(x) => {
            tail.push(1u8);
            push_i64(&mut tail, x);
        },
    }
    proof {
        assert(tail@ =~= flagged + restored_rec(v.restored_at_ms));
        assert(tail@ =~= receipt_tail(v));
    }
    tail
}

fn middle_bytes(r: &Receipt) -> (middle: Vec<u8>)
    requires
        r.trash is Some ==> r.trash->Some_0.path@.len() <= MAX_PATH_BYTES,
    ensures
        middle@ == receipt_middle(r@),
{
    let tail = tail_bytes(r);
    let mut middle: Vec<u8> = Vec::new();
    middle.push(match r.action {
        ReceiptAction::Trash => 0u8,
        ReceiptAction::Delete => 1u8,
        ReceiptAction::Empty => 2u8,
        ReceiptAction::Command => 3u8,
    });
    push_i64(&mut middle, r.freed_bytes);
    push_i64(&mut middle, r.pending_bytes);
    push_bytes(&mut middle, tail.as_slice());
    proof {
        assert(middle@ =~= receipt_middle(r@));
    }
    middle
}

/// Writes a list of receipts; more than 200, a receipt that is not well formed
/// or a field over its limit is refused.
pub fn encode(receipts: &[Receipt]) -> (r: Result<Vec<u8>, ReceiptError>)
    ensures
        match encode_spec(receipts_view(receipts@)) {
            Ok(b) => r is Ok && r->Ok_0@ == b,
            Err(e) => r == Err::<Vec<u8>, ReceiptError>(e),
        },
{
    let ghost rs = receipts_view(receipts@);
    if receipts.len() > MAX_RECEIPTS {
        return Err(ReceiptError::TooMany);
    }
    let mut out = magic_vec();
    push_u32(&mut out, receipts.len() as u32);
    let ghost head = out@;
    let mut i: usize = 0;
    while i < receipts.len()
        invariant
            i <= receipts@.len() <= MAX_RECEIPTS,
            rs == receipts_view(receipts@),
            receipts_problem(rs.take(i as int)) is None,
            out@ == head + receipts_bytes(rs.take(i as int)),
        decreases receipts.len() - i,
    {
        let ghost before = out@;
        proof {
            assert(rs.take(i + 1).drop_last() =~= rs.take(i as int));
            assert(rs.take(i + 1).last() == receipts@[i as int]@);
        }
        match put_receipt(&mut out, &receipts[i]) {
            Ok(()) => {},
            Err(e) => {
                proof {
                    lemma_problem_stays(rs, i as int);
                }
                return Err(e);
            },
        }
        i += 1;
    }
    proof {
        assert(rs.take(receipts@.len() as int) =~= rs);
    }
    Ok(out)
}

/// The first problem of a prefix that has one is the first problem of the whole list.
proof fn lemma_problem_stays(rs: Seq<ReceiptView>, i: int)
    requires
        0 <= i < rs.len(),
        receipts_problem(rs.take(i + 1)) is Some,
    ensures
        receipts_problem(rs) == receipts_problem(rs.take(i + 1)),
    decreases rs.len() - i,
{
    if i + 1 < rs.len() {
        assert(rs.drop_last().take(i + 1) =~= rs.take(i + 1));
        lemma_problem_stays(rs.drop_last(), i);
    } else {
        assert(rs.take(i + 1) =~= rs);
    }
}

// ───────────────────────── reading DDRH1 ─────────────────────────

/// What is left of the buffer after the reader's position.
pub open spec fn rest_of(r: Reader) -> Seq<u8> {
    r.bytes@.skip(r.offset as int)
}

pub open spec fn take_u8(s: Seq<u8>) -> Option<(u8, Seq<u8>)> {
    if s.len() < 1 {
        None
    } else {
        Some((s[0], s.skip(1)))
    }
}

pub open spec fn take_u32(s: Seq<u8>) -> Option<(u32, Seq<u8>)> {
    if s.len() < 4 {
        None
    } else {
        Some((u32_at(s, 0), s.skip(4)))
    }
}

pub open spec fn take_u64(s: Seq<u8>) -> Option<(u64, Seq<u8>)> {
    if s.len() < 8 {
        None
    } else {
        Some((u64_at(s, 0), s.skip(8)))
    }
}

pub open spec fn take_i64(s: Seq<u8>) -> Option<(i64, Seq<u8>)> {
    if s.len() < 8 {
        None
    } else {
        Some((i64_at(s, 0), s.skip(8)))
    }
}

pub open spec fn take_u128(s: Seq<u8>) -> Option<(u128, Seq<u8>)> {
    if s.len() < 16 {
        None
    } else {
        Some((u128_at(s, 0), s.skip(16)))
    }
}

pub open spec fn take_n(s: Seq<u8>, n: int) -> Option<(Seq<u8>, Seq<u8>)> {
    if n > s.len() {
        None
    } else {
        Some((s.take(n), s.skip(n)))
    }
}

pub open spec fn parse_blob(s: Seq<u8>, limit: int, field: ReceiptField) -> Result<(Seq<u8>, Seq<u8>), ReceiptError> {
    match take_u32(s) {
        None => Err(ReceiptError::Truncated),
        Some((len, t)) => if len > limit {
            Err(ReceiptError::TooLong(field))
        } else {
            match take_n(t, len as int) {
                None => Err(ReceiptError::Truncated),
                Some((v, u)) => Ok((v, u)),
            }
        },
    }
}

pub open spec fn parse_text(s: Seq<u8>, field: ReceiptField) -> Result<(Seq<char>, Seq<u8>), ReceiptError> {
    match parse_blob(s, MAX_TEXT_BYTES as int, field) {
        Err(e) => Err(e),
        Ok((v, t)) => if valid_utf8(v) {
            Ok((decode_utf8(v), t))
        } else {
            Err(ReceiptError::NotUtf8(field))
        },
    }
}

pub open spec fn parse_flag(s: Seq<u8>, flag: ReceiptFlag) -> Result<(bool, Seq<u8>), ReceiptError> {
    match take_u8(s) {
        None => Err(ReceiptError::Truncated),
        Some((v, t)) => if v == 0 {
            Ok((false, t))
        } else if v == 1 {
            Ok((true, t))
        } else {
            Err(ReceiptError::InvalidFlag(flag))
        },
    }
}

pub open spec fn parse_trash(s: Seq<u8>) -> Result<(Option<TrashView>, Seq<u8>), ReceiptError> {
    match parse_flag(s, ReceiptFlag::TrashEvidence) {
        Err(e) => Err(e),
        Ok((present, t)) => if !present {
            Ok((None, t))
        } else {
            match parse_blob(t, MAX_PATH_BYTES as int, ReceiptField::TrashPath) {
                Err(e) => Err(e),
                Ok((path, t1)) => match take_u64(t1) {
                    None => Err(ReceiptError::Truncated),
                    Some((dev, t2)) => match take_u64(t2) {
                        None => Err(ReceiptError::Truncated),
                        Some((ino, t3)) => match take_u8(t3) {
                            None => Err(ReceiptError::Truncated),
                            Some((code, t4)) => match kind_of(code) {
                                None => Err(ReceiptError::InvalidKind),
                                Some(kind) => Ok(
                                    (Some(TrashView { path, identity: FileIdentity { dev, ino, kind } }), t4),
                                ),
                            },
                        },
                    },
                },
            }
        },
    }
}

pub open spec fn parse_restored(s: Seq<u8>) -> Result<(Option<i64>, Seq<u8>), ReceiptError> {
    match parse_flag(s, ReceiptFlag::Restored) {
        Err(e) => Err(e),
        Ok((present, t)) => if !present {
            Ok((None, t))
        } else {
            match take_i64(t) {
                None => Err(ReceiptError::Truncated),
                Some((v, u)) => Ok((Some(v), u)),
            }
        },
    }
}

/// The fields of a receipt after its origin.
pub struct MiddleView {
    pub action: ReceiptAction,
    pub freed_bytes: i64,
    pub pending_bytes: i64,
    pub trash: Option<TrashView>,
    pub finder_managed: bool,
    pub restored_at_ms: Option<i64>,
}

pub open spec fn middle_of(r: ReceiptView) -> MiddleView {
    MiddleView {
        action: r.action,
        freed_bytes: r.freed_bytes,
        pending_bytes: r.pending_bytes,
        trash: r.trash,
        finder_managed: r.finder_managed,
        restored_at_ms: r.restored_at_ms,
    }
}

/// The action, amounts, Trash outcome and restore mark read from the front of `s`.
#[verifier::opaque]
pub open spec fn parse_middle(s: Seq<u8>) -> Result<(MiddleView, Seq<u8>), ReceiptError> {
    match take_u8(s) {
        None => Err(ReceiptError::Truncated),
        Some((code, s6)) => match action_of(code) {
            None => Err(ReceiptError::InvalidAction),
            Some(action) => match take_i64(s6) {
                None => Err(ReceiptError::Truncated),
                Some((freed_bytes, s7)) => match take_i64(s7) {
                    None => Err(ReceiptError::Truncated),
                    Some((pending_bytes, s8)) => match parse_trash(s8) {
                        Err(e) => Err(e),
                        Ok((trash, s9)) => match parse_flag(s9, ReceiptFlag::FinderManaged) {
                            Err(e) => Err(e),
                            Ok((finder_managed, s10)) => match parse_restored(s10) {
                                Err(e) => Err(e),
                                Ok((restored_at_ms, s11)) => Ok(
                                    (
                                        MiddleView {
                                            action,
                                            freed_bytes,
                                            pending_bytes,
                                            trash,
                                            finder_managed,
                                            restored_at_ms,
                                        },
                                        s11,
                                    ),
                                ),
                            },
                        },
                    },
                },
            },
        },
    }
}

/// One receipt read from the front of `s`, with what follows it.
#[verifier::opaque]
pub open spec fn parse_receipt(s: Seq<u8>) -> Result<(ReceiptView, Seq<u8>), ReceiptError> {
    match take_u128(s) {
        None => Err(ReceiptError::Truncated),
        Some((event_id, s1)) => match take_i64(s1) {
            None => Err(ReceiptError::Truncated),
            Some((completed_at_ms, s2)) => match parse_text(s2, ReceiptField::RecommendationId) {
                Err(e) => Err(e),
                Ok((rec_id, s3)) => match parse_text(s3, ReceiptField::Title) {
                    Err(e) => Err(e),
                    Ok((title, s4)) => match parse_blob(s4, MAX_PATH_BYTES as int, ReceiptField::OriginPath) {
                        Err(e) => Err(e),
                        Ok((origin, s5)) => match parse_middle(s5) {
                            Err(e) => Err(e),
                            Ok((m, s11)) => {
                                let r = ReceiptView {
                                    event_id,
                                    completed_at_ms,
                                    rec_id,
                                    title,
                                    origin,
                                    action: m.action,
                                    freed_bytes: m.freed_bytes,
                                    pending_bytes: m.pending_bytes,
                                    trash: m.trash,
                                    finder_managed: m.finder_managed,
                                    restored_at_ms: m.restored_at_ms,
                                };
                                match receipt_validity(r) {
                                    Some(e) => Err(e),
                                    None => Ok((r, s11)),
                                }
                            },
                        },
                    },
                },
            },
        },
    }
}

pub open spec fn parse_receipts(s: Seq<u8>, n: nat) -> Result<(Seq<ReceiptView>, Seq<u8>), ReceiptError>
    decreases n,
{
    if n == 0 {
        Ok((Seq::empty(), s))
    } else {
        match parse_receipts(s, (n - 1) as nat) {
            Err(e) => Err(e),
            Ok((rs, t)) => match parse_receipt(t) {
                Err(e) => Err(e),
                Ok((r, u)) => Ok((rs.push(r), u)),
            },
        }
    }
}

/// What a history file decodes to.
pub open spec fn decode_spec(b: Seq<u8>) -> Result<Seq<ReceiptView>, ReceiptError> {
    if b.len() < 5 {
        Err(ReceiptError::Truncated)
    } else if b.take(5) != magic() {
        Err(ReceiptError::Unsupported)
    } else {
        match take_u32(b.skip(5)) {
            None => Err(ReceiptError::Truncated),
            Some((count, t)) => if count > MAX_RECEIPTS {
                Err(ReceiptError::TooMany)
            } else {
                match parse_receipts(t, count as nat) {
                    Err(e) => Err(e),
                    Ok((rs, rest)) => if rest.len() > 0 {
                        Err(ReceiptError::Trailing)
                    } else {
                        Ok(rs)
                    },
                }
            },
        }
    }
}

proof fn lemma_skip_u32(b: Seq<u8>, off: int, k: int)
    requires
        0 <= off,
        0 <= k,
        off + k + 4 <= b.len(),
    ensures
        u32_at(b.skip(off), k) == u32_at(b, off + k),
{
    let s = b.skip(off);
    assert(s[k] == b[off + k]);
    assert(s[k + 1] == b[off + k + 1]);
    assert(s[k + 2] == b[off + k + 2]);
    assert(s[k + 3] == b[off + k + 3]);
}

proof fn lemma_skip_u64(b: Seq<u8>, off: int, k: int)
    requires
        0 <= off,
        0 <= k,
        off + k + 8 <= b.len(),
    ensures
        u64_at(b.skip(off), k) == u64_at(b, off + k),
{
    lemma_skip_u32(b, off, k);
    lemma_skip_u32(b, off, k + 4);
}

fn next_u8(r: &mut Reader) -> (v: Option<u8>)
    requires
        old(r).offset <= old(r).bytes@.len(),
    ensures
        final(r).bytes == old(r).bytes,
        final(r).offset <= final(r).bytes@.len(),
        match take_u8(rest_of(*old(r))) {
            Some((x, t)) => v == Some(x) && rest_of(*final(r)) == t,
            None => v is None,
        },
{
    let ghost s = rest_of(*r);
    let res = r.u8();
    proof {
        if res is Some {
            assert(rest_of(*r) =~= s.skip(1));
        }
    }
    res
}

fn next_u32(r: &mut Reader) -> (v: Option<u32>)
    requires
        old(r).offset <= old(r).bytes@.len(),
    ensures
        final(r).bytes == old(r).bytes,
        final(r).offset <= final(r).bytes@.len(),
        match take_u32(rest_of(*old(r))) {
            Some((x, t)) => v == Some(x) && rest_of(*final(r)) == t,
            None => v is None,
        },
{
    let ghost s = rest_of(*r);
    let ghost off = r.offset as int;
    let res = r.u32();
    proof {
        if res is Some {
            assert(rest_of(*r) =~= s.skip(4));
            lemma_skip_u32(r.bytes@, off, 0);
        }
    }
    res
}

fn next_u64(r: &mut Reader) -> (v: Option<u64>)
    requires
        old(r).offset <= old(r).bytes@.len(),
    ensures
        final(r).bytes == old(r).bytes,
        final(r).offset <= final(r).bytes@.len(),
        match take_u64(rest_of(*old(r))) {
            Some((x, t)) => v == Some(x) && rest_of(*final(r)) == t,
            None => v is None,
        },
{
    let ghost s = rest_of(*r);
    let ghost off = r.offset as int;
    let res = r.u64();
    proof {
        if res is Some {
            assert(rest_of(*r) =~= s.skip(8));
            lemma_skip_u64(r.bytes@, off, 0);
        }
    }
    res
}

fn next_i64(r: &mut Reader) -> (v: Option<i64>)
    requires
        old(r).offset <= old(r).bytes@.len(),
    ensures
        final(r).bytes == old(r).bytes,
        final(r).offset <= final(r).bytes@.len(),
        match take_i64(rest_of(*old(r))) {
            Some((x, t)) => v == Some(x) && rest_of(*final(r)) == t,
            None => v is None,
        },
{
    let ghost s = rest_of(*r);
    let ghost off = r.offset as int;
    let res = r.i64();
    proof {
        if res is Some {
            assert(rest_of(*r) =~= s.skip(8));
            lemma_skip_u64(r.bytes@, off, 0);
        }
    }
    res
}

fn next_u128(r: &mut Reader) -> (v: Option<u128>)
    requires
        old(r).offset <= old(r).bytes@.len(),
    ensures
        final(r).bytes == old(r).bytes,
        final(r).offset <= final(r).bytes@.len(),
        match take_u128(rest_of(*old(r))) {
            Some((x, t)) => v == Some(x) && rest_of(*final(r)) == t,
            None => v is None,
        },
{
    let ghost s = rest_of(*r);
    let ghost off = r.offset as int;
    let res = r.u128();
    proof {
        if res is Some {
            assert(rest_of(*r) =~= s.skip(16));
            lemma_skip_u64(r.bytes@, off, 0);
            lemma_skip_u64(r.bytes@, off, 8);
        }
    }
    res
}

fn read_blob(r: &mut Reader, limit: usize, field: ReceiptField) -> (res: Result<Vec<u8>, ReceiptError>)
    requires
        old(r).offset <= old(r).bytes@.len(),
    ensures
        final(r).bytes == old(r).bytes,
        final(r).offset <= final(r).bytes@.len(),
        match parse_blob(rest_of(*old(r)), limit as int, field) {
            Ok((v, t)) => res is Ok && res->Ok_0@ == v && rest_of(*final(r)) == t,
            Err(e) => res == Err::<Vec<u8>, ReceiptError>(e),
        },
{
    let len = match next_u32(r) {
        Some(v) => v,
        None => {
            return Err(ReceiptError::Truncated);
        },
    };
    if len as usize > limit {
        return Err(ReceiptError::TooLong(field));
    }
    let ghost s = rest_of(*r);
    let res = r.take(len as usize);
    match res {
        Some(v) => {
            proof {
                assert(v@ =~= s.take(len as int));
                assert(rest_of(*r) =~= s.skip(len as int));
            }
            Ok(v)
        },
        None => Err(ReceiptError::Truncated),
    }
}

fn read_text(r: &mut Reader, field: ReceiptField) -> (res: Result<String, ReceiptError>)
    requires
        old(r).offset <= old(r).bytes@.len(),
    ensures
        final(r).bytes == old(r).bytes,
        final(r).offset <= final(r).bytes@.len(),
        match parse_text(rest_of(*old(r)), field) {
            Ok((v, t)) => res is Ok && res->Ok_0@ == v && rest_of(*final(r)) == t,
            Err(e) => res == Err::<String, ReceiptError>(e),
        },
{
    let bytes = read_blob(r, MAX_TEXT_BYTES, field)?;
    match utf8_string(bytes) {
        Some(text) => Ok(text),
        None => Err(ReceiptError::NotUtf8(field)),
    }
}

fn read_flag(r: &mut Reader, flag: ReceiptFlag) -> (res: Result<bool, ReceiptError>)
    requires
        old(r).offset <= old(r).bytes@.len(),
    ensures
        final(r).bytes == old(r).bytes,
        final(r).offset <= final(r).bytes@.len(),
        match parse_flag(rest_of(*old(r)), flag) {
            Ok((v, t)) => res == Ok::<bool, ReceiptError>(v) && rest_of(*final(r)) == t,
            Err(e) => res == Err::<bool, ReceiptError>(e),
        },
{
    match next_u8(r) {
        None => Err(ReceiptError::Truncated),
        Some(0u8) => Ok(false),
        Some(1u8) => Ok(true),
        Some(_) => Err(ReceiptError::InvalidFlag(flag)),
    }
}

fn read_trash(r: &mut Reader) -> (res: Result<Option<TrashEvidence>, ReceiptError>)
    requires
        old(r).offset <= old(r).bytes@.len(),
    ensures
        final(r).bytes == old(r).bytes,
        final(r).offset <= final(r).bytes@.len(),
        match parse_trash(rest_of(*old(r))) {
            Ok((v, t)) => res is Ok && trash_view(res->Ok_0) == v && rest_of(*final(r)) == t,
            Err(e) => res == Err::<Option<TrashEvidence>, ReceiptError>(e),
        },
{
    if !read_flag(r, ReceiptFlag::TrashEvidence)? {
        return Ok(None);
    }
    let path = read_blob(r, MAX_PATH_BYTES, ReceiptField::TrashPath)?;
    let dev = match next_u64(r) {
        Some(v) => v,
        None => {
            return Err(ReceiptError::Truncated);
        },
    };
    let ino = match next_u64(r) {
        Some(v) => v,
        None => {
            return Err(ReceiptError::Truncated);
        },
    };
    let kind = match next_u8(r) {
        None => {
            return Err(ReceiptError::Truncated);
        },
        Some(0u8) => FileKind::File,
        Some(1u8) => FileKind::Directory,
        Some(_) => {
            return Err(ReceiptError::InvalidKind);
        },
    };
    Ok(Some(TrashEvidence { path, identity: FileIdentity { dev, ino, kind } }))
}

fn read_restored(r: &mut Reader) -> (res: Result<Option<i64>, ReceiptError>)
    requires
        old(r).offset <= old(r).bytes@.len(),
    ensures
        final(r).bytes == old(r).bytes,
        final(r).offset <= final(r).bytes@.len(),
        match parse_restored(rest_of(*old(r))) {
            Ok((v, t)) => res == Ok::<Option<i64>, ReceiptError>(v) && rest_of(*final(r)) == t,
            Err(e) => res == Err::<Option<i64>, ReceiptError>(e),
        },
{
    if !read_flag(r, ReceiptFlag::Restored)? {
        return Ok(None);
    }
    match next_i64(r) {
        Some(v) => Ok(Some(v)),
        None => Err(ReceiptError::Truncated),
    }
}

fn read_middle(r: &mut Reader) -> (res: Result<(ReceiptAction, i64, i64, Option<TrashEvidence>, bool, Option<i64>), ReceiptError>)
    requires
        old(r).offset <= old(r).bytes@.len(),
    ensures
        final(r).bytes == old(r).bytes,
        final(r).offset <= final(r).bytes@.len(),
        match parse_middle(rest_of(*old(r))) {
            Ok((m, t)) => res is Ok && rest_of(*final(r)) == t && ({
                let v = res->Ok_0;
                &&& v.0 == m.action
                &&& v.1 == m.freed_bytes
                &&& v.2 == m.pending_bytes
                &&& trash_view(v.3) == m.trash
                &&& v.4 == m.finder_managed
                &&& v.5 == m.restored_at_ms
            }),
            Err(e) => res is Err && res->Err_0 == e,
        },
{
    proof {
        reveal(parse_middle);
    }
    let action = match next_u8(r) {
        None => {
            return Err(ReceiptError::Truncated);
        },
        Some(0u8) => ReceiptAction::Trash,
        Some(1u8) => ReceiptAction::Delete,
        Some(2u8) => ReceiptAction::Empty,
        Some(3u8) => ReceiptAction::Command,
        Some(_) => {
            return Err(ReceiptError::InvalidAction);
        },
    };
    let freed_bytes = match next_i64(r) {
        Some(v) => v,
        None => {
            return Err(ReceiptError::Truncated);
        },
    };
    let pending_bytes = match next_i64(r) {
        Some(v) => v,
        None => {
            return Err(ReceiptError::Truncated);
        },
    };
    let trash = read_trash(r)?;
    let finder_managed = read_flag(r, ReceiptFlag::FinderManaged)?;
    let restored_at_ms = read_restored(r)?;
    Ok((action, freed_bytes, pending_bytes, trash, finder_managed, restored_at_ms))
}

fn read_receipt(r: &mut Reader) -> (res: Result<Receipt, ReceiptError>)
    requires
        old(r).offset <= old(r).bytes@.len(),
    ensures
        final(r).bytes == old(r).bytes,
        final(r).offset <= final(r).bytes@.len(),
        match parse_receipt(rest_of(*old(r))) {
            Ok((v, t)) => res is Ok && res->Ok_0@ == v && rest_of(*final(r)) == t,
            Err(e) => res == Err::<Receipt, ReceiptError>(e),
        },
{
    proof {
        reveal(parse_receipt);
    }
    let event_id = match next_u128(r) {
        Some(v) => v,
        None => {
            return Err(ReceiptError::Truncated);
        },
    };
    let completed_at_ms = match next_i64(r) {
        Some(v) => v,
        None => {
            return Err(ReceiptError::Truncated);
        },
    };
    let rec_id = read_text(r, ReceiptField::RecommendationId)?;
    let title = read_text(r, ReceiptField::Title)?;
    let origin = read_blob(r, MAX_PATH_BYTES, ReceiptField::OriginPath)?;
    let (action, freed_bytes, pending_bytes, trash, finder_managed, restored_at_ms) = match read_middle(r) {
        Ok(m) => m,
        Err(e) => {
            return Err(e);
        },
    };
    let receipt = Receipt {
        event_id,
        completed_at_ms,
        rec_id,
        title,
        origin,
        action,
        freed_bytes,
        pending_bytes,
        trash,
        finder_managed,
        restored_at_ms,
    };
    valid_receipt(&receipt)?;
    Ok(receipt)
}

proof fn lemma_parse_receipts_err(s: Seq<u8>, i: nat, n: nat)
    requires
        i < n,
        parse_receipts(s, (i + 1) as nat) is Err,
    ensures
        parse_receipts(s, n) == parse_receipts(s, (i + 1) as nat),
    decreases n - i,
{
    if n > i + 1 {
        lemma_parse_receipts_err(s, i, (n - 1) as nat);
    }
}

/// Reads a history file; a wrong magic, a short or overlong record, a field
/// that is not UTF-8, an invalid tag, a receipt that is not well formed or
/// trailing bytes are refused.
pub fn decode(bytes: &[u8]) -> (r: Result<Vec<Receipt>, ReceiptError>)
    ensures
        match decode_spec(bytes@) {
            Ok(rs) => r is Ok && receipts_view(r->Ok_0@) == rs,
            Err(e) => r == Err::<Vec<Receipt>, ReceiptError>(e),
        },
{
    if bytes.len() < 5 {
        return Err(ReceiptError::Truncated);
    }
    let head = copy_range(bytes, 0, 5);
    let m = magic_vec();
    if !bytes_eq(head.as_slice(), m.as_slice()) {
        return Err(ReceiptError::Unsupported);
    }
    let mut reader = Reader { bytes, offset: 5 };
    let count = match next_u32(&mut reader) {
        Some(c) => c,
        None => {
            return Err(ReceiptError::Truncated);
        },
    };
    if count as usize > MAX_RECEIPTS {
        return Err(ReceiptError::TooMany);
    }
    let ghost start = rest_of(reader);
    let mut receipts: Vec<Receipt> = Vec::new();
    let mut i: usize = 0;
    assert(receipts_view(receipts@) =~= Seq::<ReceiptView>::empty());
    while i < count as usize
        invariant
            i <= count <= MAX_RECEIPTS,
            reader.bytes == bytes,
            reader.offset <= bytes@.len(),
            parse_receipts(start, i as nat) == Ok::<(Seq<ReceiptView>, Seq<u8>), ReceiptError>(
                (receipts_view(receipts@), rest_of(reader)),
            ),
            decode_spec(bytes@) == match parse_receipts(start, count as nat) {
                Err(e) => Err(e),
                Ok((rs, rest)) => if rest.len() > 0 {
                    Err(ReceiptError::Trailing)
                } else {
                    Ok(rs)
                },
            },
        decreases count - i,
    {
        let ghost prev = receipts_view(receipts@);
        let ghost here = rest_of(reader);
        assert(parse_receipts(start, (i + 1) as nat) == match parse_receipt(here) {
            Err(e) => Err(e),
            Ok((r, u)) => Ok::<(Seq<ReceiptView>, Seq<u8>), ReceiptError>((prev.push(r), u)),
        });
        let receipt = match read_receipt(&mut reader) {
            Ok(v) => v,
            Err(e) => {
                proof {
                    lemma_parse_receipts_err(start, i as nat, count as nat);
                }
                return Err(e);
            },
        };
        let ghost rv = receipt@;
        receipts.push(receipt);
        proof {
            assert(receipts_view(receipts@) =~= prev.push(rv));
        }
        i += 1;
    }
    if reader.offset != bytes.len() {
        return Err(ReceiptError::Trailing);
    }
    proof {
        assert(rest_of(reader).len() == 0);
    }
    Ok(receipts)
}

// ───────────────────────── round trip ─────────────────────────

proof fn lemma_assoc(a: Seq<u8>, b: Seq<u8>, t: Seq<u8>)
    ensures
        (a + b) + t == a + (b + t),
{
    assert((a + b) + t =~= a + (b + t));
}

proof fn lemma_take_u8(x: u8, t: Seq<u8>)
    ensures
        take_u8(seq![x] + t) == Some((x, t)),
{
    assert((seq![x] + t).skip(1) =~= t);
}

proof fn lemma_take_u32(v: u32, t: Seq<u8>)
    ensures
        take_u32(le_u32(v) + t) == Some((v, t)),
{
    let s = le_u32(v) + t;
    assert(s.subrange(0, 4) =~= le_u32(v));
    lemma_u32_round_trip(v, s, 0);
    assert(s.skip(4) =~= t);
}

proof fn lemma_take_u64(v: u64, t: Seq<u8>)
    ensures
        take_u64(le_u64(v) + t) == Some((v, t)),
{
    let s = le_u64(v) + t;
    assert(s.subrange(0, 8) =~= le_u64(v));
    lemma_u64_round_trip(v, s, 0);
    assert(s.skip(8) =~= t);
}

proof fn lemma_take_i64(v: i64, t: Seq<u8>)
    ensures
        take_i64(le_i64(v) + t) == Some((v, t)),
{
    let s = le_i64(v) + t;
    assert(s.subrange(0, 8) =~= le_i64(v));
    lemma_i64_round_trip(v, s, 0);
    assert(s.skip(8) =~= t);
}

proof fn lemma_take_u128(v: u128, t: Seq<u8>)
    ensures
        take_u128(le_u128(v) + t) == Some((v, t)),
{
    let s = le_u128(v) + t;
    assert(s.subrange(0, 16) =~= le_u128(v));
    lemma_u128_round_trip(v, s, 0);
    assert(s.skip(16) =~= t);
}

proof fn lemma_parse_blob(p: Seq<u8>, t: Seq<u8>, limit: int, field: ReceiptField)
    requires
        p.len() <= limit <= MAX_PATH_BYTES,
    ensures
        parse_blob(blob_rec(p) + t, limit, field) == Ok::<(Seq<u8>, Seq<u8>), ReceiptError>((p, t)),
{
    let len = p.len() as u32;
    lemma_assoc(le_u32(len), p, t);
    lemma_take_u32(len, p + t);
    assert((p + t).take(len as int) =~= p);
    assert((p + t).skip(len as int) =~= t);
}

proof fn lemma_parse_text(c: Seq<char>, t: Seq<u8>, field: ReceiptField)
    requires
        encode_utf8(c).len() <= MAX_TEXT_BYTES,
    ensures
        parse_text(text_rec(c) + t, field) == Ok::<(Seq<char>, Seq<u8>), ReceiptError>((c, t)),
{
    lemma_parse_blob(encode_utf8(c), t, MAX_TEXT_BYTES as int, field);
    encode_utf8_valid_utf8(c);
    encode_utf8_decode_utf8(c);
}

proof fn lemma_parse_flag(b: bool, t: Seq<u8>, flag: ReceiptFlag)
    ensures
        parse_flag(seq![flag_byte(b)] + t, flag) == Ok::<(bool, Seq<u8>), ReceiptError>((b, t)),
{
    lemma_take_u8(flag_byte(b), t);
}

proof fn lemma_parse_trash(x: Option<TrashView>, t: Seq<u8>)
    requires
        x is Some ==> x->Some_0.path.len() <= MAX_PATH_BYTES,
    ensures
        parse_trash(trash_rec(x) + t) == Ok::<(Option<TrashView>, Seq<u8>), ReceiptError>((x, t)),
{
    match x {
        None => {
            lemma_parse_flag(false, t, ReceiptFlag::TrashEvidence);
        },
        Some(e) => {
            let tail3 = le_u64(e.identity.ino) + seq![kind_code(e.identity.kind)];
            let tail2 = le_u64(e.identity.dev) + tail3;
            let tail1 = blob_rec(e.path) + tail2;
            lemma_assoc(seq![1u8], tail1, t);
            lemma_parse_flag(true, tail1 + t, ReceiptFlag::TrashEvidence);
            lemma_assoc(blob_rec(e.path), tail2, t);
            lemma_parse_blob(e.path, tail2 + t, MAX_PATH_BYTES as int, ReceiptField::TrashPath);
            lemma_assoc(le_u64(e.identity.dev), tail3, t);
            lemma_take_u64(e.identity.dev, tail3 + t);
            lemma_assoc(le_u64(e.identity.ino), seq![kind_code(e.identity.kind)], t);
            lemma_take_u64(e.identity.ino, seq![kind_code(e.identity.kind)] + t);
            lemma_take_u8(kind_code(e.identity.kind), t);
        },
    }
}

proof fn lemma_parse_restored(x: Option<i64>, t: Seq<u8>)
    ensures
        parse_restored(restored_rec(x) + t) == Ok::<(Option<i64>, Seq<u8>), ReceiptError>((x, t)),
{
    match x {
        None => {
            lemma_parse_flag(false, t, ReceiptFlag::Restored);
        },
        Some(v) => {
            lemma_assoc(seq![1u8], le_i64(v), t);
            lemma_parse_flag(true, le_i64(v) + t, ReceiptFlag::Restored);
            lemma_take_i64(v, t);
        },
    }
}

#[verifier::spinoff_prover]
#[verifier::rlimit(40)]
proof fn lemma_parse_middle(r: ReceiptView, t: Seq<u8>)
    requires
        r.trash is Some ==> r.trash->Some_0.path.len() <= MAX_PATH_BYTES,
    ensures
        parse_middle(receipt_middle(r) + t) == Ok::<(MiddleView, Seq<u8>), ReceiptError>((middle_of(r), t)),
{
    reveal(parse_middle);
    let tail = receipt_tail(r);
    let y2 = le_i64(r.pending_bytes) + tail;
    let y1 = le_i64(r.freed_bytes) + y2;
    lemma_assoc(seq![action_code(r.action)], y1, t);
    lemma_take_u8(action_code(r.action), y1 + t);
    lemma_assoc(le_i64(r.freed_bytes), y2, t);
    lemma_take_i64(r.freed_bytes, y2 + t);
    lemma_assoc(le_i64(r.pending_bytes), tail, t);
    lemma_take_i64(r.pending_bytes, tail + t);
    let z1 = seq![flag_byte(r.finder_managed)] + restored_rec(r.restored_at_ms);
    lemma_assoc(trash_rec(r.trash), z1, t);
    lemma_parse_trash(r.trash, z1 + t);
    lemma_assoc(seq![flag_byte(r.finder_managed)], restored_rec(r.restored_at_ms), t);
    lemma_parse_flag(r.finder_managed, restored_rec(r.restored_at_ms) + t, ReceiptFlag::FinderManaged);
    lemma_parse_restored(r.restored_at_ms, t);
}

#[verifier::spinoff_prover]
#[verifier::rlimit(40)]
proof fn lemma_parse_receipt(r: ReceiptView, t: Seq<u8>)
    requires
        receipt_problem(r) is None,
    ensures
        parse_receipt(receipt_bytes(r) + t) == Ok::<(ReceiptView, Seq<u8>), ReceiptError>((r, t)),
{
    reveal(parse_receipt);
    let m = receipt_middle(r);
    let x4 = blob_rec(r.origin) + m;
    let x3 = text_rec(r.title) + x4;
    let x2 = text_rec(r.rec_id) + x3;
    let x1 = le_i64(r.completed_at_ms) + x2;
    lemma_assoc(le_u128(r.event_id), x1, t);
    lemma_take_u128(r.event_id, x1 + t);
    lemma_assoc(le_i64(r.completed_at_ms), x2, t);
    lemma_take_i64(r.completed_at_ms, x2 + t);
    lemma_assoc(text_rec(r.rec_id), x3, t);
    lemma_parse_text(r.rec_id, x3 + t, ReceiptField::RecommendationId);
    lemma_assoc(text_rec(r.title), x4, t);
    lemma_parse_text(r.title, x4 + t, ReceiptField::Title);
    lemma_assoc(blob_rec(r.origin), m, t);
    lemma_parse_blob(r.origin, m + t, MAX_PATH_BYTES as int, ReceiptField::OriginPath);
    lemma_parse_middle(r, t);
}

proof fn lemma_parse_receipts(rs: Seq<ReceiptView>, t: Seq<u8>)
    requires
        receipts_problem(rs) is None,
    ensures
        parse_receipts(receipts_bytes(rs) + t, rs.len()) == Ok::<(Seq<ReceiptView>, Seq<u8>), ReceiptError>(
            (rs, t),
        ),
    decreases rs.len(),
{
    if rs.len() == 0 {
        assert(receipts_bytes(rs) + t =~= t);
        assert(rs =~= Seq::<ReceiptView>::empty());
    } else {
        let init = rs.drop_last();
        let last = rs.last();
        lemma_assoc(receipts_bytes(init), receipt_bytes(last), t);
        lemma_parse_receipts(init, receipt_bytes(last) + t);
        lemma_parse_receipt(last, t);
        assert(init.push(last) =~= rs);
    }
}

/// Reading what writing a list of receipts gave back yields the same list.
pub proof fn lemma_receipts_round_trip(rs: Seq<ReceiptView>)
    requires
        encode_spec(rs) is Ok,
    ensures
        decode_spec(encode_spec(rs)->Ok_0) == Ok::<Seq<ReceiptView>, ReceiptError>(rs),
{
    let body = receipts_bytes(rs);
    let b = magic() + le_u32(rs.len() as u32) + body;
    assert(encode_spec(rs)->Ok_0 == b);
    assert(b.take(5) =~= magic());
    assert(b.skip(5) =~= le_u32(rs.len() as u32) + body);
    lemma_take_u32(rs.len() as u32, body);
    assert(body + Seq::<u8>::empty() =~= body);
    lemma_parse_receipts(rs, Seq::<u8>::empty());
}

// ───────────────────────── the history file ─────────────────────────

pub open spec fn bytes_view(existing: Option<&[u8]>) -> Option<Seq<u8>> {
    match existing {
        Some(b) => Some(b@),
        None => None,
    }
}

/// The receipts a history file holds; no file yet holds none.
pub open spec fn load_spec(existing: Option<Seq<u8>>) -> Result<Seq<ReceiptView>, ReceiptError> {
    match existing {
        None => Ok(Seq::empty()),
        Some(b) => decode_spec(b),
    }
}

/// The newest 200 receipts of a list in order, the oldest dropped first.
pub open spec fn keep_newest(rs: Seq<ReceiptView>) -> Seq<ReceiptView> {
    if rs.len() > MAX_RECEIPTS {
        rs.skip(rs.len() - MAX_RECEIPTS)
    } else {
        rs
    }
}

/// What appending a receipt writes: the stored receipts and then the new one,
/// the oldest dropped beyond 200. A file that does not decode is refused, so
/// it is never overwritten.
pub open spec fn append_spec(existing: Option<Seq<u8>>, r: ReceiptView) -> Result<Seq<u8>, ReceiptError> {
    match receipt_validity(r) {
        Some(e) => Err(e),
        None => match load_spec(existing) {
            Err(e) => Err(e),
            Ok(rs) => encode_spec(keep_newest(rs.push(r))),
        },
    }
}

/// Index of the first receipt at or after `i` with the event id `id`.
pub open spec fn first_with_id(rs: Seq<ReceiptView>, id: u128, i: int) -> int
    decreases rs.len() - i,
{
    if i < 0 || i >= rs.len() {
        rs.len() as int
    } else if rs[i].event_id == id {
        i
    } else {
        first_with_id(rs, id, i + 1)
    }
}

/// A receipt marked restored at `at`.
pub open spec fn marked(r: ReceiptView, at: i64) -> ReceiptView {
    ReceiptView {
        event_id: r.event_id,
        completed_at_ms: r.completed_at_ms,
        rec_id: r.rec_id,
        title: r.title,
        origin: r.origin,
        action: r.action,
        freed_bytes: r.freed_bytes,
        pending_bytes: r.pending_bytes,
        trash: r.trash,
        finder_managed: r.finder_managed,
        restored_at_ms: Some(at),
    }
}

/// What marking a receipt restored writes: the stored receipts with the first
/// one of that event id marked; it must exist and be a Trash receipt.
pub open spec fn mark_spec(existing: Option<Seq<u8>>, id: u128, at: i64) -> Result<Seq<u8>, ReceiptError> {
    if at < 0 {
        Err(ReceiptError::NegativeRestoredAt)
    } else {
        match load_spec(existing) {
            Err(e) => Err(e),
            Ok(rs) => {
                let k = first_with_id(rs, id, 0);
                if k >= rs.len() {
                    Err(ReceiptError::ReceiptGone)
                } else if rs[k].action != ReceiptAction::Trash {
                    Err(ReceiptError::NotTrashReceipt)
                } else {
                    encode_spec(rs.update(k, marked(rs[k], at)))
                }
            },
        }
    }
}

/// The receipts of a history file's bytes; no file yet holds none.
pub fn load_receipts(existing: Option<&[u8]>) -> (r: Result<Vec<Receipt>, ReceiptError>)
    ensures
        match load_spec(bytes_view(existing)) {
            Ok(rs) => r is Ok && receipts_view(r->Ok_0@) == rs,
            Err(e) => r == Err::<Vec<Receipt>, ReceiptError>(e),
        },
{
    match existing {
        None => {
            let v: Vec<Receipt> = Vec::new();
            assert(receipts_view(v@) =~= Seq::<ReceiptView>::empty());
            Ok(v)
        },
        Some(b) => decode(b),
    }
}

/// The bytes to write after appending `receipt` to the history file whose
/// bytes are `existing` (none when there is no file yet).
pub fn append_receipt(existing: Option<&[u8]>, receipt: Receipt) -> (r: Result<Vec<u8>, ReceiptError>)
    ensures
        match append_spec(bytes_view(existing), receipt@) {
            Ok(b) => r is Ok && r->Ok_0@ == b,
            Err(e) => r == Err::<Vec<u8>, ReceiptError>(e),
        },
{
    valid_receipt(&receipt)?;
    let mut receipts = load_receipts(existing)?;
    let ghost before = receipts_view(receipts@);
    let ghost rv = receipt@;
    receipts.push(receipt);
    proof {
        assert(receipts_view(receipts@) =~= before.push(rv));
    }
    if receipts.len() > MAX_RECEIPTS {
        let remove = receipts.len() - MAX_RECEIPTS;
        let ghost all = receipts@;
        receipts = receipts.split_off(remove);
        proof {
            assert(receipts_view(receipts@) =~= receipts_view(all).skip(remove as int));
        }
    }
    encode(receipts.as_slice())
}

/// The bytes to write after marking the receipt of `event_id` restored at
/// `restored_at_ms` in the history file whose bytes are `existing`.
pub fn mark_restored(existing: Option<&[u8]>, event_id: u128, restored_at_ms: i64) -> (r: Result<Vec<u8>, ReceiptError>)
    ensures
        match mark_spec(bytes_view(existing), event_id, restored_at_ms) {
            Ok(b) => r is Ok && r->Ok_0@ == b,
            Err(e) => r == Err::<Vec<u8>, ReceiptError>(e),
        },
{
    if restored_at_ms < 0 {
        return Err(ReceiptError::NegativeRestoredAt);
    }
    let mut receipts = load_receipts(existing)?;
    let ghost rs = receipts_view(receipts@);
    let mut k: usize = 0;
    while k < receipts.len() && receipts[k].event_id != event_id
        invariant
            k <= receipts@.len(),
            rs == receipts_view(receipts@),
            first_with_id(rs, event_id, 0) == first_with_id(rs, event_id, k as int),
        decreases receipts.len() - k,
    {
        k += 1;
    }
    if k == receipts.len() {
        return Err(ReceiptError::ReceiptGone);
    }
    if receipts[k].action != ReceiptAction::Trash {
        return Err(ReceiptError::NotTrashReceipt);
    }
    let mut item = receipts.remove(k);
    item.restored_at_ms = Some(restored_at_ms);
    let ghost iv = item@;
    receipts.insert(k, item);
    proof {
        assert(iv == marked(rs[k as int], restored_at_ms));
        assert(receipts_view(receipts@) =~= rs.update(k as int, marked(rs[k as int], restored_at_ms)));
    }
    encode(receipts.as_slice())
}

/// Reading what appending wrote gives the receipts that were stored followed
/// by the new one, the newest 200 of them, the new one last.
pub proof fn lemma_append_then_load(existing: Option<Seq<u8>>, r: ReceiptView)
    requires
        append_spec(existing, r) is Ok,
    ensures
        load_spec(existing) is Ok,
        load_spec(Some(append_spec(existing, r)->Ok_0)) == Ok::<Seq<ReceiptView>, ReceiptError>(
            keep_newest(load_spec(existing)->Ok_0.push(r)),
        ),
        keep_newest(load_spec(existing)->Ok_0.push(r)).len() <= MAX_RECEIPTS,
        keep_newest(load_spec(existing)->Ok_0.push(r)).last() == r,
{
    let kept = keep_newest(load_spec(existing)->Ok_0.push(r));
    lemma_receipts_round_trip(kept);
}

/// Reading what marking wrote gives the stored receipts with only the first
/// receipt of that event id changed, and only in being marked restored.
pub proof fn lemma_mark_then_load(existing: Option<Seq<u8>>, id: u128, at: i64)
    requires
        mark_spec(existing, id, at) is Ok,
    ensures
        load_spec(existing) is Ok,
        ({
            let rs = load_spec(existing)->Ok_0;
            let k = first_with_id(rs, id, 0);
            &&& 0 <= k < rs.len()
            &&& rs[k].event_id == id
            &&& load_spec(Some(mark_spec(existing, id, at)->Ok_0)) == Ok::<Seq<ReceiptView>, ReceiptError>(
                rs.update(k, marked(rs[k], at)),
            )
        }),
{
    let rs = load_spec(existing)->Ok_0;
    lemma_first_with_id(rs, id, 0);
    let k = first_with_id(rs, id, 0);
    lemma_receipts_round_trip(rs.update(k, marked(rs[k], at)));
}

proof fn lemma_first_with_id(rs: Seq<ReceiptView>, id: u128, i: int)
    requires
        0 <= i <= rs.len(),
    ensures
        i <= first_with_id(rs, id, i) <= rs.len(),
        first_with_id(rs, id, i) < rs.len() ==> rs[first_with_id(rs, id, i)].event_id == id,
    decreases rs.len() - i,
{
    if i < rs.len() && rs[i].event_id != id {
        lemma_first_with_id(rs, id, i + 1);
    }
}

// ───────────────────────── where receipts live ─────────────────────────

/// The bytes of `Library`.
pub open spec fn library_name() -> Seq<u8> {
    seq![76u8, 105u8, 98u8, 114u8, 97u8, 114u8, 121u8]
}

fn library_name_vec() -> (v: Vec<u8>)
    ensures
        v@ == library_name(),
{
    let v: Vec<u8> = vec![76u8, 105u8, 98u8, 114u8, 97u8, 114u8, 121u8];
    assert(v@ =~= library_name());
    v
}

/// The bytes of `Application Support`.
pub open spec fn app_support_name() -> Seq<u8> {
    seq![65u8, 112u8, 112u8, 108u8, 105u8, 99u8, 97u8, 116u8, 105u8, 111u8, 110u8, 32u8, 83u8, 117u8, 112u8, 112u8, 111u8, 114u8, 116u8]
}

fn app_support_name_vec() -> (v: Vec<u8>)
    ensures
        v@ == app_support_name(),
{
    let v: Vec<u8> = vec![65u8, 112u8, 112u8, 108u8, 105u8, 99u8, 97u8, 116u8, 105u8, 111u8, 110u8, 32u8, 83u8, 117u8, 112u8, 112u8, 111u8, 114u8, 116u8];
    assert(v@ =~= app_support_name());
    v
}

/// The bytes of `DiskDeck`.
pub open spec fn app_dir_name() -> Seq<u8> {
    seq![68u8, 105u8, 115u8, 107u8, 68u8, 101u8, 99u8, 107u8]
}

fn app_dir_name_vec() -> (v: Vec<u8>)
    ensures
        v@ == app_dir_name(),
{
    let v: Vec<u8> = vec![68u8, 105u8, 115u8, 107u8, 68u8, 101u8, 99u8, 107u8];
    assert(v@ =~= app_dir_name());
    v
}

/// The bytes of `reclaim-history.ddrh`.
pub open spec fn history_file_name() -> Seq<u8> {
    seq![114u8, 101u8, 99u8, 108u8, 97u8, 105u8, 109u8, 45u8, 104u8, 105u8, 115u8, 116u8, 111u8, 114u8, 121u8, 46u8, 100u8, 100u8, 114u8, 104u8]
}

fn history_file_name_vec() -> (v: Vec<u8>)
    ensures
        v@ == history_file_name(),
{
    let v: Vec<u8> = vec![114u8, 101u8, 99u8, 108u8, 97u8, 105u8, 109u8, 45u8, 104u8, 105u8, 115u8, 116u8, 111u8, 114u8, 121u8, 46u8, 100u8, 100u8, 114u8, 104u8];
    assert(v@ =~= history_file_name());
    v
}

/// The bytes of `.Trash`.
pub open spec fn trash_name() -> Seq<u8> {
    seq![46u8, 84u8, 114u8, 97u8, 115u8, 104u8]
}

fn trash_name_vec() -> (v: Vec<u8>)
    ensures
        v@ == trash_name(),
{
    let v: Vec<u8> = vec![46u8, 84u8, 114u8, 97u8, 115u8, 104u8];
    assert(v@ =~= trash_name());
    v
}

/// The bytes of `/`.
pub open spec fn root_path() -> Seq<u8> {
    seq![47u8]
}

fn root_path_vec() -> (v: Vec<u8>)
    ensures
        v@ == root_path(),
{
    let v: Vec<u8> = vec![47u8];
    assert(v@ =~= root_path());
    v
}

/// The bytes of `/Library`.
pub open spec fn library_root() -> Seq<u8> {
    seq![47u8, 76u8, 105u8, 98u8, 114u8, 97u8, 114u8, 121u8]
}

fn library_root_vec() -> (v: Vec<u8>)
    ensures
        v@ == library_root(),
{
    let v: Vec<u8> = vec![47u8, 76u8, 105u8, 98u8, 114u8, 97u8, 114u8, 121u8];
    assert(v@ =~= library_root());
    v
}

/// The bytes of `/Users`.
pub open spec fn users_root() -> Seq<u8> {
    seq![47u8, 85u8, 115u8, 101u8, 114u8, 115u8]
}

fn users_root_vec() -> (v: Vec<u8>)
    ensures
        v@ == users_root(),
{
    let v: Vec<u8> = vec![47u8, 85u8, 115u8, 101u8, 114u8, 115u8];
    assert(v@ =~= users_root());
    v
}

/// The bytes of `/System`.
pub open spec fn system_root() -> Seq<u8> {
    seq![47u8, 83u8, 121u8, 115u8, 116u8, 101u8, 109u8]
}

fn system_root_vec() -> (v: Vec<u8>)
    ensures
        v@ == system_root(),
{
    let v: Vec<u8> = vec![47u8, 83u8, 121u8, 115u8, 116u8, 101u8, 109u8];
    assert(v@ =~= system_root());
    v
}

/// The bytes of `/Applications`.
pub open spec fn applications_root() -> Seq<u8> {
    seq![47u8, 65u8, 112u8, 112u8, 108u8, 105u8, 99u8, 97u8, 116u8, 105u8, 111u8, 110u8, 115u8]
}

fn applications_root_vec() -> (v: Vec<u8>)
    ensures
        v@ == applications_root(),
{
    let v: Vec<u8> = vec![47u8, 65u8, 112u8, 112u8, 108u8, 105u8, 99u8, 97u8, 116u8, 105u8, 111u8, 110u8, 115u8];
    assert(v@ =~= applications_root());
    v
}

/// `home/Library/Application Support/DiskDeck/reclaim-history.ddrh`.
pub open spec fn history_path_spec(home: Seq<u8>) -> Seq<u8> {
    join_spec(
        join_spec(join_spec(join_spec(home, library_name()), app_support_name()), app_dir_name()),
        history_file_name(),
    )
}

pub fn history_path_for_home(home: &[u8]) -> (p: Vec<u8>)
    ensures
        p@ == history_path_spec(home@),
{
    let a = join_path(home, library_name_vec().as_slice());
    let b = join_path(a.as_slice(), app_support_name_vec().as_slice());
    let c = join_path(b.as_slice(), app_dir_name_vec().as_slice());
    join_path(c.as_slice(), history_file_name_vec().as_slice())
}

#[verifier::external_type_specification]
#[verifier::external_body]
pub struct ExSystemTime(std::time::SystemTime);

/// `SystemTime::now()`: the current time. Nothing is claimed of it.
#[verifier::external_body]
fn clock_now() -> (t: std::time::SystemTime) {
    std::time::SystemTime::now()
}

/// `SystemTime::duration_since(UNIX_EPOCH)`: how long after the Unix epoch
/// `t` is, or nothing for a time before it. Nothing more is claimed of it.
#[verifier::external_body]
fn since_unix_epoch(t: &std::time::SystemTime) -> (d: Option<std::time::Duration>) {
    t.duration_since(std::time::UNIX_EPOCH).ok()
}

/// `Duration::as_millis`: the whole milliseconds of `d`. Nothing is claimed
/// of the value, which depends on `d` alone.
#[verifier::external_body]
fn duration_millis(d: &std::time::Duration) -> (m: u128) {
    d.as_millis()
}

/// Milliseconds since the epoch as a timestamp: held at `i64::MAX`, and zero
/// for a clock before the epoch.
pub open spec fn clamp_millis_spec(m: Option<u128>) -> i64 {
    match m {
        Some(v) => if v > i64::MAX {
            i64::MAX
        } else {
            v as i64
        },
        None => 0,
    }
}

pub fn clamp_millis(m: Option<u128>) -> (r: i64)
    ensures
        r == clamp_millis_spec(m),
{
    match m {
        Some(v) => if v > i64::MAX as u128 {
            i64::MAX
        } else {
            v as i64
        },
        None => 0,
    }
}

/// The current time in milliseconds since the epoch; never negative.
pub fn now_ms() -> (r: i64)
    ensures
        r >= 0,
{
    let now = clock_now();
    let millis = match since_unix_epoch(&now) {
        Some(d) => Some(duration_millis(&d)),
        None => None,
    };
    clamp_millis(millis)
}

// ───────────────────────── what a restore may touch ─────────────────────────

/// An absolute path whose components after the root are all plain names.
pub open spec fn normalized_absolute_spec(p: Seq<u8>) -> bool {
    let c = components(p);
    &&& c.len() >= 1
    &&& c[0] == Comp::Root
    &&& forall|i: int| 1 <= i < c.len() ==> (#[trigger] c[i]) is Normal
}

fn is_root(c: &Component) -> (r: bool)
    ensures
        r == (c@ == Comp::Root),
{
    match c {
        Component::RootDir => true,
        _ => false,
    }
}

fn normalized_absolute(p: &[u8]) -> (r: bool)
    ensures
        r == normalized_absolute_spec(p@),
{
    let c = components_of(p);
    let ghost cv = comps_view(c@);
    if c.len() == 0 {
        return false;
    }
    assert(cv[0] == c@[0]@);
    if !is_root(&c[0]) {
        return false;
    }
    let mut i: usize = 1;
    while i < c.len()
        invariant
            1 <= i <= c@.len(),
            cv == comps_view(c@),
            cv == components(p@),
            cv.len() == c@.len(),
            forall|j: int| 1 <= j < i ==> (#[trigger] cv[j]) is Normal,
        decreases c.len() - i,
    {
        match &c[i] {
            Component::Normal(_) => {},
            _ => {
                assert(!(cv[i as int] is Normal));
                return false;
            },
        }
        i += 1;
    }
    true
}

/// Where an item may be restored to: a normalized absolute path that is not
/// the root, `/Library`, `/Users`, anything under `/System` or `/Applications`,
/// the home folder, its `Library`, or anything under its `.Trash`.
pub open spec fn safe_origin_spec(origin: Seq<u8>, home: Seq<u8>) -> bool {
    let c = components(origin);
    &&& normalized_absolute_spec(origin)
    &&& normalized_absolute_spec(home)
    &&& c != components(root_path())
    &&& c != components(library_root())
    &&& c != components(users_root())
    &&& !comps_prefix(components(system_root()), c)
    &&& !comps_prefix(components(applications_root()), c)
    &&& c != components(home)
    &&& c != components(join_spec(home, library_name()))
    &&& !comps_prefix(components(join_spec(home, trash_name())), c)
}

fn same_components(a: &Vec<Component>, p: &[u8]) -> (r: bool)
    ensures
        r == (comps_view(a@) == components(p@)),
{
    let b = components_of(p);
    components_eq(a, &b)
}

fn under(a: &Vec<Component>, base: &[u8]) -> (r: bool)
    ensures
        r == comps_prefix(components(base@), comps_view(a@)),
{
    let b = components_of(base);
    components_start_with(a, &b)
}

fn safe_origin(origin: &[u8], home: &[u8]) -> (r: bool)
    ensures
        r == safe_origin_spec(origin@, home@),
{
    if !normalized_absolute(origin) || !normalized_absolute(home) {
        return false;
    }
    let c = components_of(origin);
    let home_library = join_path(home, library_name_vec().as_slice());
    let home_trash = join_path(home, trash_name_vec().as_slice());
    !(same_components(&c, root_path_vec().as_slice()) || same_components(&c, library_root_vec().as_slice())
        || same_components(&c, users_root_vec().as_slice()) || under(&c, system_root_vec().as_slice())
        || under(&c, applications_root_vec().as_slice()) || same_components(&c, home)
        || same_components(&c, home_library.as_slice()) || under(&c, home_trash.as_slice()))
}

/// A path directly inside the home folder's `.Trash`, with a name.
pub open spec fn exact_trash_path_spec(path: Seq<u8>, home: Seq<u8>) -> bool {
    let c = components(path);
    &&& normalized_absolute_spec(path)
    &&& c.len() >= 2
    &&& c.drop_last() == components(join_spec(home, trash_name()))
}

fn exact_trash_path(path: &[u8], home: &[u8]) -> (r: bool)
    ensures
        r == exact_trash_path_spec(path@, home@),
{
    if !normalized_absolute(path) {
        return false;
    }
    let mut c = components_of(path);
    if c.len() < 2 {
        return false;
    }
    let ghost all = comps_view(c@);
    c.pop();
    proof {
        assert(comps_view(c@) =~= all.drop_last());
    }
    let home_trash = join_path(home, trash_name_vec().as_slice());
    same_components(&c, home_trash.as_slice())
}

// ───────────────────────── receipt states ─────────────────────────

#[derive(Clone, Copy, Debug, PartialEq, Eq, Structural)]
pub enum ReceiptState {
    Ready,
    Missing,
    OriginOccupied,
    Changed,
    ManualOnly,
    UnsafeOrigin,
    SymlinkAncestor,
    CrossDevice,
    Unavailable,
    Restored,
    Permanent,
}

#[derive(Clone, Copy, Debug, PartialEq, Eq, Structural)]
pub enum RestoreBlock {
    NotTrash,
    Missing,
    OriginOccupied,
    Changed,
    ManualOnly,
    UnsafeOrigin,
    SymlinkAncestor,
    CrossDevice,
    Unavailable,
    Restored,
}

pub open spec fn block_text(b: RestoreBlock) -> Seq<char> {
    match b {
        RestoreBlock::NotTrash => "This cleanup was permanent and cannot be restored."@,
        RestoreBlock::Missing => "The recorded item is no longer in Trash."@,
        RestoreBlock::OriginOccupied => "The original path is occupied; DiskDeck will not overwrite it."@,
        RestoreBlock::Changed => "The item in Trash changed and no longer matches this receipt."@,
        RestoreBlock::ManualOnly => "Finder chose the Trash destination; restore this item manually."@,
        RestoreBlock::UnsafeOrigin => "The recorded original path is outside the safe restore boundary."@,
        RestoreBlock::SymlinkAncestor => "A parent of the original path is a symlink."@,
        RestoreBlock::CrossDevice => "Trash and the original folder are no longer on one volume."@,
        RestoreBlock::Unavailable => "DiskDeck cannot verify this restore path right now."@,
        RestoreBlock::Restored => "This receipt is already marked restored."@,
    }
}

impl RestoreBlock {
    pub fn message(self) -> (m: &'static str)
        ensures
            m@ == block_text(self),
    {
        match self {
            RestoreBlock::NotTrash => "This cleanup was permanent and cannot be restored.",
            RestoreBlock::Missing => "The recorded item is no longer in Trash.",
            RestoreBlock::OriginOccupied => "The original path is occupied; DiskDeck will not overwrite it.",
            RestoreBlock::Changed => "The item in Trash changed and no longer matches this receipt.",
            RestoreBlock::ManualOnly => "Finder chose the Trash destination; restore this item manually.",
            RestoreBlock::UnsafeOrigin => "The recorded original path is outside the safe restore boundary.",
            RestoreBlock::SymlinkAncestor => "A parent of the original path is a symlink.",
            RestoreBlock::CrossDevice => "Trash and the original folder are no longer on one volume.",
            RestoreBlock::Unavailable => "DiskDeck cannot verify this restore path right now.",
            RestoreBlock::Restored => "This receipt is already marked restored.",
        }
    }
}

impl FileIdentity {
    /// The identity of an item from its own metadata (not following a
    /// symlink): only a regular file or a directory has one.
    pub fn at(is_file: bool, is_dir: bool, dev: u64, ino: u64) -> (r: Option<FileIdentity>)
        ensures
            is_file ==> r == Some(FileIdentity { dev, ino, kind: FileKind::File }),
            !is_file && is_dir ==> r == Some(FileIdentity { dev, ino, kind: FileKind::Directory }),
            !is_file && !is_dir ==> r is None,
    {
        if is_file {
            Some(FileIdentity { dev, ino, kind: FileKind::File })
        } else if is_dir {
            Some(FileIdentity { dev, ino, kind: FileKind::Directory })
        } else {
            None
        }
    }
}

/// What the file system showed at a receipt's Trash path.
#[derive(Clone, Copy, Debug, PartialEq, Eq, Structural)]
pub enum TrashProbe {
    /// A regular file or directory with this identity.
    Found(FileIdentity),
    NotFound,
    /// Something that is neither a regular file nor a directory.
    OtherKind,
    Unreadable,
}

/// What the file system showed at a receipt's original path.
#[derive(Clone, Copy, Debug, PartialEq, Eq, Structural)]
pub enum OriginProbe {
    Free,
    Occupied,
    Unreadable,
}

/// What walking the original path's parent folders showed: the parent's
/// device when every ancestor is a real directory.
#[derive(Clone, Copy, Debug, PartialEq, Eq, Structural)]
pub enum AncestorProbe {
    Device(u64),
    SymlinkAncestor,
    Unavailable,
}

/// What reading one folder on the way to an origin's parent found, without
/// following links: whether it is a link and whether it is a directory.
#[derive(Clone, Copy, Debug, PartialEq, Eq, Structural)]
pub struct AncestorStep {
    pub is_symlink: bool,
    pub is_dir: bool,
}

/// What the folders from the top down to an origin's parent show, each
/// read in order (`None` when one could not be read), with the parent's
/// device: the first link or unreadable or non-directory folder decides.
pub open spec fn ancestors_from(steps: Seq<Option<AncestorStep>>, parent_dev: Option<u64>, i: int) -> AncestorProbe
    decreases steps.len() - i,
{
    if i < 0 || i >= steps.len() {
        match parent_dev {
            Some(d) => AncestorProbe::Device(d),
            None => AncestorProbe::Unavailable,
        }
    } else {
        match steps[i] {
            None => AncestorProbe::Unavailable,
            Some(step) => if step.is_symlink {
                AncestorProbe::SymlinkAncestor
            } else if !step.is_dir {
                AncestorProbe::Unavailable
            } else {
                ancestors_from(steps, parent_dev, i + 1)
            },
        }
    }
}

pub fn ancestor_probe(steps: &[Option<AncestorStep>], parent_dev: Option<u64>) -> (r: AncestorProbe)
    ensures
        r == ancestors_from(steps@, parent_dev, 0),
{
    let mut i: usize = 0;
    while i < steps.len()
        invariant
            i <= steps@.len(),
            ancestors_from(steps@, parent_dev, 0) == ancestors_from(steps@, parent_dev, i as int),
        decreases steps@.len() - i,
    {
        match steps[i] {
            None => {
                return AncestorProbe::Unavailable;
            },
            Some(step) => {
                if step.is_symlink {
                    return AncestorProbe::SymlinkAncestor;
                }
                if !step.is_dir {
                    return AncestorProbe::Unavailable;
                }
            },
        }
        i += 1;
    }
    match parent_dev {
        Some(d) => AncestorProbe::Device(d),
        None => AncestorProbe::Unavailable,
    }
}

#[derive(Clone, Copy, Debug, PartialEq, Eq, Structural)]
pub struct RestoreProbe {
    pub trash: TrashProbe,
    pub origin: OriginProbe,
    pub ancestors: AncestorProbe,
}

pub open spec fn device_state_spec(trash_dev: u64, parent_dev: u64) -> Option<ReceiptState> {
    if trash_dev != parent_dev {
        Some(ReceiptState::CrossDevice)
    } else {
        None
    }
}

pub fn device_state(trash_dev: u64, parent_dev: u64) -> (r: Option<ReceiptState>)
    ensures
        r == device_state_spec(trash_dev, parent_dev),
{
    if trash_dev != parent_dev {
        Some(ReceiptState::CrossDevice)
    } else {
        None
    }
}

/// The state of a receipt, given what the file system showed. The checks run
/// in order and the first that fails decides: a permanent cleanup, an item
/// already restored, a Finder-chosen destination, missing evidence, a Trash
/// path or origin outside the safe boundary, the Trash item gone, changed or
/// unreadable, the origin occupied or unreadable, an ancestor that is a
/// symlink or unreadable, another volume; otherwise the item is ready.
pub open spec fn classify_spec(r: ReceiptView, home: Seq<u8>, probe: RestoreProbe) -> ReceiptState {
    if r.action != ReceiptAction::Trash {
        ReceiptState::Permanent
    } else if r.restored_at_ms is Some {
        ReceiptState::Restored
    } else if r.finder_managed {
        ReceiptState::ManualOnly
    } else if r.trash is None {
        ReceiptState::Unavailable
    } else if !exact_trash_path_spec(r.trash->Some_0.path, home) || !safe_origin_spec(r.origin, home) {
        ReceiptState::UnsafeOrigin
    } else {
        match probe.trash {
            TrashProbe::NotFound => ReceiptState::Missing,
            TrashProbe::OtherKind => ReceiptState::Changed,
            TrashProbe::Unreadable => ReceiptState::Unavailable,
            TrashProbe::Found(actual) => if actual != r.trash->Some_0.identity {
                ReceiptState::Changed
            } else {
                match probe.origin {
                    OriginProbe::Occupied => ReceiptState::OriginOccupied,
                    OriginProbe::Unreadable => ReceiptState::Unavailable,
                    OriginProbe::Free => match probe.ancestors {
                        AncestorProbe::SymlinkAncestor => ReceiptState::SymlinkAncestor,
                        AncestorProbe::Unavailable => ReceiptState::Unavailable,
                        AncestorProbe::Device(parent_dev) => match device_state_spec(actual.dev, parent_dev) {
                            Some(s) => s,
                            None => ReceiptState::Ready,
                        },
                    },
                }
            },
        }
    }
}

pub fn classify(receipt: &Receipt, home: &[u8], probe: RestoreProbe) -> (state: ReceiptState)
    ensures
        state == classify_spec(receipt@, home@, probe),
{
    if receipt.action != ReceiptAction::Trash {
        return ReceiptState::Permanent;
    }
    if receipt.restored_at_ms.is_some() {
        return ReceiptState::Restored;
    }
    if receipt.finder_managed {
        return ReceiptState::ManualOnly;
    }
    let evidence = match &receipt.trash {
        Some(e) => e,
        None => {
            return ReceiptState::Unavailable;
        },
    };
    if !exact_trash_path(evidence.path.as_slice(), home) || !safe_origin(receipt.origin.as_slice(), home) {
        return ReceiptState::UnsafeOrigin;
    }
    let actual = match probe.trash {
        TrashProbe::Found(identity) => identity,
        TrashProbe::NotFound => {
            return ReceiptState::Missing;
        },
        TrashProbe::OtherKind => {
            return ReceiptState::Changed;
        },
        TrashProbe::Unreadable => {
            return ReceiptState::Unavailable;
        },
    };
    if actual != evidence.identity {
        return ReceiptState::Changed;
    }
    match probe.origin {
        OriginProbe::Occupied => {
            return ReceiptState::OriginOccupied;
        },
        OriginProbe::Unreadable => {
            return ReceiptState::Unavailable;
        },
        OriginProbe::Free => {},
    }
    let parent_dev = match probe.ancestors {
        AncestorProbe::Device(dev) => dev,
        AncestorProbe::SymlinkAncestor => {
            return ReceiptState::SymlinkAncestor;
        },
        AncestorProbe::Unavailable => {
            return ReceiptState::Unavailable;
        },
    };
    if let Some(state) = device_state(actual.dev, parent_dev) {
        return state;
    }
    ReceiptState::Ready
}

/// What keeps a receipt from being restored: nothing only when it is ready.
pub open spec fn block_spec(state: ReceiptState) -> Option<RestoreBlock> {
    match state {
        ReceiptState::Ready => None,
        ReceiptState::Missing => Some(RestoreBlock::Missing),
        ReceiptState::OriginOccupied => Some(RestoreBlock::OriginOccupied),
        ReceiptState::Changed => Some(RestoreBlock::Changed),
        ReceiptState::ManualOnly => Some(RestoreBlock::ManualOnly),
        ReceiptState::UnsafeOrigin => Some(RestoreBlock::UnsafeOrigin),
        ReceiptState::SymlinkAncestor => Some(RestoreBlock::SymlinkAncestor),
        ReceiptState::CrossDevice => Some(RestoreBlock::CrossDevice),
        ReceiptState::Unavailable => Some(RestoreBlock::Unavailable),
        ReceiptState::Restored => Some(RestoreBlock::Restored),
        ReceiptState::Permanent => Some(RestoreBlock::NotTrash),
    }
}

pub fn block_for_state(state: &ReceiptState) -> (r: Option<RestoreBlock>)
    ensures
        r == block_spec(*state),
{
    match state {
        ReceiptState::Ready => None,
        ReceiptState::Missing => Some(RestoreBlock::Missing),
        ReceiptState::OriginOccupied => Some(RestoreBlock::OriginOccupied),
        ReceiptState::Changed => Some(RestoreBlock::Changed),
        ReceiptState::ManualOnly => Some(RestoreBlock::ManualOnly),
        ReceiptState::UnsafeOrigin => Some(RestoreBlock::UnsafeOrigin),
        ReceiptState::SymlinkAncestor => Some(RestoreBlock::SymlinkAncestor),
        ReceiptState::CrossDevice => Some(RestoreBlock::CrossDevice),
        ReceiptState::Unavailable => Some(RestoreBlock::Unavailable),
        ReceiptState::Restored => Some(RestoreBlock::Restored),
        ReceiptState::Permanent => Some(RestoreBlock::NotTrash),
    }
}

/// A restore can be confirmed only once acknowledged and only for a ready receipt.
pub fn can_confirm_restore(acknowledged: bool, state: &ReceiptState) -> (r: bool)
    ensures
        r == (acknowledged && block_spec(*state) is None),
        r == (acknowledged && *state == ReceiptState::Ready),
{
    acknowledged && block_for_state(state).is_none()
}

// ───────────────────────── the history view ─────────────────────────

#[derive(Clone, Debug)]
pub struct ReceiptItem {
    pub receipt: Receipt,
    pub state: ReceiptState,
}

#[derive(Clone, Debug)]
pub struct ReclaimHistory {
    pub items: Vec<ReceiptItem>,
    pub freed_bytes: i64,
    pub pending_bytes: i64,
    pub recoverable_count: usize,
}

pub open spec fn items_view(items: Seq<ReceiptItem>) -> Seq<(ReceiptView, ReceiptState)> {
    items.map_values(|i: ReceiptItem| (i.receipt@, i.state))
}

/// Newest first: `a` comes after `b` when it completed earlier, or at the same
/// time with a smaller event id.
pub open spec fn receipt_after(a: (Receipt, RestoreProbe), b: (Receipt, RestoreProbe)) -> bool {
    a.0.completed_at_ms < b.0.completed_at_ms || (a.0.completed_at_ms == b.0.completed_at_ms
        && a.0.event_id < b.0.event_id)
}

pub open spec fn receipt_order() -> spec_fn((Receipt, RestoreProbe), (Receipt, RestoreProbe)) -> bool {
    |a: (Receipt, RestoreProbe), b: (Receipt, RestoreProbe)| receipt_after(a, b)
}

fn receipt_after_exec(a: &(Receipt, RestoreProbe), b: &(Receipt, RestoreProbe)) -> (r: bool)
    ensures
        r == receipt_after(*a, *b),
{
    a.0.completed_at_ms < b.0.completed_at_ms || (a.0.completed_at_ms == b.0.completed_at_ms
        && a.0.event_id < b.0.event_id)
}

/// Each receipt with its state.
pub open spec fn classified(s: Seq<(Receipt, RestoreProbe)>, home: Seq<u8>) -> Seq<(ReceiptView, ReceiptState)> {
    s.map_values(|x: (Receipt, RestoreProbe)| (x.0@, classify_spec(x.0@, home, x.1)))
}

pub open spec fn non_negative(v: i64) -> i64 {
    if v < 0 {
        0
    } else {
        v
    }
}

/// Whether a receipt's bytes are still waiting in the Trash to be reclaimed.
pub open spec fn still_pending(s: ReceiptState) -> bool {
    s == ReceiptState::Ready || s == ReceiptState::OriginOccupied || s == ReceiptState::SymlinkAncestor
        || s == ReceiptState::CrossDevice
}

/// Bytes freed for good: every cleanup that did not go to the Trash, held at
/// `i64::MAX`.
pub open spec fn freed_total(items: Seq<(ReceiptView, ReceiptState)>) -> i64
    decreases items.len(),
{
    if items.len() == 0 {
        0
    } else {
        let acc = freed_total(items.drop_last());
        if items.last().0.action != ReceiptAction::Trash {
            sat_add(acc, non_negative(items.last().0.freed_bytes))
        } else {
            acc
        }
    }
}

/// Bytes still in the Trash, over the receipts whose item is still there.
pub open spec fn pending_total(items: Seq<(ReceiptView, ReceiptState)>) -> i64
    decreases items.len(),
{
    if items.len() == 0 {
        0
    } else {
        let acc = pending_total(items.drop_last());
        if still_pending(items.last().1) {
            sat_add(acc, non_negative(items.last().0.pending_bytes))
        } else {
            acc
        }
    }
}

/// How many receipts are ready to restore.
pub open spec fn ready_count(items: Seq<(ReceiptView, ReceiptState)>) -> usize
    decreases items.len(),
{
    if items.len() == 0 {
        0
    } else {
        let acc = ready_count(items.drop_last());
        if items.last().1 == ReceiptState::Ready && acc < usize::MAX {
            (acc + 1) as usize
        } else {
            acc
        }
    }
}

/// The history view: the receipts newest first, each with its state, and
/// the freed, pending and recoverable totals over them.
pub fn refresh_history(probed: Vec<(Receipt, RestoreProbe)>, home: &[u8]) -> (h: ReclaimHistory)
    ensures
        items_view(h.items@) == classified(stable_sort(probed@, receipt_order()), home@),
        h.freed_bytes == freed_total(items_view(h.items@)),
        h.pending_bytes == pending_total(items_view(h.items@)),
        h.recoverable_count == ready_count(items_view(h.items@)),
{
    let mut sorted = sort_stable(probed, receipt_after_exec, Ghost(receipt_order()));
    let ghost all = sorted@;
    let n = sorted.len();
    let mut items: Vec<ReceiptItem> = Vec::new();
    let mut freed: i64 = 0;
    let mut pending: i64 = 0;
    let mut ready: usize = 0;
    let mut i: usize = 0;
    assert(sorted@ =~= all.skip(0));
    while i < n
        invariant
            n == all.len(),
            i <= n,
            sorted@ == all.skip(i as int),
            items_view(items@) == classified(all.take(i as int), home@),
            freed == freed_total(items_view(items@)),
            pending == pending_total(items_view(items@)),
            ready == ready_count(items_view(items@)),
        decreases n - i,
    {
        let (receipt, probe) = sorted.remove(0);
        let state = classify(&receipt, home, probe);
        let ghost before = items_view(items@);
        if receipt.action != ReceiptAction::Trash {
            let f = if receipt.freed_bytes < 0 { 0 } else { receipt.freed_bytes };
            freed = saturating_add_i64(freed, f);
        }
        if state == ReceiptState::Ready || state == ReceiptState::OriginOccupied || state
            == ReceiptState::SymlinkAncestor || state == ReceiptState::CrossDevice {
            let q = if receipt.pending_bytes < 0 { 0 } else { receipt.pending_bytes };
            pending = saturating_add_i64(pending, q);
        }
        if state == ReceiptState::Ready && ready < usize::MAX {
            ready = ready + 1;
        }
        let ghost rv = receipt@;
        items.push(ReceiptItem { receipt, state });
        proof {
            assert(all[i as int] == (all.skip(i as int))[0]);
            assert(all.take(i + 1) =~= all.take(i as int).push(all[i as int]));
            assert(items_view(items@) =~= before.push((rv, state)));
            assert(items_view(items@).drop_last() =~= before);
            assert(sorted@ =~= all.skip(i + 1));
        }
        i += 1;
    }
    proof {
        assert(all.take(n as int) =~= all);
    }
    ReclaimHistory { items, freed_bytes: freed, pending_bytes: pending, recoverable_count: ready }
}

/// What a restore will do, once every check passed.
pub struct RestorePlan {
    pub trash: Vec<u8>,
    pub origin: Vec<u8>,
    pub identity: FileIdentity,
    pub bytes: i64,
}

/// The plan to restore a receipt's item, or what blocks it: the item goes
/// from its recorded Trash path back to its origin, and must still have the
/// recorded identity.
pub fn preflight_restore(receipt: &Receipt, home: &[u8], probe: RestoreProbe) -> (r: Result<RestorePlan, RestoreBlock>)
    ensures
        match block_spec(classify_spec(receipt@, home@, probe)) {
            Some(b) => r == Err::<RestorePlan, RestoreBlock>(b),
            None => r is Ok && receipt.trash is Some && ({
                let plan = r->Ok_0;
                &&& plan.trash@ == receipt.trash->Some_0.path@
                &&& plan.origin@ == receipt.origin@
                &&& plan.identity == receipt.trash->Some_0.identity
                &&& plan.bytes == non_negative(receipt.pending_bytes)
            }),
        },
{
    let state = classify(receipt, home, probe);
    if let Some(block) = block_for_state(&state) {
        return Err(block);
    }
    let evidence = match &receipt.trash {
        Some(e) => e,
        None => {
            return Err(RestoreBlock::Unavailable);
        },
    };
    Ok(RestorePlan {
        trash: evidence.path.clone(),
        origin: receipt.origin.clone(),
        identity: evidence.identity,
        bytes: if receipt.pending_bytes < 0 { 0 } else { receipt.pending_bytes },
    })
}

#[derive(Clone, Debug)]
pub struct RestoreJob {
    pub receipt: Receipt,
    pub history_path: Vec<u8>,
    pub home: Vec<u8>,
}

#[derive(Debug)]
pub enum RestoreEvent {
    Started { title: String, bytes: i64 },
    Done { bytes: i64, origin: Vec<u8>, warning: Option<String> },
    Failed { error: String },
}

/// Where a restore stands.
#[derive(Clone, Copy, Debug, PartialEq, Eq, Structural)]
pub enum RestoreStage {
    Moving,
    Checking,
    Returning,
    Marking,
    Finished,
    Failed,
}

/// What the restorer must do next.
pub enum RestoreAction {
    /// Move the item from its Trash path to its origin, never replacing
    /// anything there.
    MoveBack,
    /// Read the identity of what is now at the origin.
    CheckIdentity,
    /// Move what is at the origin back to the Trash path.
    ReturnToTrash,
    /// Mark the receipt restored in the reclaim history.
    MarkRestored,
    /// The item is back, with a warning when the history was not updated.
    Finish { bytes: i64, origin: Vec<u8>, warning: Option<String> },
    /// The restore stopped; the message says what happened to the item.
    Fail(String),
}

/// What the restorer reports back.
pub enum RestoreStep {
    Moved(Result<(), String>),
    Identity(TrashProbe),
    Returned(Result<(), String>),
    Marked(Result<(), String>),
}

/// A restore in progress: the item moves back only once every check has
/// passed, and is returned to the Trash if what arrived is not the item that
/// was cleaned.
pub struct RestoreRun {
    pub stage: RestoreStage,
    pub plan: RestorePlan,
}

/// The reports each stage waits for.
pub open spec fn restore_expects(stage: RestoreStage, step: RestoreStep) -> bool {
    match stage {
        RestoreStage::Moving => step is Moved,
        RestoreStage::Checking => step is Identity,
        RestoreStage::Returning => step is Returned,
        RestoreStage::Marking => step is Marked,
        _ => false,
    }
}

pub open spec fn move_back_failed_text(e: Seq<char>) -> Seq<char> {
    "restore item to original path: "@ + e
}

pub open spec fn returned_text() -> Seq<char> {
    "restored item identity changed; item returned to Trash"@
}

pub open spec fn stranded_text(origin: Seq<u8>, e: Seq<char>) -> Seq<char> {
    "restored item identity changed; return it to Trash manually from "@ + lossy_text(origin) + " ("@ + e + ")"@
}

pub open spec fn history_warning_text(e: Seq<char>) -> Seq<char> {
    "restored, but reclaim history could not be updated — "@ + e
}

impl RestoreRun {
    /// Starts restoring a receipt's item, from what the file system shows:
    /// the first step moves it back, unless a check blocks it.
    pub fn start(receipt: &Receipt, home: &[u8], probe: RestoreProbe) -> (r: Result<(RestoreRun, RestoreAction), RestoreBlock>)
        ensures
            match block_spec(classify_spec(receipt@, home@, probe)) {
                Some(b) => r == Err::<(RestoreRun, RestoreAction), RestoreBlock>(b),
                None => r is Ok && receipt.trash is Some && ({
                    let (run, action) = r->Ok_0;
                    &&& run.stage == RestoreStage::Moving
                    &&& action is MoveBack
                    &&& run.plan.trash@ == receipt.trash->Some_0.path@
                    &&& run.plan.origin@ == receipt.origin@
                    &&& run.plan.identity == receipt.trash->Some_0.identity
                    &&& run.plan.bytes == non_negative(receipt.pending_bytes)
                }),
            },
    {
        match preflight_restore(receipt, home, probe) {
            Err(b) => Err(b),
            Ok(plan) => Ok((RestoreRun { stage: RestoreStage::Moving, plan }, RestoreAction::MoveBack)),
        }
    }

    /// Takes the next report and says what to do: a failed move stops the
    /// restore; what arrived at the origin is kept only when it has the
    /// recorded identity, and is otherwise returned to the Trash; a history
    /// that could not be updated leaves the item restored, with a warning.
    pub fn step(&mut self, step: RestoreStep) -> (a: RestoreAction)
        requires
            restore_expects(old(self).stage, step),
        ensures
            final(self).plan == old(self).plan,
            a is MarkRestored ==> old(self).stage == RestoreStage::Checking
                && step == RestoreStep::Identity(TrashProbe::Found(old(self).plan.identity)),
            match step {
                RestoreStep::Moved(Ok(_)) => final(self).stage == RestoreStage::Checking && a is CheckIdentity,
                RestoreStep::Moved(Err(e)) => final(self).stage == RestoreStage::Failed && a is Fail
                    && a->Fail_0@ == move_back_failed_text(e@),
                RestoreStep::Identity(found) => if found == TrashProbe::Found(old(self).plan.identity) {
                    final(self).stage == RestoreStage::Marking && a is MarkRestored
                } else {
                    final(self).stage == RestoreStage::Returning && a is ReturnToTrash
                },
                RestoreStep::Returned(Ok(_)) => final(self).stage == RestoreStage::Failed && a is Fail
                    && a->Fail_0@ == returned_text(),
                RestoreStep::Returned(Err(e)) => final(self).stage == RestoreStage::Failed && a is Fail
                    && a->Fail_0@ == stranded_text(old(self).plan.origin@, e@),
                RestoreStep::Marked(m) => final(self).stage == RestoreStage::Finished && (a matches RestoreAction::Finish {
                    bytes,
                    origin,
                    warning,
                } && bytes == old(self).plan.bytes && origin@ == old(self).plan.origin@ && match m {
                    Ok(_) => warning is None,
                    Err(e) => warning is Some && warning->Some_0@ == history_warning_text(e@),
                }),
            },
    {
        match step {
            RestoreStep::Moved(Ok(_)) => {
                self.stage = RestoreStage::Checking;
                RestoreAction::CheckIdentity
            },
            RestoreStep::Moved(Err(e)) => {
                self.stage = RestoreStage::Failed;
                let mut m = String::new();
                append_str(&mut m, "restore item to original path: ");
                append_str(&mut m, e.as_str());
                RestoreAction::Fail(m)
            },
            RestoreStep::Identity(found) => {
                let expected = TrashProbe::Found(self.plan.identity);
                if found == expected {
                    self.stage = RestoreStage::Marking;
                    RestoreAction::MarkRestored
                } else {
                    self.stage = RestoreStage::Returning;
                    RestoreAction::ReturnToTrash
                }
            },
            RestoreStep::Returned(Ok(_)) => {
                self.stage = RestoreStage::Failed;
                RestoreAction::Fail(owned("restored item identity changed; item returned to Trash"))
            },
            RestoreStep::Returned(Err(e)) => {
                self.stage = RestoreStage::Failed;
                let mut m = String::new();
                append_str(&mut m, "restored item identity changed; return it to Trash manually from ");
                let shown = lossy_string(self.plan.origin.as_slice());
                append_str(&mut m, shown.as_str());
                append_str(&mut m, " (");
                append_str(&mut m, e.as_str());
                append_str(&mut m, ")");
                RestoreAction::Fail(m)
            },
            RestoreStep::Marked(m) => {
                self.stage = RestoreStage::Finished;
                let warning = match m {
                    Ok(_) => None,
                    Err(e) => {
                        let mut w = String::new();
                        append_str(&mut w, "restored, but reclaim history could not be updated — ");
                        append_str(&mut w, e.as_str());
                        Some(w)
                    },
                };
                RestoreAction::Finish { bytes: self.plan.bytes, origin: self.plan.origin.clone(), warning }
            },
        }
    }
}

/// The history view lists receipts newest first: by completion time, and at
/// the same time by event id, both descending.
pub proof fn lemma_history_newest_first(probed: Seq<(Receipt, RestoreProbe)>, home: Seq<u8>)
    ensures
        forall|i: int, j: int|
            0 <= i < j < classified(stable_sort(probed, receipt_order()), home).len() ==> {
                let a = (#[trigger] classified(stable_sort(probed, receipt_order()), home)[i]).0;
                let b = (#[trigger] classified(stable_sort(probed, receipt_order()), home)[j]).0;
                a.completed_at_ms > b.completed_at_ms || (a.completed_at_ms == b.completed_at_ms
                    && a.event_id >= b.event_id)
            },
{
    let sorted = stable_sort(probed, receipt_order());
    crate::sorting::lemma_stable_sort_in_order(probed, receipt_order());
    let c = classified(sorted, home);
    assert forall|i: int, j: int| 0 <= i < j < c.len() implies {
        let a = (#[trigger] c[i]).0;
        let b = (#[trigger] c[j]).0;
        a.completed_at_ms > b.completed_at_ms || (a.completed_at_ms == b.completed_at_ms && a.event_id >= b.event_id)
    } by {
        assert(!receipt_after(sorted[i], sorted[j]));
    }
}

} // verus!
