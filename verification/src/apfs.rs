//! APFS accounting read from the property lists `diskutil` prints.

use vstd::prelude::*;
use crate::reclaim_plan::{parse_i64, parse_i64_spec};
use crate::text::{count_from, count_matches, find_chars, find_from, first_non_ws, chars_prefix,
    str_starts_with, trim, trim_spec, push_char};

verus! {

pub struct ApfsAccounting {
    pub container_size: i64,
    pub container_free: i64,
    pub snapshot_count: Option<usize>,
    pub snapshot_bytes: Option<i64>,
    pub purgeable_bytes: Option<i64>,
}

/// The text after the first occurrence of `needle`.
pub open spec fn after_first(s: Seq<char>, needle: Seq<char>) -> Option<Seq<char>> {
    match find_from(s, needle, 0) {
        Some(i) => Some(s.skip(i + needle.len())),
        None => None,
    }
}

/// The text between the first `open` and the first `close` after it.
pub open spec fn between(s: Seq<char>, open: Seq<char>, close: Seq<char>) -> Option<Seq<char>> {
    match find_from(s, open, 0) {
        Some(i) => {
            let start = i + open.len();
            match find_from(s.skip(start), close, 0) {
                Some(j) => Some(s.subrange(start, start + j)),
                None => None,
            }
        },
        None => None,
    }
}

/// `<key>` + `key` + `</key>`.
pub open spec fn key_tag(key: Seq<char>) -> Seq<char> {
    "<key>"@ + key + "</key>"@
}

/// The integer stored under `key`: the first `<integer>` after the key, read
/// as an `i64` once trimmed.
pub open spec fn plist_integer_spec(xml: Seq<char>, key: Seq<char>) -> Option<i64> {
    match after_first(xml, key_tag(key)) {
        Some(tail) => match between(tail, "<integer>"@, "</integer>"@) {
            Some(text) => parse_i64_spec(trim_spec(text)),
            None => None,
        },
        None => None,
    }
}

fn push_all(out: &mut String, s: &str)
    ensures
        final(out)@ == old(out)@ + s@,
{
    let n = s.unicode_len();
    let mut i: usize = 0;
    while i < n
        invariant
            n == s@.len(),
            i <= n,
            out@ == old(out)@ + s@.take(i as int),
        decreases n - i,
    {
        push_char(out, s.get_char(i));
        assert(s@.take(i + 1) =~= s@.take(i as int).push(s@[i as int]));
        i += 1;
    }
    assert(s@.take(n as int) =~= s@);
}

fn after_first_exec<'a>(s: &'a str, needle: &str) -> (r: Option<&'a str>)
    ensures
        match after_first(s@, needle@) {
            Some(t) => r is Some && r->Some_0@ == t,
            None => r is None,
        },
{
    let n = s.unicode_len();
    let m = needle.unicode_len();
    let found = find_chars(s, needle);
    match found {
        Some(i) => {
            assert(i + m <= n);
            let t = s.substring_char(i + m, n);
            assert(t@ =~= s@.skip(i + m));
            Some(t)
        },
        None => None,
    }
}

fn between_exec<'a>(s: &'a str, open: &str, close: &str) -> (r: Option<&'a str>)
    ensures
        match between(s@, open@, close@) {
            Some(t) => r is Some && r->Some_0@ == t,
            None => r is None,
        },
{
    let n = s.unicode_len();
    let m = open.unicode_len();
    let found = find_chars(s, open);
    match found {
        Some(i) => {
            assert(i + m <= n);
            let start = i + m;
            let rest = s.substring_char(start, n);
            assert(rest@ =~= s@.skip(start as int));
            let k = close.unicode_len();
            let inner = find_chars(rest, close);
            match inner {
                Some(j) => {
                    assert(j + k <= rest@.len());
                    let r = s.substring_char(start, start + j);
                    Some(r)
                },
                None => None,
            }
        },
        None => None,
    }
}

pub fn plist_integer(xml: &str, key: &str) -> (r: Option<i64>)
    ensures
        r == plist_integer_spec(xml@, key@),
{
    let mut tag = String::new();
    push_all(&mut tag, "<key>");
    push_all(&mut tag, key);
    push_all(&mut tag, "</key>");
    assert(tag@ =~= key_tag(key@));
    match after_first_exec(xml, tag.as_str()) {
        Some(tail) => match between_exec(tail, "<integer>", "</integer>") {
            Some(text) => parse_i64(trim(text)),
            None => None,
        },
        None => None,
    }
}

/// How many snapshots the list holds: none for an empty `<array/>`, else
/// the `<dict>` entries of the first array after the `Snapshots` key.
pub open spec fn snapshot_count_spec(xml: Seq<char>) -> Option<usize> {
    match after_first(xml, "<key>Snapshots</key>"@) {
        Some(tail) => if chars_prefix("<array/>"@, tail.skip(first_non_ws(tail, 0))) {
            Some(0)
        } else {
            match between(tail, "<array>"@, "</array>"@) {
                Some(body) => Some(count_from(body, "<dict>"@, 0) as usize),
                None => None,
            }
        },
        None => None,
    }
}

pub fn snapshot_count(xml: &str) -> (r: Option<usize>)
    ensures
        r == snapshot_count_spec(xml@),
{
    match after_first_exec(xml, "<key>Snapshots</key>") {
        Some(tail) => {
            let n = tail.unicode_len();
            let mut a: usize = 0;
            while a < n && crate::text::is_whitespace(tail.get_char(a))
                invariant
                    n == tail@.len(),
                    a <= n,
                    first_non_ws(tail@, 0) == first_non_ws(tail@, a as int),
                decreases n - a,
            {
                a += 1;
            }
            if str_starts_with(tail.substring_char(a, n), "<array/>") {
                return Some(0);
            }
            match between_exec(tail, "<array>", "</array>") {
                Some(body) => {
                    proof {
                        reveal_strlit("<dict>");
                    }
                    Some(count_matches(body, "<dict>"))
                },
                None => None,
            }
        },
        None => None,
    }
}

#[derive(Clone, Copy, Debug, PartialEq, Eq, Structural)]
pub enum ApfsError {
    SizeUnavailable,
    FreeUnavailable,
}

pub open spec fn apfs_error_text(e: ApfsError) -> Seq<char> {
    match e {
        ApfsError::SizeUnavailable => "APFS container size is unavailable"@,
        ApfsError::FreeUnavailable => "APFS container free space is unavailable"@,
    }
}

impl ApfsError {
    pub fn message(self) -> (m: &'static str)
        ensures
            m@ == apfs_error_text(self),
    {
        match self {
            ApfsError::SizeUnavailable => "APFS container size is unavailable",
            ApfsError::FreeUnavailable => "APFS container free space is unavailable",
        }
    }
}

/// The accounting read from `diskutil info -plist` and, when it could be
/// listed, `diskutil apfs listSnapshots -plist`: the container size must be
/// positive and the free space within it.
pub open spec fn load_spec(info: Seq<char>, snapshots: Option<Seq<char>>) -> Result<(i64, i64, Option<usize>), ApfsError> {
    match plist_integer_spec(info, "APFSContainerSize"@) {
        Some(size) if size > 0 => match plist_integer_spec(info, "APFSContainerFree"@) {
            Some(free) if 0 <= free <= size => Ok(
                (
                    size,
                    free,
                    match snapshots {
                        Some(x) => snapshot_count_spec(x),
                        None => None,
                    },
                ),
            ),
            _ => Err(ApfsError::FreeUnavailable),
        },
        _ => Err(ApfsError::SizeUnavailable),
    }
}

pub fn load(info: &str, snapshots: Option<&str>) -> (r: Result<ApfsAccounting, ApfsError>)
    ensures
        match load_spec(info@, match snapshots { Some(s) => Some(s@), None => None }) {
            Ok((size, free, count)) => r is Ok && r->Ok_0.container_size == size
                && r->Ok_0.container_free == free && r->Ok_0.snapshot_count == count
                && r->Ok_0.snapshot_bytes is None && r->Ok_0.purgeable_bytes is None,
            Err(e) => r == Err::<ApfsAccounting, ApfsError>(e),
        },
{
    let size = match plist_integer(info, "APFSContainerSize") {
        Some(v) => v,
        None => {
            return Err(ApfsError::SizeUnavailable);
        },
    };
    if size <= 0 {
        return Err(ApfsError::SizeUnavailable);
    }
    let free = match plist_integer(info, "APFSContainerFree") {
        Some(v) => v,
        None => {
            return Err(ApfsError::FreeUnavailable);
        },
    };
    if free < 0 || free > size {
        return Err(ApfsError::FreeUnavailable);
    }
    let count = match snapshots {
        Some(xml) => snapshot_count(xml),
        None => None,
    };
    Ok(ApfsAccounting {
        container_size: size,
        container_free: free,
        snapshot_count: count,
        snapshot_bytes: None,
        purgeable_bytes: None,
    })
}

} // verus!
