//! Reading little-endian records from a byte buffer, front to back.

use vstd::prelude::*;
use crate::bytes::{copy_range, i64_at, read_i64, read_u128, read_u32, read_u64, u128_at, u32_at, u64_at};

verus! {

/// The end of a `len`-byte run starting at `off`, when the buffer holds it.
pub open spec fn span_end(b: Seq<u8>, off: int, len: int) -> Option<int> {
    if off + len > b.len() {
        None
    } else {
        Some(off + len)
    }
}

pub struct Reader<'a> {
    pub bytes: &'a [u8],
    pub offset: usize,
}

impl<'a> Reader<'a> {
    pub fn take(&mut self, len: usize) -> (r: Option<Vec<u8>>)
        requires
            old(self).offset <= old(self).bytes@.len(),
        ensures
            final(self).bytes == old(self).bytes,
            final(self).offset <= final(self).bytes@.len(),
            match span_end(old(self).bytes@, old(self).offset as int, len as int) {
                Some(end) => r is Some && final(self).offset == end && r->Some_0@
                    == old(self).bytes@.subrange(old(self).offset as int, end),
                None => r is None,
            },
    {
        if len > self.bytes.len() - self.offset {
            return None;
        }
        let value = copy_range(self.bytes, self.offset, len);
        self.offset = self.offset + len;
        Some(value)
    }

    pub fn u8(&mut self) -> (r: Option<u8>)
        requires
            old(self).offset <= old(self).bytes@.len(),
        ensures
            final(self).bytes == old(self).bytes,
            final(self).offset <= final(self).bytes@.len(),
            match span_end(old(self).bytes@, old(self).offset as int, 1) {
                Some(end) => r == Some(old(self).bytes@[old(self).offset as int]) && final(self).offset
                    == end,
                None => r is None,
            },
    {
        if self.offset >= self.bytes.len() {
            return None;
        }
        let v = self.bytes[self.offset];
        self.offset = self.offset + 1;
        Some(v)
    }

    pub fn u32(&mut self) -> (r: Option<u32>)
        requires
            old(self).offset <= old(self).bytes@.len(),
        ensures
            final(self).bytes == old(self).bytes,
            final(self).offset <= final(self).bytes@.len(),
            match span_end(old(self).bytes@, old(self).offset as int, 4) {
                Some(end) => r == Some(u32_at(old(self).bytes@, old(self).offset as int)) && final(self).offset == end,
                None => r is None,
            },
    {
        if 4 > self.bytes.len() - self.offset {
            return None;
        }
        let v = read_u32(self.bytes, self.offset);
        self.offset = self.offset + 4;
        Some(v)
    }

    pub fn u64(&mut self) -> (r: Option<u64>)
        requires
            old(self).offset <= old(self).bytes@.len(),
        ensures
            final(self).bytes == old(self).bytes,
            final(self).offset <= final(self).bytes@.len(),
            match span_end(old(self).bytes@, old(self).offset as int, 8) {
                Some(end) => r == Some(u64_at(old(self).bytes@, old(self).offset as int)) && final(self).offset == end,
                None => r is None,
            },
    {
        if 8 > self.bytes.len() - self.offset {
            return None;
        }
        let v = read_u64(self.bytes, self.offset);
        self.offset = self.offset + 8;
        Some(v)
    }

    pub fn i64(&mut self) -> (r: Option<i64>)
        requires
            old(self).offset <= old(self).bytes@.len(),
        ensures
            final(self).bytes == old(self).bytes,
            final(self).offset <= final(self).bytes@.len(),
            match span_end(old(self).bytes@, old(self).offset as int, 8) {
                Some(end) => r == Some(i64_at(old(self).bytes@, old(self).offset as int)) && final(self).offset == end,
                None => r is None,
            },
    {
        if 8 > self.bytes.len() - self.offset {
            return None;
        }
        let v = read_i64(self.bytes, self.offset);
        self.offset = self.offset + 8;
        Some(v)
    }

    pub fn u128(&mut self) -> (r: Option<u128>)
        requires
            old(self).offset <= old(self).bytes@.len(),
        ensures
            final(self).bytes == old(self).bytes,
            final(self).offset <= final(self).bytes@.len(),
            match span_end(old(self).bytes@, old(self).offset as int, 16) {
                Some(end) => r == Some(u128_at(old(self).bytes@, old(self).offset as int)) && final(self).offset == end,
                None => r is None,
            },
    {
        if 16 > self.bytes.len() - self.offset {
            return None;
        }
        let v = read_u128(self.bytes, self.offset);
        self.offset = self.offset + 16;
        Some(v)
    }
}

/// Writing `part` at `at` inside `whole`, itself at `off` in `b`, puts `part`
/// at `off + at` in `b`.
pub proof fn lemma_part_at(b: Seq<u8>, off: int, whole: Seq<u8>, at: int, part: Seq<u8>)
    requires
        0 <= off,
        0 <= at,
        at + part.len() <= whole.len(),
        off + whole.len() <= b.len(),
        b.subrange(off, off + whole.len()) == whole,
        whole.subrange(at, at + part.len()) == part,
    ensures
        b.subrange(off + at, off + at + part.len()) == part,
{
    assert(b.subrange(off + at, off + at + part.len()) =~= part) by {
        assert forall|k: int| 0 <= k < part.len() implies b.subrange(
            off + at,
            off + at + part.len(),
        )[k] == part[k] by {
            assert(b.subrange(off, off + whole.len())[at + k] == whole[at + k]);
            assert(whole.subrange(at, at + part.len())[k] == whole[at + k]);
        }
    }
}

} // verus!
