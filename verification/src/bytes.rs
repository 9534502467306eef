//! Little-endian integers and raw byte runs, the building blocks of the
//! on-disk record formats.

use vstd::prelude::*;

verus! {

pub open spec fn le_u32(v: u32) -> Seq<u8> {
    seq![
        (v & 0xff) as u8,
        ((v >> 8u32) & 0xff) as u8,
        ((v >> 16u32) & 0xff) as u8,
        ((v >> 24u32) & 0xff) as u8,
    ]
}

pub open spec fn le_u64(v: u64) -> Seq<u8> {
    seq![
        (v & 0xff) as u8,
        ((v >> 8u64) & 0xff) as u8,
        ((v >> 16u64) & 0xff) as u8,
        ((v >> 24u64) & 0xff) as u8,
        ((v >> 32u64) & 0xff) as u8,
        ((v >> 40u64) & 0xff) as u8,
        ((v >> 48u64) & 0xff) as u8,
        ((v >> 56u64) & 0xff) as u8,
    ]
}

pub open spec fn le_i64(v: i64) -> Seq<u8> {
    le_u64(v as u64)
}

pub open spec fn le_u128(v: u128) -> Seq<u8> {
    le_u64(v as u64) + le_u64((v >> 64u128) as u64)
}

pub open spec fn u32_of(b0: u8, b1: u8, b2: u8, b3: u8) -> u32 {
    (b0 as u32) | ((b1 as u32) << 8u32) | ((b2 as u32) << 16u32) | ((b3 as u32) << 24u32)
}

/// The `u32` stored little-endian in `b[o..o+4]`.
pub open spec fn u32_at(b: Seq<u8>, o: int) -> u32 {
    u32_of(b[o], b[o + 1], b[o + 2], b[o + 3])
}

pub open spec fn u64_of(lo: u32, hi: u32) -> u64 {
    (lo as u64) | ((hi as u64) << 32u64)
}

/// The `u64` stored little-endian in `b[o..o+8]`.
pub open spec fn u64_at(b: Seq<u8>, o: int) -> u64 {
    u64_of(u32_at(b, o), u32_at(b, o + 4))
}

pub open spec fn i64_at(b: Seq<u8>, o: int) -> i64 {
    u64_at(b, o) as i64
}

pub open spec fn u128_at(b: Seq<u8>, o: int) -> u128 {
    (u64_at(b, o) as u128) | ((u64_at(b, o + 8) as u128) << 64u128)
}

proof fn lemma_u32_bits(v: u32)
    ensures
        u32_of(
            (v & 0xff) as u8,
            ((v >> 8u32) & 0xff) as u8,
            ((v >> 16u32) & 0xff) as u8,
            ((v >> 24u32) & 0xff) as u8,
        ) == v,
{
    assert(((v & 0xff) as u8) as u32 | ((((v >> 8u32) & 0xff) as u8) as u32) << 8u32 | ((((v
        >> 16u32) & 0xff) as u8) as u32) << 16u32 | ((((v >> 24u32) & 0xff) as u8) as u32)
        << 24u32 == v) by (bit_vector);
}

proof fn lemma_u64_split(v: u64)
    ensures
        ((v & 0xff) as u8) == (((v as u32) & 0xff) as u8),
        (((v >> 8u64) & 0xff) as u8) == ((((v as u32) >> 8u32) & 0xff) as u8),
        (((v >> 16u64) & 0xff) as u8) == ((((v as u32) >> 16u32) & 0xff) as u8),
        (((v >> 24u64) & 0xff) as u8) == ((((v as u32) >> 24u32) & 0xff) as u8),
        (((v >> 32u64) & 0xff) as u8) == (((((v >> 32u64) as u32)) & 0xff) as u8),
        (((v >> 40u64) & 0xff) as u8) == ((((v >> 32u64) as u32 >> 8u32) & 0xff) as u8),
        (((v >> 48u64) & 0xff) as u8) == ((((v >> 32u64) as u32 >> 16u32) & 0xff) as u8),
        (((v >> 56u64) & 0xff) as u8) == ((((v >> 32u64) as u32 >> 24u32) & 0xff) as u8),
        u64_of(v as u32, (v >> 32u64) as u32) == v,
{
    assert(((v & 0xff) as u8) == (((v as u32) & 0xff) as u8)) by (bit_vector);
    assert((((v >> 8u64) & 0xff) as u8) == ((((v as u32) >> 8u32) & 0xff) as u8)) by (bit_vector);
    assert((((v >> 16u64) & 0xff) as u8) == ((((v as u32) >> 16u32) & 0xff) as u8))
        by (bit_vector);
    assert((((v >> 24u64) & 0xff) as u8) == ((((v as u32) >> 24u32) & 0xff) as u8))
        by (bit_vector);
    assert((((v >> 32u64) & 0xff) as u8) == (((((v >> 32u64) as u32)) & 0xff) as u8))
        by (bit_vector);
    assert((((v >> 40u64) & 0xff) as u8) == ((((v >> 32u64) as u32 >> 8u32) & 0xff) as u8))
        by (bit_vector);
    assert((((v >> 48u64) & 0xff) as u8) == ((((v >> 32u64) as u32 >> 16u32) & 0xff) as u8))
        by (bit_vector);
    assert((((v >> 56u64) & 0xff) as u8) == ((((v >> 32u64) as u32 >> 24u32) & 0xff) as u8))
        by (bit_vector);
    assert(((v as u32) as u64) | ((((v >> 32u64) as u32) as u64) << 32u64) == v) by (bit_vector);
}

/// Reading back a written `u32` gives the value.
pub proof fn lemma_u32_round_trip(v: u32, b: Seq<u8>, o: int)
    requires
        0 <= o,
        o + 4 <= b.len(),
        b.subrange(o, o + 4) == le_u32(v),
    ensures
        u32_at(b, o) == v,
{
    assert(b[o] == b.subrange(o, o + 4)[0]);
    assert(b[o + 1] == b.subrange(o, o + 4)[1]);
    assert(b[o + 2] == b.subrange(o, o + 4)[2]);
    assert(b[o + 3] == b.subrange(o, o + 4)[3]);
    lemma_u32_bits(v);
}

/// Reading back a written `u64` gives the value.
pub proof fn lemma_u64_round_trip(v: u64, b: Seq<u8>, o: int)
    requires
        0 <= o,
        o + 8 <= b.len(),
        b.subrange(o, o + 8) == le_u64(v),
    ensures
        u64_at(b, o) == v,
{
    lemma_u64_split(v);
    let lo = v as u32;
    let hi = (v >> 32u64) as u32;
    assert(b.subrange(o, o + 4) =~= le_u32(lo)) by {
        assert forall|k: int| 0 <= k < 4 implies b.subrange(o, o + 4)[k] == le_u32(lo)[k] by {
            assert(b.subrange(o, o + 4)[k] == b.subrange(o, o + 8)[k]);
        }
    }
    assert(b.subrange(o + 4, o + 8) =~= le_u32(hi)) by {
        assert forall|k: int| 0 <= k < 4 implies b.subrange(o + 4, o + 8)[k] == le_u32(hi)[k] by {
            assert(b.subrange(o + 4, o + 8)[k] == b.subrange(o, o + 8)[k + 4]);
        }
    }
    lemma_u32_round_trip(lo, b, o);
    lemma_u32_round_trip(hi, b, o + 4);
}

/// Reading back a written `i64` gives the value.
pub proof fn lemma_i64_round_trip(v: i64, b: Seq<u8>, o: int)
    requires
        0 <= o,
        o + 8 <= b.len(),
        b.subrange(o, o + 8) == le_i64(v),
    ensures
        i64_at(b, o) == v,
{
    lemma_u64_round_trip(v as u64, b, o);
    assert(((v as u64) as i64) == v) by (bit_vector);
}

/// Reading back a written `u128` gives the value.
pub proof fn lemma_u128_round_trip(v: u128, b: Seq<u8>, o: int)
    requires
        0 <= o,
        o + 16 <= b.len(),
        b.subrange(o, o + 16) == le_u128(v),
    ensures
        u128_at(b, o) == v,
{
    let lo = v as u64;
    let hi = (v >> 64u128) as u64;
    assert(b.subrange(o, o + 8) =~= le_u64(lo)) by {
        assert forall|k: int| 0 <= k < 8 implies b.subrange(o, o + 8)[k] == le_u64(lo)[k] by {
            assert(b.subrange(o, o + 8)[k] == b.subrange(o, o + 16)[k]);
        }
    }
    assert(b.subrange(o + 8, o + 16) =~= le_u64(hi)) by {
        assert forall|k: int| 0 <= k < 8 implies b.subrange(o + 8, o + 16)[k] == le_u64(hi)[k] by {
            assert(b.subrange(o + 8, o + 16)[k] == b.subrange(o, o + 16)[k + 8]);
        }
    }
    lemma_u64_round_trip(lo, b, o);
    lemma_u64_round_trip(hi, b, o + 8);
    assert(((v as u64) as u128) | ((((v >> 64u128) as u64) as u128) << 64u128) == v)
        by (bit_vector);
}

pub fn push_u32(out: &mut Vec<u8>, v: u32)
    ensures
        final(out)@ == old(out)@ + le_u32(v),
{
    out.push((v & 0xff) as u8);
    out.push(((v >> 8) & 0xff) as u8);
    out.push(((v >> 16) & 0xff) as u8);
    out.push(((v >> 24) & 0xff) as u8);
    assert(out@ =~= old(out)@ + le_u32(v));
}

pub fn push_u64(out: &mut Vec<u8>, v: u64)
    ensures
        final(out)@ == old(out)@ + le_u64(v),
{
    out.push((v & 0xff) as u8);
    out.push(((v >> 8) & 0xff) as u8);
    out.push(((v >> 16) & 0xff) as u8);
    out.push(((v >> 24) & 0xff) as u8);
    out.push(((v >> 32) & 0xff) as u8);
    out.push(((v >> 40) & 0xff) as u8);
    out.push(((v >> 48) & 0xff) as u8);
    out.push(((v >> 56) & 0xff) as u8);
    assert(out@ =~= old(out)@ + le_u64(v));
}

pub fn push_i64(out: &mut Vec<u8>, v: i64)
    ensures
        final(out)@ == old(out)@ + le_i64(v),
{
    push_u64(out, v as u64);
}

pub fn push_u128(out: &mut Vec<u8>, v: u128)
    ensures
        final(out)@ == old(out)@ + le_u128(v),
{
    push_u64(out, v as u64);
    push_u64(out, (v >> 64) as u64);
    assert(out@ =~= old(out)@ + le_u128(v));
}

/// Append raw bytes.
pub fn push_bytes(out: &mut Vec<u8>, bytes: &[u8])
    ensures
        final(out)@ == old(out)@ + bytes@,
{
    let mut i: usize = 0;
    while i < bytes.len()
        invariant
            i <= bytes.len(),
            out@ == old(out)@ + bytes@.take(i as int),
        decreases bytes.len() - i,
    {
        out.push(bytes[i]);
        assert(bytes@.take(i + 1) =~= bytes@.take(i as int).push(bytes@[i as int]));
        i += 1;
    }
    assert(bytes@.take(bytes.len() as int) =~= bytes@);
}

pub fn read_u32(b: &[u8], o: usize) -> (v: u32)
    requires
        o + 4 <= b.len(),
    ensures
        v == u32_at(b@, o as int),
{
    (b[o] as u32) | ((b[o + 1] as u32) << 8) | ((b[o + 2] as u32) << 16) | ((b[o + 3] as u32) << 24)
}

pub fn read_u64(b: &[u8], o: usize) -> (v: u64)
    requires
        o + 8 <= b.len(),
    ensures
        v == u64_at(b@, o as int),
{
    let lo = read_u32(b, o);
    let hi = read_u32(b, o + 4);
    (lo as u64) | ((hi as u64) << 32)
}

pub fn read_i64(b: &[u8], o: usize) -> (v: i64)
    requires
        o + 8 <= b.len(),
    ensures
        v == i64_at(b@, o as int),
{
    read_u64(b, o) as i64
}

pub fn read_u128(b: &[u8], o: usize) -> (v: u128)
    requires
        o + 16 <= b.len(),
    ensures
        v == u128_at(b@, o as int),
{
    let lo = read_u64(b, o);
    let hi = read_u64(b, o + 8);
    (lo as u128) | ((hi as u128) << 64)
}

/// Copy `b[o..o+len]`.
pub fn copy_range(b: &[u8], o: usize, len: usize) -> (out: Vec<u8>)
    requires
        o + len <= b.len(),
    ensures
        out@ == b@.subrange(o as int, o + len),
{
    let mut out: Vec<u8> = Vec::new();
    let mut i: usize = 0;
    while i < len
        invariant
            i <= len,
            o + len <= b.len(),
            out@ == b@.subrange(o as int, o + i),
        decreases len - i,
    {
        out.push(b[o + i]);
        assert(b@.subrange(o as int, o + i + 1) =~= b@.subrange(o as int, o + i).push(b@[o + i]));
        i += 1;
    }
    out
}

/// Whether two byte runs are equal.
pub fn bytes_eq(a: &[u8], b: &[u8]) -> (r: bool)
    ensures
        r == (a@ == b@),
{
    if a.len() != b.len() {
        return false;
    }
    let mut i: usize = 0;
    while i < a.len()
        invariant
            i <= a.len(),
            a.len() == b.len(),
            a@.take(i as int) == b@.take(i as int),
        decreases a.len() - i,
    {
        if a[i] != b[i] {
            assert(a@[i as int] != b@[i as int]);
            return false;
        }
        assert(a@.take(i + 1) =~= a@.take(i as int).push(a@[i as int]));
        assert(b@.take(i + 1) =~= b@.take(i as int).push(b@[i as int]));
        i += 1;
    }
    assert(a@.take(a.len() as int) =~= a@);
    assert(b@.take(b.len() as int) =~= b@);
    true
}

/// Lexicographic order of byte strings, the order of `[u8]`.
pub open spec fn bytes_lt(a: Seq<u8>, b: Seq<u8>) -> bool
    decreases a.len(),
{
    if a.len() == 0 {
        b.len() > 0
    } else if b.len() == 0 {
        false
    } else if a[0] != b[0] {
        a[0] < b[0]
    } else {
        bytes_lt(a.drop_first(), b.drop_first())
    }
}

pub fn bytes_less(a: &[u8], b: &[u8]) -> (r: bool)
    ensures
        r == bytes_lt(a@, b@),
{
    let mut i: usize = 0;
    assert(a@.skip(0) =~= a@);
    assert(b@.skip(0) =~= b@);
    while i < a.len() && i < b.len() && a[i] == b[i]
        invariant
            i <= a@.len(),
            i <= b@.len(),
            bytes_lt(a@, b@) == bytes_lt(a@.skip(i as int), b@.skip(i as int)),
        decreases a.len() - i,
    {
        proof {
            assert(a@.skip(i as int).drop_first() =~= a@.skip(i + 1));
            assert(b@.skip(i as int).drop_first() =~= b@.skip(i + 1));
        }
        i += 1;
    }
    if i == a.len() {
        i < b.len()
    } else if i == b.len() {
        false
    } else {
        a[i] < b[i]
    }
}

/// No byte string comes before itself.
pub proof fn lemma_bytes_lt_irreflexive(a: Seq<u8>)
    ensures
        !bytes_lt(a, a),
    decreases a.len(),
{
    if a.len() > 0 {
        lemma_bytes_lt_irreflexive(a.drop_first());
    }
}

/// The byte order of strings chains.
pub proof fn lemma_bytes_lt_transitive(a: Seq<u8>, b: Seq<u8>, c: Seq<u8>)
    requires
        bytes_lt(a, b),
        bytes_lt(b, c),
    ensures
        bytes_lt(a, c),
    decreases a.len(),
{
    if a.len() > 0 && b.len() > 0 && c.len() > 0 && a[0] == b[0] && b[0] == c[0] {
        lemma_bytes_lt_transitive(a.drop_first(), b.drop_first(), c.drop_first());
    }
}

} // verus!
