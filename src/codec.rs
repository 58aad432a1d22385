//! Big-endian integers, record headers and index slots.
use vstd::prelude::*;

verus! {

/// Bytes in a record header: a 4-byte payload length, then an 8-byte offset.
pub const HEADER_LEN: usize = 12;

/// Bytes in one index slot: an 8-byte start, then a 4-byte size.
pub const SLOT_LEN: usize = 12;

pub open spec fn be16(v: u16) -> Seq<u8> {
    seq![(v >> 8u16) as u8, v as u8]
}

pub open spec fn be32(v: u32) -> Seq<u8> {
    seq![(v >> 24u32) as u8, (v >> 16u32) as u8, (v >> 8u32) as u8, v as u8]
}

pub open spec fn be64(v: u64) -> Seq<u8> {
    seq![
        (v >> 56u64) as u8,
        (v >> 48u64) as u8,
        (v >> 40u64) as u8,
        (v >> 32u64) as u8,
        (v >> 24u64) as u8,
        (v >> 16u64) as u8,
        (v >> 8u64) as u8,
        v as u8,
    ]
}

/// The value of two big-endian bytes.
pub open spec fn u16_of(b: Seq<u8>) -> u16 {
    ((b[0] as u16) << 8u16) | (b[1] as u16)
}

/// The value of four big-endian bytes.
pub open spec fn u32_of(b: Seq<u8>) -> u32 {
    ((b[0] as u32) << 24u32) | ((b[1] as u32) << 16u32) | ((b[2] as u32) << 8u32) | (b[3] as u32)
}

/// The value of eight big-endian bytes.
pub open spec fn u64_of(b: Seq<u8>) -> u64 {
    ((b[0] as u64) << 56u64) | ((b[1] as u64) << 48u64) | ((b[2] as u64) << 40u64) | ((b[3] as u64)
        << 32u64) | ((b[4] as u64) << 24u64) | ((b[5] as u64) << 16u64) | ((b[6] as u64) << 8u64)
        | (b[7] as u64)
}

pub proof fn lemma_u16_round_trip(v: u16)
    ensures
        be16(v).len() == 2,
        u16_of(be16(v)) == v,
{
    let (a, b) = ((v >> 8u16) as u8, v as u8);
    assert(((a as u16) << 8u16) | (b as u16) == v) by (bit_vector)
        requires
            a == (v >> 8u16) as u8,
            b == v as u8,
    ;
}

pub proof fn lemma_u32_round_trip(v: u32)
    ensures
        be32(v).len() == 4,
        u32_of(be32(v)) == v,
{
    let (a, b, c, d) = ((v >> 24u32) as u8, (v >> 16u32) as u8, (v >> 8u32) as u8, v as u8);
    assert(((a as u32) << 24u32) | ((b as u32) << 16u32) | ((c as u32) << 8u32) | (d as u32) == v)
        by (bit_vector)
        requires
            a == (v >> 24u32) as u8,
            b == (v >> 16u32) as u8,
            c == (v >> 8u32) as u8,
            d == v as u8,
    ;
}

pub proof fn lemma_u64_round_trip(v: u64)
    ensures
        be64(v).len() == 8,
        u64_of(be64(v)) == v,
{
    let b = be64(v);
    let (b0, b1, b2, b3, b4, b5, b6, b7) = (b[0], b[1], b[2], b[3], b[4], b[5], b[6], b[7]);
    assert(((b0 as u64) << 56u64) | ((b1 as u64) << 48u64) | ((b2 as u64) << 40u64) | ((b3 as u64)
        << 32u64) | ((b4 as u64) << 24u64) | ((b5 as u64) << 16u64) | ((b6 as u64) << 8u64) | (
    b7 as u64) == v) by (bit_vector)
        requires
            b0 == (v >> 56u64) as u8,
            b1 == (v >> 48u64) as u8,
            b2 == (v >> 40u64) as u8,
            b3 == (v >> 32u64) as u8,
            b4 == (v >> 24u64) as u8,
            b5 == (v >> 16u64) as u8,
            b6 == (v >> 8u64) as u8,
            b7 == v as u8,
    ;
}

/// Appends `v` as two big-endian bytes.
pub fn push_be16(out: &mut Vec<u8>, v: u16)
    ensures
        final(out)@ == old(out)@ + be16(v),
{
    out.push((v >> 8u16) as u8);
    out.push(v as u8);
    assert(final(out)@ =~= old(out)@ + be16(v));
}

/// Appends `v` as four big-endian bytes.
pub fn push_be32(out: &mut Vec<u8>, v: u32)
    ensures
        final(out)@ == old(out)@ + be32(v),
{
    out.push((v >> 24u32) as u8);
    out.push((v >> 16u32) as u8);
    out.push((v >> 8u32) as u8);
    out.push(v as u8);
    assert(final(out)@ =~= old(out)@ + be32(v));
}

/// Appends `v` as eight big-endian bytes.
pub fn push_be64(out: &mut Vec<u8>, v: u64)
    ensures
        final(out)@ == old(out)@ + be64(v),
{
    out.push((v >> 56u64) as u8);
    out.push((v >> 48u64) as u8);
    out.push((v >> 40u64) as u8);
    out.push((v >> 32u64) as u8);
    out.push((v >> 24u64) as u8);
    out.push((v >> 16u64) as u8);
    out.push((v >> 8u64) as u8);
    out.push(v as u8);
    assert(final(out)@ =~= old(out)@ + be64(v));
}

/// Reads two big-endian bytes at `at`.
pub fn read_be16(b: &[u8], at: usize) -> (r: u16)
    requires
        at + 2 <= b@.len(),
    ensures
        r == u16_of(b@.subrange(at as int, at + 2)),
{
    ((b[at] as u16) << 8u16) | (b[at + 1] as u16)
}

/// Reads four big-endian bytes at `at`.
pub fn read_be32(b: &[u8], at: usize) -> (r: u32)
    requires
        at + 4 <= b@.len(),
    ensures
        r == u32_of(b@.subrange(at as int, at + 4)),
{
    ((b[at] as u32) << 24u32) | ((b[at + 1] as u32) << 16u32) | ((b[at + 2] as u32) << 8u32) | (b[at
        + 3] as u32)
}

/// Reads eight big-endian bytes at `at`.
pub fn read_be64(b: &[u8], at: usize) -> (r: u64)
    requires
        at + 8 <= b@.len(),
    ensures
        r == u64_of(b@.subrange(at as int, at + 8)),
{
    ((b[at] as u64) << 56u64) | ((b[at + 1] as u64) << 48u64) | ((b[at + 2] as u64) << 40u64) | ((b[at
        + 3] as u64) << 32u64) | ((b[at + 4] as u64) << 24u64) | ((b[at + 5] as u64) << 16u64) | ((b[at
        + 6] as u64) << 8u64) | (b[at + 7] as u64)
}

/// The 12-byte header of a record: payload length, then logical offset.
pub open spec fn header_bytes(len: u32, offset: u64) -> Seq<u8> {
    be32(len) + be64(offset)
}

/// A record as it is stored: its header, then the payload.
pub open spec fn record_bytes(payload: Seq<u8>, offset: u64) -> Seq<u8> {
    header_bytes(payload.len() as u32, offset) + payload
}

/// An index slot: where the record starts in the data file, and its size.
pub open spec fn slot_bytes(start: u64, size: u32) -> Seq<u8> {
    be64(start) + be32(size)
}

/// The payload length written in the header at `at`.
pub open spec fn header_len_at(data: Seq<u8>, at: int) -> u32 {
    u32_of(data.subrange(at, at + 4))
}

/// The logical offset written in the header at `at`.
pub open spec fn header_offset_at(data: Seq<u8>, at: int) -> u64 {
    u64_of(data.subrange(at + 4, at + 12))
}

/// The start recorded in slot `k` of an index.
pub open spec fn slot_start(index: Seq<u8>, k: int) -> u64 {
    u64_of(index.subrange(12 * k, 12 * k + 8))
}

/// The size recorded in slot `k` of an index.
pub open spec fn slot_size(index: Seq<u8>, k: int) -> u32 {
    u32_of(index.subrange(12 * k + 8, 12 * k + 12))
}

/// A slot that was never written reads as zero start and zero size.
pub open spec fn slot_is_empty(index: Seq<u8>, k: int) -> bool {
    slot_start(index, k) == 0 && slot_size(index, k) == 0
}

/// `s` with the bytes from `at` on replaced by `b`.
pub open spec fn splice(s: Seq<u8>, at: int, b: Seq<u8>) -> Seq<u8> {
    s.subrange(0, at) + b + s.subrange(at + b.len(), s.len() as int)
}

pub open spec fn zeros(n: nat) -> Seq<u8> {
    Seq::new(n, |i: int| 0u8)
}

pub proof fn lemma_zero_values(b: Seq<u8>)
    requires
        b.len() >= 4,
        forall|i: int| 0 <= i < b.len() ==> b[i] == 0,
    ensures
        u32_of(b) == 0,
        b.len() >= 8 ==> u64_of(b) == 0,
{
    let (b0, b1, b2, b3) = (b[0], b[1], b[2], b[3]);
    assert(((b0 as u32) << 24u32) | ((b1 as u32) << 16u32) | ((b2 as u32) << 8u32) | (b3 as u32)
        == 0) by (bit_vector)
        requires
            b0 == 0 && b1 == 0 && b2 == 0 && b3 == 0,
    ;
    if b.len() >= 8 {
        let (b4, b5, b6, b7) = (b[4], b[5], b[6], b[7]);
        assert(((b0 as u64) << 56u64) | ((b1 as u64) << 48u64) | ((b2 as u64) << 40u64) | ((b3
            as u64) << 32u64) | ((b4 as u64) << 24u64) | ((b5 as u64) << 16u64) | ((b6 as u64)
            << 8u64) | (b7 as u64) == 0) by (bit_vector)
            requires
                b0 == 0 && b1 == 0 && b2 == 0 && b3 == 0 && b4 == 0 && b5 == 0 && b6 == 0 && b7
                    == 0,
        ;
    }
}

/// The header at the front of a stored record reads back its length and offset.
pub proof fn lemma_header_read_back(data: Seq<u8>, payload: Seq<u8>, offset: u64)
    requires
        payload.len() <= u32::MAX,
    ensures
        header_len_at(data + record_bytes(payload, offset), data.len() as int) == payload.len(),
        header_offset_at(data + record_bytes(payload, offset), data.len() as int) == offset,
        (data + record_bytes(payload, offset)).subrange(
            data.len() + 12 as int,
            data.len() + 12 + payload.len() as int,
        ) == payload,
{
    lemma_u64_round_trip(offset);
    lemma_u32_round_trip(payload.len() as u32);
    let n = data + record_bytes(payload, offset);
    let d = data.len() as int;
    assert(n.subrange(d, d + 4) =~= be32(payload.len() as u32));
    assert(n.subrange(d + 4, d + 12) =~= be64(offset));
    assert(n.subrange(d + 12, d + 12 + payload.len()) =~= payload);
}

/// The stored form of a record: header, then payload.
pub fn encode_record(payload: &[u8], offset: u64) -> (r: Vec<u8>)
    requires
        payload@.len() <= u32::MAX,
    ensures
        r@ == record_bytes(payload@, offset),
{
    let mut r: Vec<u8> = Vec::new();
    push_be32(&mut r, payload.len() as u32);
    push_be64(&mut r, offset);
    let mut i: usize = 0;
    while i < payload.len()
        invariant
            i <= payload@.len(),
            r@ == header_bytes(payload@.len() as u32, offset) + payload@.subrange(0, i as int),
        decreases payload@.len() - i,
    {
        r.push(payload[i]);
        assert(payload@.subrange(0, i + 1) =~= payload@.subrange(0, i as int).push(payload@[i as int]));
        i = i + 1;
    }
    assert(payload@.subrange(0, i as int) =~= payload@);
    r
}

/// An index slot followed by an empty slot.
pub fn encode_slot_pair(start: u64, size: u32) -> (r: Vec<u8>)
    ensures
        r@ == slot_bytes(start, size) + zeros(12),
{
    let mut r: Vec<u8> = Vec::new();
    push_be64(&mut r, start);
    push_be32(&mut r, size);
    let mut i: usize = 0;
    while i < 12
        invariant
            i <= 12,
            r@ == slot_bytes(start, size) + zeros(i as nat),
        decreases 12 - i,
    {
        r.push(0u8);
        assert(zeros((i + 1) as nat) =~= zeros(i as nat).push(0u8));
        i = i + 1;
    }
    r
}

/// Reads slot `k` of an index as (start, size).
pub fn read_slot(index: &[u8], k: usize) -> (r: (u64, u32))
    requires
        12 * k + 12 <= index@.len(),
    ensures
        r == (slot_start(index@, k as int), slot_size(index@, k as int)),
{
    let _n = index.len();
    let at = 12 * k;
    (read_be64(index, at), read_be32(index, at + 8))
}

/// Overwrites the bytes of `v` from `at` on with `b`.
pub fn write_at(v: &mut Vec<u8>, at: usize, b: &[u8])
    requires
        at + b@.len() <= old(v)@.len(),
    ensures
        final(v)@ == splice(old(v)@, at as int, b@),
{
    let mut i: usize = 0;
    while i < b.len()
        invariant
            i <= b@.len(),
            at + b@.len() <= v@.len(),
            v@.len() == old(v)@.len(),
            v@ == splice(old(v)@, at as int, b@.subrange(0, i as int)),
        decreases b@.len() - i,
    {
        let _n = v.len();
        let ghost pv = v@;
        let x = b[i];
        v[at + i] = x;
        assert(v@ == pv.update(at + i, x));
        assert(splice(old(v)@, at as int, b@.subrange(0, i + 1)) =~= v@);
        i = i + 1;
    }
    assert(b@.subrange(0, i as int) =~= b@);
}

/// Records back to back, each with its offset.
pub open spec fn records_concat(rs: Seq<(u64, Seq<u8>)>) -> Seq<u8>
    decreases rs.len(),
{
    if rs.len() == 0 {
        Seq::empty()
    } else {
        records_concat(rs.drop_last()) + record_bytes(rs.last().1, rs.last().0)
    }
}

/// The first record of a run comes first in its bytes.
pub proof fn lemma_records_concat_front(rs: Seq<(u64, Seq<u8>)>)
    requires
        rs.len() > 0,
    ensures
        records_concat(rs) == record_bytes(rs[0].1, rs[0].0) + records_concat(rs.drop_first()),
    decreases rs.len(),
{
    if rs.len() == 1 {
        assert(rs.drop_last() =~= Seq::<(u64, Seq<u8>)>::empty());
        assert(rs.drop_first() =~= Seq::<(u64, Seq<u8>)>::empty());
        assert(records_concat(rs) =~= record_bytes(rs[0].1, rs[0].0) + records_concat(
            rs.drop_first(),
        ));
    } else {
        let init = rs.drop_last();
        lemma_records_concat_front(init);
        assert(init.drop_first() =~= rs.drop_first().drop_last());
        assert(rs.drop_first().last() == rs.last());
        assert(init[0] == rs[0]);
        assert(records_concat(rs) =~= record_bytes(rs[0].1, rs[0].0) + records_concat(
            rs.drop_first(),
        ));
    }
}

} // verus!
