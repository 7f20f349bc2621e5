use vstd::prelude::*;

use crate::{Entry, Point};

verus! {

/// The eight bytes of `v`, least significant first.
pub open spec fn le_bytes(v: u64) -> Seq<u8> {
    seq![
        v as u8,
        (v >> 8u64) as u8,
        (v >> 16u64) as u8,
        (v >> 24u64) as u8,
        (v >> 32u64) as u8,
        (v >> 40u64) as u8,
        (v >> 48u64) as u8,
        (v >> 56u64) as u8,
    ]
}

/// The integer whose eight bytes, least significant first, start at `o` in `b`.
pub open spec fn le_value(b: Seq<u8>, o: int) -> u64 {
    (b[o] as u64) | ((b[o + 1] as u64) << 8u64) | ((b[o + 2] as u64) << 16u64) | ((b[o + 3] as u64)
        << 24u64) | ((b[o + 4] as u64) << 32u64) | ((b[o + 5] as u64) << 40u64) | ((b[o + 6] as u64)
        << 48u64) | ((b[o + 7] as u64) << 56u64)
}

/// The record of an entry: `x`, `y` (two's complement) and the value, eight bytes each.
pub open spec fn entry_record(e: Entry) -> Seq<u8> {
    le_bytes(e.point.x as u64) + le_bytes(e.point.y as u64) + le_bytes(e.value)
}

/// The records of `s`, one after the other.
pub open spec fn records(s: Seq<Entry>) -> Seq<u8>
    decreases s.len(),
{
    if s.len() == 0 {
        Seq::empty()
    } else {
        records(s.drop_last()) + entry_record(s.last())
    }
}

/// The entry whose record starts at `o` in `b`.
pub open spec fn record_at(b: Seq<u8>, o: int) -> Entry {
    Entry {
        point: Point { x: le_value(b, o) as i64, y: le_value(b, o + 8) as i64 },
        value: le_value(b, o + 16),
    }
}

/// The persisted form of a segment: its leaf capacity, its number of entries, then
/// the record of each entry in leaf order.
pub open spec fn segment_bytes(cap: u64, s: Seq<Entry>) -> Seq<u8> {
    le_bytes(cap) + le_bytes(s.len() as u64) + records(s)
}

/// `b` is a persisted segment: a header of two integers, a leaf capacity that is
/// positive and fits a `usize`, and exactly as many records as the header counts.
pub open spec fn segment_bytes_ok(b: Seq<u8>) -> bool {
    &&& b.len() >= 16
    &&& 1 <= le_value(b, 0) <= usize::MAX
    &&& b.len() - 16 == 24 * le_value(b, 8)
}

/// The entries that the records of a persisted segment hold.
pub open spec fn segment_entries(b: Seq<u8>) -> Seq<Entry> {
    Seq::new(le_value(b, 8) as nat, |i: int| record_at(b, 16 + 24 * i))
}

pub proof fn lemma_le_round_trip(v: u64, b: Seq<u8>, o: int)
    requires
        0 <= o,
        o + 8 <= b.len(),
        b.subrange(o, o + 8) == le_bytes(v),
    ensures
        le_value(b, o) == v,
{
    assert(b[o] == le_bytes(v)[0]);
    assert(b[o + 1] == le_bytes(v)[1]);
    assert(b[o + 2] == le_bytes(v)[2]);
    assert(b[o + 3] == le_bytes(v)[3]);
    assert(b[o + 4] == le_bytes(v)[4]);
    assert(b[o + 5] == le_bytes(v)[5]);
    assert(b[o + 6] == le_bytes(v)[6]);
    assert(b[o + 7] == le_bytes(v)[7]);
    let (b0, b1, b2, b3, b4, b5, b6, b7) = (b[o], b[o + 1], b[o + 2], b[o + 3], b[o + 4], b[o + 5], b[o + 6], b[o + 7]);
    assert(
        b0 == v as u8 && b1 == (v >> 8u64) as u8 && b2 == (v >> 16u64) as u8 && b3 == (v >> 24u64) as u8
        && b4 == (v >> 32u64) as u8 && b5 == (v >> 40u64) as u8 && b6 == (v >> 48u64) as u8 && b7 == (v >> 56u64) as u8
        ==> ((b0 as u64) | ((b1 as u64) << 8u64) | ((b2 as u64) << 16u64) | ((b3 as u64) << 24u64)
        | ((b4 as u64) << 32u64) | ((b5 as u64) << 40u64) | ((b6 as u64) << 48u64) | ((b7 as u64) << 56u64)) == v
    ) by (bit_vector);
}

proof fn lemma_records_layout(s: Seq<Entry>)
    ensures
        records(s).len() == 24 * s.len(),
        forall|i: int| 0 <= i < s.len() ==> #[trigger] records(s).subrange(24 * i, 24 * i + 24) == entry_record(s[i]),
    decreases s.len(),
{
    if s.len() > 0 {
        let t = s.drop_last();
        lemma_records_layout(t);
        let r = records(s);
        assert(r == records(t) + entry_record(s.last()));
        assert forall|i: int| 0 <= i < s.len() implies #[trigger] records(s).subrange(24 * i, 24 * i + 24) == entry_record(s[i]) by {
            if i < t.len() {
                assert(records(t).subrange(24 * i, 24 * i + 24) == entry_record(t[i]));
                assert(r.subrange(24 * i, 24 * i + 24) =~= records(t).subrange(24 * i, 24 * i + 24));
            } else {
                assert(r.subrange(24 * i, 24 * i + 24) =~= entry_record(s.last()));
            }
        }
    }
}

proof fn lemma_record_round_trip(e: Entry, b: Seq<u8>, o: int)
    requires
        0 <= o,
        o + 24 <= b.len(),
        b.subrange(o, o + 24) == entry_record(e),
    ensures
        record_at(b, o) == e,
{
    let r = entry_record(e);
    assert(b.subrange(o, o + 8) =~= r.subrange(0, 8));
    assert(b.subrange(o + 8, o + 16) =~= r.subrange(8, 16));
    assert(b.subrange(o + 16, o + 24) =~= r.subrange(16, 24));
    assert(r.subrange(0, 8) =~= le_bytes(e.point.x as u64));
    assert(r.subrange(8, 16) =~= le_bytes(e.point.y as u64));
    assert(r.subrange(16, 24) =~= le_bytes(e.value));
    lemma_le_round_trip(e.point.x as u64, b, o);
    lemma_le_round_trip(e.point.y as u64, b, o + 8);
    lemma_le_round_trip(e.value, b, o + 16);
    let (x, y) = (e.point.x, e.point.y);
    assert((x as u64) as i64 == x) by (bit_vector);
    assert((y as u64) as i64 == y) by (bit_vector);
}

/// Reading back what a segment was written as gives its leaf capacity and its
/// entries, in order.
pub proof fn lemma_segment_round_trip(cap: u64, s: Seq<Entry>)
    requires
        1 <= cap <= usize::MAX,
        24 * s.len() + 16 <= u64::MAX,
    ensures
        segment_bytes_ok(segment_bytes(cap, s)),
        le_value(segment_bytes(cap, s), 0) == cap,
        segment_entries(segment_bytes(cap, s)) == s,
{
    let b = segment_bytes(cap, s);
    lemma_records_layout(s);
    assert(b.subrange(0, 8) =~= le_bytes(cap));
    assert(b.subrange(8, 16) =~= le_bytes(s.len() as u64));
    lemma_le_round_trip(cap, b, 0);
    lemma_le_round_trip(s.len() as u64, b, 8);
    assert forall|i: int| 0 <= i < s.len() implies #[trigger] record_at(b, 16 + 24 * i) == s[i] by {
        assert(records(s).subrange(24 * i, 24 * i + 24) == entry_record(s[i]));
        assert(b.subrange(16 + 24 * i, 16 + 24 * i + 24) =~= records(s).subrange(24 * i, 24 * i + 24));
        lemma_record_round_trip(s[i], b, 16 + 24 * i);
    }
    assert(segment_entries(b) =~= s);
}

/// Appends the eight bytes of `v`, least significant first.
pub fn put_u64(out: &mut Vec<u8>, v: u64)
    ensures
        final(out)@ == old(out)@ + le_bytes(v),
{
    out.push(v as u8);
    out.push((v >> 8u64) as u8);
    out.push((v >> 16u64) as u8);
    out.push((v >> 24u64) as u8);
    out.push((v >> 32u64) as u8);
    out.push((v >> 40u64) as u8);
    out.push((v >> 48u64) as u8);
    out.push((v >> 56u64) as u8);
    assert(out@ =~= old(out)@ + le_bytes(v));
}

/// The integer whose eight bytes, least significant first, start at `o`.
pub fn get_u64(b: &Vec<u8>, o: usize) -> (r: u64)
    requires
        o + 8 <= b@.len(),
    ensures
        r == le_value(b@, o as int),
{
    let _n = b.len();
    (b[o] as u64) | ((b[o + 1] as u64) << 8u64) | ((b[o + 2] as u64) << 16u64) | ((b[o + 3] as u64)
        << 24u64) | ((b[o + 4] as u64) << 32u64) | ((b[o + 5] as u64) << 40u64) | ((b[o + 6] as u64)
        << 48u64) | ((b[o + 7] as u64) << 56u64)
}

} // verus!
