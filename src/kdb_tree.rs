use vstd::prelude::*;

use crate::codec::{
    entry_record, get_u64, le_bytes, le_value, put_u64, record_at, records, segment_bytes,
    segment_bytes_ok, segment_entries,
};
use crate::{
    coord_of, in_box, lemma_matching_append, lemma_matching_none, matching, Entry, IndexError, Point,
    QueryBox,
};

verus! {

broadcast use {vstd::seq_lib::group_to_multiset_ensures, vstd::seq_lib::lemma_multiset_commutative};

/// A partition of a block's children: `value` on `axis` is the upper bound of the
/// child before it and the lower bound of the child after it (both included, so
/// equal coordinates may fall on either side).
#[derive(Clone, Copy, Debug, PartialEq, Eq, Structural)]
pub struct Split {
    pub axis: u64,
    pub value: i64,
}

/// A block of a segment. Every block covers the entries `lo..hi` of the segment's
/// entry store; an inner block's children cover consecutive parts of that range.
pub enum KdbNode {
    Inner { splits: Vec<Split>, children: Vec<usize>, lo: usize, hi: usize },
    Leaf { lo: usize, hi: usize },
}

/// The first entry a block covers.
pub open spec fn node_lo(n: KdbNode) -> nat {
    match n {
        KdbNode::Inner { lo, .. } => lo as nat,
        KdbNode::Leaf { lo, .. } => lo as nat,
    }
}

/// One past the last entry a block covers.
pub open spec fn node_hi(n: KdbNode) -> nat {
    match n {
        KdbNode::Inner { hi, .. } => hi as nat,
        KdbNode::Leaf { hi, .. } => hi as nat,
    }
}

/// The coordinate of an entry's point on `axis`.
pub open spec fn key(e: Entry, axis: u64) -> i64 {
    coord_of(e.point, axis)
}

/// `e` lies on or below the split.
pub open spec fn below_split(e: Entry, s: Split) -> bool {
    key(e, s.axis) <= s.value
}

/// `e` lies on or above the split.
pub open spec fn above_split(e: Entry, s: Split) -> bool {
    key(e, s.axis) >= s.value
}

/// Where child `i` of a block starting at `lo` starts.
pub open spec fn child_lo(blocks: Seq<KdbNode>, children: Seq<usize>, lo: nat, i: int) -> nat {
    if i == 0 {
        lo
    } else {
        node_hi(blocks[children[i - 1] as int])
    }
}

/// Child `i` is an earlier block whose range follows its left sibling's inside
/// `lo..hi`, and its entries obey the splits on either side of it.
pub open spec fn child_ok(
    blocks: Seq<KdbNode>,
    entries: Seq<Entry>,
    a: int,
    splits: Seq<Split>,
    children: Seq<usize>,
    lo: nat,
    hi: nat,
    i: int,
) -> bool {
    let c = children[i] as int;
    &&& c < a
    &&& node_lo(blocks[c]) == child_lo(blocks, children, lo, i)
    &&& lo <= node_lo(blocks[c]) <= node_hi(blocks[c]) <= hi
    &&& forall|k: int|
        node_lo(blocks[c]) <= k < node_hi(blocks[c]) ==> (i > 0 ==> above_split(
            #[trigger] entries[k],
            splits[i - 1],
        )) && (i < splits.len() ==> below_split(entries[k], splits[i]))
}

/// The block at `a` is well formed: a leaf holds at most `cap` entries; an inner
/// block has one child more than splits and every point under a child satisfies
/// the splits around it.
pub open spec fn block_ok(blocks: Seq<KdbNode>, entries: Seq<Entry>, cap: nat, a: int) -> bool {
    match blocks[a] {
        KdbNode::Leaf { lo, hi } => lo <= hi <= entries.len() && hi - lo <= cap,
        KdbNode::Inner { splits, children, lo, hi } => {
            &&& children@.len() == splits@.len() + 1
            &&& lo <= hi <= entries.len()
            &&& node_hi(blocks[children@.last() as int]) == hi
            &&& forall|i: int|
                0 <= i < children@.len() ==> #[trigger] child_ok(
                    blocks,
                    entries,
                    a,
                    splits@,
                    children@,
                    lo as nat,
                    hi as nat,
                    i,
                )
        },
    }
}

/// Every block of the store is well formed.
pub open spec fn shape_ok(blocks: Seq<KdbNode>, entries: Seq<Entry>, cap: nat) -> bool {
    forall|a: int| 0 <= a < blocks.len() ==> #[trigger] block_ok(blocks, entries, cap, a)
}

/// Every inner block at or under `a`, `depth` levels below the root, splits on axis
/// `depth mod 2` with non-decreasing thresholds into at most `fanout` children, which
/// are earlier blocks.
pub open spec fn partition_ok(blocks: Seq<KdbNode>, a: int, depth: nat, fanout: nat) -> bool
    decreases a,
{
    if 0 <= a < blocks.len() {
        match blocks[a] {
            KdbNode::Leaf { .. } => true,
            KdbNode::Inner { splits, children, .. } => {
                &&& children@.len() <= fanout
                &&& forall|i: int| 0 <= i < splits@.len() ==> (#[trigger] splits@[i]).axis == (depth % 2) as u64
                &&& forall|i: int, j: int|
                    0 <= i <= j < splits@.len() ==> (#[trigger] splits@[i]).value <= (#[trigger] splits@[j]).value
                &&& forall|k: int|
                    0 <= k < children@.len() ==> (#[trigger] children@[k]) < a && partition_ok(
                        blocks,
                        children@[k] as int,
                        depth + 1,
                        fanout,
                    )
            },
        }
    } else {
        false
    }
}

proof fn lemma_depth_frame(b1: Seq<KdbNode>, b2: Seq<KdbNode>, a: int, depth: nat, fanout: nat)
    requires
        0 <= a < b1.len() <= b2.len(),
        forall|x: int| 0 <= x < b1.len() ==> b2[x] == b1[x],
        partition_ok(b1, a, depth, fanout),
    ensures
        partition_ok(b2, a, depth, fanout),
    decreases a,
{
    assert(b2[a] == b1[a]);
    match b1[a] {
        KdbNode::Leaf { .. } => {},
        KdbNode::Inner { splits, children, .. } => {
            assert forall|k: int| 0 <= k < children@.len() implies (#[trigger] children@[k]) < a
                && partition_ok(b2, children@[k] as int, depth + 1, fanout) by {
                lemma_depth_frame(b1, b2, children@[k] as int, depth + 1, fanout);
            }
        },
    }
}

/// The block's range is empty or does not meet `lo..hi`.
pub open spec fn outside(n: KdbNode, lo: nat, hi: nat) -> bool {
    node_hi(n) <= lo || node_lo(n) >= hi || node_lo(n) == node_hi(n)
}

/// `s` ascends on `axis` between `lo` and `hi`.
pub open spec fn sorted_between(s: Seq<Entry>, axis: u64, lo: int, hi: int) -> bool {
    forall|i: int, j: int| lo <= i <= j < hi ==> key(#[trigger] s[i], axis) <= key(#[trigger] s[j], axis)
}

proof fn lemma_block_frame(b1: Seq<KdbNode>, e1: Seq<Entry>, b2: Seq<KdbNode>, e2: Seq<Entry>, cap: nat, a: int)
    requires
        0 <= a < b1.len() <= b2.len(),
        block_ok(b1, e1, cap, a),
        forall|x: int| 0 <= x < b1.len() ==> b2[x] == b1[x],
        e1.len() == e2.len(),
        forall|k: int| node_lo(b1[a]) <= k < node_hi(b1[a]) && k < e1.len() ==> e1[k] == e2[k],
    ensures
        block_ok(b2, e2, cap, a),
{
    match b1[a] {
        KdbNode::Leaf { .. } => {},
        KdbNode::Inner { splits, children, lo, hi } => {
            assert(b2[a] == b1[a]);
            assert forall|i: int| 0 <= i < children@.len() implies #[trigger] child_ok(
                b2,
                e2,
                a,
                splits@,
                children@,
                lo as nat,
                hi as nat,
                i,
            ) by {
                assert(child_ok(b1, e1, a, splits@, children@, lo as nat, hi as nat, i));
                let c = children@[i] as int;
                assert(b2[c] == b1[c]);
                if i > 0 {
                    assert(child_ok(b1, e1, a, splits@, children@, lo as nat, hi as nat, i - 1));
                    assert(b2[children@[i - 1] as int] == b1[children@[i - 1] as int]);
                }
                assert forall|k: int| node_lo(b2[c]) <= k < node_hi(b2[c]) implies (i > 0
                    ==> above_split(#[trigger] e2[k], splits@[i - 1])) && (i < splits@.len()
                    ==> below_split(e2[k], splits@[i])) by {
                    assert(e1[k] == e2[k]);
                }
            }
            assert(child_ok(b1, e1, a, splits@, children@, lo as nat, hi as nat, children@.len() - 1));
            assert(b2[children@.last() as int] == b1[children@.last() as int]);
        },
    }
}

/// A property of every entry of a range survives a reordering of that range.
pub(crate) proof fn lemma_perm_all(s1: Seq<Entry>, s2: Seq<Entry>, a: int, b: int, p: spec_fn(Entry) -> bool)
    requires
        0 <= a <= b <= s1.len(),
        b <= s2.len(),
        s2.subrange(a, b).to_multiset() == s1.subrange(a, b).to_multiset(),
        forall|k: int| a <= k < b ==> p(#[trigger] s1[k]),
    ensures
        forall|k: int| a <= k < b ==> p(#[trigger] s2[k]),
{
    assert forall|k: int| a <= k < b implies p(#[trigger] s2[k]) by {
        let x = s2[k];
        assert(s2.subrange(a, b)[k - a] == x);
        vstd::seq_lib::to_multiset_contains(s2.subrange(a, b), x);
        vstd::seq_lib::to_multiset_contains(s1.subrange(a, b), x);
        assert(s1.subrange(a, b).contains(x));
        let j = choose|j: int| 0 <= j < b - a && s1.subrange(a, b)[j] == x;
        assert(s1[a + j] == x);
    }
}

/// The entries `lo..hi` of `v` in ascending order on `axis`.
fn sorted_copy(v: &Vec<Entry>, lo: usize, hi: usize, axis: u64) -> (r: Vec<Entry>)
    requires
        lo <= hi <= v@.len(),
    ensures
        r@.len() == hi - lo,
        r@.to_multiset() == v@.subrange(lo as int, hi as int).to_multiset(),
        sorted_between(r@, axis, 0, r@.len() as int),
{
    let mut r: Vec<Entry> = Vec::new();
    let mut k: usize = lo;
    while k < hi
        invariant
            lo <= k <= hi <= v@.len(),
            r@.len() == k - lo,
            r@.to_multiset() == v@.subrange(lo as int, k as int).to_multiset(),
            sorted_between(r@, axis, 0, r@.len() as int),
        decreases hi - k,
    {
        let x = v[k];
        let kx = x.point.coord(axis);
        let mut pos: usize = 0;
        while pos < r.len() && r[pos].point.coord(axis) <= kx
            invariant
                pos <= r@.len(),
                forall|q: int| 0 <= q < pos ==> key(#[trigger] r@[q], axis) <= kx,
            decreases r@.len() - pos,
        {
            pos = pos + 1;
        }
        let ghost r0 = r@;
        r.insert(pos, x);
        proof {
            assert forall|i: int, j: int| 0 <= i <= j < r@.len() implies key(
                #[trigger] r@[i],
                axis,
            ) <= key(#[trigger] r@[j], axis) by {
                if j < pos {
                } else if j == pos {
                    if i < pos {
                        assert(r@[i] == r0[i]);
                    }
                } else if i == pos {
                    assert(r@[j] == r0[j - 1]);
                    assert(key(r0[pos as int], axis) > kx);
                    assert(key(r0[pos as int], axis) <= key(r0[j - 1], axis));
                } else if i < pos {
                    assert(r@[j] == r0[j - 1]);
                    assert(r@[i] == r0[i]);
                } else {
                    assert(r@[j] == r0[j - 1]);
                    assert(r@[i] == r0[i - 1]);
                }
            }
            assert(v@.subrange(lo as int, k + 1) =~= v@.subrange(lo as int, k as int).push(x));
        }
        k = k + 1;
    }
    r
}

/// Builds the block tree over entries `lo..hi`, reordering only that range; blocks
/// are appended, children before their parent, and the new root is the last block.
fn build_block(
    entries: &mut Vec<Entry>,
    lo: usize,
    hi: usize,
    depth: usize,
    cap: usize,
    fanout: usize,
    blocks: &mut Vec<KdbNode>,
) -> (a: usize)
    requires
        lo <= hi <= old(entries)@.len(),
        cap >= 1,
        fanout >= 2,
        depth + (hi - lo) <= old(entries)@.len(),
        shape_ok(old(blocks)@, old(entries)@, cap as nat),
        forall|x: int|
            0 <= x < old(blocks)@.len() ==> outside(#[trigger] old(blocks)@[x], lo as nat, hi as nat),
    ensures
        final(entries)@.len() == old(entries)@.len(),
        forall|k: int|
            0 <= k < old(entries)@.len() && (k < lo || k >= hi) ==> #[trigger] final(entries)@[k]
                == old(entries)@[k],
        final(entries)@.subrange(lo as int, hi as int).to_multiset() == old(entries)@.subrange(
            lo as int,
            hi as int,
        ).to_multiset(),
        final(blocks)@.len() > old(blocks)@.len(),
        a == final(blocks)@.len() - 1,
        forall|x: int| 0 <= x < old(blocks)@.len() ==> #[trigger] final(blocks)@[x] == old(blocks)@[x],
        node_lo(final(blocks)@[a as int]) == lo,
        node_hi(final(blocks)@[a as int]) == hi,
        forall|x: int|
            old(blocks)@.len() <= x < final(blocks)@.len() ==> lo <= node_lo(
                #[trigger] final(blocks)@[x],
            ) <= node_hi(final(blocks)@[x]) <= hi,
        shape_ok(final(blocks)@, final(entries)@, cap as nat),
        partition_ok(final(blocks)@, a as int, depth as nat, fanout as nat),
    decreases hi - lo,
{
    let ghost e0 = entries@;
    let ghost b0 = blocks@;
    let total: usize = entries.len();
    let n: usize = hi - lo;
    if n <= cap {
        blocks.push(KdbNode::Leaf { lo, hi });
        proof {
            assert forall|x: int| 0 <= x < blocks@.len() implies #[trigger] block_ok(
                blocks@,
                entries@,
                cap as nat,
                x,
            ) by {
                if x < b0.len() {
                    lemma_block_frame(b0, e0, blocks@, entries@, cap as nat, x);
                }
            }
        }
        return blocks.len() - 1;
    }
    let axis: u64 = (depth % 2) as u64;
    let sorted = sorted_copy(entries, lo, hi, axis);
    let mut w: usize = lo;
    while w < hi
        invariant
            lo <= w <= hi <= e0.len(),
            entries@.len() == e0.len(),
            sorted@.len() == hi - lo,
            forall|k: int| 0 <= k < e0.len() && (k < lo || k >= w) ==> #[trigger] entries@[k] == e0[k],
            forall|k: int| lo <= k < w ==> #[trigger] entries@[k] == sorted@[k - lo],
        decreases hi - w,
    {
        entries.set(w, sorted[w - lo]);
        w = w + 1;
    }
    let ghost e1 = entries@;
    proof {
        assert(e1.subrange(lo as int, hi as int) =~= sorted@);
        assert forall|i: int, j: int| lo <= i <= j < hi implies key(#[trigger] e1[i], axis) <= key(
            #[trigger] e1[j],
            axis,
        ) by {
            assert(e1[i] == sorted@[i - lo]);
            assert(e1[j] == sorted@[j - lo]);
        }
        assert forall|x: int| 0 <= x < b0.len() implies #[trigger] block_ok(b0, e1, cap as nat, x) by {
            assert(outside(b0[x], lo as nat, hi as nat));
            lemma_block_frame(b0, e0, b0, e1, cap as nat, x);
        }
    }
    let q: usize = (n - 1) / fanout;
    assert(q < n - 1) by (nonlinear_arith)
        requires
            q as int == (n as int - 1) / (fanout as int),
            n >= 2,
            fanout >= 2,
    ;
    let c: usize = q + 1;
    assert(c * fanout >= n) by (nonlinear_arith)
        requires
            q as int == (n as int - 1) / (fanout as int),
            c == q + 1,
            fanout >= 2,
            n >= 1,
    ;
    let mut splits: Vec<Split> = Vec::new();
    let mut children: Vec<usize> = Vec::new();
    let mut start: usize = lo;
    while start < hi
        invariant
            lo <= start <= hi <= e0.len(),
            n == hi - lo,
            1 <= c < n,
            depth + n <= e0.len(),
            total == e0.len(),
            e1.len() == e0.len(),
            cap >= 1,
            fanout >= 2,
            entries@.len() == e0.len(),
            sorted_between(e1, axis, lo as int, hi as int),
            forall|k: int| 0 <= k < e0.len() && (k < lo || k >= hi) ==> #[trigger] e1[k] == e0[k],
            forall|k: int| 0 <= k < e0.len() && (k < lo || k >= start) ==> #[trigger] entries@[k] == e1[k],
            entries@.subrange(lo as int, start as int).to_multiset() == e1.subrange(
                lo as int,
                start as int,
            ).to_multiset(),
            shape_ok(blocks@, entries@, cap as nat),
            b0.len() <= blocks@.len(),
            forall|x: int| 0 <= x < b0.len() ==> #[trigger] blocks@[x] == b0[x],
            forall|x: int| 0 <= x < b0.len() ==> outside(#[trigger] b0[x], lo as nat, hi as nat),
            forall|x: int|
                b0.len() <= x < blocks@.len() ==> lo <= node_lo(#[trigger] blocks@[x]) <= node_hi(
                    blocks@[x],
                ) <= start,
            children@.len() == (if start == lo { 0 } else { splits@.len() + 1 }),
            start == lo ==> splits@.len() == 0,
            start > lo ==> node_hi(blocks@[children@.last() as int]) == start,
            forall|i: int| 0 <= i < children@.len() ==> b0.len() <= #[trigger] children@[i] < blocks@.len(),
            forall|i: int|
                0 <= i < children@.len() ==> #[trigger] child_ok(
                    blocks@,
                    entries@,
                    blocks@.len() as int,
                    splits@,
                    children@,
                    lo as nat,
                    hi as nat,
                    i,
                ),
            start < hi ==> forall|k: int| lo <= k < start ==> key(#[trigger] entries@[k], axis) <= key(e1[start as int], axis),
            axis == (depth % 2) as u64,
            c * fanout >= n,
            start < hi ==> (start - lo) as int == children@.len() * c,
            children@.len() <= fanout,
            forall|i: int| 0 <= i < children@.len() ==> partition_ok(blocks@, #[trigger] children@[i] as int, depth as nat + 1, fanout as nat),
            forall|i: int| 0 <= i < splits@.len() ==> (#[trigger] splits@[i]).axis == axis,
            forall|i: int, j: int| 0 <= i <= j < splits@.len() ==> (#[trigger] splits@[i]).value <= (#[trigger] splits@[j]).value,
            start < hi ==> forall|i: int| 0 <= i < splits@.len() ==> (#[trigger] splits@[i]).value <= key(e1[start as int], axis),
        decreases hi - start,
    {
        let end: usize = if hi - start > c { start + c } else { hi };
        let ghost split_before = splits@;
        let ghost ch_before = children@;
        if start > lo {
            let value = entries[start].point.coord(axis);
            splits.push(Split { axis, value });
        }
        assert(splits@ == if start > lo {
            split_before.push(Split { axis, value: key(e1[start as int], axis) })
        } else {
            split_before
        });
        let ghost e2 = entries@;
        let ghost b2 = blocks@;
        proof {
            assert forall|x: int| 0 <= x < b2.len() implies outside(
                #[trigger] b2[x],
                start as nat,
                end as nat,
            ) by {
                if x < b0.len() {
                    assert(outside(b0[x], lo as nat, hi as nat));
                }
            }
        }
        let a = build_block(entries, start, end, depth + 1, cap, fanout, blocks);
        assert(ch_before.len() < fanout) by (nonlinear_arith)
            requires
                (start - lo) as int == ch_before.len() * c,
                start < hi,
                n == hi - lo,
                c * fanout >= n,
                c >= 1,
        ;
        children.push(a);
        proof {
            if end < hi {
                assert(end == start + c);
                assert((end - lo) as int == children@.len() * c) by (nonlinear_arith)
                    requires
                        (start - lo) as int == ch_before.len() * c,
                        end == start + c,
                        children@.len() == ch_before.len() + 1,
                ;
            }
            assert forall|i: int| 0 <= i < children@.len() implies partition_ok(blocks@, #[trigger] children@[i] as int, depth as nat + 1, fanout as nat) by {
                if i < ch_before.len() {
                    assert(children@[i] == ch_before[i]);
                    lemma_depth_frame(b2, blocks@, ch_before[i] as int, depth as nat + 1, fanout as nat);
                }
            }
            if end < hi {
                assert forall|i: int| 0 <= i < splits@.len() implies (#[trigger] splits@[i]).value <= key(e1[end as int], axis) by {
                    assert(key(e1[start as int], axis) <= key(e1[end as int], axis));
                    if i < split_before.len() {
                        assert(splits@[i] == split_before[i]);
                    }
                }
            }
        }
        proof {
            let e3 = entries@;
            let b3 = blocks@;
            let cs = children@;
            let sp = splits@;
            assert(cs.drop_last() =~= ch_before);
            assert(child_ok(b2, e2, b2.len() as int, split_before, ch_before, lo as nat, hi as nat, 0) || ch_before.len() == 0);
            assert forall|k: int| 0 <= k < e0.len() && (k < lo || k >= end) implies #[trigger] e3[k] == e1[k] by {
                assert(e3[k] == e2[k]);
            }
            assert(e2.subrange(start as int, end as int) =~= e1.subrange(start as int, end as int)) by {
                assert forall|i: int| 0 <= i < end - start implies e2.subrange(start as int, end as int)[i] == e1.subrange(start as int, end as int)[i] by {
                    assert(start + i < e0.len());
                    assert(e2[start + i] == e1[start + i]);
                }
            }
            assert(e3.subrange(lo as int, start as int) =~= e2.subrange(lo as int, start as int));
            assert(e3.subrange(lo as int, end as int) =~= e3.subrange(lo as int, start as int)
                + e3.subrange(start as int, end as int));
            assert(e1.subrange(lo as int, end as int) =~= e1.subrange(lo as int, start as int)
                + e1.subrange(start as int, end as int));
            // the new child's entries lie on or above the split that precedes it
            let lower = |x: Entry| key(x, axis) >= key(e1[start as int], axis);
            assert forall|k: int| start <= k < end implies lower(#[trigger] e2[k]) by {
                assert(e2[k] == e1[k]);
            }
            lemma_perm_all(e2, e3, start as int, end as int, lower);
            if end < hi {
                let upper = |x: Entry| key(x, axis) <= key(e1[end as int], axis);
                assert forall|k: int| start <= k < end implies upper(#[trigger] e2[k]) by {
                    assert(e2[k] == e1[k]);
                }
                lemma_perm_all(e2, e3, start as int, end as int, upper);
                assert forall|k: int| lo <= k < end implies key(#[trigger] e3[k], axis) <= key(
                    e1[end as int],
                    axis,
                ) by {
                    if k < start {
                        assert(e3[k] == e2[k]);
                        assert(key(e1[start as int], axis) <= key(e1[end as int], axis));
                    } else {
                        assert(upper(e3[k]));
                    }
                }
            }
            assert forall|x: int| 0 <= x < b3.len() implies #[trigger] block_ok(
                b3,
                e3,
                cap as nat,
                x,
            ) by {
                if x < b2.len() {
                    assert(block_ok(b2, e2, cap as nat, x));
                    assert(outside(b2[x], start as nat, end as nat));
                    lemma_block_frame(b2, e2, b3, e3, cap as nat, x);
                }
            }
            assert forall|i: int| 0 <= i < cs.len() implies #[trigger] child_ok(
                b3,
                e3,
                b3.len() as int,
                sp,
                cs,
                lo as nat,
                hi as nat,
                i,
            ) by {
                if i < cs.len() - 1 {
                    assert(child_ok(b2, e2, b2.len() as int, split_before, cs.drop_last(), lo as nat, hi as nat, i));
                    let ci = cs[i] as int;
                    assert(cs[i] == cs.drop_last()[i]);
                    assert(b3[ci] == b2[ci]);
                    if i > 0 {
                        assert(cs[i - 1] == cs.drop_last()[i - 1]);
                        assert(b3[cs[i - 1] as int] == b2[cs[i - 1] as int]);
                    }
                    assert forall|k: int| node_lo(b3[ci]) <= k < node_hi(b3[ci]) implies (i > 0
                        ==> above_split(#[trigger] e3[k], sp[i - 1])) && (i < sp.len()
                        ==> below_split(e3[k], sp[i])) by {
                        assert(e3[k] == e2[k]);
                        if i > 0 {
                            assert(sp[i - 1] == split_before[i - 1]);
                        }
                        if i < split_before.len() {
                            assert(sp[i] == split_before[i]);
                        } else if i < sp.len() {
                            assert(sp[i] == Split { axis, value: key(e1[start as int], axis) });
                        }
                    }
                } else {
                    if i > 0 {
                        assert(cs[i - 1] == cs.drop_last()[i - 1]);
                        assert(b3[cs[i - 1] as int] == b2[cs[i - 1] as int]);
                        assert(sp[i - 1] == Split { axis, value: key(e1[start as int], axis) });
                    }
                    assert forall|k: int| start <= k < end implies (i > 0 ==> above_split(
                        #[trigger] e3[k],
                        sp[i - 1],
                    )) && (i < sp.len() ==> below_split(e3[k], sp[i])) by {
                        assert(lower(e3[k]));
                        if i > 0 {
                            assert(sp[i - 1] == Split { axis, value: key(e1[start as int], axis) });
                        }
                    }
                }
            }
        }
        start = end;
    }
    let ghost b4 = blocks@;
    let ghost e4 = entries@;
    let ghost sp = splits@;
    let ghost cs = children@;
    blocks.push(KdbNode::Inner { splits, children, lo, hi });
    proof {
        let a = b4.len() as int;
        assert forall|k: int| 0 <= k < cs.len() implies (#[trigger] cs[k]) < a && partition_ok(
            blocks@,
            cs[k] as int,
            depth as nat + 1,
            fanout as nat,
        ) by {
            lemma_depth_frame(b4, blocks@, cs[k] as int, depth as nat + 1, fanout as nat);
        }
        assert(partition_ok(blocks@, a, depth as nat, fanout as nat));
    }
    proof {
        let b5 = blocks@;
        let a = b4.len() as int;
        assert forall|x: int| 0 <= x < b5.len() implies #[trigger] block_ok(b5, e4, cap as nat, x) by {
            if x < a {
                lemma_block_frame(b4, e4, b5, e4, cap as nat, x);
            } else {
                assert(cs.len() >= 1);
                assert(b5[cs.last() as int] == b4[cs.last() as int]);
                assert forall|i: int| 0 <= i < cs.len() implies #[trigger] child_ok(
                    b5,
                    e4,
                    a,
                    sp,
                    cs,
                    lo as nat,
                    hi as nat,
                    i,
                ) by {
                    assert(child_ok(b4, e4, a, sp, cs, lo as nat, hi as nat, i));
                    assert(b5[cs[i] as int] == b4[cs[i] as int]);
                    if i > 0 {
                        assert(b5[cs[i - 1] as int] == b4[cs[i - 1] as int]);
                    }
                }
            }
        }
        assert(e4.subrange(lo as int, hi as int) =~= e4.subrange(lo as int, start as int));
    }
    blocks.len() - 1
}

/// An immutable segment: a block-addressed partition tree built once by bulk load.
/// Its entries live in one store that every block addresses by range; the root
/// address and the bounding box of all points are kept for queries.
pub struct KdbTree {
    blocks: Vec<KdbNode>,
    entries: Vec<Entry>,
    root: usize,
    block_capacity: usize,
    bounds: QueryBox,
}

impl KdbTree {
    /// The entries of the segment, in the order of its leaves.
    pub closed spec fn content(&self) -> Seq<Entry> {
        self.entries@
    }

    /// The blocks, by address.
    pub closed spec fn nodes(&self) -> Seq<KdbNode> {
        self.blocks@
    }

    /// The address of the root block.
    pub closed spec fn root_addr(&self) -> nat {
        self.root as nat
    }

    /// The most entries a leaf holds.
    pub closed spec fn leaf_capacity(&self) -> nat {
        self.block_capacity as nat
    }

    /// The root covers every entry, every block is well formed, and the bounding
    /// box holds every point.
    pub closed spec fn wf(&self) -> bool {
        &&& self.root < self.blocks@.len()
        &&& node_lo(self.blocks@[self.root as int]) == 0
        &&& node_hi(self.blocks@[self.root as int]) == self.entries@.len()
        &&& shape_ok(self.blocks@, self.entries@, self.block_capacity as nat)
        &&& self.block_capacity >= 1
        &&& forall|k: int| 0 <= k < self.entries@.len() ==> in_box(#[trigger] self.entries@[k].point, self.bounds)
    }

    /// Bulk load: a range of at most `block_capacity` entries becomes a leaf; a larger
    /// one is ordered on the axis of its depth (x, then y, in turn), cut into at most
    /// `fanout` contiguous parts of equal size, each built in turn, under an inner
    /// block whose splits are the first coordinates of the parts after the first.
    pub fn bulk_load(input: Vec<Entry>, block_capacity: usize, fanout: usize) -> (r: Self)
        requires
            block_capacity >= 1,
            fanout >= 2,
        ensures
            r.wf(),
            r.content().to_multiset() == input@.to_multiset(),
            r.leaf_capacity() == block_capacity,
            shape_ok(r.nodes(), r.content(), block_capacity as nat),
            partition_ok(r.nodes(), r.root_addr() as int, 0, fanout as nat),
    {
        let mut entries = input;
        let mut blocks: Vec<KdbNode> = Vec::new();
        let n = entries.len();
        let root = build_block(&mut entries, 0, n, 0, block_capacity, fanout, &mut blocks);
        proof {
            assert(entries@.subrange(0, n as int) =~= entries@);
            assert(input@.subrange(0, n as int) =~= input@);
        }
        let bounds = bounding_box(&entries);
        KdbTree { blocks, entries, root, block_capacity, bounds }
    }

    /// The number of entries.
    pub fn len(&self) -> (r: usize)
        ensures
            r == self.content().len(),
    {
        self.entries.len()
    }

    /// The blocks, by address.
    pub fn blocks(&self) -> (r: &Vec<KdbNode>)
        ensures
            r@ == self.nodes(),
    {
        &self.blocks
    }

    /// The address of the root block.
    pub fn root(&self) -> (r: usize)
        requires
            self.wf(),
        ensures
            r == self.root_addr(),
            r < self.nodes().len(),
            node_lo(self.nodes()[r as int]) == 0,
            node_hi(self.nodes()[r as int]) == self.content().len(),
    {
        self.root
    }

    /// The persisted form: leaf capacity, number of entries, then each entry's
    /// record in leaf order.
    pub fn to_bytes(&self) -> (r: Vec<u8>)
        requires
            self.wf(),
            24 * self.content().len() + 16 <= usize::MAX,
        ensures
            r@ == segment_bytes(self.leaf_capacity() as u64, self.content()),
    {
        let mut out: Vec<u8> = Vec::new();
        put_u64(&mut out, self.block_capacity as u64);
        put_u64(&mut out, self.entries.len() as u64);
        let ghost head = out@;
        let mut i: usize = 0;
        while i < self.entries.len()
            invariant
                i <= self.entries@.len(),
                head == le_bytes(self.block_capacity as u64) + le_bytes(self.entries@.len() as u64),
                out@ == head + records(self.entries@.subrange(0, i as int)),
            decreases self.entries@.len() - i,
        {
            let e = self.entries[i];
            let ghost before = out@;
            put_u64(&mut out, e.point.x as u64);
            put_u64(&mut out, e.point.y as u64);
            put_u64(&mut out, e.value);
            proof {
                let t = self.entries@.subrange(0, i + 1);
                assert(t.drop_last() =~= self.entries@.subrange(0, i as int));
                assert(records(t) == records(t.drop_last()) + entry_record(e));
                assert(out@ =~= head + records(t));
            }
            i = i + 1;
        }
        proof {
            assert(self.entries@.subrange(0, self.entries@.len() as int) =~= self.entries@);
        }
        out
    }

    /// Reads back a persisted segment and bulk-loads it with `fanout`; `CorruptBlock`
    /// where the header or the records are malformed or truncated.
    pub fn from_bytes(bytes: &Vec<u8>, fanout: usize) -> (r: Result<KdbTree, IndexError>)
        requires
            fanout >= 2,
        ensures
            r is Ok <==> segment_bytes_ok(bytes@),
            r is Err ==> r->Err_0 == IndexError::CorruptBlock,
            r is Ok ==> {
                &&& r->Ok_0.wf()
                &&& r->Ok_0.leaf_capacity() == le_value(bytes@, 0)
                &&& r->Ok_0.content().to_multiset() == segment_entries(bytes@).to_multiset()
            },
    {
        let n = bytes.len();
        if n < 16 {
            return Err(IndexError::CorruptBlock);
        }
        let cap = get_u64(bytes, 0);
        let count = get_u64(bytes, 8);
        if cap == 0 || cap > usize::MAX as u64 {
            return Err(IndexError::CorruptBlock);
        }
        let body: usize = n - 16;
        let fits = body % 24 == 0 && (body / 24) as u64 == count;
        assert(fits <==> body == 24 * count) by (nonlinear_arith)
            requires
                fits == (body % 24 == 0 && (body / 24) as u64 == count),
                body <= usize::MAX,
                usize::MAX <= u64::MAX,
        ;
        if !fits {
            return Err(IndexError::CorruptBlock);
        }
        let mut v: Vec<Entry> = Vec::new();
        let mut i: usize = 0;
        while (i as u64) < count
            invariant
                n == bytes@.len(),
                count == le_value(bytes@, 8),
                n - 16 == 24 * count,
                i <= count,
                v@ == segment_entries(bytes@).subrange(0, i as int),
            decreases count - i,
        {
            assert(16 + 24 * i + 24 <= n) by (nonlinear_arith)
                requires
                    i < count,
                    n - 16 == 24 * count,
            ;
            let o: usize = 16 + 24 * i;
            let e = Entry {
                point: Point { x: get_u64(bytes, o) as i64, y: get_u64(bytes, o + 8) as i64 },
                value: get_u64(bytes, o + 16),
            };
            v.push(e);
            proof {
                assert(e == record_at(bytes@, 16 + 24 * i));
                assert(v@ =~= segment_entries(bytes@).subrange(0, i + 1));
            }
            i = i + 1;
        }
        proof {
            assert(v@ =~= segment_entries(bytes@));
        }
        Ok(KdbTree::bulk_load(v, cap as usize, fanout))
    }

    /// The entry store, in the order of the leaves.
    pub fn entry_store(&self) -> (r: &Vec<Entry>)
        ensures
            r@ == self.content(),
    {
        &self.entries
    }

    /// The entries whose point lies in `b`, in leaf order. Nothing is read where `b`
    /// misses the segment's bounding box, nor under a child whose split range misses `b`.
    pub fn range_query(&self, b: &QueryBox) -> (r: Vec<Entry>)
        requires
            self.wf(),
        ensures
            r@ == matching(self.content(), *b),
    {
        let mut out: Vec<Entry> = Vec::new();
        if b.max_x < self.bounds.min_x || b.min_x > self.bounds.max_x || b.max_y < self.bounds.min_y
            || b.min_y > self.bounds.max_y {
            proof {
                lemma_matching_none(self.entries@, *b);
            }
            return out;
        }
        self.query_block(self.root, b, &mut out);
        proof {
            assert(self.entries@.subrange(0, self.entries@.len() as int) =~= self.entries@);
        }
        out
    }

    fn query_block(&self, a: usize, b: &QueryBox, out: &mut Vec<Entry>)
        requires
            self.wf(),
            a < self.blocks@.len(),
        ensures
            final(out)@ == old(out)@ + matching(
                self.entries@.subrange(
                    node_lo(self.blocks@[a as int]) as int,
                    node_hi(self.blocks@[a as int]) as int,
                ),
                *b,
            ),
        decreases a,
    {
        let ghost out0 = out@;
        let ghost es = self.entries@;
        assert(block_ok(self.blocks@, es, self.block_capacity as nat, a as int));
        match &self.blocks[a] {
            KdbNode::Leaf { lo, hi } => {
                let mut k: usize = *lo;
                while k < *hi
                    invariant
                        *lo <= k <= *hi <= es.len(),
                        es == self.entries@,
                        out@ == out0 + matching(es.subrange(*lo as int, k as int), *b),
                    decreases *hi - k,
                {
                    let e = self.entries[k];
                    proof {
                        assert(es.subrange(*lo as int, k + 1).drop_last() =~= es.subrange(
                            *lo as int,
                            k as int,
                        ));
                    }
                    if b.contains(&e.point) {
                        out.push(e);
                    }
                    k = k + 1;
                }
            },
            KdbNode::Inner { splits, children, lo, hi } => {
                let ghost blocks = self.blocks@;
                let mut i: usize = 0;
                while i < children.len()
                    invariant
                        self.wf(),
                        a < blocks.len(),
                        blocks == self.blocks@,
                        es == self.entries@,
                        blocks[a as int] == (KdbNode::Inner { splits: *splits, children: *children, lo: *lo, hi: *hi }),
                        block_ok(blocks, es, self.block_capacity as nat, a as int),
                        i <= children@.len(),
                        out@ == out0 + matching(
                            es.subrange(
                                *lo as int,
                                child_lo(blocks, children@, *lo as nat, i as int) as int,
                            ),
                            *b,
                        ),
                    decreases children@.len() - i,
                {
                    let c = children[i];
                    let ghost cl = child_lo(blocks, children@, *lo as nat, i as int) as int;
                    let ghost ch = node_hi(blocks[c as int]) as int;
                    assert(child_ok(blocks, es, a as int, splits@, children@, *lo as nat, *hi as nat, i as int));
                    let pruned = (i > 0 && b.max_on(splits[i - 1].axis) < splits[i - 1].value) || (i
                        < splits.len() && b.min_on(splits[i].axis) > splits[i].value);
                    if !pruned {
                        self.query_block(c, b, out);
                    } else {
                        proof {
                            assert forall|j: int| 0 <= j < es.subrange(cl, ch).len() implies !in_box(
                                #[trigger] es.subrange(cl, ch)[j].point,
                                *b,
                            ) by {
                                assert(es.subrange(cl, ch)[j] == es[cl + j]);
                            }
                            lemma_matching_none(es.subrange(cl, ch), *b);
                        }
                    }
                    proof {
                        assert(es.subrange(*lo as int, ch) =~= es.subrange(*lo as int, cl) + es.subrange(cl, ch));
                        lemma_matching_append(es.subrange(*lo as int, cl), es.subrange(cl, ch), *b);
                        assert(child_lo(blocks, children@, *lo as nat, i + 1) == ch);
                    }
                    i = i + 1;
                }
            },
        }
    }
}

/// The smallest box that holds every point of `v` (any box where `v` is empty).
fn bounding_box(v: &Vec<Entry>) -> (r: QueryBox)
    ensures
        forall|k: int| 0 <= k < v@.len() ==> in_box(#[trigger] v@[k].point, r),
{
    let mut r = QueryBox { min_x: i64::MAX, max_x: i64::MIN, min_y: i64::MAX, max_y: i64::MIN };
    let mut k: usize = 0;
    while k < v.len()
        invariant
            k <= v@.len(),
            forall|j: int| 0 <= j < k ==> in_box(#[trigger] v@[j].point, r),
        decreases v@.len() - k,
    {
        let p = v[k].point;
        if p.x < r.min_x {
            r.min_x = p.x;
        }
        if p.x > r.max_x {
            r.max_x = p.x;
        }
        if p.y < r.min_y {
            r.min_y = p.y;
        }
        if p.y > r.max_y {
            r.max_y = p.y;
        }
        k = k + 1;
    }
    r
}

} // verus!
