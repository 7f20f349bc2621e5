use vstd::prelude::*;

use crate::{coord_of, Entry, Point};

verus! {

broadcast use vstd::seq_lib::group_to_multiset_ensures;

/// The largest number of slots the buffer may hold before an insert: a quarter of
/// the address space, so that a child index `2i + 2` and the storage grown to it
/// always fit a `usize`.
pub const MAX_SLOTS: usize = usize::MAX / 4;

/// The axis compared at `depth`.
pub open spec fn axis_at(depth: nat) -> u64 {
    (depth % 2) as u64
}

/// The child of slot `i` that `p` goes to past the point `v` at `depth`:
/// strictly less on the axis goes left, otherwise right.
pub open spec fn child_of(i: nat, p: Point, v: Point, depth: nat) -> nat {
    if coord_of(p, axis_at(depth)) < coord_of(v, axis_at(depth)) {
        2 * i + 1
    } else {
        2 * i + 2
    }
}

/// Where the descent of `p` from slot `i` at `depth` ends: `None` at a slot that
/// holds `p` itself, else the first free slot (possibly past the end of `s`).
pub open spec fn descend(s: Seq<Option<Point>>, p: Point, i: nat, depth: nat) -> Option<nat>
    decreases (if i < s.len() { s.len() - i } else { 0 }),
{
    if i >= s.len() {
        Some(i)
    } else {
        match s[i as int] {
            None => Some(i),
            Some(v) => if v == p {
                None
            } else {
                descend(s, p, child_of(i, p, v, depth), depth + 1)
            },
        }
    }
}

/// The descent of `q` from slot `i` at `depth` passes through occupied slots holding
/// other points and arrives at slot `j`.
pub open spec fn reaches(s: Seq<Option<Point>>, q: Point, i: nat, depth: nat, j: nat) -> bool
    decreases (if i < j { j - i } else { 0 }),
{
    if i == j {
        true
    } else if i > j || i >= s.len() {
        false
    } else {
        match s[i as int] {
            None => false,
            Some(v) => v != q && reaches(s, q, child_of(i, q, v, depth), depth + 1, j),
        }
    }
}

/// Each occupied slot holds the point whose descent from the root arrives there.
pub open spec fn placed(s: Seq<Option<Point>>) -> bool {
    forall|j: int|
        0 <= j < s.len() && (#[trigger] s[j]) is Some ==> reaches(s, s[j]->Some_0, 0, 0, j as nat)
}

/// The entries of the first `n` slots, in slot order.
pub open spec fn occupied(s: Seq<Option<Point>>, v: Seq<u64>, n: nat) -> Seq<Entry>
    decreases n,
{
    if n == 0 {
        Seq::empty()
    } else {
        let r = occupied(s, v, (n - 1) as nat);
        match s[n - 1] {
            Some(p) => r.push(Entry { point: p, value: v[n - 1] }),
            None => r,
        }
    }
}

/// The slots after `p` is stored where its descent through `s` ends: that slot, or
/// the storage grown with free slots up to and including it.
pub open spec fn slots_after_insert(s: Seq<Option<Point>>, p: Point) -> Seq<Option<Point>> {
    let e = descend(s, p, 0, 0)->Some_0;
    if e < s.len() {
        s.update(e as int, Some(p))
    } else {
        s + Seq::new((e - s.len()) as nat, |k: int| None::<Point>) + seq![Some(p)]
    }
}

/// `t` keeps every occupied slot of `s`.
pub open spec fn keeps(s: Seq<Option<Point>>, t: Seq<Option<Point>>) -> bool {
    forall|k: int| 0 <= k < s.len() && (#[trigger] s[k]) is Some ==> k < t.len() && t[k] == s[k]
}

proof fn lemma_descend_finds(s: Seq<Option<Point>>, p: Point, i: nat, d: nat, j: nat)
    requires
        reaches(s, p, i, d, j),
        j < s.len(),
        s[j as int] == Some(p),
    ensures
        descend(s, p, i, d) is None,
    decreases (if i < j { j - i } else { 0 }),
{
    if i != j {
        let v = s[i as int]->Some_0;
        lemma_descend_finds(s, p, child_of(i, p, v, d), d + 1, j);
    }
}

proof fn lemma_descend_reaches(
    s: Seq<Option<Point>>,
    t: Seq<Option<Point>>,
    p: Point,
    i: nat,
    d: nat,
)
    requires
        descend(s, p, i, d) is Some,
        keeps(s, t),
    ensures
        descend(s, p, i, d)->Some_0 >= i,
        reaches(t, p, i, d, descend(s, p, i, d)->Some_0),
    decreases (if i < s.len() { s.len() - i } else { 0 }),
{
    if i < s.len() && s[i as int] is Some {
        let v = s[i as int]->Some_0;
        assert(t[i as int] == s[i as int]);
        lemma_descend_reaches(s, t, p, child_of(i, p, v, d), d + 1);
    }
}

proof fn lemma_reaches_kept(s: Seq<Option<Point>>, t: Seq<Option<Point>>, q: Point, i: nat, d: nat, j: nat)
    requires
        reaches(s, q, i, d, j),
        keeps(s, t),
    ensures
        reaches(t, q, i, d, j),
    decreases (if i < j { j - i } else { 0 }),
{
    if i < j {
        let v = s[i as int]->Some_0;
        assert(t[i as int] == s[i as int]);
        lemma_reaches_kept(s, t, q, child_of(i, q, v, d), d + 1, j);
    }
}

proof fn lemma_occupied_prefix(s: Seq<Option<Point>>, v: Seq<u64>, t: Seq<Option<Point>>, w: Seq<u64>, n: nat)
    requires
        n <= s.len(),
        n <= t.len(),
        n <= v.len(),
        n <= w.len(),
        forall|k: int| 0 <= k < n ==> s[k] == t[k] && v[k] == w[k],
    ensures
        occupied(s, v, n) == occupied(t, w, n),
    decreases n,
{
    if n > 0 {
        lemma_occupied_prefix(s, v, t, w, (n - 1) as nat);
    }
}

proof fn lemma_occupied_empty_tail(s: Seq<Option<Point>>, v: Seq<u64>, m: nat, n: nat)
    requires
        m <= n <= s.len(),
        n <= v.len(),
        forall|k: int| m <= k < n ==> s[k] is None,
    ensures
        occupied(s, v, n) == occupied(s, v, m),
    decreases n,
{
    if n > m {
        lemma_occupied_empty_tail(s, v, m, (n - 1) as nat);
    }
}

/// Every stored entry's point is in a slot.
pub(crate) proof fn lemma_occupied_in_slots(s: Seq<Option<Point>>, v: Seq<u64>, n: nat, e: Entry)
    requires
        n <= s.len(),
        occupied(s, v, n).contains(e),
    ensures
        points_of_slots(s).contains(e.point),
    decreases n,
{
    let r = occupied(s, v, (n - 1) as nat);
    if r.contains(e) {
        lemma_occupied_in_slots(s, v, (n - 1) as nat, e);
    } else {
        let j = choose|j: int| 0 <= j < occupied(s, v, n).len() && occupied(s, v, n)[j] == e;
        assert(j == r.len());
        assert(s[n - 1] == Some(e.point));
    }
}

proof fn lemma_occupied_len(s: Seq<Option<Point>>, v: Seq<u64>, n: nat)
    ensures
        occupied(s, v, n).len() <= n,
    decreases n,
{
    if n > 0 {
        lemma_occupied_len(s, v, (n - 1) as nat);
    }
}

/// Filling free slot `e` adds exactly one entry.
proof fn lemma_occupied_fill(s: Seq<Option<Point>>, v: Seq<u64>, e: nat, p: Point, x: u64, n: nat)
    requires
        e < s.len(),
        s.len() == v.len(),
        s[e as int] is None,
        n <= s.len(),
    ensures
        occupied(s.update(e as int, Some(p)), v.update(e as int, x), n).to_multiset() == (if e
            < n {
            occupied(s, v, n).to_multiset().insert(Entry { point: p, value: x })
        } else {
            occupied(s, v, n).to_multiset()
        }),
    decreases n,
{
    if n > 0 {
        lemma_occupied_fill(s, v, e, p, x, (n - 1) as nat);
        let s2 = s.update(e as int, Some(p));
        let v2 = v.update(e as int, x);
        let r = occupied(s, v, (n - 1) as nat);
        let r2 = occupied(s2, v2, (n - 1) as nat);
        if n - 1 == e {
            assert(occupied(s2, v2, n) == r2.push(Entry { point: p, value: x }));
            assert(occupied(s, v, n) == r);
        } else {
            assert(s2[n - 1] == s[n - 1]);
            assert(v2[n - 1] == v[n - 1]);
            match s[n - 1] {
                Some(q) => {
                    let en = Entry { point: q, value: v[n - 1] };
                    assert(occupied(s2, v2, n) == r2.push(en));
                    assert(occupied(s, v, n) == r.push(en));
                    if e < n {
                        assert(r2.push(en).to_multiset() =~= r.push(en).to_multiset().insert(
                            Entry { point: p, value: x },
                        ));
                    }
                },
                None => {},
            }
        }
    }
}

/// An implicit binary partition tree over an array: slot `i` has its children at
/// `2i+1` and `2i+2`, and a point at depth `d` splits on axis `d mod 2`.
/// It serves as the insert buffer of a `BkdIndex`.
pub struct KdTree {
    buffer: Vec<Option<Point>>,
    values: Vec<u64>,
    capacity: usize,
    count: usize,
}

impl KdTree {
    /// The slots, in index order.
    pub closed spec fn slots(&self) -> Seq<Option<Point>> {
        self.buffer@
    }

    /// The value kept beside each slot.
    pub closed spec fn slot_values(&self) -> Seq<u64> {
        self.values@
    }

    /// The stored entries, in slot order.
    pub open spec fn entries(&self) -> Seq<Entry> {
        occupied(self.slots(), self.slot_values(), self.slots().len())
    }

    /// The bound on the number of points past which the buffer is full.
    pub closed spec fn capacity_bound(&self) -> nat {
        self.capacity as nat
    }

    /// Slots and values match up, the count is right, and every point sits where its
    /// descent from the root ends.
    pub closed spec fn wf(&self) -> bool {
        &&& self.buffer@.len() == self.values@.len()
        &&& self.count == self.entries().len()
        &&& placed(self.buffer@)
    }

    /// An empty buffer that is full past `n` points.
    pub fn with_buffer_capacity(n: usize) -> (r: Self)
        ensures
            r.wf(),
            placed(r.slots()),
            r.slots() == Seq::<Option<Point>>::empty(),
            r.entries() == Seq::<Entry>::empty(),
            r.capacity_bound() == n,
    {
        KdTree { buffer: Vec::with_capacity(n), values: Vec::with_capacity(n), capacity: n, count: 0 }
    }

    /// The number of stored points.
    pub fn len(&self) -> (r: usize)
        requires
            self.wf(),
        ensures
            r == self.entries().len(),
    {
        self.count
    }

    /// Whether the buffer holds more points than its bound, or more slots than an
    /// insert may start from.
    pub fn is_full(&self) -> (r: bool)
        requires
            self.wf(),
        ensures
            r == (self.entries().len() > self.capacity_bound() || self.slots().len() > MAX_SLOTS),
    {
        self.count > self.capacity || self.buffer.len() > MAX_SLOTS
    }

    /// A copy of the slots, in index order.
    pub fn buffer(&self) -> (r: Vec<Option<Point>>)
        ensures
            r@ == self.slots(),
    {
        let mut r: Vec<Option<Point>> = Vec::new();
        let mut i: usize = 0;
        while i < self.buffer.len()
            invariant
                i <= self.buffer@.len(),
                r@ == self.buffer@.subrange(0, i as int),
            decreases self.buffer@.len() - i,
        {
            r.push(self.buffer[i]);
            i = i + 1;
            assert(r@ =~= self.buffer@.subrange(0, i as int));
        }
        assert(r@ =~= self.buffer@);
        r
    }

    /// Inserts `point` with the value 0; see `insert_with_value`.
    pub fn insert(&mut self, point: Point) -> (r: bool)
        requires
            old(self).wf(),
            old(self).slots().len() <= MAX_SLOTS,
        ensures
            final(self).wf(),
            placed(final(self).slots()),
            r == (descend(old(self).slots(), point, 0, 0) is Some),
            r == !points_of_slots(old(self).slots()).contains(point),
            r ==> final(self).slots() == slots_after_insert(old(self).slots(), point),
            r ==> final(self).entries().to_multiset() == old(self).entries().to_multiset().insert(
                Entry { point, value: 0 },
            ),
            !r ==> *final(self) == *old(self),
            final(self).capacity_bound() == old(self).capacity_bound(),
            final(self).slots().len() <= 2 * old(self).slots().len() + 3,
    {
        self.insert_with_value(point, 0)
    }

    /// Walks from the root: a slot holding `point` ends the walk with `false` and no
    /// change; past another point the walk goes left where `point` is strictly less on
    /// the axis of the depth, else right. The first free slot receives `point` and
    /// `value`, the storage growing with free slots up to it.
    pub fn insert_with_value(&mut self, point: Point, value: u64) -> (r: bool)
        requires
            old(self).wf(),
            old(self).slots().len() <= MAX_SLOTS,
        ensures
            final(self).wf(),
            placed(final(self).slots()),
            r == (descend(old(self).slots(), point, 0, 0) is Some),
            r == !points_of_slots(old(self).slots()).contains(point),
            r ==> final(self).slots() == slots_after_insert(old(self).slots(), point),
            r ==> final(self).entries().to_multiset() == old(self).entries().to_multiset().insert(
                Entry { point, value },
            ),
            !r ==> *final(self) == *old(self),
            final(self).capacity_bound() == old(self).capacity_bound(),
            final(self).slots().len() <= 2 * old(self).slots().len() + 3,
    {
        let ghost s0 = self.buffer@;
        let ghost orig = *self;
        let mut idx: usize = 0;
        let mut depth: usize = 0;
        while idx < self.buffer.len()
            invariant
                self.buffer@ == s0,
                s0.len() <= MAX_SLOTS,
                descend(s0, point, 0, 0) == descend(s0, point, idx as nat, depth as nat),
                depth <= idx,
                idx <= 2 * s0.len(),
                *self == orig,
                orig == *old(self),
                orig.wf(),
            ensures
                idx >= s0.len() || s0[idx as int] is None,
                descend(s0, point, 0, 0) == descend(s0, point, idx as nat, depth as nat),
                idx <= 2 * s0.len(),
                *self == orig,
            decreases (if idx < s0.len() { s0.len() - idx } else { 0 }),
        {
            match self.buffer[idx] {
                None => break,
                Some(v) => {
                    if v == point {
                        proof {
                            lemma_found_is_member(s0, point);
                        }
                        return false;
                    }
                    let axis: u64 = (depth % 2) as u64;
                    if point.coord(axis) < v.coord(axis) {
                        idx = 2 * idx + 1;
                    } else {
                        idx = 2 * idx + 2;
                    }
                    depth = depth + 1;
                },
            }
        }
        let ghost e = idx as nat;
        assert(descend(s0, point, idx as nat, depth as nat) == Some(e));
        let ghost v0 = self.values@;
        let ghost mid_len: nat = if e < s0.len() { s0.len() } else { e + 1 };
        while self.buffer.len() <= idx
            invariant
                s0.len() <= self.buffer@.len() <= mid_len,
                self.buffer@.len() == self.values@.len(),
                idx == e,
                self.count == orig.count,
                self.capacity == orig.capacity,
                orig.wf(),
                orig.buffer@ == s0,
                orig.values@ == v0,
                mid_len == if e < s0.len() { s0.len() } else { e + 1 },
                self.buffer@.subrange(0, s0.len() as int) == s0,
                self.values@.subrange(0, s0.len() as int) == v0,
                forall|k: int| s0.len() <= k < self.buffer@.len() ==> self.buffer@[k] is None,
            decreases mid_len - self.buffer@.len(),
        {
            self.buffer.push(None);
            self.values.push(0);
        }
        let ghost s1 = self.buffer@;
        let ghost v1 = self.values@;
        assert(s1.len() == mid_len);
        proof {
            lemma_occupied_prefix(s1, v1, s0, v0, s0.len());
            lemma_occupied_empty_tail(s1, v1, s0.len(), s1.len());
            lemma_occupied_fill(s1, v1, e, point, value, s1.len());
            lemma_occupied_len(s0, v0, s0.len());
        }
        self.buffer.set(idx, Some(point));
        self.values.set(idx, value);
        self.count = self.count + 1;
        proof {
            let s2 = self.buffer@;
            assert(keeps(s0, s2));
            lemma_descend_reaches(s0, s2, point, 0, 0);
            assert forall|j: int| 0 <= j < s2.len() && (#[trigger] s2[j]) is Some implies reaches(
                s2,
                s2[j]->Some_0,
                0,
                0,
                j as nat,
            ) by {
                if j != e {
                    assert(s0[j] == s2[j]);
                    lemma_reaches_kept(s0, s2, s2[j]->Some_0, 0, 0, j as nat);
                }
            }
            assert(placed(s2));
            assert(self.buffer@ == s1.update(e as int, Some(point)));
            assert(self.values@ == v1.update(e as int, value));
            assert(occupied(s1, v1, s1.len()) == old(self).entries());
            assert(self.entries().to_multiset() == old(self).entries().to_multiset().insert(
                Entry { point, value },
            ));
            assert(self.entries().len() == self.entries().to_multiset().len());
            assert(old(self).entries().len() == old(self).entries().to_multiset().len());
            assert(self.entries().len() == old(self).entries().len() + 1);
            lemma_absent_not_member(s0, point);
            if e >= s0.len() {
                assert(s2 =~= s0 + Seq::new((e - s0.len()) as nat, |k: int| None::<Point>) + seq![
                    Some(point),
                ]);
            }
        }
        true
    }

    /// Whether some slot holds `point`; only the slots on its descent are read.
    pub fn contains(&self, point: &Point) -> (r: bool)
        requires
            self.wf(),
        ensures
            r == points_of_slots(self.slots()).contains(*point),
    {
        let mut idx: usize = 0;
        let mut depth: usize = 0;
        let ghost s0 = self.buffer@;
        while idx < self.buffer.len()
            invariant
                self.buffer@ == s0,
                placed(s0),
                descend(s0, *point, 0, 0) == descend(s0, *point, idx as nat, depth as nat),
                depth <= idx,
            decreases (if idx < s0.len() { s0.len() - idx } else { 0 }),
        {
            match self.buffer[idx] {
                None => {
                    proof {
                        lemma_absent_not_member(s0, *point);
                    }
                    return false;
                },
                Some(v) => {
                    if v == *point {
                        proof {
                            lemma_found_is_member(s0, *point);
                        }
                        return true;
                    }
                    if idx >= usize::MAX / 2 {
                        proof {
                            lemma_descend_bound(s0, *point, idx as nat, depth as nat);
                            lemma_absent_not_member(s0, *point);
                        }
                        return false;
                    }
                    let axis: u64 = (depth % 2) as u64;
                    if point.coord(axis) < v.coord(axis) {
                        idx = 2 * idx + 1;
                    } else {
                        idx = 2 * idx + 2;
                    }
                    depth = depth + 1;
                },
            }
        }
        proof {
            lemma_absent_not_member(s0, *point);
        }
        false
    }

    /// The stored entries in slot order, leaving the buffer as it is.
    pub fn to_entries(&self) -> (r: Vec<Entry>)
        requires
            self.wf(),
        ensures
            r@ == self.entries(),
    {
        let mut r: Vec<Entry> = Vec::new();
        let mut i: usize = 0;
        while i < self.buffer.len()
            invariant
                i <= self.buffer@.len(),
                self.buffer@.len() == self.values@.len(),
                r@ == occupied(self.buffer@, self.values@, i as nat),
            decreases self.buffer@.len() - i,
        {
            match self.buffer[i] {
                Some(p) => {
                    r.push(Entry { point: p, value: self.values[i] });
                },
                None => {},
            }
            i = i + 1;
        }
        r
    }

    /// Removes every entry, returning them in slot order; the bound stays.
    pub fn drain(&mut self) -> (r: Vec<Entry>)
        requires
            old(self).wf(),
        ensures
            final(self).wf(),
            r@ == old(self).entries(),
            final(self).entries() == Seq::<Entry>::empty(),
            final(self).slots() == Seq::<Option<Point>>::empty(),
            final(self).capacity_bound() == old(self).capacity_bound(),
    {
        let r = self.to_entries();
        self.buffer = Vec::new();
        self.values = Vec::new();
        self.count = 0;
        r
    }
}

/// The points held in the slots of `s`.
pub open spec fn points_of_slots(s: Seq<Option<Point>>) -> Set<Point> {
    Set::new(|p: Point| exists|j: int| 0 <= j < s.len() && s[j] == Some(p))
}

proof fn lemma_found_is_member(s: Seq<Option<Point>>, p: Point)
    requires
        descend(s, p, 0, 0) is None,
    ensures
        points_of_slots(s).contains(p),
{
    let j = lemma_descend_none_slot(s, p, 0, 0);
    assert(s[j as int] == Some(p));
}

proof fn lemma_descend_none_slot(s: Seq<Option<Point>>, p: Point, i: nat, d: nat) -> (j: nat)
    requires
        descend(s, p, i, d) is None,
    ensures
        j < s.len(),
        s[j as int] == Some(p),
    decreases (if i < s.len() { s.len() - i } else { 0 }),
{
    let v = s[i as int]->Some_0;
    if v == p {
        i
    } else {
        lemma_descend_none_slot(s, p, child_of(i, p, v, d), d + 1)
    }
}

/// A descent from a slot past half the largest index cannot meet an occupied slot.
proof fn lemma_descend_bound(s: Seq<Option<Point>>, p: Point, i: nat, d: nat)
    requires
        i < s.len(),
        s.len() <= usize::MAX,
        s[i as int] is Some,
        s[i as int]->Some_0 != p,
        i >= usize::MAX / 2,
    ensures
        descend(s, p, i, d) is Some,
{
    let v = s[i as int]->Some_0;
    assert(child_of(i, p, v, d) >= s.len());
    assert(descend(s, p, child_of(i, p, v, d), d + 1) is Some);
}

proof fn lemma_absent_not_member(s: Seq<Option<Point>>, p: Point)
    requires
        placed(s),
        descend(s, p, 0, 0) is Some,
    ensures
        !points_of_slots(s).contains(p),
{
    if points_of_slots(s).contains(p) {
        let j = choose|j: int| 0 <= j < s.len() && s[j] == Some(p);
        assert(s[j] is Some);
        lemma_descend_finds(s, p, 0, 0, j as nat);
    }
}

} // verus!
