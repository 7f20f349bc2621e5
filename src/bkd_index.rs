use vstd::multiset::Multiset;
use vstd::prelude::*;

use crate::kd_tree::{points_of_slots, KdTree, MAX_SLOTS};
use crate::kdb_tree::KdbTree;
use crate::{
    box_valid, in_box, lemma_live_append, lemma_matching_append, live, matching, Entry, IndexError,
    Point, QueryBox,
};

verus! {

broadcast use {
    vstd::seq_lib::group_to_multiset_ensures,
    vstd::seq_lib::lemma_multiset_commutative,
    vstd::multiset::group_multiset_axioms,
};

/// The settings an index is created with; the dimensionality is fixed at two.
#[derive(Clone, Copy, Debug, PartialEq, Eq, Structural)]
pub struct IndexConfig {
    /// The number of points past which the buffer is flushed.
    pub buffer_capacity: usize,
    /// The most entries a leaf block holds.
    pub block_capacity: usize,
    /// The most children an inner block has.
    pub fanout: usize,
    /// The factor by which each level's capacity exceeds the one above it.
    pub growth_factor: usize,
}

/// Leaves hold at least one entry, inner blocks have at least two children, and
/// each level is at least twice the size of the one above it.
pub open spec fn config_valid(c: IndexConfig) -> bool {
    c.block_capacity >= 1 && c.fanout >= 2 && c.growth_factor >= 2
}

/// The target capacity of level `l`: the buffer capacity times the growth factor
/// `l` times.
pub open spec fn level_cap(c: IndexConfig, l: nat) -> nat
    decreases l,
{
    if l == 0 {
        c.buffer_capacity as nat
    } else {
        level_cap(c, (l - 1) as nat) * c.growth_factor as nat
    }
}

/// Every level but the last holds no more entries than its target capacity.
pub open spec fn levels_fit(levels: Seq<Option<KdbTree>>, c: IndexConfig) -> bool {
    forall|l: int|
        0 <= l < levels.len() - 1 && (#[trigger] levels[l]) is Some ==> levels[l]->Some_0.content().len()
            <= level_cap(c, l as nat)
}

/// A flush into `before` gave `after` by placing a segment at level `l`: every level
/// above it is empty, every level below it is unchanged, and a level is added only
/// where `l` is past the last one.
pub open spec fn landed_at(before: Seq<Option<KdbTree>>, after: Seq<Option<KdbTree>>, l: int) -> bool {
    &&& 0 <= l < after.len()
    &&& after[l] is Some
    &&& forall|j: int| 0 <= j < l ==> (#[trigger] after[j]) is None
    &&& forall|j: int| l < j < before.len() ==> (#[trigger] after[j]) == before[j]
    &&& after.len() == if l < before.len() { before.len() as int } else { l + 1 }
}

/// The entries of a level: those of its segment, or none.
pub open spec fn slot_content(x: Option<KdbTree>) -> Seq<Entry> {
    match x {
        Some(t) => t.content(),
        None => Seq::empty(),
    }
}

/// The entries of all levels, level by level.
pub open spec fn level_content(levels: Seq<Option<KdbTree>>) -> Seq<Entry>
    decreases levels.len(),
{
    if levels.len() == 0 {
        Seq::empty()
    } else {
        level_content(levels.drop_last()) + slot_content(levels.last())
    }
}

/// The box that holds `p` alone.
pub open spec fn point_box(p: Point) -> QueryBox {
    QueryBox { min_x: p.x, max_x: p.x, min_y: p.y, max_y: p.y }
}

/// Some entry of `s` at `p` carries a value that is not dead.
pub open spec fn point_live_in(s: Seq<Entry>, dead: Set<u64>, p: Point) -> bool {
    exists|i: int| 0 <= i < s.len() && (#[trigger] s[i]).point == p && !dead.contains(s[i].value)
}

/// No two entries of `m` share a point, and none occurs twice.
pub open spec fn points_unique(m: Multiset<Entry>) -> bool {
    forall|a: Entry, b: Entry|
        #[trigger] m.count(a) > 0 && #[trigger] m.count(b) > 0 && a.point == b.point ==> a == b
            && m.count(a) == 1
}

/// Some entry of `s` carries `v`.
pub open spec fn value_in(s: Seq<Entry>, v: u64) -> bool {
    exists|i: int| 0 <= i < s.len() && (#[trigger] s[i]).value == v
}

/// The number of entries of `s` that carry a dead value.
pub open spec fn dead_count(s: Seq<Entry>, dead: Set<u64>) -> int {
    s.len() - live(s, dead).len()
}

proof fn lemma_live_all(s: Seq<Entry>, dead: Set<u64>)
    requires
        forall|i: int| 0 <= i < s.len() ==> !dead.contains(#[trigger] s[i].value),
    ensures
        live(s, dead) == s,
    decreases s.len(),
{
    if s.len() > 0 {
        lemma_live_all(s.drop_last(), dead);
        assert(s.drop_last().push(s.last()) =~= s);
    }
}

proof fn lemma_live_alive(s: Seq<Entry>, dead: Set<u64>)
    ensures
        forall|i: int| 0 <= i < live(s, dead).len() ==> !dead.contains(#[trigger] live(s, dead)[i].value),
    decreases s.len(),
{
    if s.len() > 0 {
        lemma_live_alive(s.drop_last(), dead);
        let r = live(s.drop_last(), dead);
        assert forall|i: int| 0 <= i < live(s, dead).len() implies !dead.contains(
            #[trigger] live(s, dead)[i].value,
        ) by {
            if i < r.len() {
                assert(live(s, dead)[i] == r[i]);
            }
        }
    }
}

proof fn lemma_point_query(s: Seq<Entry>, dead: Set<u64>, p: Point)
    ensures
        live(matching(s, point_box(p)), dead).len() > 0 <==> point_live_in(s, dead, p),
    decreases s.len(),
{
    if s.len() > 0 {
        let t = s.drop_last();
        lemma_point_query(t, dead, p);
        if point_live_in(t, dead, p) {
            let i = choose|i: int| 0 <= i < t.len() && (#[trigger] t[i]).point == p && !dead.contains(t[i].value);
            assert(s[i] == t[i]);
        }
        if point_live_in(s, dead, p) && !point_live_in(t, dead, p) {
            let i = choose|i: int| 0 <= i < s.len() && (#[trigger] s[i]).point == p && !dead.contains(s[i].value);
            if i < t.len() {
                assert(t[i] == s[i]);
            }
        }
        let m = matching(t, point_box(p));
        if in_box(s.last().point, point_box(p)) {
            assert(matching(s, point_box(p)).drop_last() =~= m);
        }
    }
}

proof fn lemma_level_update(levels: Seq<Option<KdbTree>>, l: int, x: Option<KdbTree>, dead: Set<u64>)
    requires
        0 <= l < levels.len(),
    ensures
        live(level_content(levels.update(l, x)), dead).to_multiset().add(
            live(slot_content(levels[l]), dead).to_multiset(),
        ) == live(level_content(levels), dead).to_multiset().add(
            live(slot_content(x), dead).to_multiset(),
        ),
    decreases levels.len(),
{
    let u = levels.update(l, x);
    let last = levels.len() - 1;
    let pu = level_content(u.drop_last());
    let pl = level_content(levels.drop_last());
    assert(level_content(u) == pu + slot_content(u.last()));
    assert(level_content(levels) == pl + slot_content(levels.last()));
    lemma_live_append(pu, slot_content(u.last()), dead);
    lemma_live_append(pl, slot_content(levels.last()), dead);
    let mpu = live(pu, dead).to_multiset();
    let mpl = live(pl, dead).to_multiset();
    let mlu = live(slot_content(u.last()), dead).to_multiset();
    let mll = live(slot_content(levels.last()), dead).to_multiset();
    let mold = live(slot_content(levels[l]), dead).to_multiset();
    let mx = live(slot_content(x), dead).to_multiset();
    assert(live(level_content(u), dead).to_multiset() == mpu.add(mlu));
    assert(live(level_content(levels), dead).to_multiset() == mpl.add(mll));
    if l == last {
        assert(u.drop_last() =~= levels.drop_last());
        assert(u.last() == x);
        assert(pu == pl);
        assert(mpu == mpl);
        assert(mlu == mx);
        assert(levels[l] == levels.last());
        assert(mold == mll);
        assert(mpu.add(mlu).add(mold) =~= mpl.add(mll).add(mx));
    } else {
        assert(u.drop_last() =~= levels.drop_last().update(l, x));
        lemma_level_update(levels.drop_last(), l, x, dead);
        assert(u.last() == levels.last());
        assert(levels.drop_last()[l] == levels[l]);
        assert(mpu.add(mold) == mpl.add(mx));
        assert(mlu == mll);
        assert forall|v: Entry| #[trigger] mpu.add(mlu).add(mold).count(v) == mpl.add(mll).add(mx).count(v) by {
            assert(mpu.add(mold).count(v) == mpl.add(mx).count(v));
        }
        assert(mpu.add(mlu).add(mold) =~= mpl.add(mll).add(mx));
    }
}

proof fn lemma_live_count(s: Seq<Entry>, dead: Set<u64>, x: Entry)
    ensures
        live(s, dead).to_multiset().count(x) == if dead.contains(x.value) {
            0
        } else {
            s.to_multiset().count(x)
        },
    decreases s.len(),
{
    if s.len() > 0 {
        lemma_live_count(s.drop_last(), dead, x);
        assert(s =~= s.drop_last().push(s.last()));
    }
}

/// Dropping dead values keeps two reorderings of each other reorderings of each other.
proof fn lemma_live_perm(s1: Seq<Entry>, s2: Seq<Entry>, dead: Set<u64>)
    requires
        s1.to_multiset() == s2.to_multiset(),
    ensures
        live(s1, dead).to_multiset() == live(s2, dead).to_multiset(),
{
    assert forall|x: Entry| #[trigger] live(s1, dead).to_multiset().count(x) == live(s2, dead).to_multiset().count(x) by {
        lemma_live_count(s1, dead, x);
        lemma_live_count(s2, dead, x);
    }
    assert(live(s1, dead).to_multiset() =~= live(s2, dead).to_multiset());
}

proof fn lemma_value_in_append(a: Seq<Entry>, b: Seq<Entry>, v: u64)
    ensures
        value_in(a + b, v) <==> value_in(a, v) || value_in(b, v),
{
    if value_in(a + b, v) {
        let i = choose|i: int| 0 <= i < (a + b).len() && (#[trigger] (a + b)[i]).value == v;
        if i < a.len() {
            assert(a[i] == (a + b)[i]);
        } else {
            assert(b[i - a.len()] == (a + b)[i]);
        }
    }
    if value_in(a, v) {
        let i = choose|i: int| 0 <= i < a.len() && (#[trigger] a[i]).value == v;
        assert((a + b)[i] == a[i]);
    }
    if value_in(b, v) {
        let i = choose|i: int| 0 <= i < b.len() && (#[trigger] b[i]).value == v;
        assert((a + b)[a.len() + i] == b[i]);
    }
}

/// What survives more tombstones is a part of what survives fewer.
proof fn lemma_live_more_dead(s: Seq<Entry>, d1: Set<u64>, d2: Set<u64>, x: Entry)
    requires
        d1.subset_of(d2),
    ensures
        live(s, d2).to_multiset().count(x) <= live(s, d1).to_multiset().count(x),
{
    lemma_live_count(s, d1, x);
    lemma_live_count(s, d2, x);
}

/// What a box selects is a part of what it selects from.
proof fn lemma_matching_count(s: Seq<Entry>, b: QueryBox, x: Entry)
    ensures
        matching(s, b).to_multiset().count(x) <= s.to_multiset().count(x),
    decreases s.len(),
{
    if s.len() > 0 {
        lemma_matching_count(s.drop_last(), b, x);
        assert(s =~= s.drop_last().push(s.last()));
    }
}

/// An entry that survives the tombstones occurs in `s` under a live value.
proof fn lemma_live_contains(s: Seq<Entry>, dead: Set<u64>, x: Entry)
    requires
        live(s, dead).contains(x),
    ensures
        s.contains(x),
        !dead.contains(x.value),
{
    lemma_live_count(s, dead, x);
    vstd::seq_lib::to_multiset_contains(live(s, dead), x);
    vstd::seq_lib::to_multiset_contains(s, x);
}

/// A reordering of entries that all carry live values keeps every one of them.
proof fn lemma_alive_perm(s1: Seq<Entry>, s2: Seq<Entry>, dead: Set<u64>)
    requires
        s2.to_multiset() == s1.to_multiset(),
        forall|i: int| 0 <= i < s1.len() ==> !dead.contains(#[trigger] s1[i].value),
    ensures
        live(s2, dead) == s2,
{
    assert(s2.len() == s1.len()) by {
        vstd::seq_lib::to_multiset_len(s1);
        vstd::seq_lib::to_multiset_len(s2);
    }
    assert(s2.subrange(0, s2.len() as int) =~= s2);
    assert(s1.subrange(0, s1.len() as int) =~= s1);
    let p = |x: Entry| !dead.contains(x.value);
    assert forall|k: int| 0 <= k < s1.len() implies p(#[trigger] s1[k]) by {}
    crate::kdb_tree::lemma_perm_all(s1, s2, 0, s1.len() as int, p);
    assert forall|k: int| 0 <= k < s2.len() implies !dead.contains(#[trigger] s2[k].value) by {
        assert(p(s2[k]));
    }
    lemma_live_all(s2, dead);
}

/// Whether some entry of `s` carries `v`.
fn holds_value(s: &Vec<Entry>, v: u64) -> (r: bool)
    ensures
        r == value_in(s@, v),
{
    let mut i: usize = 0;
    while i < s.len()
        invariant
            i <= s@.len(),
            forall|j: int| 0 <= j < i ==> (#[trigger] s@[j]).value != v,
        decreases s@.len() - i,
    {
        if s[i].value == v {
            return true;
        }
        i = i + 1;
    }
    false
}

/// A deleted value is never among the entries that survive the tombstones, whatever
/// the entries and the box.
pub proof fn lemma_deleted_value_excluded(s: Seq<Entry>, dead: Set<u64>, b: QueryBox, v: u64)
    requires
        dead.contains(v),
    ensures
        forall|i: int| 0 <= i < live(matching(s, b), dead).len() ==> (#[trigger] live(matching(s, b), dead)[i]).value != v,
{
    lemma_live_alive(matching(s, b), dead);
}

/// With nothing deleted, a box that holds every point selects every entry, each once
/// and in order.
pub proof fn lemma_full_box_selects_all(s: Seq<Entry>, b: QueryBox)
    requires
        forall|p: Point| #[trigger] in_box(p, b),
    ensures
        live(matching(s, b), Set::empty()) == s,
{
    crate::lemma_matching_all(s, b);
    crate::lemma_live_empty(s);
}

/// The entries of `a` then `b` that carry no value of `dead`.
fn live_union(a: &Vec<Entry>, b: &Vec<Entry>, dead: &Vec<u64>) -> (r: Vec<Entry>)
    ensures
        r@ == live(a@ + b@, dead_set(dead@)),
{
    let mut r: Vec<Entry> = Vec::new();
    append_live(a, dead, &mut r);
    append_live(b, dead, &mut r);
    proof {
        lemma_live_append(a@, b@, dead_set(dead@));
    }
    r
}

/// The values of `dead`, as a set.
pub open spec fn dead_set(dead: Seq<u64>) -> Set<u64> {
    Set::new(|v: u64| dead.contains(v))
}

fn is_dead(dead: &Vec<u64>, v: u64) -> (r: bool)
    ensures
        r == dead_set(dead@).contains(v),
{
    let mut i: usize = 0;
    while i < dead.len()
        invariant
            i <= dead@.len(),
            forall|j: int| 0 <= j < i ==> dead@[j] != v,
        decreases dead@.len() - i,
    {
        if dead[i] == v {
            return true;
        }
        i = i + 1;
    }
    false
}

fn append_live(src: &Vec<Entry>, dead: &Vec<u64>, out: &mut Vec<Entry>)
    ensures
        final(out)@ == old(out)@ + live(src@, dead_set(dead@)),
{
    let ghost out0 = out@;
    let mut i: usize = 0;
    while i < src.len()
        invariant
            i <= src@.len(),
            out@ == out0 + live(src@.subrange(0, i as int), dead_set(dead@)),
        decreases src@.len() - i,
    {
        let e = src[i];
        proof {
            assert(src@.subrange(0, i + 1).drop_last() =~= src@.subrange(0, i as int));
        }
        if !is_dead(dead, e.value) {
            out.push(e);
        }
        i = i + 1;
    }
    proof {
        assert(src@.subrange(0, src@.len() as int) =~= src@);
    }
}

/// Merges two segments into one built anew from the entries of both that carry no
/// value of `tombstones`.
pub fn merge_segments(
    left: &KdbTree,
    right: &KdbTree,
    tombstones: &Vec<u64>,
    block_capacity: usize,
    fanout: usize,
) -> (r: KdbTree)
    requires
        block_capacity >= 1,
        fanout >= 2,
    ensures
        r.wf(),
        r.leaf_capacity() == block_capacity,
        r.content().to_multiset() == live(left.content() + right.content(), dead_set(tombstones@)).to_multiset(),
        r.content().len() == left.content().len() + right.content().len() - dead_count(
            left.content(),
            dead_set(tombstones@),
        ) - dead_count(right.content(), dead_set(tombstones@)),
{
    let merged = live_union(left.entry_store(), right.entry_store(), tombstones);
    let r = KdbTree::bulk_load(merged, block_capacity, fanout);
    proof {
        lemma_live_append(left.content(), right.content(), dead_set(tombstones@));
        assert(r.content().len() == r.content().to_multiset().len());
        assert(merged@.len() == merged@.to_multiset().len());
    }
    r
}

/// A log-structured index: inserts land in a `KdTree` buffer; a full buffer is
/// flushed into levelled `KdbTree` segments, at most one per level, merging with
/// the occupants of the levels it passes; deletes are tombstones consulted by
/// queries and dropped entries at merges.
pub struct BkdIndex {
    config: IndexConfig,
    buffer: KdTree,
    levels: Vec<Option<KdbTree>>,
    dead: Vec<u64>,
}

impl BkdIndex {
    /// Every entry held, the buffer's first, then level by level.
    pub closed spec fn all_entries(&self) -> Seq<Entry> {
        self.buffer.entries() + level_content(self.levels@)
    }

    /// The entries in the buffer.
    pub closed spec fn buffer_entries(&self) -> Seq<Entry> {
        self.buffer.entries()
    }

    /// The entries in the segments.
    pub closed spec fn segment_entries(&self) -> Seq<Entry> {
        level_content(self.levels@)
    }

    /// The points in the buffer's slots.
    pub closed spec fn buffer_points(&self) -> Set<Point> {
        points_of_slots(self.buffer.slots())
    }

    /// The deleted values.
    pub closed spec fn tombstones(&self) -> Set<u64> {
        dead_set(self.dead@)
    }

    /// The levels, from the smallest.
    pub closed spec fn level_slots(&self) -> Seq<Option<KdbTree>> {
        self.levels@
    }

    /// The settings the index was created with.
    pub closed spec fn settings(&self) -> IndexConfig {
        self.config
    }

    /// The entries a query can return.
    pub open spec fn live_entries(&self) -> Seq<Entry> {
        live(self.all_entries(), self.tombstones())
    }

    /// Well formed, with a buffer that can take another insert.
    pub closed spec fn wf(&self) -> bool {
        &&& self.parts_ok()
        &&& self.buffer.slots().len() <= MAX_SLOTS
    }

    /// Well formed, but for the buffer's number of slots.
    pub closed spec fn parts_ok(&self) -> bool {
        &&& points_unique(self.live_entries().to_multiset())
        &&& self.structure_ok()
    }

    /// The parts are each well formed and agree with the settings.
    pub closed spec fn structure_ok(&self) -> bool {
        &&& levels_fit(self.levels@, self.config)
        &&& config_valid(self.config)
        &&& self.buffer.wf()
        &&& self.buffer.capacity_bound() == self.config.buffer_capacity
        &&& forall|l: int|
            0 <= l < self.levels@.len() && (#[trigger] self.levels@[l]) is Some ==> {
                &&& self.levels@[l]->Some_0.wf()
                &&& self.levels@[l]->Some_0.leaf_capacity() == self.config.block_capacity
            }
    }

    /// An empty index.
    pub fn new(config: IndexConfig) -> (r: Self)
        requires
            config_valid(config),
        ensures
            r.wf(),
            r.settings() == config,
            r.all_entries() == Seq::<Entry>::empty(),
            r.tombstones() == Set::<u64>::empty(),
    {
        let r = BkdIndex {
            config,
            buffer: KdTree::with_buffer_capacity(config.buffer_capacity),
            levels: Vec::new(),
            dead: Vec::new(),
        };
        proof {
            assert(r.tombstones() =~= Set::<u64>::empty());
            assert(level_content(r.levels@) == Seq::<Entry>::empty());
            assert(r.all_entries() =~= Seq::<Entry>::empty());
        }
        r
    }

    /// The number of levels, occupied or not.
    pub fn level_count(&self) -> (r: usize)
        ensures
            r == self.level_slots().len(),
    {
        self.levels.len()
    }

    /// The number of entries in the segment of level `l`, if it has one.
    pub fn level_len(&self, l: usize) -> (r: Option<usize>)
        requires
            l < self.level_slots().len(),
        ensures
            r is Some <==> self.level_slots()[l as int] is Some,
            r is Some ==> r->Some_0 == self.level_slots()[l as int]->Some_0.content().len(),
    {
        match &self.levels[l] {
            Some(t) => Some(t.len()),
            None => None,
        }
    }

    /// The number of entries in the buffer.
    pub fn buffer_len(&self) -> (r: usize)
        requires
            self.wf(),
        ensures
            r == self.buffer_entries().len(),
    {
        self.buffer.len()
    }

    /// Moves the buffer's live entries into the levels: from level 0 down, each
    /// occupied level is taken out and merged with what is carried (dropping dead
    /// entries) until what is carried fits a level's capacity (the buffer capacity
    /// times the growth factor per level), where it is bulk-loaded; past the last
    /// level a new one takes it. The buffer is left empty.
    pub fn flush(&mut self)
        requires
            old(self).parts_ok(),
        ensures
            final(self).wf(),
            final(self).buffer_entries() == Seq::<Entry>::empty(),
            final(self).tombstones() == old(self).tombstones(),
            final(self).settings() == old(self).settings(),
            final(self).live_entries().to_multiset() == old(self).live_entries().to_multiset(),
            old(self).tombstones() == Set::<u64>::empty() ==> final(self).all_entries().len()
                == old(self).all_entries().len(),
            levels_fit(final(self).level_slots(), final(self).settings()),
            exists|l: int| #[trigger] landed_at(old(self).level_slots(), final(self).level_slots(), l),
    {
        let ghost t = self.tombstones();
        let ghost old_all = self.all_entries();
        let ghost old_buf = self.buffer.entries();
        proof {
            lemma_live_append(old_buf, level_content(self.levels@), t);
        }
        let drained = self.buffer.drain();
        let mut carry: Vec<Entry> = Vec::new();
        append_live(&drained, &self.dead, &mut carry);
        proof {
            lemma_live_alive(drained@, t);
            assert(carry@ == live(drained@, t));
        }
        let block_capacity = self.config.block_capacity;
        let fanout = self.config.fanout;
        let growth = self.config.growth_factor;
        let mut cap: usize = self.config.buffer_capacity;
        let mut l: usize = 0;
        while l < self.levels.len()
            invariant
                self.structure_ok(),
                self.buffer.slots().len() <= MAX_SLOTS,
                points_unique(live(old_all, t).to_multiset()),
                self.tombstones() == t,
                t == old(self).tombstones(),
                old_all == old(self).all_entries(),
                self.config == old(self).config,
                self.buffer.entries() == Seq::<Entry>::empty(),
                block_capacity == self.config.block_capacity,
                fanout == self.config.fanout,
                growth == self.config.growth_factor,
                l <= self.levels@.len(),
                cap as nat <= level_cap(self.config, l as nat),
                self.levels@.len() == old(self).levels@.len(),
                forall|j: int| 0 <= j < l ==> (#[trigger] self.levels@[j]) is None,
                forall|j: int| l <= j < self.levels@.len() ==> (#[trigger] self.levels@[j]) == old(self).levels@[j],
                live(level_content(self.levels@), t).to_multiset().add(carry@.to_multiset()) == live(
                    old_all,
                    t,
                ).to_multiset(),
                forall|i: int| 0 <= i < carry@.len() ==> !t.contains(#[trigger] carry@[i].value),
            decreases self.levels@.len() - l,
        {
            let ghost lv0 = self.levels@;
            let ghost carry0 = carry@;
            let mut slot: Option<KdbTree> = None;
            std::mem::swap(&mut self.levels[l], &mut slot);
            proof {
                assert(self.levels@ == lv0.update(l as int, None));
                lemma_level_update(lv0, l as int, None, t);
                assert(live(slot_content(None), t) =~= Seq::<Entry>::empty());
            }
            let ghost m_rest = live(level_content(self.levels@), t).to_multiset();
            let ghost m_before = live(level_content(lv0), t).to_multiset();
            let ghost m_taken = live(slot_content(lv0[l as int]), t).to_multiset();
            proof {
                assert(slot == lv0[l as int]);
                assert(live(slot_content(None), t).to_multiset() =~= Multiset::<Entry>::empty());
                assert(m_rest.add(m_taken) =~= m_before);
            }
            match slot {
                Some(seg) => {
                    carry = live_union(seg.entry_store(), &carry, &self.dead);
                    proof {
                        lemma_live_append(seg.content(), carry0, t);
                        lemma_live_all(carry0, t);
                        lemma_live_alive(seg.content() + carry0, t);
                        assert(carry@.to_multiset() =~= m_taken.add(carry0.to_multiset()));
                    }
                },
                None => {
                    assert(m_taken =~= Multiset::<Entry>::empty());
                },
            }
            proof {
                assert(m_rest.add(carry@.to_multiset()) =~= m_before.add(carry0.to_multiset()));
            }
            if carry.len() <= cap {
                let ghost carry1 = carry@;
                let ghost lv1 = self.levels@;
                let seg = KdbTree::bulk_load(carry, block_capacity, fanout);
                proof {
                    lemma_alive_perm(carry1, seg.content(), t);
                    lemma_level_update(lv1, l as int, Some(seg), t);
                }
                self.levels.set(l, Some(seg));
                proof {
                    assert(lv1[l as int] == None::<KdbTree>);
                    assert(live(slot_content(None), t) =~= Seq::<Entry>::empty());
                    assert(live(level_content(self.levels@), t).to_multiset() =~= live(old_all, t).to_multiset());
                    assert(self.all_entries() =~= level_content(self.levels@));
                    self.lemma_count_when_nothing_dead(old_all);
                    assert(self.levels@[l as int] is Some);
                    assert(forall|j: int| 0 <= j < l ==> self.levels@[j] == lv1[j]);
                    assert(forall|j: int| l < j < self.levels@.len() ==> self.levels@[j] == lv1[j]);
                    vstd::seq_lib::to_multiset_len(carry1);
                    vstd::seq_lib::to_multiset_len(seg.content());
                    assert(self.levels@[l as int]->Some_0.content().len() <= cap);
                    assert(levels_fit(lv1, self.config));
                    assert(levels_fit(self.levels@, self.config));
                    assert(landed_at(old(self).levels@, self.levels@, l as int));
                    assert(landed_at(old(self).level_slots(), self.level_slots(), l as int));
                }
                return;
            }
            let ghost lc = level_cap(self.config, l as nat);
            assert(level_cap(self.config, l as nat + 1) == lc * growth as nat);
            if cap > usize::MAX / growth {
                assert(usize::MAX <= lc * growth) by (nonlinear_arith)
                    requires
                        cap > usize::MAX / growth,
                        cap <= lc,
                        growth >= 2,
                ;
                cap = usize::MAX;
            } else {
                assert(cap * growth <= usize::MAX && cap * growth <= lc * growth) by (nonlinear_arith)
                    requires
                        cap <= usize::MAX / growth,
                        cap <= lc,
                        growth >= 2,
                ;
                cap = cap * growth;
            }
            l = l + 1;
        }
        let ghost carry1 = carry@;
        let ghost lv1 = self.levels@;
        let seg = KdbTree::bulk_load(carry, block_capacity, fanout);
        proof {
            lemma_alive_perm(carry1, seg.content(), t);
        }
        self.levels.push(Some(seg));
        proof {
            assert(self.levels@.drop_last() =~= lv1);
            assert(level_content(self.levels@) == level_content(lv1) + seg.content());
            lemma_live_append(level_content(lv1), seg.content(), t);
            assert(live(level_content(self.levels@), t).to_multiset() =~= live(old_all, t).to_multiset());
            assert(self.all_entries() =~= level_content(self.levels@));
            self.lemma_count_when_nothing_dead(old_all);
            assert(self.levels@[lv1.len() as int] is Some);
            assert(forall|j: int| 0 <= j < lv1.len() ==> self.levels@[j] == lv1[j]);
            assert(levels_fit(self.levels@, self.config));
            assert(landed_at(old(self).levels@, self.levels@, lv1.len() as int));
            assert(landed_at(old(self).level_slots(), self.level_slots(), lv1.len() as int));
        }
    }

    proof fn lemma_count_when_nothing_dead(&self, old_all: Seq<Entry>)
        requires
            live(self.all_entries(), self.tombstones()).to_multiset() == live(old_all, self.tombstones()).to_multiset(),
        ensures
            self.tombstones() == Set::<u64>::empty() ==> self.all_entries().len() == old_all.len(),
    {
        if self.tombstones() == Set::<u64>::empty() {
            crate::lemma_live_empty(self.all_entries());
            crate::lemma_live_empty(old_all);
            assert(self.all_entries().to_multiset().len() == old_all.to_multiset().len());
        }
    }

    /// Inserts `point` with `value`. `DuplicatePoint`, with nothing changed, where a
    /// segment holds `point` under a value that is not deleted, or the buffer holds
    /// `point` at all. A buffer that becomes full is flushed.
    pub fn insert(&mut self, point: Point, value: u64) -> (r: Result<(), IndexError>)
        requires
            old(self).wf(),
        ensures
            final(self).wf(),
            r is Err <==> (old(self).buffer_points().contains(point) || point_live_in(
                old(self).segment_entries(),
                old(self).tombstones(),
                point,
            )),
            r is Err ==> r->Err_0 == IndexError::DuplicatePoint && *final(self) == *old(self),
            r is Ok ==> final(self).live_entries().to_multiset() == live(
                old(self).all_entries().push(Entry { point, value }),
                old(self).tombstones(),
            ).to_multiset(),
            final(self).tombstones() == old(self).tombstones(),
            final(self).settings() == old(self).settings(),
    {
        if self.buffer.contains(&point) {
            return Err(IndexError::DuplicatePoint);
        }
        let pb = QueryBox { min_x: point.x, max_x: point.x, min_y: point.y, max_y: point.y };
        let mut found: Vec<Entry> = Vec::new();
        self.query_levels(&pb, &mut found);
        proof {
            lemma_point_query(level_content(self.levels@), self.tombstones(), point);
        }
        if found.len() > 0 {
            return Err(IndexError::DuplicatePoint);
        }
        let ghost t = self.tombstones();
        let ghost old_all = self.all_entries();
        let ghost lc = level_content(self.levels@);
        let ghost b0 = self.buffer.entries();
        let ghost s_old = self.buffer.slots();
        let ghost v_old = self.buffer.slot_values();
        let e = Entry { point, value };
        let added = self.buffer.insert_with_value(point, value);
        proof {
            let b1 = self.buffer.entries();
            assert(b1.to_multiset() =~= (b0.push(e)).to_multiset());
            lemma_live_perm(b1, b0.push(e), t);
            lemma_live_append(b1, lc, t);
            lemma_live_append(b0.push(e), lc, t);
            assert(old_all.push(e).to_multiset() =~= (b0.push(e) + lc).to_multiset());
            assert(old_all.push(e).to_multiset() == (b0.push(e) + lc).to_multiset());
            lemma_live_perm(old_all.push(e), b0.push(e) + lc, t);
            assert(self.live_entries().to_multiset() =~= live(old_all.push(e), t).to_multiset());
            let m_old = live(old_all, t).to_multiset();
            assert forall|a: Entry| #[trigger] m_old.count(a) > 0 implies a.point != point by {
                vstd::seq_lib::to_multiset_contains(live(old_all, t), a);
                lemma_live_append(b0, lc, t);
                let j = choose|j: int| 0 <= j < live(old_all, t).len() && live(old_all, t)[j] == a;
                if j < live(b0, t).len() {
                    assert(live(b0, t)[j] == a);
                    lemma_live_contains(b0, t, a);
                    crate::kd_tree::lemma_occupied_in_slots(s_old, v_old, s_old.len(), a);
                } else {
                    assert(live(lc, t)[j - live(b0, t).len()] == a);
                    lemma_live_contains(lc, t, a);
                    if a.point == point {
                        let k = choose|k: int| 0 <= k < lc.len() && lc[k] == a;
                        assert(point_live_in(lc, t, point));
                    }
                }
            }
            assert(old_all.push(e) =~= old_all + seq![e]);
            lemma_live_append(old_all, seq![e], t);
            assert(seq![e].drop_last() =~= Seq::<Entry>::empty());
            assert(seq![e].last() == e);
            assert(live(seq![e].drop_last(), t) == Seq::<Entry>::empty());
            if t.contains(value) {
                assert(live(seq![e], t) =~= Seq::<Entry>::empty());
                assert(live(old_all, t) + live(seq![e], t) =~= live(old_all, t));
            } else {
                assert(live(seq![e], t) =~= seq![e]);
                assert(live(old_all.push(e), t).to_multiset() =~= m_old.insert(e));
            }
            let m_new = self.live_entries().to_multiset();
            assert forall|a: Entry, c: Entry|
                #[trigger] m_new.count(a) > 0 && #[trigger] m_new.count(c) > 0 && a.point == c.point
                    implies a == c && m_new.count(a) == 1 by {
                if !t.contains(value) {
                    if a != e {
                        assert(m_old.count(a) > 0);
                    }
                    if c != e {
                        assert(m_old.count(c) > 0);
                    }
                    if a == e {
                        assert(m_old.count(e) == 0);
                    }
                }
            }
        }
        if self.buffer.is_full() {
            self.flush();
        }
        Ok(())
    }

    /// Marks `value` deleted. `NotFound`, with nothing changed, where no entry carries
    /// it or it is deleted already. The entries stay where they are until a merge.
    pub fn delete(&mut self, value: u64) -> (r: Result<(), IndexError>)
        requires
            old(self).wf(),
        ensures
            final(self).wf(),
            r is Ok <==> (!old(self).tombstones().contains(value) && value_in(old(self).all_entries(), value)),
            r is Err ==> r->Err_0 == IndexError::NotFound && *final(self) == *old(self),
            r is Ok ==> final(self).tombstones() == old(self).tombstones().insert(value)
                && final(self).all_entries() == old(self).all_entries(),
            final(self).settings() == old(self).settings(),
    {
        if is_dead(&self.dead, value) {
            return Err(IndexError::NotFound);
        }
        let from_buffer = self.buffer.to_entries();
        let mut present = holds_value(&from_buffer, value);
        let mut l: usize = 0;
        while l < self.levels.len()
            invariant
                self.wf(),
                l <= self.levels@.len(),
                present == value_in(from_buffer@ + level_content(self.levels@.subrange(0, l as int)), value),
                from_buffer@ == self.buffer.entries(),
            decreases self.levels@.len() - l,
        {
            proof {
                let before = level_content(self.levels@.subrange(0, l as int));
                let here = slot_content(self.levels@[l as int]);
                assert(self.levels@.subrange(0, l + 1).drop_last() =~= self.levels@.subrange(0, l as int));
                assert(level_content(self.levels@.subrange(0, l + 1)) == before + here);
                assert(from_buffer@ + (before + here) =~= (from_buffer@ + before) + here);
                lemma_value_in_append(from_buffer@ + before, here, value);
            }
            match &self.levels[l] {
                Some(t) => {
                    if holds_value(t.entry_store(), value) {
                        present = true;
                    }
                },
                None => {
                    assert(!value_in(Seq::<Entry>::empty(), value));
                },
            }
            l = l + 1;
        }
        proof {
            assert(self.levels@.subrange(0, self.levels@.len() as int) =~= self.levels@);
            lemma_value_in_append(from_buffer@, Seq::<Entry>::empty(), value);
        }
        if !present {
            return Err(IndexError::NotFound);
        }
        self.dead.push(value);
        proof {
            assert forall|v: u64| self.tombstones().contains(v) <==> old(self).tombstones().insert(value).contains(v) by {
                if v != value && self.dead@.contains(v) {
                    let j = choose|j: int| 0 <= j < self.dead@.len() && self.dead@[j] == v;
                    assert(old(self).dead@[j] == v);
                }
                if old(self).dead@.contains(v) {
                    let j = choose|j: int| 0 <= j < old(self).dead@.len() && old(self).dead@[j] == v;
                    assert(self.dead@[j] == v);
                }
                if v == value {
                    assert(self.dead@[self.dead@.len() - 1] == v);
                }
            }
            assert(self.tombstones() =~= old(self).tombstones().insert(value));
            let all = self.all_entries();
            let m_old = live(all, old(self).tombstones()).to_multiset();
            let m_new = self.live_entries().to_multiset();
            assert forall|a: Entry, c: Entry|
                #[trigger] m_new.count(a) > 0 && #[trigger] m_new.count(c) > 0 && a.point == c.point
                    implies a == c && m_new.count(a) == 1 by {
                lemma_live_more_dead(all, old(self).tombstones(), self.tombstones(), a);
                lemma_live_more_dead(all, old(self).tombstones(), self.tombstones(), c);
                assert(m_old.count(a) > 0 && m_old.count(c) > 0);
            }
        }
        Ok(())
    }

    /// Appends the live entries of the levels whose point lies in `b`, level by level.
    fn query_levels(&self, b: &QueryBox, out: &mut Vec<Entry>)
        requires
            self.wf(),
        ensures
            final(out)@ == old(out)@ + live(matching(level_content(self.levels@), *b), self.tombstones()),
    {
        let ghost out0 = out@;
        let mut l: usize = 0;
        while l < self.levels.len()
            invariant
                self.wf(),
                l <= self.levels@.len(),
                out@ == out0 + live(
                    matching(level_content(self.levels@.subrange(0, l as int)), *b),
                    self.tombstones(),
                ),
            decreases self.levels@.len() - l,
        {
            let ghost before = level_content(self.levels@.subrange(0, l as int));
            let ghost here = slot_content(self.levels@[l as int]);
            proof {
                assert(self.levels@.subrange(0, l + 1).drop_last() =~= self.levels@.subrange(0, l as int));
                assert(level_content(self.levels@.subrange(0, l + 1)) == before + here);
                lemma_matching_append(before, here, *b);
                lemma_live_append(matching(before, *b), matching(here, *b), self.tombstones());
            }
            match &self.levels[l] {
                Some(t) => {
                    let found = t.range_query(b);
                    append_live(&found, &self.dead, out);
                },
                None => {
                    assert(live(matching(here, *b), self.tombstones()) =~= Seq::<Entry>::empty());
                },
            }
            l = l + 1;
        }
        proof {
            assert(self.levels@.subrange(0, self.levels@.len() as int) =~= self.levels@);
        }
    }

    /// The live entries whose point lies in `b`: the buffer's first, then level by
    /// level; `InvalidQueryBox` where a lower bound exceeds its upper bound.
    pub fn range_query(&self, b: &QueryBox) -> (r: Result<Vec<Entry>, IndexError>)
        requires
            self.wf(),
        ensures
            r is Err <==> !box_valid(*b),
            r is Err ==> r->Err_0 == IndexError::InvalidQueryBox,
            r is Ok ==> r->Ok_0@ == live(matching(self.all_entries(), *b), self.tombstones()),
            r is Ok ==> points_unique(r->Ok_0@.to_multiset()),
    {
        if b.min_x > b.max_x || b.min_y > b.max_y {
            return Err(IndexError::InvalidQueryBox);
        }
        let mut out: Vec<Entry> = Vec::new();
        let from_buffer = self.buffer.to_entries();
        let mut i: usize = 0;
        while i < from_buffer.len()
            invariant
                i <= from_buffer@.len(),
                out@ == live(matching(from_buffer@.subrange(0, i as int), *b), self.tombstones()),
            decreases from_buffer@.len() - i,
        {
            let e = from_buffer[i];
            proof {
                assert(from_buffer@.subrange(0, i + 1).drop_last() =~= from_buffer@.subrange(0, i as int));
                if in_box(e.point, *b) {
                    assert(matching(from_buffer@.subrange(0, i + 1), *b).drop_last() =~= matching(
                        from_buffer@.subrange(0, i as int),
                        *b,
                    ));
                }
            }
            if b.contains(&e.point) && !is_dead(&self.dead, e.value) {
                out.push(e);
            }
            i = i + 1;
        }
        proof {
            assert(from_buffer@.subrange(0, from_buffer@.len() as int) =~= from_buffer@);
        }
        self.query_levels(b, &mut out);
        proof {
            lemma_matching_append(self.buffer.entries(), level_content(self.levels@), *b);
            lemma_live_append(
                matching(self.buffer.entries(), *b),
                matching(level_content(self.levels@), *b),
                self.tombstones(),
            );
            let all = self.all_entries();
            let t = self.tombstones();
            let m_live = live(all, t).to_multiset();
            let m_out = out@.to_multiset();
            assert forall|x: Entry| #[trigger] m_out.count(x) <= m_live.count(x) by {
                lemma_live_count(matching(all, *b), t, x);
                lemma_live_count(all, t, x);
                lemma_matching_count(all, *b, x);
            }
            assert forall|a: Entry, c: Entry|
                #[trigger] m_out.count(a) > 0 && #[trigger] m_out.count(c) > 0 && a.point == c.point
                    implies a == c && m_out.count(a) == 1 by {
                assert(m_out.count(a) <= m_live.count(a));
                assert(m_out.count(c) <= m_live.count(c));
                assert(m_live.count(a) > 0 && m_live.count(c) > 0);
            }
        }
        Ok(out)
    }
}

} // verus!
