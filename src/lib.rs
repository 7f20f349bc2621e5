//! Indexes of two-dimensional integer points:
//! - `KdTree`, an in-memory implicit binary partition tree used as the insert buffer;
//! - `KdbTree`, an immutable block-addressed partition tree built by bulk load;
//! - `BkdIndex`, a log-structured index that flushes the buffer into
//!   levelled segments, merges them, and answers range queries over all of them.
use vstd::prelude::*;

mod bkd_index;
pub mod codec;
mod kd_tree;
mod kdb_tree;

pub use bkd_index::{merge_segments, BkdIndex, IndexConfig};
pub use kd_tree::KdTree;
pub use kdb_tree::{KdbNode, KdbTree, Split};


verus! {

/// A point with integer coordinates; axis 0 is `x`, axis 1 is `y`.
#[derive(Clone, Copy, Debug, PartialEq, Eq, Structural)]
pub struct Point {
    pub x: i64,
    pub y: i64,
}

/// The coordinate of `p` on `axis` (any axis other than 0 reads `y`).
pub open spec fn coord_of(p: Point, axis: u64) -> i64 {
    if axis == 0 { p.x } else { p.y }
}

impl Point {
    pub fn new(x: i64, y: i64) -> (r: Point)
        ensures
            r.x == x,
            r.y == y,
    {
        Point { x, y }
    }

    /// The coordinate on `axis`.
    pub fn coord(&self, axis: u64) -> (r: i64)
        ensures
            r == coord_of(*self, axis),
    {
        if axis == 0 { self.x } else { self.y }
    }
}

/// A point with the 64-bit identifier attached to it.
#[derive(Clone, Copy, Debug, PartialEq, Eq, Structural)]
pub struct Entry {
    pub point: Point,
    pub value: u64,
}

/// An axis-aligned box; both bounds of each axis are included.
#[derive(Clone, Copy, Debug, PartialEq, Eq, Structural)]
pub struct QueryBox {
    pub min_x: i64,
    pub max_x: i64,
    pub min_y: i64,
    pub max_y: i64,
}

/// The failures the index reports.
#[derive(Clone, Copy, Debug, PartialEq, Eq, Structural)]
pub enum IndexError {
    /// An insert of a point that the index already holds.
    DuplicatePoint,
    /// A box with a lower bound above its upper bound.
    InvalidQueryBox,
    /// A delete of a value that no live entry carries.
    NotFound,
    /// A persisted block that does not decode.
    CorruptBlock,
}

/// `b` has no lower bound above its upper bound.
pub open spec fn box_valid(b: QueryBox) -> bool {
    b.min_x <= b.max_x && b.min_y <= b.max_y
}

/// Every coordinate of `p` lies within `b`.
pub open spec fn in_box(p: Point, b: QueryBox) -> bool {
    b.min_x <= p.x <= b.max_x && b.min_y <= p.y <= b.max_y
}

/// The lower bound of `b` on `axis`.
pub open spec fn box_min(b: QueryBox, axis: u64) -> i64 {
    if axis == 0 { b.min_x } else { b.min_y }
}

/// The upper bound of `b` on `axis`.
pub open spec fn box_max(b: QueryBox, axis: u64) -> i64 {
    if axis == 0 { b.max_x } else { b.max_y }
}

/// The entries of `s` whose point lies in `b`, in the order of `s`.
pub open spec fn matching(s: Seq<Entry>, b: QueryBox) -> Seq<Entry>
    decreases s.len(),
{
    if s.len() == 0 {
        Seq::empty()
    } else {
        let r = matching(s.drop_last(), b);
        if in_box(s.last().point, b) { r.push(s.last()) } else { r }
    }
}

/// The entries of `s` whose value is not in `dead`, in the order of `s`.
pub open spec fn live(s: Seq<Entry>, dead: Set<u64>) -> Seq<Entry>
    decreases s.len(),
{
    if s.len() == 0 {
        Seq::empty()
    } else {
        let r = live(s.drop_last(), dead);
        if !dead.contains(s.last().value) { r.push(s.last()) } else { r }
    }
}

/// Selecting by box distributes over concatenation.
pub proof fn lemma_matching_append(a: Seq<Entry>, c: Seq<Entry>, b: QueryBox)
    ensures
        matching(a + c, b) == matching(a, b) + matching(c, b),
    decreases c.len(),
{
    if c.len() == 0 {
        assert(a + c =~= a);
        assert(matching(c, b) =~= Seq::<Entry>::empty());
        assert(matching(a, b) + matching(c, b) =~= matching(a, b));
    } else {
        lemma_matching_append(a, c.drop_last(), b);
        assert((a + c).drop_last() =~= a + c.drop_last());
        assert((a + c).last() == c.last());
        if in_box(c.last().point, b) {
            assert(matching(a, b) + matching(c.drop_last(), b).push(c.last()) =~= (matching(a, b)
                + matching(c.drop_last(), b)).push(c.last()));
        }
    }
}

/// Dropping dead values distributes over concatenation.
pub proof fn lemma_live_append(a: Seq<Entry>, c: Seq<Entry>, dead: Set<u64>)
    ensures
        live(a + c, dead) == live(a, dead) + live(c, dead),
    decreases c.len(),
{
    if c.len() == 0 {
        assert(a + c =~= a);
        assert(live(c, dead) =~= Seq::<Entry>::empty());
        assert(live(a, dead) + live(c, dead) =~= live(a, dead));
    } else {
        lemma_live_append(a, c.drop_last(), dead);
        assert((a + c).drop_last() =~= a + c.drop_last());
        assert((a + c).last() == c.last());
        if !dead.contains(c.last().value) {
            assert(live(a, dead) + live(c.drop_last(), dead).push(c.last()) =~= (live(a, dead)
                + live(c.drop_last(), dead)).push(c.last()));
        }
    }
}

/// Where no entry of `s` lies in `b`, selecting by `b` gives nothing.
pub proof fn lemma_matching_none(s: Seq<Entry>, b: QueryBox)
    requires
        forall|i: int| 0 <= i < s.len() ==> !in_box(#[trigger] s[i].point, b),
    ensures
        matching(s, b) == Seq::<Entry>::empty(),
    decreases s.len(),
{
    if s.len() > 0 {
        lemma_matching_none(s.drop_last(), b);
    }
}

/// Where every entry of `s` lies in `b`, selecting by `b` keeps all of `s`.
pub proof fn lemma_matching_all(s: Seq<Entry>, b: QueryBox)
    requires
        forall|i: int| 0 <= i < s.len() ==> in_box(#[trigger] s[i].point, b),
    ensures
        matching(s, b) == s,
    decreases s.len(),
{
    if s.len() > 0 {
        lemma_matching_all(s.drop_last(), b);
        assert(s.drop_last().push(s.last()) =~= s);
    }
}

/// Dropping nothing keeps all of `s`.
pub proof fn lemma_live_empty(s: Seq<Entry>)
    ensures
        live(s, Set::empty()) == s,
    decreases s.len(),
{
    if s.len() > 0 {
        lemma_live_empty(s.drop_last());
        assert(s.drop_last().push(s.last()) =~= s);
    }
}

impl QueryBox {
    /// A box from its bounds; `InvalidQueryBox` where a lower bound exceeds its upper bound.
    pub fn new(min_x: i64, max_x: i64, min_y: i64, max_y: i64) -> (r: Result<QueryBox, IndexError>)
        ensures
            r is Ok <==> (min_x <= max_x && min_y <= max_y),
            r is Ok ==> r->Ok_0 == (QueryBox { min_x, max_x, min_y, max_y }),
            r is Err ==> r->Err_0 == IndexError::InvalidQueryBox,
    {
        if min_x > max_x || min_y > max_y {
            Err(IndexError::InvalidQueryBox)
        } else {
            Ok(QueryBox { min_x, max_x, min_y, max_y })
        }
    }

    /// The box that holds every point.
    pub fn everything() -> (r: QueryBox)
        ensures
            box_valid(r),
            forall|p: Point| in_box(p, r),
    {
        QueryBox { min_x: i64::MIN, max_x: i64::MAX, min_y: i64::MIN, max_y: i64::MAX }
    }

    /// Whether `p` lies in the box.
    pub fn contains(&self, p: &Point) -> (r: bool)
        ensures
            r == in_box(*p, *self),
    {
        self.min_x <= p.x && p.x <= self.max_x && self.min_y <= p.y && p.y <= self.max_y
    }

    /// The lower bound on `axis`.
    pub fn min_on(&self, axis: u64) -> (r: i64)
        ensures
            r == box_min(*self, axis),
    {
        if axis == 0 { self.min_x } else { self.min_y }
    }

    /// The upper bound on `axis`.
    pub fn max_on(&self, axis: u64) -> (r: i64)
        ensures
            r == box_max(*self, axis),
    {
        if axis == 0 { self.max_x } else { self.max_y }
    }
}

} // verus!
