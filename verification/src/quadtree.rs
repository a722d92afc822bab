use vstd::prelude::*;
use vstd::multiset::Multiset;
use crate::entry::{EntryView, SpatialEntry, entry_views, ref_views};
use crate::geometry::{AABB, Vec2, encloses, law_contains_by_value, law_span_of_nonempty_box,
    law_enclosed_meets, law_enclosed_contains, law_common_point_intersects, law_intersects_symmetric};
use crate::coord::Coord;
use crate::ranking::{keep_within, reported_distances, within, law_within_ignores_items, map_items, pair_with, nearest_first, sorted_by_distance, law_sort_ignores_items,
    law_sorted_is_permutation, law_within_keeps_exactly_the_near};

verus! {

broadcast use vstd::seq_lib::group_to_multiset_ensures, vstd::seq_lib::lemma_multiset_commutative,
    vstd::multiset::group_multiset_properties;

/// Whether a point query reports `e`: the entry sits at the point, or its
/// bounds contain the point.
pub open spec fn matches_point(e: EntryView, point: Vec2) -> bool {
    e.pos.spec_same(point) || e.bounds.spec_contains(point)
}

/// Whether a range query reports `e`: its bounds meet the range, or the range
/// contains its position.
pub open spec fn matches_range(e: EntryView, range: AABB) -> bool {
    range.spec_intersects(e.bounds) || range.spec_contains(e.pos)
}

/// The entries of `s` that a point query reports, in order.
pub open spec fn point_matches(s: Seq<EntryView>, point: Vec2) -> Seq<EntryView> {
    s.filter(|e: EntryView| matches_point(e, point))
}

/// The entries of `s` that a range query reports, in order.
pub open spec fn range_matches(s: Seq<EntryView>, range: AABB) -> Seq<EntryView> {
    s.filter(|e: EntryView| matches_range(e, range))
}

proof fn lemma_point_matches_sound(s: Seq<EntryView>, point: Vec2, e: EntryView)
    requires
        point_matches(s, point).contains(e),
    ensures
        matches_point(e, point),
        s.contains(e),
{
    broadcast use Seq::lemma_filter_contains_rev, Seq::lemma_filter_pred;

    let f = point_matches(s, point);
    let k = choose|k: int| 0 <= k < f.len() && f[k] == e;
    assert(f[k] == e);
}

proof fn lemma_range_matches_sound(s: Seq<EntryView>, range: AABB, e: EntryView)
    requires
        range_matches(s, range).contains(e),
    ensures
        matches_range(e, range),
        s.contains(e),
{
    broadcast use Seq::lemma_filter_contains_rev, Seq::lemma_filter_pred;

    let f = range_matches(s, range);
    let k = choose|k: int| 0 <= k < f.len() && f[k] == e;
    assert(f[k] == e);
}

/// Append the entries of `entries` that a point query reports.
fn push_point_matches<'a>(entries: &'a Vec<SpatialEntry>, point: Vec2, result: &mut Vec<&'a SpatialEntry>)
    ensures
        ref_views(final(result)@) == ref_views(old(result)@) + point_matches(
            entry_views(entries@),
            point,
        ),
{
    let ghost start = ref_views(result@);
    let ghost own = entry_views(entries@);
    let mut i: usize = 0;
    while i < entries.len()
        invariant
            i <= entries.len(),
            own == entry_views(entries@),
            ref_views(result@) == start + point_matches(own.take(i as int), point),
        decreases entries.len() - i,
    {
        let e = &entries[i];
        assert(own.take(i + 1) =~= own.take(i as int).push(e@));
        let ghost before = ref_views(result@);
        if e.pos == point || e.bounds.contains(point) {
            result.push(e);
            assert(ref_views(result@) =~= before.push(e@));
        }
        assert(ref_views(result@) =~= start + point_matches(own.take(i + 1), point)) by {
            broadcast use Seq::lemma_filter_push;

            assert(point_matches(own.take(i + 1), point) == point_matches(
                own.take(i as int).push(e@),
                point,
            ));
        }
        i = i + 1;
    }
    assert(own.take(i as int) =~= own);
}

/// Append the entries of `entries` that a range query reports.
fn push_range_matches<'a>(entries: &'a Vec<SpatialEntry>, range: &AABB, result: &mut Vec<&'a SpatialEntry>)
    ensures
        ref_views(final(result)@) == ref_views(old(result)@) + range_matches(
            entry_views(entries@),
            *range,
        ),
{
    let ghost start = ref_views(result@);
    let ghost own = entry_views(entries@);
    let mut i: usize = 0;
    while i < entries.len()
        invariant
            i <= entries.len(),
            own == entry_views(entries@),
            ref_views(result@) == start + range_matches(own.take(i as int), *range),
        decreases entries.len() - i,
    {
        let e = &entries[i];
        assert(own.take(i + 1) =~= own.take(i as int).push(e@));
        let ghost before = ref_views(result@);
        if range.intersects(&e.bounds) || range.contains(e.pos) {
            result.push(e);
            assert(ref_views(result@) =~= before.push(e@));
        }
        assert(ref_views(result@) =~= start + range_matches(own.take(i + 1), *range)) by {
            broadcast use Seq::lemma_filter_push;

            assert(range_matches(own.take(i + 1), *range) == range_matches(
                own.take(i as int).push(e@),
                *range,
            ));
        }
        i = i + 1;
    }
    assert(own.take(i as int) =~= own);
}

/// `after` is `before` with `e` added when `took`, unchanged otherwise, its
/// bounds kept.
spec fn gains(before: Node, after: Node, took: bool, e: EntryView) -> bool {
    &&& after.bounds == before.bounds
    &&& after.contents() == if took {
        before.contents().insert(e)
    } else {
        before.contents()
    }
}

/// Whether box `r` holds the position of `e` and encloses its bounds.
pub open spec fn covers(r: AABB, e: EntryView) -> bool {
    r.spec_contains(e.pos) && encloses(r, e.bounds)
}

/// The box around what `reach` covers and entry `e`.
pub open spec fn spec_grow(reach: Option<AABB>, e: EntryView) -> AABB {
    let base = match reach {
        None => AABB { min: e.pos, max: e.pos },
        Some(b) => b.spec_expand(e.pos),
    };
    base.spec_merge(e.bounds)
}

/// The box around what `reach` covers and `e`.
fn grow(reach: Option<AABB>, e: &SpatialEntry) -> (r: AABB)
    ensures
        r == spec_grow(reach, e@),
{
    let base = match reach {
        None => AABB::new(e.pos, e.pos),
        Some(b) => b.expand(e.pos),
    };
    base.merge(&e.bounds)
}

/// The grown box covers the new entry, and whatever the old box covered.
proof fn lemma_grow_covers(reach: Option<AABB>, e: EntryView, x: EntryView)
    requires
        e.pos.is_number(),
        x == e || (reach is Some && covers(reach->0, x)),
    ensures
        covers(spec_grow(reach, e), x),
{
}

/// Every entry of `own` has no destination among the quadrants `q`: it stays
/// in the node.
spec fn stays_all(q: Quadrants, own: Seq<EntryView>, limit: int) -> bool {
    forall|i: int| 0 <= i < own.len() ==> q.destination(#[trigger] own[i].pos, limit) == 4
}

/// The bounds of the four quadrants of a box, in the order in which entries
/// are offered to them.
pub struct Quarters {
    pub nw: AABB,
    pub ne: AABB,
    pub sw: AABB,
    pub se: AABB,
}

/// A node of a quad-tree, and the subtree below it.
///
/// A node keeps up to `capacity` entries; when a full leaf receives one more,
/// it splits into four quadrants and hands its entries down to them. An entry
/// goes to the first quadrant whose bounds contain its position; it stays in
/// the node when no quadrant contains it, or when that quadrant is not
/// strictly smaller than the node (measured by `AABB::span`), as happens once
/// the bounds can no longer be halved. Every descent therefore shrinks the
/// span, and insertion always returns.
#[derive(Debug)]
struct Node {
    bounds: AABB,
    capacity: usize,
    entries: Vec<SpatialEntry>,
    children: Option<Box<Quadrants>>,
    len: usize,
    /// A box around the positions and bounds of all entries below this node;
    /// none while there are none. Queries skip a quadrant whose box misses.
    reach: Option<AABB>,
}

/// The four children of a split node.
#[derive(Debug)]
struct Quadrants {
    nw: Node,
    ne: Node,
    sw: Node,
    se: Node,
}

impl Quadrants {
    closed spec fn contents(self) -> Multiset<EntryView>
        decreases self,
    {
        self.nw.contents().add(self.ne.contents()).add(self.sw.contents()).add(self.se.contents())
    }

    closed spec fn wf(self, capacity: usize) -> bool
        decreases self,
    {
        &&& self.nw.wf() && self.nw.capacity == capacity
        &&& self.ne.wf() && self.ne.capacity == capacity
        &&& self.sw.wf() && self.sw.capacity == capacity
        &&& self.se.wf() && self.se.capacity == capacity
    }

    closed spec fn collected(self) -> Seq<EntryView>
        decreases self,
    {
        self.nw.collected() + self.ne.collected() + self.sw.collected() + self.se.collected()
    }

    fn query_point_inner<'a>(&'a self, point: Vec2, result: &mut Vec<&'a SpatialEntry>)
        requires
            self.wf(self.nw.capacity),
        ensures
            ref_views(final(result)@) == ref_views(old(result)@) + point_matches(self.collected(), point),
        decreases self, 0usize,
    {
        let ghost r0 = ref_views(result@);
        if self.nw.reach_contains(point) {
            self.nw.query_point_inner(point, result);
        } else {
            proof { self.nw.lemma_no_point_matches(point); }
        }
        if self.ne.reach_contains(point) {
            self.ne.query_point_inner(point, result);
        } else {
            proof { self.ne.lemma_no_point_matches(point); }
        }
        if self.sw.reach_contains(point) {
            self.sw.query_point_inner(point, result);
        } else {
            proof { self.sw.lemma_no_point_matches(point); }
        }
        if self.se.reach_contains(point) {
            self.se.query_point_inner(point, result);
        } else {
            proof { self.se.lemma_no_point_matches(point); }
        }
        let ghost (a, b, c, d) = (self.nw.collected(), self.ne.collected(), self.sw.collected(), self.se.collected());
        assert(point_matches(a + b + c + d, point) == point_matches(a, point) + point_matches(b, point)
            + point_matches(c, point) + point_matches(d, point)) by {
            broadcast use Seq::filter_distributes_over_add;

        }
        assert(ref_views(result@) =~= r0 + point_matches(self.collected(), point));
    }

    fn query_range_inner<'a>(&'a self, range: &AABB, result: &mut Vec<&'a SpatialEntry>)
        requires
            self.wf(self.nw.capacity),
        ensures
            ref_views(final(result)@) == ref_views(old(result)@) + range_matches(self.collected(), *range),
        decreases self, 0usize,
    {
        let ghost r0 = ref_views(result@);
        if self.nw.reach_meets(range) {
            self.nw.query_range_inner(range, result);
        } else {
            proof { self.nw.lemma_no_range_matches(*range); }
        }
        if self.ne.reach_meets(range) {
            self.ne.query_range_inner(range, result);
        } else {
            proof { self.ne.lemma_no_range_matches(*range); }
        }
        if self.sw.reach_meets(range) {
            self.sw.query_range_inner(range, result);
        } else {
            proof { self.sw.lemma_no_range_matches(*range); }
        }
        if self.se.reach_meets(range) {
            self.se.query_range_inner(range, result);
        } else {
            proof { self.se.lemma_no_range_matches(*range); }
        }
        let ghost (a, b, c, d) = (self.nw.collected(), self.ne.collected(), self.sw.collected(), self.se.collected());
        assert(range_matches(a + b + c + d, *range) == range_matches(a, *range) + range_matches(b, *range)
            + range_matches(c, *range) + range_matches(d, *range)) by {
            broadcast use Seq::filter_distributes_over_add;

        }
        assert(ref_views(result@) =~= r0 + range_matches(self.collected(), *range));
    }

    fn collect_inner<'a>(&'a self, out: &mut Vec<&'a SpatialEntry>)
        ensures
            ref_views(final(out)@) == ref_views(old(out)@) + self.collected(),
        decreases self, 0usize,
    {
        let ghost r0 = ref_views(out@);
        self.nw.collect_inner(out);
        self.ne.collect_inner(out);
        self.sw.collect_inner(out);
        self.se.collect_inner(out);
        assert(ref_views(out@) =~= r0 + self.collected());
    }

    proof fn lemma_collected_contents(self)
        ensures
            self.collected().to_multiset() == self.contents(),
        decreases self, 0usize,
    {
        self.nw.lemma_collected_contents();
        self.ne.lemma_collected_contents();
        self.sw.lemma_collected_contents();
        self.se.lemma_collected_contents();
    }

    /// The first quadrant, in the order nw (0), ne (1), sw (2), se (3), whose
    /// bounds contain `p`; 4 when none does.
    closed spec fn first_fit(self, p: Vec2) -> int {
        if self.nw.bounds.spec_contains(p) {
            0
        } else if self.ne.bounds.spec_contains(p) {
            1
        } else if self.sw.bounds.spec_contains(p) {
            2
        } else if self.se.bounds.spec_contains(p) {
            3
        } else {
            4
        }
    }

    /// The quadrant with the given number.
    closed spec fn quadrant(self, k: int) -> Node {
        if k == 0 {
            self.nw
        } else if k == 1 {
            self.ne
        } else if k == 2 {
            self.sw
        } else {
            self.se
        }
    }

    /// Where an entry at `p` goes, the node's span being `limit`: the first
    /// quadrant whose bounds contain `p`, provided that quadrant is strictly
    /// smaller than the node; 4 (the entry stays in the node) otherwise.
    closed spec fn destination(self, p: Vec2, limit: int) -> int {
        let k = self.first_fit(p);
        if k < 4 && self.quadrant(k).bounds.span() < limit {
            k
        } else {
            4
        }
    }

    /// `after` is these quadrants with `e` added to quadrant `d` (none when
    /// `d` is 4), and no quadrant's bounds changed.
    closed spec fn takes(self, d: int, after: Quadrants, e: EntryView) -> bool {
        &&& gains(self.nw, after.nw, d == 0, e)
        &&& gains(self.ne, after.ne, d == 1, e)
        &&& gains(self.sw, after.sw, d == 2, e)
        &&& gains(self.se, after.se, d == 3, e)
    }

    /// Every entry below quadrant `k` has quadrant `k` as its destination.
    closed spec fn routed(self, limit: int) -> bool {
        &&& forall|e: EntryView| #[trigger] self.nw.contents().contains(e) ==> self.destination(e.pos, limit) == 0
        &&& forall|e: EntryView| #[trigger] self.ne.contents().contains(e) ==> self.destination(e.pos, limit) == 1
        &&& forall|e: EntryView| #[trigger] self.sw.contents().contains(e) ==> self.destination(e.pos, limit) == 2
        &&& forall|e: EntryView| #[trigger] self.se.contents().contains(e) ==> self.destination(e.pos, limit) == 3
    }

    /// Adding an entry to its destination keeps the quadrants routed, and the
    /// destinations of all positions stay as they were.
    proof fn lemma_takes_keeps_routed(self, after: Quadrants, e: EntryView, limit: int)
        requires
            self.routed(limit),
            self.takes(self.destination(e.pos, limit), after, e),
        ensures
            after.routed(limit),
            forall|p: Vec2| #[trigger] after.destination(p, limit) == self.destination(p, limit),
    {
        let d = self.destination(e.pos, limit);
        assert forall|p: Vec2| #[trigger] after.destination(p, limit) == self.destination(p, limit) by {
            assert(after.first_fit(p) == self.first_fit(p));
        }
        assert forall|x: EntryView| #[trigger] after.nw.contents().contains(x) implies after.destination(x.pos, limit) == 0 by {
            assert(after.destination(x.pos, limit) == self.destination(x.pos, limit));
            if !self.nw.contents().contains(x) {
                assert(x == e);
            }
        }
        assert forall|x: EntryView| #[trigger] after.ne.contents().contains(x) implies after.destination(x.pos, limit) == 1 by {
            assert(after.destination(x.pos, limit) == self.destination(x.pos, limit));
            if !self.ne.contents().contains(x) {
                assert(x == e);
            }
        }
        assert forall|x: EntryView| #[trigger] after.sw.contents().contains(x) implies after.destination(x.pos, limit) == 2 by {
            assert(after.destination(x.pos, limit) == self.destination(x.pos, limit));
            if !self.sw.contents().contains(x) {
                assert(x == e);
            }
        }
        assert forall|x: EntryView| #[trigger] after.se.contents().contains(x) implies after.destination(x.pos, limit) == 3 by {
            assert(after.destination(x.pos, limit) == self.destination(x.pos, limit));
            if !self.se.contents().contains(x) {
                assert(x == e);
            }
        }
    }

    /// None of the quadrants has been split.
    closed spec fn all_leaves(self) -> bool {
        &&& self.nw.children is None
        &&& self.ne.children is None
        &&& self.sw.children is None
        &&& self.se.children is None
    }

    /// Hand `entry` to its destination among quadrants that are all leaves
    /// with room; give it back when it stays in the node.
    fn place_fresh(&mut self, entry: SpatialEntry, limit: i128) -> (rest: Option<SpatialEntry>)
        requires
            old(self).wf(old(self).nw.capacity),
            old(self).all_leaves(),
            old(self).contents().len() < old(self).nw.capacity,
        ensures
            final(self).wf(old(self).nw.capacity),
            final(self).all_leaves(),
            old(self).takes(old(self).destination(entry.pos, limit as int), *final(self), entry@),
            rest is Some <==> old(self).destination(entry.pos, limit as int) == 4,
            match rest {
                None => final(self).contents() == old(self).contents().insert(entry@),
                Some(e) => e == entry && *final(self) == *old(self),
            },
    {
        assert(entry_views(self.nw.entries@).to_multiset().len() == self.nw.entries.len());
        assert(entry_views(self.ne.entries@).to_multiset().len() == self.ne.entries.len());
        assert(entry_views(self.sw.entries@).to_multiset().len() == self.sw.entries.len());
        assert(entry_views(self.se.entries@).to_multiset().len() == self.se.entries.len());
        if self.nw.bounds.contains(entry.pos) {
            if self.nw.bounds.span_exec() < limit {
                self.nw.push_into_leaf(entry);
                assert(self.contents() =~= old(self).contents().insert(entry@));
                None
            } else {
                Some(entry)
            }
        } else if self.ne.bounds.contains(entry.pos) {
            if self.ne.bounds.span_exec() < limit {
                self.ne.push_into_leaf(entry);
                assert(self.contents() =~= old(self).contents().insert(entry@));
                None
            } else {
                Some(entry)
            }
        } else if self.sw.bounds.contains(entry.pos) {
            if self.sw.bounds.span_exec() < limit {
                self.sw.push_into_leaf(entry);
                assert(self.contents() =~= old(self).contents().insert(entry@));
                None
            } else {
                Some(entry)
            }
        } else if self.se.bounds.contains(entry.pos) {
            if self.se.bounds.span_exec() < limit {
                self.se.push_into_leaf(entry);
                assert(self.contents() =~= old(self).contents().insert(entry@));
                None
            } else {
                Some(entry)
            }
        } else {
            Some(entry)
        }
    }

    /// Hand `entry` to its destination, the node's span being `limit`; give it
    /// back when it stays in the node.
    fn place<F: Fn(AABB) -> Quarters>(&mut self, entry: SpatialEntry, split: &F, limit: i128) -> (rest:
        Option<SpatialEntry>)
        requires
            old(self).wf(old(self).nw.capacity),
            old(self).contents().len() < usize::MAX,
            limit >= 0,
            forall|b: AABB| call_requires(*split, (b,)),
        ensures
            final(self).wf(old(self).nw.capacity),
            old(self).takes(old(self).destination(entry.pos, limit as int), *final(self), entry@),
            rest is Some <==> old(self).destination(entry.pos, limit as int) == 4,
            match rest {
                None => final(self).contents() == old(self).contents().insert(entry@),
                Some(e) => e == entry && *final(self) == *old(self),
            },
        decreases limit, 0int,
    {
        if self.nw.bounds.contains(entry.pos) {
            if self.nw.bounds.span_exec() < limit {
                proof { law_span_of_nonempty_box(self.nw.bounds, entry.pos); }
                self.nw.insert_contained(entry, split);
                assert(self.contents() =~= old(self).contents().insert(entry@));
                None
            } else {
                Some(entry)
            }
        } else if self.ne.bounds.contains(entry.pos) {
            if self.ne.bounds.span_exec() < limit {
                proof { law_span_of_nonempty_box(self.ne.bounds, entry.pos); }
                self.ne.insert_contained(entry, split);
                assert(self.contents() =~= old(self).contents().insert(entry@));
                None
            } else {
                Some(entry)
            }
        } else if self.sw.bounds.contains(entry.pos) {
            if self.sw.bounds.span_exec() < limit {
                proof { law_span_of_nonempty_box(self.sw.bounds, entry.pos); }
                self.sw.insert_contained(entry, split);
                assert(self.contents() =~= old(self).contents().insert(entry@));
                None
            } else {
                Some(entry)
            }
        } else if self.se.bounds.contains(entry.pos) {
            if self.se.bounds.span_exec() < limit {
                proof { law_span_of_nonempty_box(self.se.bounds, entry.pos); }
                self.se.insert_contained(entry, split);
                assert(self.contents() =~= old(self).contents().insert(entry@));
                None
            } else {
                Some(entry)
            }
        } else {
            Some(entry)
        }
    }
}

impl Node {
    /// The region this tree covers.
    spec fn spec_bounds(self) -> AABB {
        self.bounds
    }

    /// How many entries a leaf keeps before it splits.
    spec fn spec_capacity(self) -> nat {
        self.capacity as nat
    }

    /// The number of entries the tree counts.
    spec fn spec_len(self) -> nat {
        self.len as nat
    }

    /// Whether the root has been split into quadrants.
    spec fn spec_is_subdivided(self) -> bool {
        self.children is Some
    }

    /// Every entry stored in the tree, with multiplicity.
    spec fn contents(self) -> Multiset<EntryView>
        decreases self,
    {
        let own = entry_views(self.entries@).to_multiset();
        match self.children {
            None => own,
            Some(q) => own.add(q.contents()),
        }
    }

    /// The tree's invariant: the count is the number of stored entries, a leaf
    /// holds at most `capacity` entries, every entry of a subtree lies in that
    /// subtree's bounds, every node has the root's capacity, and every entry
    /// sits where the routing rule sends it: in a split node, each entry of a
    /// quadrant's subtree has that quadrant as its destination, and each entry
    /// kept by the node itself has none.
    spec fn wf(self) -> bool
        decreases self,
    {
        &&& self.capacity > 0
        &&& self.len == self.contents().len()
        &&& (self.children is None ==> self.entries.len() <= self.capacity)
        &&& forall|e: EntryView| #[trigger]
            self.contents().contains(e) ==> self.bounds.spec_contains(e.pos)
        &&& forall|e: EntryView| #[trigger]
            self.contents().contains(e) ==> self.reach is Some && covers(self.reach->0, e)
        &&& match self.children {
            None => true,
            Some(q) => {
                &&& q.wf(self.capacity)
                &&& q.routed(self.bounds.span())
                &&& stays_all(*q, entry_views(self.entries@), self.bounds.span())
            },
        }
    }

    /// The entries that the root node keeps itself, in the order it got them.
    spec fn own_entries(self) -> Seq<EntryView> {
        entry_views(self.entries@)
    }

    /// Quadrant `k` of a split root, in the order nw (0), ne (1), sw (2),
    /// se (3).
    spec fn quadrant(self, k: int) -> Node {
        match self.children {
            Some(q) => q.quadrant(k),
            None => self,
        }
    }

    /// Where the root sends an entry at `p`: the first quadrant whose bounds
    /// contain `p`, provided it is strictly smaller than the root (by `span`);
    /// 4 when the entry stays in the root (always so for a leaf).
    spec fn destination(self, p: Vec2) -> int {
        match self.children {
            Some(q) => q.destination(p, self.bounds.span()),
            None => 4,
        }
    }

    /// Whether `after` is this tree with `e` inserted at the root level: a
    /// leaf with room keeps it; a full leaf splits; a split root passes it to
    /// its destination quadrant, or keeps it when the destination is 4.
    spec fn places(self, after: Node, e: EntryView) -> bool {
        &&& (!self.spec_is_subdivided() && self.own_entries().len() < self.spec_capacity()) ==> {
            &&& after.own_entries() == self.own_entries().push(e)
            &&& !after.spec_is_subdivided()
        }
        &&& (!self.spec_is_subdivided() && self.own_entries().len() >= self.spec_capacity())
            ==> after.spec_is_subdivided()
        &&& self.spec_is_subdivided() ==> {
            &&& after.spec_is_subdivided()
            &&& forall|k: int| 0 <= k < 4 ==> (#[trigger] after.quadrant(k)).spec_bounds() == self.quadrant(k).spec_bounds()
            &&& after.own_entries() == if self.destination(e.pos) == 4 {
                self.own_entries().push(e)
            } else {
                self.own_entries()
            }
            &&& forall|k: int| 0 <= k < 4 ==> (#[trigger] after.quadrant(k)).contents() == if k == self.destination(e.pos) {
                self.quadrant(k).contents().insert(e)
            } else {
                self.quadrant(k).contents()
            }
        }
    }

    /// Every stored entry, each node's own entries before those of its
    /// quadrants (taken in the order nw, ne, sw, se).
    spec fn collected(self) -> Seq<EntryView>
        decreases self,
    {
        let own = entry_views(self.entries@);
        match self.children {
            None => own,
            Some(q) => own + q.collected(),
        }
    }

    /// The result of `query_point`.
    spec fn spec_query_point(self, point: Vec2) -> Seq<EntryView> {
        if self.spec_bounds().spec_contains(point) {
            point_matches(self.collected(), point)
        } else {
            seq![]
        }
    }

    /// The result of `query_range`.
    spec fn spec_query_range(self, range: AABB) -> Seq<EntryView> {
        range_matches(self.collected(), range)
    }

    /// An empty leaf covering `bounds`.
    fn new(bounds: AABB, capacity: usize) -> (t: Node)
        requires
            capacity > 0,
        ensures
            t.wf(),
            t.spec_bounds() == bounds,
            t.spec_capacity() == capacity,
            t.contents() == Multiset::<EntryView>::empty(),
            t.spec_len() == 0,
            !t.spec_is_subdivided(),
    {
        let t = Node { bounds, capacity, entries: Vec::new(), children: None, len: 0, reach: None };
        assert(entry_views(t.entries@) =~= Seq::<EntryView>::empty());
        t
    }

    /// Insert an entry whose position lies in this node's bounds.
    ///
    /// A leaf with room keeps the entry; a full leaf first splits. The entry
    /// then goes on to its destination quadrant, or stays in the node when the
    /// first quadrant that contains it is not strictly smaller than the node
    /// (as happens once the bounds can no longer be halved).
    fn insert_contained<F: Fn(AABB) -> Quarters>(&mut self, entry: SpatialEntry, split: &F)
        requires
            old(self).wf(),
            old(self).bounds.spec_contains(entry.pos),
            old(self).len < usize::MAX,
            forall|b: AABB| call_requires(*split, (b,)),
        ensures
            final(self).wf(),
            final(self).contents() == old(self).contents().insert(entry@),
            final(self).bounds == old(self).bounds,
            final(self).capacity == old(self).capacity,
            old(self).places(*final(self), entry@),
        decreases old(self).bounds.span(), 1int,
    {
        let ghost ev = entry@;
        proof {
            law_span_of_nonempty_box(self.bounds, entry.pos);
        }
        if self.children.is_none() && self.entries.len() < self.capacity {
            self.push_into_leaf(entry);
            return ;
        }
        let grown = grow(self.reach, &entry);
        if self.children.is_none() {
            self.subdivide(split);
        }
        let ghost mid = *self;
        let limit = self.bounds.span_exec();
        let taken = self.children.take();
        let mut quads = *taken.unwrap();
        assert(quads.contents().len() <= mid.contents().len());
        let ghost q0 = quads;
        let rest = quads.place(entry, split, limit);
        proof {
            q0.lemma_takes_keeps_routed(quads, ev, limit as int);
        }
        match rest {
            Some(e) => {
                self.entries.push(e);
                assert(entry_views(self.entries@) =~= entry_views(mid.entries@).push(ev));
            },
            None => {},
        }
        assert(stays_all(quads, entry_views(self.entries@), self.bounds.span())) by {
            assert forall|i: int| 0 <= i < entry_views(self.entries@).len() implies quads.destination(
                #[trigger] entry_views(self.entries@)[i].pos,
                self.bounds.span(),
            ) == 4 by {
                if i < entry_views(mid.entries@).len() {
                    assert(entry_views(self.entries@)[i] == entry_views(mid.entries@)[i]);
                }
            }
        }
        self.children = Some(Box::new(quads));
        self.len = self.len + 1;
        self.reach = Some(grown);
        assert(self.contents() =~= old(self).contents().insert(ev));
        proof {
            old(self).lemma_insert_keeps_containment(*self, ev);
            if old(self).spec_is_subdivided() {
                assert(mid == *old(self));
                assert forall|k: int| 0 <= k < 4 implies (#[trigger] self.quadrant(k)).spec_bounds()
                    == old(self).quadrant(k).spec_bounds() && self.quadrant(k).contents() == if k
                    == old(self).destination(ev.pos) {
                    old(self).quadrant(k).contents().insert(ev)
                } else {
                    old(self).quadrant(k).contents()
                } by {
                    assert(self.quadrant(k) == quads.quadrant(k));
                    assert(old(self).quadrant(k) == q0.quadrant(k));
                }
                if old(self).destination(ev.pos) != 4 {
                    assert(entry_views(self.entries@) == entry_views(mid.entries@));
                }
            }
        }
    }

    /// Add an entry to a leaf that has room for it.
    fn push_into_leaf(&mut self, entry: SpatialEntry)
        requires
            old(self).wf(),
            old(self).children is None,
            old(self).entries.len() < old(self).capacity,
            old(self).bounds.spec_contains(entry.pos),
            old(self).len < usize::MAX,
        ensures
            final(self).wf(),
            final(self).children is None,
            final(self).contents() == old(self).contents().insert(entry@),
            final(self).bounds == old(self).bounds,
            final(self).capacity == old(self).capacity,
            entry_views(final(self).entries@) == entry_views(old(self).entries@).push(entry@),
    {
        let ghost ev = entry@;
        self.reach = Some(grow(self.reach, &entry));
        self.entries.push(entry);
        assert(entry_views(self.entries@) =~= entry_views(old(self).entries@).push(ev));
        self.len = self.len + 1;
        assert(self.contents() =~= old(self).contents().insert(ev));
        proof {
            old(self).lemma_insert_keeps_containment(*self, ev);
        }
    }

    /// Containment survives adding an entry that lies in the bounds.
    proof fn lemma_insert_keeps_containment(self, after: Node, ev: EntryView)
        requires
            self.wf(),
            self.bounds.spec_contains(ev.pos),
            after.bounds == self.bounds,
            after.contents() == self.contents().insert(ev),
            after.reach == Some(spec_grow(self.reach, ev)),
        ensures
            forall|e: EntryView| #[trigger]
                after.contents().contains(e) ==> after.bounds.spec_contains(e.pos),
            forall|e: EntryView| #[trigger]
                after.contents().contains(e) ==> after.reach is Some && covers(after.reach->0, e),
            after.contents().len() == self.contents().len() + 1,
    {
        assert forall|e: EntryView| #[trigger]
            after.contents().contains(e) implies after.bounds.spec_contains(e.pos) by {
            if e != ev {
                assert(self.contents().contains(e));
            }
        }
        assert forall|e: EntryView| #[trigger]
            after.contents().contains(e) implies after.reach is Some && covers(after.reach->0, e) by {
            if e != ev {
                assert(self.contents().contains(e));
            }
            lemma_grow_covers(self.reach, ev, e);
        }
    }

    /// Split a leaf into its four quadrants and hand its entries down.
    fn subdivide<F: Fn(AABB) -> Quarters>(&mut self, split: &F)
        requires
            old(self).wf(),
            old(self).children is None,
            old(self).len < usize::MAX,
            forall|b: AABB| call_requires(*split, (b,)),
        ensures
            final(self).wf(),
            final(self).children is Some,
            final(self).contents() == old(self).contents(),
            final(self).reach == old(self).reach,
            final(self).bounds == old(self).bounds,
            final(self).capacity == old(self).capacity,
            final(self).len == old(self).len,
    {
        let q = split(self.bounds);
        let cap = self.capacity;
        let limit = self.bounds.span_exec();
        let mut quads = Quadrants {
            nw: Node::new(q.nw, cap),
            ne: Node::new(q.ne, cap),
            sw: Node::new(q.sw, cap),
            se: Node::new(q.se, cap),
        };
        let mut pending: Vec<SpatialEntry> = Vec::new();
        std::mem::swap(&mut pending, &mut self.entries);
        let ghost held = old(self).contents();
        assert(quads.contents() =~= Multiset::<EntryView>::empty());
        assert(entry_views(self.entries@) =~= Seq::<EntryView>::empty());
        assert(quads.routed(limit as int));
        while pending.len() > 0
            invariant
                quads.wf(cap),
                quads.nw.capacity == cap,
                quads.all_leaves(),
                quads.contents().len() + entry_views(self.entries@).len() + pending.len() == held.len(),
                held.len() <= cap,
                self.children is None,
                self.reach == old(self).reach,
                self.bounds == old(self).bounds,
                self.capacity == old(self).capacity,
                self.len == old(self).len,
                cap == self.capacity,
                self.len < usize::MAX,
                self.len == held.len(),
                entry_views(self.entries@).to_multiset().add(quads.contents()).add(
                    entry_views(pending@).to_multiset(),
                ) == held,
                forall|e: EntryView| #[trigger]
                    held.contains(e) ==> self.bounds.spec_contains(e.pos),
                forall|b: AABB| call_requires(*split, (b,)),
                limit == self.bounds.span(),
                quads.routed(limit as int),
                stays_all(quads, entry_views(self.entries@), limit as int),
            decreases pending.len(),
        {
            let ghost before = entry_views(pending@);
            let e = pending.remove(0);
            assert(before =~= seq![e@] + entry_views(pending@));
            let ghost kept = entry_views(self.entries@);
            let ghost q0 = quads;
            let ghost ev = e@;
            let rest = quads.place_fresh(e, limit);
            proof {
                q0.lemma_takes_keeps_routed(quads, ev, limit as int);
            }
            match rest {
                Some(e) => {
                    self.entries.push(e);
                    assert(entry_views(self.entries@) =~= kept.push(e@));
                },
                None => {},
            }
            assert(stays_all(quads, entry_views(self.entries@), limit as int)) by {
                assert forall|i: int| 0 <= i < entry_views(self.entries@).len() implies quads.destination(
                    #[trigger] entry_views(self.entries@)[i].pos,
                    limit as int,
                ) == 4 by {
                    if i < kept.len() {
                        assert(entry_views(self.entries@)[i] == kept[i]);
                    }
                }
            }
            assert(entry_views(self.entries@).to_multiset().add(quads.contents()).add(
                entry_views(pending@).to_multiset(),
            ) =~= held);
        }
        assert(entry_views(pending@) =~= Seq::<EntryView>::empty());
        self.children = Some(Box::new(quads));
        assert(self.contents() =~= held);
    }

    /// Insert an entry below this node; `false`, and nothing changed, when
    /// its position lies outside the node's bounds.
    fn insert<F: Fn(AABB) -> Quarters>(&mut self, entry: SpatialEntry, split: &F) -> (inserted: bool)
        requires
            old(self).wf(),
            old(self).spec_len() < usize::MAX,
            forall|b: AABB| call_requires(*split, (b,)),
        ensures
            final(self).wf(),
            inserted == old(self).spec_bounds().spec_contains(entry.pos),
            final(self).spec_bounds() == old(self).spec_bounds(),
            final(self).spec_capacity() == old(self).spec_capacity(),
            inserted ==> final(self).contents() == old(self).contents().insert(entry@),
            inserted ==> old(self).places(*final(self), entry@),
            inserted ==> final(self).spec_len() == old(self).spec_len() + 1,
            !inserted ==> *final(self) == *old(self),
    {
        if !self.bounds.contains(entry.pos) {
            return false;
        }
        self.insert_contained(entry, split);
        true
    }

    /// The entries below this node at `point`, in collection order.
    fn query_point(&self, point: Vec2) -> (found: Vec<&SpatialEntry>)
        requires
            self.wf(),
        ensures
            ref_views(found@) == self.spec_query_point(point),
    {
        if !self.bounds.contains(point) {
            let empty: Vec<&SpatialEntry> = Vec::new();
            assert(ref_views(empty@) =~= Seq::<EntryView>::empty());
            return empty;
        }
        let mut found: Vec<&SpatialEntry> = Vec::new();
        assert(ref_views(found@) =~= Seq::<EntryView>::empty());
        self.query_point_inner(point, &mut found);
        assert(ref_views(found@) =~= point_matches(self.collected(), point));
        found
    }

    /// The entries below this node that meet `range`, in collection order.
    fn query_range(&self, range: AABB) -> (found: Vec<&SpatialEntry>)
        requires
            self.wf(),
        ensures
            ref_views(found@) == self.spec_query_range(range),
    {
        let mut found: Vec<&SpatialEntry> = Vec::new();
        assert(ref_views(found@) =~= Seq::<EntryView>::empty());
        self.query_range_inner(&range, &mut found);
        assert(ref_views(found@) =~= range_matches(self.collected(), range));
        found
    }

    /// Whether this node's covering box contains `point`.
    fn reach_contains(&self, point: Vec2) -> (r: bool)
        ensures
            r == (self.reach is Some && self.reach->0.spec_contains(point)),
    {
        match self.reach {
            None => false,
            Some(b) => b.contains(point),
        }
    }

    /// Whether this node's covering box meets `range`.
    fn reach_meets(&self, range: &AABB) -> (r: bool)
        ensures
            r == (self.reach is Some && range.spec_intersects(self.reach->0)),
    {
        match self.reach {
            None => false,
            Some(b) => range.intersects(&b),
        }
    }

    /// Below a node whose covering box misses `point`, a point query finds
    /// nothing.
    proof fn lemma_no_point_matches(self, point: Vec2)
        requires
            self.wf(),
            !(self.reach is Some && self.reach->0.spec_contains(point)),
        ensures
            point_matches(self.collected(), point) == Seq::<EntryView>::empty(),
    {
        broadcast use Seq::lemma_filter_contains_rev, Seq::lemma_filter_pred;

        self.lemma_collected_contents();
        let f = point_matches(self.collected(), point);
        if f.len() > 0 {
            let x = f[0];
            assert(f.contains(x));
            lemma_point_matches_sound(self.collected(), point, x);
            assert(self.collected().to_multiset().contains(x));
            assert(self.contents().contains(x));
            let r = self.reach->0;
            if x.pos.spec_same(point) {
                law_contains_by_value(r, x.pos, point);
            } else {
                law_enclosed_contains(r, x.bounds, point);
            }
        }
        assert(f =~= Seq::<EntryView>::empty());
    }

    /// Below a node whose covering box misses `range`, a range query finds
    /// nothing.
    proof fn lemma_no_range_matches(self, range: AABB)
        requires
            self.wf(),
            !(self.reach is Some && range.spec_intersects(self.reach->0)),
        ensures
            range_matches(self.collected(), range) == Seq::<EntryView>::empty(),
    {
        broadcast use Seq::lemma_filter_contains_rev, Seq::lemma_filter_pred;

        self.lemma_collected_contents();
        let f = range_matches(self.collected(), range);
        if f.len() > 0 {
            let x = f[0];
            assert(f.contains(x));
            lemma_range_matches_sound(self.collected(), range, x);
            assert(self.collected().to_multiset().contains(x));
            assert(self.contents().contains(x));
            let r = self.reach->0;
            if range.spec_intersects(x.bounds) {
                law_enclosed_meets(r, x.bounds, range);
            } else {
                law_common_point_intersects(range, r, x.pos);
                law_intersects_symmetric(range, r);
            }
        }
        assert(f =~= Seq::<EntryView>::empty());
    }

    fn query_point_inner<'a>(&'a self, point: Vec2, result: &mut Vec<&'a SpatialEntry>)
        requires
            self.wf(),
        ensures
            ref_views(final(result)@) == ref_views(old(result)@) + point_matches(self.collected(), point),
        decreases self, 1usize,
    {
        let ghost start = ref_views(result@);
        push_point_matches(&self.entries, point, result);
        let ghost own = entry_views(self.entries@);
        match &self.children {
            None => {},
            Some(q) => {
                q.query_point_inner(point, result);
                assert(point_matches(own + q.collected(), point) == point_matches(own, point)
                    + point_matches(q.collected(), point)) by {
                    broadcast use Seq::filter_distributes_over_add;

                }
                assert(ref_views(result@) =~= start + point_matches(self.collected(), point));
            },
        }
    }

    fn query_range_inner<'a>(&'a self, range: &AABB, result: &mut Vec<&'a SpatialEntry>)
        requires
            self.wf(),
        ensures
            ref_views(final(result)@) == ref_views(old(result)@) + range_matches(self.collected(), *range),
        decreases self, 1usize,
    {
        let ghost start = ref_views(result@);
        push_range_matches(&self.entries, range, result);
        let ghost own = entry_views(self.entries@);
        match &self.children {
            None => {},
            Some(q) => {
                q.query_range_inner(range, result);
                assert(range_matches(own + q.collected(), *range) == range_matches(own, *range)
                    + range_matches(q.collected(), *range)) by {
                    broadcast use Seq::filter_distributes_over_add;

                }
                assert(ref_views(result@) =~= start + range_matches(self.collected(), *range));
            },
        }
    }

    /// The collected entries hold what the tree contains.
    proof fn lemma_collected_contents(self)
        ensures
            self.collected().to_multiset() == self.contents(),
        decreases self, 1usize,
    {
        match self.children {
            None => {},
            Some(q) => {
                q.lemma_collected_contents();
            },
        }
    }

    fn collect_inner<'a>(&'a self, out: &mut Vec<&'a SpatialEntry>)
        ensures
            ref_views(final(out)@) == ref_views(old(out)@) + self.collected(),
        decreases self, 1usize,
    {
        let ghost r0 = ref_views(out@);
        let mut i: usize = 0;
        while i < self.entries.len()
            invariant
                i <= self.entries.len(),
                ref_views(out@) == r0 + entry_views(self.entries@).take(i as int),
            decreases self.entries.len() - i,
        {
            let ghost before = ref_views(out@);
            out.push(&self.entries[i]);
            assert(ref_views(out@) =~= before.push(self.entries@[i as int]@));
            assert(entry_views(self.entries@).take(i + 1) =~= entry_views(self.entries@).take(
                i as int,
            ).push(self.entries@[i as int]@));
            assert(ref_views(out@) =~= r0 + entry_views(self.entries@).take(i + 1));
            i = i + 1;
        }
        assert(entry_views(self.entries@).take(i as int) =~= entry_views(self.entries@));
        match &self.children {
            None => {},
            Some(q) => {
                q.collect_inner(out);
                assert(ref_views(out@) =~= r0 + self.collected());
            },
        }
    }

    /// Remove all entries; the bounds and the capacity stay.
    fn clear(&mut self)
        requires
            old(self).wf(),
        ensures
            final(self).wf(),
            final(self).contents() == Multiset::<EntryView>::empty(),
            final(self).spec_len() == 0,
            !final(self).spec_is_subdivided(),
            final(self).spec_bounds() == old(self).spec_bounds(),
            final(self).spec_capacity() == old(self).spec_capacity(),
    {
        self.entries.clear();
        self.children = None;
        self.len = 0;
        self.reach = None;
        assert(entry_views(self.entries@) =~= Seq::<EntryView>::empty());
    }
}

/// Hierarchical quad-tree spatial index.
///
/// A node keeps up to `capacity` entries; when a full leaf receives one more,
/// it splits into four quadrants and hands its entries down to them. An entry
/// goes to the first quadrant whose bounds contain its position; it stays in
/// the node when no quadrant contains it, or when that quadrant is not
/// strictly smaller than the node (measured by `AABB::span`), as happens once
/// the bounds can no longer be halved. Every descent therefore shrinks the
/// span, and insertion always returns.
#[derive(Debug)]
pub struct QuadTree {
    root: Node,
}

impl QuadTree {
    /// The tree's invariant, which every tree keeps: the count is the number
    /// of stored entries, a leaf holds at most `capacity` entries, every entry
    /// of a subtree lies in that subtree's bounds, every node has the root's
    /// capacity, and every entry sits where the routing rule sends it.
    #[verifier::type_invariant]
    pub closed spec fn wf(self) -> bool {
        self.root.wf()
    }

    /// The region this tree covers.
    pub closed spec fn spec_bounds(self) -> AABB {
        self.root.spec_bounds()
    }

    /// How many entries a leaf keeps before it splits.
    pub closed spec fn spec_capacity(self) -> nat {
        self.root.spec_capacity()
    }

    /// The number of entries the tree counts.
    pub closed spec fn spec_len(self) -> nat {
        self.root.spec_len()
    }

    /// Whether the root has been split into quadrants.
    pub closed spec fn spec_is_subdivided(self) -> bool {
        self.root.spec_is_subdivided()
    }

    /// Every entry stored in the tree, with multiplicity.
    pub closed spec fn contents(self) -> Multiset<EntryView> {
        self.root.contents()
    }

    /// The entries that the root node keeps itself, in the order it got them.
    pub closed spec fn own_entries(self) -> Seq<EntryView> {
        self.root.own_entries()
    }

    /// Quadrant `k` of a split root, in the order nw (0), ne (1), sw (2),
    /// se (3).
    pub closed spec fn quadrant(self, k: int) -> QuadTree {
        QuadTree { root: self.root.quadrant(k) }
    }

    /// Where the root sends an entry at `p`: the first quadrant whose bounds
    /// contain `p`, provided it is strictly smaller than the root (by `span`);
    /// 4 when the entry stays in the root (always so for a leaf).
    pub closed spec fn destination(self, p: Vec2) -> int {
        self.root.destination(p)
    }

    /// Whether `after` is this tree with `e` inserted at the root level: a
    /// leaf with room keeps it; a full leaf splits; a split root passes it to
    /// its destination quadrant, or keeps it when the destination is 4.
    pub open spec fn places(self, after: QuadTree, e: EntryView) -> bool {
        &&& (!self.spec_is_subdivided() && self.own_entries().len() < self.spec_capacity()) ==> {
            &&& after.own_entries() == self.own_entries().push(e)
            &&& !after.spec_is_subdivided()
        }
        &&& (!self.spec_is_subdivided() && self.own_entries().len() >= self.spec_capacity())
            ==> after.spec_is_subdivided()
        &&& self.spec_is_subdivided() ==> {
            &&& after.spec_is_subdivided()
            &&& forall|k: int| 0 <= k < 4 ==> (#[trigger] after.quadrant(k)).spec_bounds() == self.quadrant(k).spec_bounds()
            &&& after.own_entries() == if self.destination(e.pos) == 4 {
                self.own_entries().push(e)
            } else {
                self.own_entries()
            }
            &&& forall|k: int| 0 <= k < 4 ==> (#[trigger] after.quadrant(k)).contents() == if k == self.destination(e.pos) {
                self.quadrant(k).contents().insert(e)
            } else {
                self.quadrant(k).contents()
            }
        }
    }

    /// Every stored entry, each node's own entries before those of its
    /// quadrants (taken in the order nw, ne, sw, se).
    pub closed spec fn collected(self) -> Seq<EntryView> {
        self.root.collected()
    }

    /// The result of `query_point`.
    pub open spec fn spec_query_point(self, point: Vec2) -> Seq<EntryView> {
        if self.spec_bounds().spec_contains(point) {
            point_matches(self.collected(), point)
        } else {
            seq![]
        }
    }

    /// The result of `query_range`.
    pub open spec fn spec_query_range(self, range: AABB) -> Seq<EntryView> {
        range_matches(self.collected(), range)
    }

    /// The collected entries hold what the tree contains.
    pub proof fn lemma_collected_contents(self)
        ensures
            self.collected().to_multiset() == self.contents(),
    {
        self.root.lemma_collected_contents();
    }

    /// Create a new quad-tree covering `bounds` whose leaves keep up to
    /// `capacity` entries.
    pub fn new(bounds: AABB, capacity: usize) -> (t: QuadTree)
        requires
            capacity > 0,
        ensures
            t.spec_bounds() == bounds,
            t.spec_capacity() == capacity,
            t.contents() == Multiset::<EntryView>::empty(),
            t.spec_len() == 0,
            !t.spec_is_subdivided(),
    {
        QuadTree { root: Node::new(bounds, capacity) }
    }

    /// Insert an entry. Returns `false`, and leaves the tree as it was, when
    /// the entry's position lies outside the tree's bounds.
    ///
    /// `split` gives the bounds of the four quadrants of a node's bounds; it
    /// is called when a full leaf splits.
    pub fn insert<F: Fn(AABB) -> Quarters>(&mut self, entry: SpatialEntry, split: &F) -> (inserted: bool)
        requires
            old(self).spec_len() < usize::MAX,
            forall|b: AABB| call_requires(*split, (b,)),
        ensures
            inserted == old(self).spec_bounds().spec_contains(entry.pos),
            final(self).spec_bounds() == old(self).spec_bounds(),
            final(self).spec_capacity() == old(self).spec_capacity(),
            inserted ==> final(self).contents() == old(self).contents().insert(entry@),
            inserted ==> old(self).places(*final(self), entry@),
            inserted ==> final(self).spec_len() == old(self).spec_len() + 1,
            !inserted ==> *final(self) == *old(self),
    {
        proof {
            use_type_invariant(&*self);
        }
        let mut root = Node::new(self.root.bounds, self.root.capacity);
        std::mem::swap(&mut root, &mut self.root);
        let inserted = root.insert(entry, split);
        self.root = root;
        inserted
    }

    /// Query the entries at `point`: those whose position equals it or whose
    /// bounds contain it. A point outside the tree's bounds finds nothing, and
    /// a quadrant whose covering box misses the point is skipped, which loses
    /// nothing.
    pub fn query_point(&self, point: Vec2) -> (found: Vec<&SpatialEntry>)
        ensures
            ref_views(found@) == self.spec_query_point(point),
    {
        proof {
            use_type_invariant(self);
        }
        self.root.query_point(point)
    }

    /// Query all entries whose bounds intersect `range` or whose position lies
    /// in it, wherever in the tree they are stored. A quadrant whose covering
    /// box misses the range is skipped, which loses nothing.
    pub fn query_range(&self, range: AABB) -> (found: Vec<&SpatialEntry>)
        ensures
            ref_views(found@) == self.spec_query_range(range),
    {
        proof {
            use_type_invariant(self);
        }
        self.root.query_range(range)
    }

    /// Query all entries within `radius`: the candidates are those of `query_range(search)`, kept
    /// when the distance that `distance` reports for them is at most `radius`
    /// (a NaN distance is never within it). Candidates keep their order.
    pub fn query_radius<F: Fn(&SpatialEntry) -> Coord>(&self, search: AABB, radius: Coord, distance: &F) -> (found: Vec<
        &SpatialEntry,
    >)
        requires
            forall|e: &SpatialEntry| call_requires(*distance, (e,)),
        ensures
            exists|candidates: Seq<&SpatialEntry>, ds: Seq<Coord>|
                {
                    &&& ref_views(candidates) == self.spec_query_range(search)
                    &&& reported_distances(*distance, candidates, ds)
                    &&& found@ == within(pair_with(candidates, ds), radius)
                    &&& ref_views(found@) == within(pair_with(self.spec_query_range(search), ds), radius)
                },
    {
        let candidates = self.query_range(search);
        let found = keep_within(candidates, distance, radius);
        proof {
            let ds = choose|ds: Seq<Coord>|
                reported_distances(*distance, candidates@, ds) && found@ == within(
                    pair_with(candidates@, ds),
                    radius,
                );
            let f = |e: &SpatialEntry| e@;
            law_within_ignores_items(candidates@, ds, radius, f);
            assert(ref_views(candidates@) =~= candidates@.map_values(f));
            assert(ref_views(found@) =~= found@.map_values(f));
        }
        found
    }

    /// Every stored entry, each node's own entries before those of its
    /// quadrants.
    pub fn collect_all(&self) -> (all: Vec<&SpatialEntry>)
        ensures
            ref_views(all@) == self.collected(),
    {
        let mut all: Vec<&SpatialEntry> = Vec::new();
        assert(ref_views(all@) =~= Seq::<EntryView>::empty());
        self.root.collect_inner(&mut all);
        assert(ref_views(all@) =~= self.collected());
        all
    }

    /// The `n` entries nearest to a point, nearest first, each with its
    /// distance. `distances[i]` is the distance of the `i`-th entry of
    /// `collect_all`; of entries at equal distance the one collected first
    /// comes first.
    pub fn nearest(&self, distances: &Vec<Coord>, n: usize) -> (found: Vec<(&SpatialEntry, Coord)>)
        requires
            distances.len() == self.spec_len(),
        ensures
            map_items(found@, |e: &SpatialEntry| e@) == sorted_by_distance(
                pair_with(self.collected(), distances@),
            ).take(if n < self.spec_len() { n as int } else { self.spec_len() as int }),
            found@.len() == if n < self.spec_len() { n as int } else { self.spec_len() as int },
    {
        proof {
            use_type_invariant(self);
            self.lemma_collected_contents();
        }
        let all = self.collect_all();
        let mut pairs: Vec<(&SpatialEntry, Coord)> = Vec::new();
        let mut i: usize = 0;
        while i < all.len()
            invariant
                i <= all.len(),
                all.len() == distances.len(),
                ref_views(all@) == self.collected(),
                pairs@.len() == i,
                forall|k: int| 0 <= k < i ==> #[trigger] pairs@[k] == (all@[k], distances@[k]),
            decreases all.len() - i,
        {
            pairs.push((all[i], distances[i]));
            i = i + 1;
        }
        let ghost f = |e: &SpatialEntry| e@;
        assert(map_items(pairs@, f) =~= pair_with(self.collected(), distances@));
        let ghost ps = pairs@;
        let found = nearest_first(pairs, n);
        proof {
            law_sort_ignores_items(ps, f);
            law_sorted_is_permutation(ps);
        }
        let ghost k = if n < self.spec_len() { n as int } else { self.spec_len() as int };
        assert(found@ == sorted_by_distance(ps).take(k));
        assert(map_items(found@, f) =~= map_items(sorted_by_distance(ps), f).take(k));
        assert(map_items(found@, f) =~= sorted_by_distance(pair_with(self.collected(), distances@)).take(
            if n < self.spec_len() { n as int } else { self.spec_len() as int },
        ));
        found
    }

    /// Total number of entries in the tree.
    pub fn len(&self) -> (n: usize)
        ensures
            n == self.spec_len(),
    {
        self.root.len
    }

    /// Whether the tree holds no entry.
    pub fn is_empty(&self) -> (empty: bool)
        ensures
            empty == (self.spec_len() == 0),
    {
        self.root.len == 0
    }

    /// Whether the root has been split into quadrants.
    pub fn is_subdivided(&self) -> (split: bool)
        ensures
            split == self.spec_is_subdivided(),
    {
        self.root.children.is_some()
    }

    /// The region this tree covers.
    pub fn bounds(&self) -> (b: AABB)
        ensures
            b == self.spec_bounds(),
    {
        self.root.bounds
    }

    /// Remove all entries; the bounds and the capacity stay.
    pub fn clear(&mut self)
        ensures
            final(self).contents() == Multiset::<EntryView>::empty(),
            final(self).spec_len() == 0,
            !final(self).spec_is_subdivided(),
            final(self).spec_bounds() == old(self).spec_bounds(),
            final(self).spec_capacity() == old(self).spec_capacity(),
    {
        proof {
            use_type_invariant(&*self);
        }
        let mut root = Node::new(self.root.bounds, self.root.capacity);
        std::mem::swap(&mut root, &mut self.root);
        root.clear();
        self.root = root;
    }
}

/// The first quadrant of a split root, in the order nw, ne, sw, se, whose
/// bounds contain `p`; 4 when none does.
pub open spec fn first_quadrant_containing(tree: QuadTree, p: Vec2) -> int {
    if tree.quadrant(0).spec_bounds().spec_contains(p) {
        0
    } else if tree.quadrant(1).spec_bounds().spec_contains(p) {
        1
    } else if tree.quadrant(2).spec_bounds().spec_contains(p) {
        2
    } else if tree.quadrant(3).spec_bounds().spec_contains(p) {
        3
    } else {
        4
    }
}

/// The layout of a well-formed tree. A leaf holds at most `capacity` entries,
/// all its own. A split root holds its own entries and four well-formed
/// quadrants of the same capacity; an entry lies below quadrant `k` exactly
/// when `k` is its destination, and the root keeps the entries whose
/// destination is 4. The destination of `p` is the first quadrant whose bounds
/// contain `p`, if that quadrant's span is below the root's, and 4 otherwise.
pub proof fn law_layout(tree: QuadTree)
    requires
        tree.wf(),
    ensures
        !tree.spec_is_subdivided() ==> tree.own_entries().len() <= tree.spec_capacity()
            && tree.contents() == tree.own_entries().to_multiset(),
        tree.spec_is_subdivided() ==> {
            &&& forall|k: int| 0 <= k < 4 ==> (#[trigger] tree.quadrant(k)).wf()
                && tree.quadrant(k).spec_capacity() == tree.spec_capacity()
            &&& tree.contents() == tree.own_entries().to_multiset().add(tree.quadrant(0).contents()).add(
                tree.quadrant(1).contents(),
            ).add(tree.quadrant(2).contents()).add(tree.quadrant(3).contents())
            &&& forall|i: int| 0 <= i < tree.own_entries().len() ==> tree.destination(
                #[trigger] tree.own_entries()[i].pos,
            ) == 4
            &&& forall|k: int, e: EntryView| 0 <= k < 4 && #[trigger] tree.quadrant(k).contents().contains(e)
                ==> tree.destination(e.pos) == k
        },
        forall|p: Vec2| #[trigger] tree.destination(p) == if tree.spec_is_subdivided() {
            let k = first_quadrant_containing(tree, p);
            if k < 4 && tree.quadrant(k).spec_bounds().span() < tree.spec_bounds().span() {
                k
            } else {
                4
            }
        } else {
            4
        },
{
    match tree.root.children {
        None => {},
        Some(q) => {
            assert(tree.contents() =~= tree.own_entries().to_multiset().add(tree.quadrant(0).contents()).add(
                tree.quadrant(1).contents(),
            ).add(tree.quadrant(2).contents()).add(tree.quadrant(3).contents()));
            assert forall|k: int, e: EntryView| 0 <= k < 4 && #[trigger] tree.quadrant(k).contents().contains(e)
                implies tree.destination(e.pos) == k by {
                if k == 0 {
                    assert(q.nw.contents().contains(e));
                } else if k == 1 {
                    assert(q.ne.contents().contains(e));
                } else if k == 2 {
                    assert(q.sw.contents().contains(e));
                } else {
                    assert(q.se.contents().contains(e));
                }
            }
            assert forall|p: Vec2| #[trigger] tree.destination(p) == {
                let k = first_quadrant_containing(tree, p);
                if k < 4 && tree.quadrant(k).spec_bounds().span() < tree.spec_bounds().span() {
                    k
                } else {
                    4
                }
            } by {
                assert(q.first_fit(p) == first_quadrant_containing(tree, p));
            }
        },
    }
}

/// Filtering keeps each item at most as often as the input holds it.
proof fn lemma_filter_submultiset<A>(s: Seq<A>, f: spec_fn(A) -> bool)
    ensures
        s.filter(f).to_multiset().subset_of(s.to_multiset()),
    decreases s.len(),
{
    broadcast use Seq::lemma_filter_push;

    if s.len() > 0 {
        let d = s.drop_last();
        lemma_filter_submultiset(d, f);
        assert(d.push(s.last()) =~= s);
        assert(s.filter(f) == d.push(s.last()).filter(f));
    } else {
        assert(s.filter(f).len() == 0) by {
            broadcast use Seq::lemma_filter_len;

        }
        assert(s.filter(f) =~= Seq::<A>::empty());
    }
}

/// In a well-formed tree every stored entry lies in the tree's bounds, the
/// count is the number of stored entries, and `collect_all` lists each of them
/// once.
pub proof fn law_stored_entries(tree: QuadTree)
    requires
        tree.wf(),
    ensures
        forall|e: EntryView| #[trigger]
            tree.contents().contains(e) ==> tree.spec_bounds().spec_contains(e.pos),
        tree.spec_len() == tree.contents().len(),
        tree.collected().to_multiset() == tree.contents(),
        tree.collected().len() == tree.spec_len(),
{
    tree.lemma_collected_contents();
}

/// A point query reports only stored entries, each at most as often as it is
/// stored, and each sits at the point or has bounds that contain it; it finds
/// nothing at a point outside the tree's bounds.
pub proof fn law_query_point_sound(tree: QuadTree, point: Vec2, e: EntryView)
    ensures
        tree.spec_query_point(point).to_multiset().subset_of(tree.contents()),
        tree.spec_query_point(point).contains(e) ==> matches_point(e, point) && tree.contents().contains(e),
        !tree.spec_bounds().spec_contains(point) ==> tree.spec_query_point(point).len() == 0,
{
    tree.lemma_collected_contents();
    lemma_filter_submultiset(tree.collected(), |x: EntryView| matches_point(x, point));
    if tree.spec_query_point(point).contains(e) {
        lemma_point_matches_sound(tree.collected(), point, e);
    }
}

/// A point query at a point in the tree's bounds finds every stored entry that
/// sits at the point or whose bounds contain it.
pub proof fn law_query_point_complete(tree: QuadTree, point: Vec2, e: EntryView)
    requires
        tree.wf(),
        tree.spec_bounds().spec_contains(point),
        tree.contents().contains(e),
        matches_point(e, point),
    ensures
        tree.spec_query_point(point).contains(e),
{
    tree.lemma_collected_contents();
    let c = tree.collected();
    assert(c.to_multiset().contains(e));
    let k = choose|k: int| 0 <= k < c.len() && c[k] == e;
    assert(point_matches(c, point).contains(e)) by {
        broadcast use Seq::lemma_filter_contains;

        assert(c.filter(|x: EntryView| matches_point(x, point)).contains(c[k]));
    }
}

/// A point query at a stored entry's position finds it.
pub proof fn law_query_point_finds_entries_at_point(tree: QuadTree, point: Vec2, e: EntryView)
    requires
        tree.wf(),
        tree.contents().contains(e),
        e.pos.spec_same(point),
    ensures
        tree.spec_query_point(point).contains(e),
{
    law_contains_by_value(tree.spec_bounds(), e.pos, point);
    law_query_point_complete(tree, point, e);
}

/// A range query reports only stored entries, each at most as often as it is
/// stored, and each has bounds that meet the range or a position inside it.
pub proof fn law_query_range_sound(tree: QuadTree, range: AABB, e: EntryView)
    ensures
        tree.spec_query_range(range).to_multiset().subset_of(tree.contents()),
        tree.spec_query_range(range).contains(e) ==> matches_range(e, range) && tree.contents().contains(e),
{
    tree.lemma_collected_contents();
    lemma_filter_submultiset(tree.collected(), |x: EntryView| matches_range(x, range));
    if tree.spec_query_range(range).contains(e) {
        lemma_range_matches_sound(tree.collected(), range, e);
    }
}

/// A range query finds every stored entry whose bounds meet the range or
/// whose position lies in it, wherever it is stored.
pub proof fn law_query_range_complete(tree: QuadTree, range: AABB, e: EntryView)
    requires
        tree.contents().contains(e),
        matches_range(e, range),
    ensures
        tree.spec_query_range(range).contains(e),
{
    tree.lemma_collected_contents();
    let c = tree.collected();
    assert(c.to_multiset().contains(e));
    let k = choose|k: int| 0 <= k < c.len() && c[k] == e;
    assert(range_matches(c, range).contains(e)) by {
        broadcast use Seq::lemma_filter_contains;

        assert(c.filter(|x: EntryView| matches_range(x, range)).contains(c[k]));
    }
}

/// At a point in the tree's bounds, a point query reports exactly the stored
/// entries that sit at the point or whose bounds contain it.
pub proof fn law_query_point_exact(tree: QuadTree, point: Vec2, e: EntryView)
    requires
        tree.wf(),
        tree.spec_bounds().spec_contains(point),
    ensures
        tree.spec_query_point(point).contains(e) <==> tree.contents().contains(e) && (e.pos.spec_same(point)
            || e.bounds.spec_contains(point)),
{
    law_query_point_sound(tree, point, e);
    if tree.contents().contains(e) && (e.pos.spec_same(point) || e.bounds.spec_contains(point)) {
        law_query_point_complete(tree, point, e);
    }
}

/// A range query reports exactly the stored entries whose bounds intersect the
/// range or whose position lies in it.
pub proof fn law_query_range_exact(tree: QuadTree, range: AABB, e: EntryView)
    ensures
        tree.spec_query_range(range).contains(e) <==> tree.contents().contains(e) && (range.spec_intersects(
            e.bounds,
        ) || range.spec_contains(e.pos)),
{
    law_query_range_sound(tree, range, e);
    if tree.contents().contains(e) && (range.spec_intersects(e.bounds) || range.spec_contains(e.pos)) {
        law_query_range_complete(tree, range, e);
    }
}

/// A radius query misses no stored entry that matches the search box and
/// whose reported distance is within the radius: with `ds` the distances
/// reported for the candidates (the result of `query_range(search)`), every
/// such entry is in the result. The caller's search box is the square around
/// the circle, so that it holds every entry within the radius.
pub proof fn law_query_radius_complete(tree: QuadTree, search: AABB, ds: Seq<Coord>, radius: Coord, e: EntryView)
    requires
        ds.len() == tree.spec_query_range(search).len(),
        tree.contents().contains(e),
        matches_range(e, search),
        forall|i: int|
            0 <= i < ds.len() && #[trigger] tree.spec_query_range(search)[i] == e ==> ds[i].spec_le(radius),
    ensures
        within(pair_with(tree.spec_query_range(search), ds), radius).contains(e),
{
    let c = tree.spec_query_range(search);
    law_query_range_complete(tree, search, e);
    let i = choose|i: int| 0 <= i < c.len() && c[i] == e;
    assert(pair_with(c, ds)[i].0 == e);
    law_within_keeps_exactly_the_near(pair_with(c, ds), radius, e);
}

/// A radius query reports only stored entries that match the search box and
/// that were reported within the radius at some candidate position.
pub proof fn law_query_radius_sound(tree: QuadTree, search: AABB, ds: Seq<Coord>, radius: Coord, e: EntryView)
    requires
        ds.len() == tree.spec_query_range(search).len(),
        within(pair_with(tree.spec_query_range(search), ds), radius).contains(e),
    ensures
        tree.contents().contains(e),
        matches_range(e, search),
        exists|i: int|
            0 <= i < ds.len() && #[trigger] tree.spec_query_range(search)[i] == e && ds[i].spec_le(radius),
{
    let c = tree.spec_query_range(search);
    law_within_keeps_exactly_the_near(pair_with(c, ds), radius, e);
    let i = choose|i: int| 0 <= i < pair_with(c, ds).len() && #[trigger] pair_with(c, ds)[i].0 == e && pair_with(
        c,
        ds,
    )[i].1.spec_le(radius);
    assert(c[i] == e);
    law_query_range_sound(tree, search, e);
}

/// The order in which the tree lists its entries (the order of every query's
/// result): the root's own entries first, in the order it got them, then, for
/// a split root, everything under quadrant nw, ne, sw and se in turn, each
/// listed the same way.
pub proof fn law_collected_order(tree: QuadTree)
    ensures
        tree.collected() == if tree.spec_is_subdivided() {
            tree.own_entries() + tree.quadrant(0).collected() + tree.quadrant(1).collected()
                + tree.quadrant(2).collected() + tree.quadrant(3).collected()
        } else {
            tree.own_entries()
        },
{
    if let Some(q) = tree.root.children {
        assert(tree.collected() =~= tree.own_entries() + tree.quadrant(0).collected() + tree.quadrant(
            1,
        ).collected() + tree.quadrant(2).collected() + tree.quadrant(3).collected());
    }
}

/// The entries of `es` whose insertion was accepted, in order.
pub open spec fn accepted_entries(es: Seq<EntryView>, accepted: Seq<bool>) -> Seq<EntryView>
    decreases es.len(),
{
    if es.len() == 0 || accepted.len() < es.len() {
        seq![]
    } else {
        let rest = accepted_entries(es.drop_last(), accepted.take(es.len() - 1));
        if accepted[es.len() - 1] {
            rest.push(es.last())
        } else {
            rest
        }
    }
}

/// The tree holds and counts exactly the entries it accepted: along a run of
/// insertions that starts from an empty tree (as `new` and `clear` leave it),
/// where each step is what `insert` promises (an accepted entry is added, a
/// refused one changes nothing), the last tree holds the accepted entries and
/// its count is their number.
pub proof fn law_len_counts_accepted(trees: Seq<QuadTree>, es: Seq<EntryView>, accepted: Seq<bool>)
    requires
        trees.len() == es.len() + 1,
        accepted.len() == es.len(),
        trees[0].contents() == Multiset::<EntryView>::empty(),
        forall|i: int| 0 <= i < trees.len() ==> (#[trigger] trees[i]).wf(),
        forall|i: int|
            0 <= i < es.len() && #[trigger] accepted[i] ==> trees[i + 1].contents() == trees[i].contents().insert(
                es[i],
            ),
        forall|i: int| 0 <= i < es.len() && !#[trigger] accepted[i] ==> trees[i + 1] == trees[i],
    ensures
        trees.last().contents() == accepted_entries(es, accepted).to_multiset(),
        trees.last().spec_len() == accepted_entries(es, accepted).len(),
    decreases es.len(),
{
    let n = es.len() as int;
    if n == 0 {
        assert(accepted_entries(es, accepted) =~= Seq::<EntryView>::empty());
    } else {
        let t = trees.take(n);
        let e = es.drop_last();
        let a = accepted.take(n - 1);
        assert forall|i: int| 0 <= i < t.len() implies (#[trigger] t[i]).wf() by {
            assert(t[i] == trees[i]);
        }
        assert forall|i: int| 0 <= i < e.len() && #[trigger] a[i] implies t[i + 1].contents() == t[i].contents().insert(
            e[i],
        ) by {
            assert(accepted[i]);
            assert(t[i + 1] == trees[i + 1] && t[i] == trees[i] && e[i] == es[i]);
        }
        assert forall|i: int| 0 <= i < e.len() && !#[trigger] a[i] implies t[i + 1] == t[i] by {
            assert(!accepted[i]);
            assert(t[i + 1] == trees[i + 1] && t[i] == trees[i]);
        }
        law_len_counts_accepted(t, e, a);
        assert(t.last() == trees[n - 1]);
        let rest = accepted_entries(e, a);
        assert(accepted.len() >= es.len());
        if accepted[n - 1] {
            assert(trees[n].contents() == trees[n - 1].contents().insert(es[n - 1]));
            assert(accepted_entries(es, accepted) == rest.push(es.last()));
            assert(rest.push(es.last()).to_multiset() =~= rest.to_multiset().insert(es.last()));
        } else {
            assert(trees[n] == trees[n - 1]);
        }
        law_stored_entries(trees.last());
        assert(trees.last().contents().len() == accepted_entries(es, accepted).to_multiset().len());
    }
}

/// An entry that `insert` accepted is found again by a point query at its
/// position.
pub proof fn law_inserted_entry_is_found(before: QuadTree, after: QuadTree, entry: EntryView)
    requires
        after.wf(),
        after.spec_bounds().spec_contains(entry.pos),
        after.contents() == before.contents().insert(entry),
    ensures
        after.spec_query_point(entry.pos).contains(entry),
{
    law_query_point_finds_entries_at_point(after, entry.pos, entry);
}
} // verus!
