use vstd::prelude::*;
use std::collections::HashSet;
use crate::cells::{Cell, CellMap, cell_entries, gather_rect, stored_ids};
use crate::entry::{EntryView, SpatialEntry, ref_views};
use crate::geometry::AABB;
use crate::coord::Coord;
use crate::ranking::{keep_within, reported_distances, within, law_within_ignores_items, pair_with,
    law_within_keeps_exactly_the_near};
use crate::grid::{in_rect, law_gather_covers};

verus! {

broadcast use vstd::std_specs::hash::group_hash_axioms;

/// `m` with `e` appended to every cell from `lo` to `hi`.
pub open spec fn spread(m: Map<Cell, Seq<EntryView>>, e: EntryView, lo: Cell, hi: Cell) -> Map<
    Cell,
    Seq<EntryView>,
> {
    Map::new(
        |c: Cell| m.contains_key(c) || in_rect(c, lo, hi),
        |c: Cell|
            if in_rect(c, lo, hi) {
                cell_entries(m, c).push(e)
            } else {
                m[c]
            },
    )
}

/// Whether the insertion loop has reached cell `c` when it stands at column
/// `x`, row `y`.
spec fn passed(c: Cell, lo: Cell, hi: Cell, x: int, y: int) -> bool {
    in_rect(c, lo, hi) && (c.0 < x || (c.0 == x && c.1 < y))
}

/// `m` with `e` appended to the cells the insertion loop has passed.
spec fn spread_until(
    m: Map<Cell, Seq<EntryView>>,
    e: EntryView,
    lo: Cell,
    hi: Cell,
    x: int,
    y: int,
) -> Map<Cell, Seq<EntryView>> {
    Map::new(
        |c: Cell| m.contains_key(c) || passed(c, lo, hi, x, y),
        |c: Cell|
            if passed(c, lo, hi, x, y) {
                cell_entries(m, c).push(e)
            } else {
                m[c]
            },
    )
}

/// The ids that occur in `s`.
pub open spec fn ids_of(s: Seq<EntryView>) -> Set<u64> {
    Set::new(|id: u64| exists|j: int| 0 <= j < s.len() && #[trigger] s[j].id == id)
}

/// The entries of `s` that a range query reports: each entry whose bounds meet
/// the range, unless an entry with the same id was already reported.
pub open spec fn first_hits(s: Seq<EntryView>, range: AABB) -> Seq<EntryView>
    decreases s.len(),
{
    if s.len() == 0 {
        seq![]
    } else {
        let rest = first_hits(s.drop_last(), range);
        if range.spec_intersects(s.last().bounds) && !ids_of(rest).contains(s.last().id) {
            rest.push(s.last())
        } else {
            rest
        }
    }
}

/// Grid-based spatial hash with support for entry sizes: an entry is filed
/// under every cell that its bounds cover.
///
/// The cells of a box's corners (coordinates divided by the cell size,
/// rounded down) are computed by the caller and handed in.
#[derive(Debug)]
pub struct SpatialHash {
    cells: CellMap,
}

impl View for SpatialHash {
    type V = Map<Cell, Seq<EntryView>>;

    closed spec fn view(&self) -> Map<Cell, Seq<EntryView>> {
        self.cells@
    }
}

impl Clone for SpatialHash {
    fn clone(&self) -> (h: Self)
        ensures
            h@ == self@,
    {
        proof {
            use_type_invariant(self);
        }
        SpatialHash { cells: self.cells.clone() }
    }
}

impl SpatialHash {
    /// The invariant: the cell map is sound.
    #[verifier::type_invariant]
    spec fn inv(self) -> bool {
        self.cells.wf()
    }

    pub fn new() -> (h: SpatialHash)
        ensures
            h@ == Map::<Cell, Seq<EntryView>>::empty(),
    {
        SpatialHash { cells: CellMap::new() }
    }

    /// Insert an entry into every cell from `lo` to `hi`, the cells of its
    /// bounds' corners, column after column.
    pub fn insert(&mut self, entry: SpatialEntry, lo: Cell, hi: Cell)
        ensures
            final(self)@ == spread(old(self)@, entry@, lo, hi),
            stored_ids(final(self)@) == if in_rect(lo, lo, hi) {
                stored_ids(old(self)@).insert(entry.id)
            } else {
                stored_ids(old(self)@)
            },
            stored_ids(final(self)@).len() == stored_ids(old(self)@).len() + if in_rect(lo, lo, hi)
                && !stored_ids(old(self)@).contains(entry.id) {
                1int
            } else {
                0int
            },
    {
        proof {
            use_type_invariant(&*self);
            self.cells.lemma_ids_finite();
        }
        let ghost m0 = self@;
        let ghost ev = entry@;
        let mut cells = CellMap::new();
        std::mem::swap(&mut cells, &mut self.cells);
        let x_hi: i64 = hi.0 as i64;
        let y_hi: i64 = hi.1 as i64;
        let mut x: i64 = lo.0 as i64;
        assert(cells@ =~= spread_until(m0, ev, lo, hi, x as int, lo.1 as int));
        while x <= x_hi
            invariant
                cells.wf(),
                entry@ == ev,
                lo.0 <= x,
                x <= x_hi + 1 || x == lo.0,
                x_hi == hi.0,
                y_hi == hi.1,
                cells@ == spread_until(m0, ev, lo, hi, x as int, lo.1 as int),
            decreases x_hi - x + 1,
        {
            let mut y: i64 = lo.1 as i64;
            while y <= y_hi
                invariant
                    cells.wf(),
                    entry@ == ev,
                    lo.1 <= y,
                    y <= y_hi + 1 || y == lo.1,
                    lo.0 <= x <= x_hi,
                    x_hi == hi.0,
                    y_hi == hi.1,
                    cells@ == spread_until(m0, ev, lo, hi, x as int, y as int),
                decreases y_hi - y + 1,
            {
                let c: Cell = (x as i32, y as i32);
                let copy = entry.clone();
                let ghost before = cells@;
                cells.push(c, copy);
                assert(cell_entries(before, c) == cell_entries(m0, c));
                assert(cells@ =~= spread_until(m0, ev, lo, hi, x as int, y + 1));
                y = y + 1;
            }
            assert(cells@ =~= spread_until(m0, ev, lo, hi, x + 1, lo.1 as int));
            x = x + 1;
        }
        self.cells = cells;
        assert(self@ =~= spread(m0, ev, lo, hi));
        proof {
            if in_rect(lo, lo, hi) {
                law_insert_adds_id(m0, ev, lo, hi);
            } else {
                assert(self@ =~= m0);
            }
        }
    }

    /// All entries in a specific cell, in the order they were inserted.
    pub fn query_cell(&self, cell: Cell) -> (found: Vec<&SpatialEntry>)
        ensures
            ref_views(found@) == cell_entries(self@, cell),
    {
        self.cells.get(cell)
    }

    /// Query all entries whose bounds intersect `range`, looking in the cells
    /// from `lo` to `hi` (those of the range's corners); an entry filed in
    /// several of them is reported once: after an entry is reported, others
    /// with its id are not.
    pub fn query_range(&self, range: AABB, lo: Cell, hi: Cell) -> (found: Vec<&SpatialEntry>)
        ensures
            ref_views(found@) == first_hits(gather_rect(self@, lo, hi), range),
    {
        let all = self.cells.gather(lo, hi);
        let ghost s = ref_views(all@);
        let mut seen: HashSet<u64> = HashSet::new();
        let mut found: Vec<&SpatialEntry> = Vec::new();
        let mut i: usize = 0;
        assert(seen@ =~= ids_of(ref_views(found@)));
        assert(ref_views(found@) =~= first_hits(s.take(0), range));
        while i < all.len()
            invariant
                i <= all.len(),
                s == ref_views(all@),
                seen@ == ids_of(ref_views(found@)),
                ref_views(found@) == first_hits(s.take(i as int), range),
            decreases all.len() - i,
        {
            let e = all[i];
            let ghost before = ref_views(found@);
            assert(s.take(i + 1).drop_last() =~= s.take(i as int));
            assert(s.take(i + 1).last() == e@);
            if range.intersects(&e.bounds) && seen.insert(e.id) {
                found.push(e);
                assert(ref_views(found@) =~= before.push(e@));
                assert(seen@ =~= ids_of(ref_views(found@))) by {
                    assert forall|id: u64| #[trigger] seen@.contains(id) == ids_of(ref_views(found@)).contains(id) by {
                        if id == e.id {
                            assert(ref_views(found@)[before.len() as int].id == id);
                        }
                        if ids_of(ref_views(found@)).contains(id) {
                            let j = choose|j: int| 0 <= j < ref_views(found@).len() && #[trigger] ref_views(found@)[j].id == id;
                            if j < before.len() {
                                assert(before[j].id == id);
                            }
                        }
                        if ids_of(before).contains(id) {
                            let j = choose|j: int| 0 <= j < before.len() && #[trigger] before[j].id == id;
                            assert(ref_views(found@)[j].id == id);
                        }
                    }
                }
            }
            i = i + 1;
        }
        assert(s.take(i as int) =~= s);
        found
    }

    /// Query all entries within `radius`: the candidates are those of `query_range(range, lo, hi)`, kept
    /// when the distance that `distance` reports for them is at most `radius`
    /// (a NaN distance is never within it). Candidates keep their order.
    pub fn query_radius<F: Fn(&SpatialEntry) -> Coord>(&self, range: AABB, lo: Cell, hi: Cell, radius: Coord, distance: &F) -> (found: Vec<
        &SpatialEntry,
    >)
        requires
            forall|e: &SpatialEntry| call_requires(*distance, (e,)),
        ensures
            exists|candidates: Seq<&SpatialEntry>, ds: Seq<Coord>|
                {
                    &&& ref_views(candidates) == first_hits(gather_rect(self@, lo, hi), range)
                    &&& reported_distances(*distance, candidates, ds)
                    &&& found@ == within(pair_with(candidates, ds), radius)
                    &&& ref_views(found@) == within(pair_with(first_hits(gather_rect(self@, lo, hi), range), ds), radius)
                },
    {
        let candidates = self.query_range(range, lo, hi);
        let found = keep_within(candidates, distance, radius);
        proof {
            let ds = choose|ds: Seq<Coord>|
                reported_distances(*distance, candidates@, ds) && found@ == within(
                    pair_with(candidates@, ds),
                    radius,
                );
            let f = |e: &SpatialEntry| e@;
            law_within_ignores_items(candidates@, ds, radius, f);
            assert(ref_views(candidates@) =~= candidates@.map_values(f));
            assert(ref_views(found@) =~= found@.map_values(f));
        }
        found
    }

    /// The number of distinct ids among the stored entries: an entry filed in
    /// several cells counts once.
    pub fn len(&self) -> (n: usize)
        ensures
            n == stored_ids(self@).len(),
    {
        proof {
            use_type_invariant(self);
        }
        self.cells.distinct_ids()
    }

    /// Whether every cell is empty.
    pub fn is_empty(&self) -> (empty: bool)
        ensures
            empty == (forall|c: Cell| #[trigger] self@.contains_key(c) ==> self@[c].len() == 0),
    {
        proof {
            use_type_invariant(self);
        }
        assert(self@ == self.cells@);
        self.cells.is_empty()
    }
}

/// A range query reports only entries of the gathered cells whose bounds meet
/// the range.
pub proof fn law_query_range_sound(s: Seq<EntryView>, range: AABB, e: EntryView)
    requires
        first_hits(s, range).contains(e),
    ensures
        s.contains(e),
        range.spec_intersects(e.bounds),
    decreases s.len(),
{
    if s.len() > 0 {
        let rest = first_hits(s.drop_last(), range);
        if rest.contains(e) {
            law_query_range_sound(s.drop_last(), range, e);
            let j = choose|j: int| 0 <= j < s.drop_last().len() && s.drop_last()[j] == e;
            assert(s[j] == e);
        } else {
            let r = first_hits(s, range);
            let j = choose|j: int| 0 <= j < r.len() && r[j] == e;
            assert(j == r.len() - 1);
            assert(s[s.len() - 1] == e);
        }
    }
}

/// A range query reports each id at most once.
pub proof fn law_query_range_distinct_ids(s: Seq<EntryView>, range: AABB)
    ensures
        forall|i: int, j: int|
            0 <= i < j < first_hits(s, range).len() ==> #[trigger] first_hits(s, range)[i].id
                != #[trigger] first_hits(s, range)[j].id,
    decreases s.len(),
{
    if s.len() > 0 {
        let rest = first_hits(s.drop_last(), range);
        law_query_range_distinct_ids(s.drop_last(), range);
        let r = first_hits(s, range);
        if r.len() > rest.len() {
            assert forall|i: int, j: int| 0 <= i < j < r.len() implies #[trigger] r[i].id
                != #[trigger] r[j].id by {
                if j == r.len() - 1 {
                    assert(r[i] == rest[i]);
                    if r[i].id == r[j].id {
                        assert(ids_of(rest).contains(s.last().id));
                    }
                } else {
                    assert(r[i] == rest[i] && r[j] == rest[j]);
                }
            }
        }
    }
}

/// Every id of a gathered entry whose bounds meet the range is reported.
pub proof fn law_query_range_reports_every_id(s: Seq<EntryView>, range: AABB, e: EntryView)
    requires
        s.contains(e),
        range.spec_intersects(e.bounds),
    ensures
        ids_of(first_hits(s, range)).contains(e.id),
    decreases s.len(),
{
    let d = s.drop_last();
    let rest = first_hits(d, range);
    let r = first_hits(s, range);
    if d.contains(e) {
        law_query_range_reports_every_id(d, range, e);
        let t = choose|t: int| 0 <= t < rest.len() && #[trigger] rest[t].id == e.id;
        assert(r[t] == rest[t]);
    } else {
        assert(s.last() == e) by {
            let t = choose|t: int| 0 <= t < s.len() && s[t] == e;
            if t < s.len() - 1 {
                assert(d[t] == e);
            }
        }
        if ids_of(rest).contains(e.id) {
            let t = choose|t: int| 0 <= t < rest.len() && #[trigger] rest[t].id == e.id;
            assert(r[t] == rest[t]);
        } else {
            assert(r[r.len() - 1].id == e.id);
        }
    }
}

/// Whether entries of `s` with equal ids are equal: an id names one entry,
/// as when every occurrence is a copy made by `insert`.
pub open spec fn ids_name_entries(s: Seq<EntryView>) -> bool {
    forall|i: int, j: int| 0 <= i < s.len() && 0 <= j < s.len() && #[trigger] s[i].id == #[trigger] s[j].id ==> s[i] == s[j]
}

/// When ids name entries, a range query reports every gathered entry whose
/// bounds meet the range.
pub proof fn law_query_range_complete(s: Seq<EntryView>, range: AABB, e: EntryView)
    requires
        ids_name_entries(s),
        s.contains(e),
        range.spec_intersects(e.bounds),
    ensures
        first_hits(s, range).contains(e),
{
    law_query_range_reports_every_id(s, range, e);
    let r = first_hits(s, range);
    let t = choose|t: int| 0 <= t < r.len() && #[trigger] r[t].id == e.id;
    assert(r.contains(r[t]));
    law_query_range_sound(s, range, r[t]);
    let a = choose|a: int| 0 <= a < s.len() && s[a] == r[t];
    let b = choose|b: int| 0 <= b < s.len() && s[b] == e;
    assert(s[a].id == s[b].id);
}

/// When ids name entries, a range query reports exactly the gathered entries
/// whose bounds meet the range, and each of them once, though an entry is
/// filed in every cell it covers.
pub proof fn law_query_range_exact(s: Seq<EntryView>, range: AABB, e: EntryView)
    requires
        ids_name_entries(s),
    ensures
        first_hits(s, range).contains(e) <==> s.contains(e) && range.spec_intersects(e.bounds),
        first_hits(s, range).no_duplicates(),
{
    let r = first_hits(s, range);
    if r.contains(e) {
        law_query_range_sound(s, range, e);
    }
    if s.contains(e) && range.spec_intersects(e.bounds) {
        law_query_range_complete(s, range, e);
    }
    law_query_range_distinct_ids(s, range);
    assert forall|i: int, j: int| 0 <= i < r.len() && 0 <= j < r.len() && i != j implies r[i] != r[j] by {
        if i < j {
            assert(r[i].id != r[j].id);
        } else {
            assert(r[j].id != r[i].id);
        }
    }
}

/// When ids name entries, a radius query misses no gathered entry whose
/// bounds meet the search range and whose reported distance is within the
/// radius: with `ds` the distances reported for the candidates (the result of
/// the range query), every such entry is in the result.
pub proof fn law_query_radius_complete(s: Seq<EntryView>, range: AABB, ds: Seq<Coord>, radius: Coord, e: EntryView)
    requires
        ids_name_entries(s),
        ds.len() == first_hits(s, range).len(),
        s.contains(e),
        range.spec_intersects(e.bounds),
        forall|i: int| 0 <= i < ds.len() && #[trigger] first_hits(s, range)[i] == e ==> ds[i].spec_le(radius),
    ensures
        within(pair_with(first_hits(s, range), ds), radius).contains(e),
{
    let r = first_hits(s, range);
    law_query_range_complete(s, range, e);
    let i = choose|i: int| 0 <= i < r.len() && r[i] == e;
    assert(pair_with(r, ds)[i].0 == e);
    law_within_keeps_exactly_the_near(pair_with(r, ds), radius, e);
}

/// A radius query reports only gathered entries whose bounds meet the search
/// range and that were reported within the radius.
pub proof fn law_query_radius_sound(s: Seq<EntryView>, range: AABB, ds: Seq<Coord>, radius: Coord, e: EntryView)
    requires
        ds.len() == first_hits(s, range).len(),
        within(pair_with(first_hits(s, range), ds), radius).contains(e),
    ensures
        s.contains(e),
        range.spec_intersects(e.bounds),
        exists|i: int| 0 <= i < ds.len() && #[trigger] first_hits(s, range)[i] == e && ds[i].spec_le(radius),
{
    let r = first_hits(s, range);
    law_within_keeps_exactly_the_near(pair_with(r, ds), radius, e);
    let i = choose|i: int| 0 <= i < pair_with(r, ds).len() && #[trigger] pair_with(r, ds)[i].0 == e && pair_with(
        r,
        ds,
    )[i].1.spec_le(radius);
    assert(r[i] == e);
    law_query_range_sound(s, range, e);
}

/// Insertion files the entry at the end of every cell with column in
/// `lo.0..=hi.0` and row in `lo.1..=hi.1`, and leaves every other cell as it
/// was.
pub proof fn law_insert_files_exactly_the_covered_cells(
    m: Map<Cell, Seq<EntryView>>,
    e: EntryView,
    lo: Cell,
    hi: Cell,
    c: Cell,
)
    ensures
        cell_entries(spread(m, e, lo, hi), c) == if lo.0 <= c.0 <= hi.0 && lo.1 <= c.1 <= hi.1 {
            cell_entries(m, c).push(e)
        } else {
            cell_entries(m, c)
        },
{
}

/// Inserting an entry that covers at least one cell adds its id to the ids
/// that the hash holds, and no other.
pub proof fn law_insert_adds_id(m: Map<Cell, Seq<EntryView>>, e: EntryView, lo: Cell, hi: Cell)
    requires
        in_rect(lo, lo, hi),
    ensures
        stored_ids(spread(m, e, lo, hi)) == stored_ids(m).insert(e.id),
{
    let n = spread(m, e, lo, hi);
    assert forall|id: u64| #[trigger] stored_ids(n).contains(id) == stored_ids(m).insert(e.id).contains(id) by {
        if stored_ids(n).contains(id) {
            let (c, k) = choose|c: Cell, k: int| n.contains_key(c) && 0 <= k < n[c].len() && #[trigger] n[c][k].id == id;
            if in_rect(c, lo, hi) && k == cell_entries(m, c).len() {
                assert(id == e.id);
            } else {
                assert(m.contains_key(c));
                assert(m[c][k].id == id);
            }
        }
        if stored_ids(m).contains(id) {
            let (c, k) = choose|c: Cell, k: int| m.contains_key(c) && 0 <= k < m[c].len() && #[trigger] m[c][k].id == id;
            assert(n[c][k].id == id);
        }
        if id == e.id {
            let k = cell_entries(m, lo).len() as int;
            assert(n[lo][k].id == id);
        }
    }
    assert(stored_ids(n) =~= stored_ids(m).insert(e.id));
}

/// After an insertion, a range query over cells that share a cell `c` with the
/// inserted entry's cells, with a range that meets the entry's bounds, reports
/// the entry, provided ids name entries among the cells it looks at.
pub proof fn law_inserted_entry_is_found(
    m: Map<Cell, Seq<EntryView>>,
    e: EntryView,
    lo: Cell,
    hi: Cell,
    query_lo: Cell,
    query_hi: Cell,
    range: AABB,
    c: Cell,
)
    requires
        in_rect(c, lo, hi),
        in_rect(c, query_lo, query_hi),
        range.spec_intersects(e.bounds),
        ids_name_entries(gather_rect(spread(m, e, lo, hi), query_lo, query_hi)),
    ensures
        first_hits(gather_rect(spread(m, e, lo, hi), query_lo, query_hi), range).contains(e),
{
    let n = spread(m, e, lo, hi);
    let k = cell_entries(m, c).len() as int;
    assert(cell_entries(n, c)[k] == e);
    law_gather_covers(n, query_lo, query_hi, c, k);
    law_query_range_complete(gather_rect(n, query_lo, query_hi), range, e);
}

} // verus!
