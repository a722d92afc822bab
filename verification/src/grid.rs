use vstd::prelude::*;
use vstd::multiset::Multiset;
use crate::cells::{Cell, CellMap, cell_entries, gather_rect, gather_column, gather_columns};
use crate::entry::{EntryView, SpatialEntry, ref_views};
use crate::coord::Coord;
use crate::ranking::{keep_within, reported_distances, within, law_within_ignores_items, pair_with,
    law_within_keeps_exactly_the_near};

verus! {

/// Simple uniform grid spatial hash: each entry is filed under the one cell
/// that holds its position.
///
/// The cell of a position (its coordinates divided by the cell size, rounded
/// down) is computed by the caller and handed in.
#[derive(Debug)]
pub struct GridHash {
    cells: CellMap,
}

impl View for GridHash {
    type V = Map<Cell, Seq<EntryView>>;

    closed spec fn view(&self) -> Map<Cell, Seq<EntryView>> {
        self.cells@
    }
}

impl Clone for GridHash {
    fn clone(&self) -> (g: Self)
        ensures
            g@ == self@,
            g.spec_len() == self.spec_len(),
    {
        proof {
            use_type_invariant(self);
        }
        GridHash { cells: self.cells.clone() }
    }
}

impl GridHash {
    /// The invariant: the cell map is sound and its entries can be counted in
    /// a `usize`.
    #[verifier::type_invariant]
    spec fn inv(self) -> bool {
        self.cells.wf() && self.cells.total() <= usize::MAX
    }

    /// The number of entries over all cells.
    pub closed spec fn spec_len(self) -> nat {
        self.cells.total()
    }

    pub fn new() -> (g: GridHash)
        ensures
            g@ == Map::<Cell, Seq<EntryView>>::empty(),
            g.spec_len() == 0,
    {
        GridHash { cells: CellMap::new() }
    }

    /// Insert an entry at the end of `cell`, the cell that holds its
    /// position.
    pub fn insert(&mut self, cell: Cell, entry: SpatialEntry)
        requires
            old(self).spec_len() < usize::MAX,
        ensures
            final(self)@ == old(self)@.insert(cell, cell_entries(old(self)@, cell).push(entry@)),
            final(self).spec_len() == old(self).spec_len() + 1,
    {
        proof {
            use_type_invariant(&*self);
        }
        let mut cells = CellMap::new();
        std::mem::swap(&mut cells, &mut self.cells);
        cells.push(cell, entry);
        self.cells = cells;
    }

    /// All entries in a specific cell, in the order they were inserted.
    pub fn query_cell(&self, cell: Cell) -> (found: Vec<&SpatialEntry>)
        ensures
            ref_views(found@) == cell_entries(self@, cell),
    {
        self.cells.get(cell)
    }

    /// The entries of every cell from `lo` to `hi` (both included), column
    /// after column: the candidates of a radius query whose square spans
    /// those cells.
    pub fn query_cells(&self, lo: Cell, hi: Cell) -> (found: Vec<&SpatialEntry>)
        ensures
            ref_views(found@) == gather_rect(self@, lo, hi),
    {
        self.cells.gather(lo, hi)
    }

    /// Query all entries within `radius`: the candidates are those of `query_cells(lo, hi)`, kept
    /// when the distance that `distance` reports for them is at most `radius`
    /// (a NaN distance is never within it). Candidates keep their order.
    pub fn query_radius<F: Fn(&SpatialEntry) -> Coord>(&self, lo: Cell, hi: Cell, radius: Coord, distance: &F) -> (found: Vec<
        &SpatialEntry,
    >)
        requires
            forall|e: &SpatialEntry| call_requires(*distance, (e,)),
        ensures
            exists|candidates: Seq<&SpatialEntry>, ds: Seq<Coord>|
                {
                    &&& ref_views(candidates) == gather_rect(self@, lo, hi)
                    &&& reported_distances(*distance, candidates, ds)
                    &&& found@ == within(pair_with(candidates, ds), radius)
                    &&& ref_views(found@) == within(pair_with(gather_rect(self@, lo, hi), ds), radius)
                },
    {
        let candidates = self.cells.gather(lo, hi);
        let found = keep_within(candidates, distance, radius);
        proof {
            let ds = choose|ds: Seq<Coord>|
                reported_distances(*distance, candidates@, ds) && found@ == within(
                    pair_with(candidates@, ds),
                    radius,
                );
            let f = |e: &SpatialEntry| e@;
            law_within_ignores_items(candidates@, ds, radius, f);
            assert(ref_views(candidates@) =~= candidates@.map_values(f));
            assert(ref_views(found@) =~= found@.map_values(f));
        }
        found
    }

    /// Total number of entries across all cells.
    pub fn len(&self) -> (n: usize)
        ensures
            n == self.spec_len(),
    {
        proof {
            use_type_invariant(self);
        }
        self.cells.len()
    }

    /// Whether every cell is empty.
    pub fn is_empty(&self) -> (empty: bool)
        ensures
            empty == (self.spec_len() == 0),
            empty == (forall|c: Cell| #[trigger] self@.contains_key(c) ==> self@[c].len() == 0),
    {
        proof {
            use_type_invariant(self);
        }
        assert(self@ == self.cells@);
        self.cells.is_empty()
    }
}

/// Whether cell `c` lies in the rectangle of cells from `lo` to `hi`.
pub open spec fn in_rect(c: Cell, lo: Cell, hi: Cell) -> bool {
    lo.0 <= c.0 <= hi.0 && lo.1 <= c.1 <= hi.1
}

proof fn lemma_column_covers(m: Map<Cell, Seq<EntryView>>, x: int, y_lo: int, y_hi: int, c: Cell, k: int)
    requires
        c.0 == x,
        y_lo <= c.1 <= y_hi,
        0 <= k < cell_entries(m, c).len(),
    ensures
        gather_column(m, x, y_lo, y_hi).contains(cell_entries(m, c)[k]),
    decreases y_hi - y_lo + 1,
{
    let rest = gather_column(m, x, y_lo, y_hi - 1);
    let here = cell_entries(m, (x as i32, y_hi as i32));
    if c.1 == y_hi {
        assert((x as i32, y_hi as i32) == c);
        assert((rest + here)[rest.len() + k] == here[k]);
    } else {
        lemma_column_covers(m, x, y_lo, y_hi - 1, c, k);
        let t = choose|t: int| 0 <= t < rest.len() && rest[t] == cell_entries(m, c)[k];
        assert((rest + here)[t] == rest[t]);
    }
}

proof fn lemma_columns_cover(
    m: Map<Cell, Seq<EntryView>>,
    x_lo: int,
    x_hi: int,
    y_lo: int,
    y_hi: int,
    c: Cell,
    k: int,
)
    requires
        x_lo <= c.0 <= x_hi,
        y_lo <= c.1 <= y_hi,
        0 <= k < cell_entries(m, c).len(),
    ensures
        gather_columns(m, x_lo, x_hi, y_lo, y_hi).contains(cell_entries(m, c)[k]),
    decreases x_hi - x_lo + 1,
{
    let rest = gather_columns(m, x_lo, x_hi - 1, y_lo, y_hi);
    let here = gather_column(m, x_hi, y_lo, y_hi);
    if c.0 == x_hi {
        lemma_column_covers(m, x_hi, y_lo, y_hi, c, k);
        let t = choose|t: int| 0 <= t < here.len() && here[t] == cell_entries(m, c)[k];
        assert((rest + here)[rest.len() + t] == here[t]);
    } else {
        lemma_columns_cover(m, x_lo, x_hi - 1, y_lo, y_hi, c, k);
        let t = choose|t: int| 0 <= t < rest.len() && rest[t] == cell_entries(m, c)[k];
        assert((rest + here)[t] == rest[t]);
    }
}

/// Gathering the cells of a rectangle misses no entry of any of those cells.
pub proof fn law_gather_covers(m: Map<Cell, Seq<EntryView>>, lo: Cell, hi: Cell, c: Cell, k: int)
    requires
        in_rect(c, lo, hi),
        0 <= k < cell_entries(m, c).len(),
    ensures
        gather_rect(m, lo, hi).contains(cell_entries(m, c)[k]),
{
    lemma_columns_cover(m, lo.0 as int, hi.0 as int, lo.1 as int, hi.1 as int, c, k);
}

proof fn lemma_column_sound(m: Map<Cell, Seq<EntryView>>, x: int, y_lo: int, y_hi: int, e: EntryView)
    requires
        gather_column(m, x, y_lo, y_hi).contains(e),
    ensures
        exists|y: int, k: int|
            y_lo <= y <= y_hi && 0 <= k < cell_entries(m, (x as i32, y as i32)).len()
                && #[trigger] cell_entries(m, (x as i32, y as i32))[k] == e,
    decreases y_hi - y_lo + 1,
{
    let rest = gather_column(m, x, y_lo, y_hi - 1);
    let here = cell_entries(m, (x as i32, y_hi as i32));
    let t = choose|t: int| 0 <= t < (rest + here).len() && (rest + here)[t] == e;
    if t < rest.len() {
        assert(rest[t] == e);
        lemma_column_sound(m, x, y_lo, y_hi - 1, e);
    } else {
        assert(here[t - rest.len()] == e);
    }
}

proof fn lemma_columns_sound(
    m: Map<Cell, Seq<EntryView>>,
    x_lo: int,
    x_hi: int,
    y_lo: int,
    y_hi: int,
    e: EntryView,
)
    requires
        gather_columns(m, x_lo, x_hi, y_lo, y_hi).contains(e),
    ensures
        exists|x: int, y: int, k: int|
            x_lo <= x <= x_hi && y_lo <= y <= y_hi && 0 <= k < cell_entries(m, (x as i32, y as i32)).len()
                && #[trigger] cell_entries(m, (x as i32, y as i32))[k] == e,
    decreases x_hi - x_lo + 1,
{
    let rest = gather_columns(m, x_lo, x_hi - 1, y_lo, y_hi);
    let here = gather_column(m, x_hi, y_lo, y_hi);
    let t = choose|t: int| 0 <= t < (rest + here).len() && (rest + here)[t] == e;
    if t < rest.len() {
        assert(rest[t] == e);
        lemma_columns_sound(m, x_lo, x_hi - 1, y_lo, y_hi, e);
    } else {
        assert(here[t - rest.len()] == e);
        lemma_column_sound(m, x_hi, y_lo, y_hi, e);
    }
}

/// Gathering the cells of a rectangle yields only entries of those cells.
pub proof fn law_gather_sound(m: Map<Cell, Seq<EntryView>>, lo: Cell, hi: Cell, e: EntryView)
    requires
        gather_rect(m, lo, hi).contains(e),
    ensures
        exists|c: Cell, k: int|
            in_rect(c, lo, hi) && 0 <= k < cell_entries(m, c).len() && #[trigger] cell_entries(m, c)[k] == e,
{
    lemma_columns_sound(m, lo.0 as int, hi.0 as int, lo.1 as int, hi.1 as int, e);
    let (x, y, k) = choose|x: int, y: int, k: int|
        lo.0 <= x <= hi.0 && lo.1 <= y <= hi.1 && 0 <= k < cell_entries(m, (x as i32, y as i32)).len()
            && #[trigger] cell_entries(m, (x as i32, y as i32))[k] == e;
    let c: Cell = (x as i32, y as i32);
    assert(c.0 == x && c.1 == y);
    assert(in_rect(c, lo, hi) && cell_entries(m, c)[k] == e);
}

/// A radius query reports only entries of the searched cells that were
/// reported within the radius at some candidate position.
pub proof fn law_query_radius_sound(
    m: Map<Cell, Seq<EntryView>>,
    lo: Cell,
    hi: Cell,
    ds: Seq<Coord>,
    radius: Coord,
    e: EntryView,
)
    requires
        ds.len() == gather_rect(m, lo, hi).len(),
        within(pair_with(gather_rect(m, lo, hi), ds), radius).contains(e),
    ensures
        exists|c: Cell, k: int|
            in_rect(c, lo, hi) && 0 <= k < cell_entries(m, c).len() && #[trigger] cell_entries(m, c)[k] == e,
        exists|i: int| 0 <= i < ds.len() && #[trigger] gather_rect(m, lo, hi)[i] == e && ds[i].spec_le(radius),
{
    let g = gather_rect(m, lo, hi);
    law_within_keeps_exactly_the_near(pair_with(g, ds), radius, e);
    let i = choose|i: int| 0 <= i < pair_with(g, ds).len() && #[trigger] pair_with(g, ds)[i].0 == e && pair_with(
        g,
        ds,
    )[i].1.spec_le(radius);
    assert(g[i] == e);
    law_gather_sound(m, lo, hi, e);
}

/// The entries of the cells `(x, y)` with `y` in `y_lo..=y_hi`, with
/// multiplicity.
pub open spec fn column_bag(m: Map<Cell, Seq<EntryView>>, x: int, y_lo: int, y_hi: int) -> Multiset<
    EntryView,
>
    decreases y_hi - y_lo + 1,
{
    if y_hi < y_lo {
        Multiset::empty()
    } else {
        column_bag(m, x, y_lo, y_hi - 1).add(cell_entries(m, (x as i32, y_hi as i32)).to_multiset())
    }
}

/// The entries of the cells with column in `x_lo..=x_hi` and row in
/// `y_lo..=y_hi`, with multiplicity: the sum of the cells' entries over the
/// rectangle.
pub open spec fn rect_bag(m: Map<Cell, Seq<EntryView>>, x_lo: int, x_hi: int, y_lo: int, y_hi: int) -> Multiset<
    EntryView,
>
    decreases x_hi - x_lo + 1,
{
    if x_hi < x_lo {
        Multiset::empty()
    } else {
        rect_bag(m, x_lo, x_hi - 1, y_lo, y_hi).add(column_bag(m, x_hi, y_lo, y_hi))
    }
}

proof fn lemma_column_bag(m: Map<Cell, Seq<EntryView>>, x: int, y_lo: int, y_hi: int)
    ensures
        gather_column(m, x, y_lo, y_hi).to_multiset() == column_bag(m, x, y_lo, y_hi),
    decreases y_hi - y_lo + 1,
{
    broadcast use vstd::seq_lib::lemma_multiset_commutative;

    if y_hi < y_lo {
        let g = gather_column(m, x, y_lo, y_hi);
        g.to_multiset_ensures();
        vstd::multiset::lemma_multiset_empty_len(g.to_multiset());
    } else {
        lemma_column_bag(m, x, y_lo, y_hi - 1);
    }
}

proof fn lemma_rect_bag(m: Map<Cell, Seq<EntryView>>, x_lo: int, x_hi: int, y_lo: int, y_hi: int)
    ensures
        gather_columns(m, x_lo, x_hi, y_lo, y_hi).to_multiset() == rect_bag(m, x_lo, x_hi, y_lo, y_hi),
    decreases x_hi - x_lo + 1,
{
    broadcast use vstd::seq_lib::lemma_multiset_commutative;

    if x_hi < x_lo {
        let g = gather_columns(m, x_lo, x_hi, y_lo, y_hi);
        g.to_multiset_ensures();
        vstd::multiset::lemma_multiset_empty_len(g.to_multiset());
    } else {
        lemma_rect_bag(m, x_lo, x_hi - 1, y_lo, y_hi);
        lemma_column_bag(m, x_hi, y_lo, y_hi);
    }
}

/// Gathering the cells from `lo` to `hi` yields each entry of those cells
/// exactly as often as the cells hold it: the gathered entries, counted with
/// multiplicity, are the sum of the cells' entries over the rectangle. So no
/// cell is visited twice, and a radius query reports an entry no more often
/// than the searched cells hold it.
pub proof fn law_gather_counts_each_cell_once(m: Map<Cell, Seq<EntryView>>, lo: Cell, hi: Cell)
    ensures
        gather_rect(m, lo, hi).to_multiset() == rect_bag(m, lo.0 as int, hi.0 as int, lo.1 as int, hi.1 as int),
{
    lemma_rect_bag(m, lo.0 as int, hi.0 as int, lo.1 as int, hi.1 as int);
}

/// A radius query misses no entry of the searched cells whose reported
/// distance is within the radius: with `ds` the distances reported for the
/// candidates (the entries of the cells from `lo` to `hi`), every entry of
/// those cells reported within the radius is in the result. The caller's
/// cells are those of the square around the circle, so that they hold every
/// entry within the radius.
pub proof fn law_query_radius_complete(
    m: Map<Cell, Seq<EntryView>>,
    lo: Cell,
    hi: Cell,
    ds: Seq<Coord>,
    radius: Coord,
    c: Cell,
    k: int,
)
    requires
        ds.len() == gather_rect(m, lo, hi).len(),
        in_rect(c, lo, hi),
        0 <= k < cell_entries(m, c).len(),
        forall|i: int|
            0 <= i < ds.len() && #[trigger] gather_rect(m, lo, hi)[i] == cell_entries(m, c)[k]
                ==> ds[i].spec_le(radius),
    ensures
        within(pair_with(gather_rect(m, lo, hi), ds), radius).contains(cell_entries(m, c)[k]),
{
    let g = gather_rect(m, lo, hi);
    let e = cell_entries(m, c)[k];
    law_gather_covers(m, lo, hi, c, k);
    let i = choose|i: int| 0 <= i < g.len() && g[i] == e;
    assert(pair_with(g, ds)[i].0 == e);
    law_within_keeps_exactly_the_near(pair_with(g, ds), radius, e);
}

} // verus!
