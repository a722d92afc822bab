use vstd::prelude::*;
use std::collections::HashMap;
use crate::entry::{EntryView, SpatialEntry, entry_views, ref_views};

verus! {

broadcast use vstd::std_specs::hash::group_hash_axioms;

/// A grid cell, by its column and row.
pub type Cell = (i32, i32);

/// Offset that maps an `i32` onto `0..2^32`.
pub const HALF_RANGE: u64 = 0x8000_0000;

/// The number of distinct values of an `i32`.
pub const FULL_RANGE: u64 = 0x1_0000_0000;

/// The key under which a cell is filed: column and row each shifted to be
/// non-negative, the column in the high half.
pub open spec fn cell_key(c: Cell) -> u64 {
    ((c.0 + HALF_RANGE) * FULL_RANGE + (c.1 + HALF_RANGE)) as u64
}

/// Distinct cells have distinct keys.
pub proof fn lemma_cell_key_injective(a: Cell, b: Cell)
    ensures
        cell_key(a) == cell_key(b) ==> a == b,
{
    let xa = a.0 + HALF_RANGE;
    let ya = a.1 + HALF_RANGE;
    let xb = b.0 + HALF_RANGE;
    let yb = b.1 + HALF_RANGE;
    assert(0 <= xa * FULL_RANGE + ya < 0x1_0000_0000_0000_0000) by (nonlinear_arith)
        requires
            0 <= xa < FULL_RANGE,
            0 <= ya < FULL_RANGE,
    ;
    assert(0 <= xb * FULL_RANGE + yb < 0x1_0000_0000_0000_0000) by (nonlinear_arith)
        requires
            0 <= xb < FULL_RANGE,
            0 <= yb < FULL_RANGE,
    ;
    if cell_key(a) == cell_key(b) {
        assert(xa == xb && ya == yb) by (nonlinear_arith)
            requires
                xa * FULL_RANGE + ya == xb * FULL_RANGE + yb,
                0 <= ya < FULL_RANGE,
                0 <= yb < FULL_RANGE,
                0 <= xa,
                0 <= xb,
        ;
    }
}

fn key_of(c: Cell) -> (k: u64)
    ensures
        k == cell_key(c),
{
    let x: u64 = (c.0 as i64 + HALF_RANGE as i64) as u64;
    let y: u64 = (c.1 as i64 + HALF_RANGE as i64) as u64;
    assert(x * FULL_RANGE + y < 0x1_0000_0000_0000_0000) by (nonlinear_arith)
        requires
            x < FULL_RANGE,
            y < FULL_RANGE,
    ;
    x * FULL_RANGE + y
}

/// The entries filed under `c`, none if the cell was never filled.
pub open spec fn cell_entries(m: Map<Cell, Seq<EntryView>>, c: Cell) -> Seq<EntryView> {
    if m.contains_key(c) {
        m[c]
    } else {
        seq![]
    }
}

/// The entries of the cells `(x, y_lo)` up to `(x, y_hi)`, cell after cell.
pub open spec fn gather_column(m: Map<Cell, Seq<EntryView>>, x: int, y_lo: int, y_hi: int) -> Seq<
    EntryView,
>
    decreases y_hi - y_lo + 1,
{
    if y_hi < y_lo {
        seq![]
    } else {
        gather_column(m, x, y_lo, y_hi - 1) + cell_entries(m, (x as i32, y_hi as i32))
    }
}

/// The entries of the cells with column in `x_lo..=x_hi` and row in
/// `y_lo..=y_hi`, column after column, each column from its lowest row up.
pub open spec fn gather_columns(
    m: Map<Cell, Seq<EntryView>>,
    x_lo: int,
    x_hi: int,
    y_lo: int,
    y_hi: int,
) -> Seq<EntryView>
    decreases x_hi - x_lo + 1,
{
    if x_hi < x_lo {
        seq![]
    } else {
        gather_columns(m, x_lo, x_hi - 1, y_lo, y_hi) + gather_column(m, x_hi, y_lo, y_hi)
    }
}

/// The entries of every cell from `lo` to `hi`, both corners included.
pub open spec fn gather_rect(m: Map<Cell, Seq<EntryView>>, lo: Cell, hi: Cell) -> Seq<EntryView> {
    gather_columns(m, lo.0 as int, hi.0 as int, lo.1 as int, hi.1 as int)
}

/// The number of entries in the cells `cs`.
pub open spec fn count_in(m: Map<Cell, Seq<EntryView>>, cs: Seq<Cell>) -> nat
    decreases cs.len(),
{
    if cs.len() == 0 {
        0
    } else {
        count_in(m, cs.drop_last()) + cell_entries(m, cs.last()).len()
    }
}

/// The ids of the entries in the cells `cs`.
pub open spec fn ids_in(m: Map<Cell, Seq<EntryView>>, cs: Seq<Cell>) -> Set<u64> {
    Set::new(
        |id: u64|
            exists|j: int, k: int|
                0 <= j < cs.len() && 0 <= k < cell_entries(m, cs[j]).len() && #[trigger] cell_entries(
                    m,
                    cs[j],
                )[k].id == id,
    )
}

/// The ids of all entries filed in `m`.
pub open spec fn stored_ids(m: Map<Cell, Seq<EntryView>>) -> Set<u64> {
    Set::new(
        |id: u64|
            exists|c: Cell, k: int|
                m.contains_key(c) && 0 <= k < m[c].len() && #[trigger] m[c][k].id == id,
    )
}

/// The ids of the entries in finitely many cells form a finite set.
proof fn lemma_ids_in_finite(m: Map<Cell, Seq<EntryView>>, cs: Seq<Cell>)
    ensures
        ids_in(m, cs).finite(),
    decreases cs.len(),
{
    if cs.len() == 0 {
        assert(ids_in(m, cs) =~= Set::<u64>::empty());
    } else {
        let d = cs.drop_last();
        let last = cell_entries(m, cs.last()).map_values(|v: EntryView| v.id);
        lemma_ids_in_finite(m, d);
        vstd::seq_lib::seq_to_set_is_finite(last);
        assert forall|id: u64| #[trigger] ids_in(m, cs).contains(id) == ids_in(m, d).union(last.to_set()).contains(id) by {
            if ids_in(m, cs).contains(id) {
                let (a, b) = choose|a: int, b: int|
                    0 <= a < cs.len() && 0 <= b < cell_entries(m, cs[a]).len()
                        && #[trigger] cell_entries(m, cs[a])[b].id == id;
                if a < cs.len() - 1 {
                    assert(d[a] == cs[a]);
                    assert(cell_entries(m, d[a])[b].id == id);
                } else {
                    assert(last[b] == id);
                }
            }
            if ids_in(m, d).contains(id) {
                let (a, b) = choose|a: int, b: int|
                    0 <= a < d.len() && 0 <= b < cell_entries(m, d[a]).len()
                        && #[trigger] cell_entries(m, d[a])[b].id == id;
                assert(cs[a] == d[a]);
                assert(cell_entries(m, cs[a])[b].id == id);
            }
            if last.to_set().contains(id) {
                let b = choose|b: int| 0 <= b < last.len() && last[b] == id;
                assert(cell_entries(m, cs[cs.len() - 1])[b].id == id);
            }
        }
        assert(ids_in(m, cs) =~= ids_in(m, d).union(last.to_set()));
    }
}

/// Replacing the entries of one cell that `cs` lists once changes the count
/// over `cs` by the difference.
proof fn lemma_count_replace(m: Map<Cell, Seq<EntryView>>, cs: Seq<Cell>, c: Cell, s: Seq<EntryView>)
    requires
        cs.no_duplicates(),
    ensures
        cs.contains(c) ==> count_in(m.insert(c, s), cs) + cell_entries(m, c).len() == count_in(m, cs)
            + s.len(),
        !cs.contains(c) ==> count_in(m.insert(c, s), cs) == count_in(m, cs),
    decreases cs.len(),
{
    if cs.len() > 0 {
        let rest = cs.drop_last();
        assert(rest.no_duplicates());
        lemma_count_replace(m, rest, c, s);
        if cs.last() == c {
            assert(!rest.contains(c));
        } else {
            if cs.contains(c) {
                let j = choose|j: int| 0 <= j < cs.len() && cs[j] == c;
                assert(rest[j] == c);
            }
            if rest.contains(c) {
                let j = choose|j: int| 0 <= j < rest.len() && rest[j] == c;
                assert(cs[j] == c);
            }
        }
    }
}

/// The count over cells is zero exactly when each listed cell is empty.
proof fn lemma_count_zero(m: Map<Cell, Seq<EntryView>>, cs: Seq<Cell>)
    ensures
        count_in(m, cs) == 0 <==> forall|j: int| 0 <= j < cs.len() ==> #[trigger] cell_entries(m, cs[j]).len() == 0,
    decreases cs.len(),
{
    if cs.len() > 0 {
        lemma_count_zero(m, cs.drop_last());
        if count_in(m, cs) == 0 {
            assert forall|j: int| 0 <= j < cs.len() implies #[trigger] cell_entries(m, cs[j]).len() == 0 by {
                if j < cs.len() - 1 {
                    assert(cs.drop_last()[j] == cs[j]);
                }
            }
        }
        if forall|j: int| 0 <= j < cs.len() ==> #[trigger] cell_entries(m, cs[j]).len() == 0 {
            assert forall|j: int| 0 <= j < cs.drop_last().len() implies #[trigger] cell_entries(m, cs.drop_last()[j]).len() == 0 by {
                assert(cs.drop_last()[j] == cs[j]);
            }
            assert(cell_entries(m, cs[cs.len() - 1]).len() == 0);
        }
    }
}

/// Entries filed by grid cell.
#[derive(Debug)]
pub(crate) struct CellMap {
    cells: HashMap<u64, Vec<SpatialEntry>>,
    /// Every filled cell once, in the order in which it was first filled.
    filled: Vec<Cell>,
}

impl View for CellMap {
    type V = Map<Cell, Seq<EntryView>>;

    closed spec fn view(&self) -> Map<Cell, Seq<EntryView>> {
        Map::new(
            |c: Cell| self.cells@.contains_key(cell_key(c)),
            |c: Cell| entry_views(self.cells@[cell_key(c)]@),
        )
    }
}

impl Clone for CellMap {
    fn clone(&self) -> (m: Self)
        ensures
            m@ == self@,
            m.wf() == self.wf(),
            m.total() == self.total(),
    {
        let mut filled: Vec<Cell> = Vec::new();
        let mut i: usize = 0;
        while i < self.filled.len()
            invariant
                i <= self.filled.len(),
                filled@ == self.filled@.take(i as int),
            decreases self.filled.len() - i,
        {
            filled.push(self.filled[i]);
            assert(self.filled@.take(i + 1) =~= self.filled@.take(i as int).push(self.filled@[i as int]));
            i = i + 1;
        }
        assert(self.filled@.take(i as int) =~= self.filled@);
        let m = CellMap { cells: self.cells.clone(), filled };
        assert(m@ =~= self@);
        m
    }
}

impl CellMap {
    /// The invariant: `filled` lists each filled cell exactly once.
    pub closed spec fn wf(self) -> bool {
        &&& self.filled@.no_duplicates()
        &&& forall|k: u64| #[trigger]
            self.cells@.contains_key(k) <==> exists|i: int|
                0 <= i < self.filled@.len() && cell_key(self.filled@[i]) == k
    }

    pub fn new() -> (m: CellMap)
        ensures
            m.wf(),
            m@ == Map::<Cell, Seq<EntryView>>::empty(),
            m.total() == 0,
    {
        let m = CellMap { cells: HashMap::new(), filled: Vec::new() };
        assert(m@ =~= Map::<Cell, Seq<EntryView>>::empty());
        m
    }

    /// File `entry` at the end of cell `c`.
    pub fn push(&mut self, c: Cell, entry: SpatialEntry)
        requires
            old(self).wf(),
        ensures
            final(self).wf(),
            final(self)@ == old(self)@.insert(c, cell_entries(old(self)@, c).push(entry@)),
            final(self).total() == old(self).total() + 1,
    {
        let k = key_of(c);
        let ghost ev = entry@;
        let taken = self.cells.remove(&k);
        match taken {
            Some(mut v) => {
                proof {
                    let i = choose|i: int| 0 <= i < old(self).filled@.len() && cell_key(old(self).filled@[i]) == k;
                    lemma_cell_key_injective(old(self).filled@[i], c);
                    assert(old(self).filled@.contains(c));
                }
                let ghost before = v@;
                v.push(entry);
                self.cells.insert(k, v);
                assert(entry_views(v@) =~= entry_views(before).push(ev));
            },
            None => {
                let mut v: Vec<SpatialEntry> = Vec::new();
                v.push(entry);
                self.cells.insert(k, v);
                assert(entry_views(v@) =~= seq![ev]);
                proof {
                    assert forall|i: int| 0 <= i < old(self).filled@.len() implies old(
                        self,
                    ).filled@[i] != c by {
                        assert(old(self).cells@.contains_key(cell_key(old(self).filled@[i])));
                    }
                }
                self.filled.push(c);
            },
        }
        proof {
            assert forall|d: Cell| #[trigger] self@.contains_key(d) && d != c implies self@[d]
                == old(self)@[d] by {
                lemma_cell_key_injective(c, d);
            }
            assert forall|d: Cell| #[trigger] old(self)@.contains_key(d) implies self@.contains_key(d) by {
                lemma_cell_key_injective(c, d);
            }
            assert forall|d: Cell| #[trigger] self@.contains_key(d) implies d == c || old(self)@.contains_key(d) by {
                lemma_cell_key_injective(c, d);
            }
            assert forall|k: u64| #[trigger]
                self.cells@.contains_key(k) <==> exists|i: int|
                    0 <= i < self.filled@.len() && cell_key(self.filled@[i]) == k by {
                if self.cells@.contains_key(k) && k != cell_key(c) {
                    assert(old(self).cells@.contains_key(k));
                    let i = choose|i: int| 0 <= i < old(self).filled@.len() && cell_key(old(self).filled@[i]) == k;
                    assert(self.filled@[i] == old(self).filled@[i]);
                }
                if k == cell_key(c) {
                    if !old(self).cells@.contains_key(k) {
                        assert(self.filled@[self.filled@.len() - 1] == c);
                    }
                }
                if exists|i: int| 0 <= i < self.filled@.len() && cell_key(self.filled@[i]) == k {
                    let i = choose|i: int| 0 <= i < self.filled@.len() && cell_key(self.filled@[i]) == k;
                    if i < old(self).filled@.len() {
                        assert(old(self).filled@[i] == self.filled@[i]);
                    }
                }
            }
            assert(self@ =~= old(self)@.insert(c, cell_entries(old(self)@, c).push(ev)));
            let s = cell_entries(old(self)@, c).push(ev);
            lemma_count_replace(old(self)@, old(self).filled@, c, s);
            if old(self).filled@.contains(c) {
                assert(self.filled@ == old(self).filled@);
            } else {
                assert(self.filled@ == old(self).filled@.push(c));
                assert(self.filled@.drop_last() =~= old(self).filled@);
                assert(!old(self)@.contains_key(c)) by {
                    if old(self)@.contains_key(c) {
                        let i = choose|i: int| 0 <= i < old(self).filled@.len() && cell_key(old(self).filled@[i]) == cell_key(c);
                        lemma_cell_key_injective(old(self).filled@[i], c);
                    }
                }
            }
        }
    }

    /// The entries filed under cell `c`, in the order they were filed.
    pub fn get(&self, c: Cell) -> (found: Vec<&SpatialEntry>)
        ensures
            ref_views(found@) == cell_entries(self@, c),
    {
        let k = key_of(c);
        let mut found: Vec<&SpatialEntry> = Vec::new();
        match self.cells.get(&k) {
            None => {
                assert(ref_views(found@) =~= cell_entries(self@, c));
            },
            Some(v) => {
                let mut i: usize = 0;
                while i < v.len()
                    invariant
                        i <= v.len(),
                        ref_views(found@) == entry_views(v@).take(i as int),
                    decreases v.len() - i,
                {
                    let ghost before = ref_views(found@);
                    found.push(&v[i]);
                    assert(ref_views(found@) =~= before.push(v@[i as int]@));
                    assert(entry_views(v@).take(i + 1) =~= entry_views(v@).take(i as int).push(
                        v@[i as int]@,
                    ));
                    i = i + 1;
                }
                assert(entry_views(v@).take(i as int) =~= entry_views(v@));
            },
        }
        found
    }

    /// The entries of every cell from `lo` to `hi`, column after column.
    pub fn gather(&self, lo: Cell, hi: Cell) -> (found: Vec<&SpatialEntry>)
        ensures
            ref_views(found@) == gather_rect(self@, lo, hi),
    {
        let mut found: Vec<&SpatialEntry> = Vec::new();
        let x_hi: i64 = hi.0 as i64;
        let y_hi: i64 = hi.1 as i64;
        let mut x: i64 = lo.0 as i64;
        assert(ref_views(found@) =~= gather_columns(self@, lo.0 as int, x - 1, lo.1 as int, hi.1 as int));
        while x <= x_hi
            invariant
                lo.0 <= x,
                x <= x_hi + 1 || x == lo.0,
                x_hi == hi.0,
                y_hi == hi.1,
                ref_views(found@) == gather_columns(self@, lo.0 as int, x - 1, lo.1 as int, hi.1 as int),
            decreases x_hi - x + 1,
        {
            let ghost start = ref_views(found@);
            let mut y: i64 = lo.1 as i64;
            assert(ref_views(found@) =~= start + gather_column(self@, x as int, lo.1 as int, y - 1));
            while y <= y_hi
                invariant
                    lo.1 <= y,
                    y <= y_hi + 1 || y == lo.1,
                    lo.0 <= x <= x_hi,
                    x_hi == hi.0,
                    y_hi == hi.1,
                    ref_views(found@) == start + gather_column(self@, x as int, lo.1 as int, y - 1),
                decreases y_hi - y + 1,
            {
                let ghost before = ref_views(found@);
                let mut more = self.get((x as i32, y as i32));
                let ghost added = ref_views(more@);
                found.append(&mut more);
                assert(ref_views(found@) =~= before + added);
                y = y + 1;
            }
            assert(gather_column(self@, x as int, lo.1 as int, y - 1) == gather_column(
                self@,
                x as int,
                lo.1 as int,
                hi.1 as int,
            ));
            x = x + 1;
        }
        found
    }

    /// The filled cells are the cells of the view.
    proof fn lemma_filled_covers(self)
        requires
            self.wf(),
        ensures
            forall|c: Cell| #[trigger] self@.contains_key(c) <==> self.filled@.contains(c),
    {
        assert forall|c: Cell| #[trigger] self@.contains_key(c) <==> self.filled@.contains(c) by {
            if self@.contains_key(c) {
                let i = choose|i: int| 0 <= i < self.filled@.len() && cell_key(self.filled@[i]) == cell_key(c);
                lemma_cell_key_injective(self.filled@[i], c);
            }
            if self.filled@.contains(c) {
                let i = choose|i: int| 0 <= i < self.filled@.len() && self.filled@[i] == c;
                assert(cell_key(self.filled@[i]) == cell_key(c));
            }
        }
    }

    /// The number of entries in all cells.
    pub closed spec fn total(self) -> nat {
        count_in(self@, self.filled@)
    }

    /// The number of entries in all cells.
    pub fn len(&self) -> (n: usize)
        requires
            self.wf(),
            self.total() <= usize::MAX,
        ensures
            n == self.total(),
    {
        let mut n: usize = 0;
        let mut i: usize = 0;
        while i < self.filled.len()
            invariant
                i <= self.filled.len(),
                n == count_in(self@, self.filled@.take(i as int)),
                count_in(self@, self.filled@) <= usize::MAX,
            decreases self.filled.len() - i,
        {
            let c = self.filled[i];
            let k = key_of(c);
            assert(self.filled@.take(i + 1).drop_last() =~= self.filled@.take(i as int));
            proof {
                lemma_count_prefix(self@, self.filled@, i + 1);
            }
            match self.cells.get(&k) {
                Some(v) => {
                    assert(cell_entries(self@, c).len() == v@.len());
                    n = n + v.len();
                },
                None => {},
            }
            i = i + 1;
        }
        assert(self.filled@.take(i as int) =~= self.filled@);
        n
    }

    /// Whether every cell is empty.
    pub fn is_empty(&self) -> (empty: bool)
        requires
            self.wf(),
        ensures
            empty == (self.total() == 0),
            empty == (forall|c: Cell| #[trigger] self@.contains_key(c) ==> self@[c].len() == 0),
    {
        proof {
            lemma_count_zero(self@, self.filled@);
            self.lemma_filled_covers();
        }
        let mut i: usize = 0;
        while i < self.filled.len()
            invariant
                i <= self.filled.len(),
                forall|j: int| 0 <= j < i ==> #[trigger] cell_entries(self@, self.filled@[j]).len() == 0,
            decreases self.filled.len() - i,
        {
            let c = self.filled[i];
            let k = key_of(c);
            match self.cells.get(&k) {
                Some(v) => {
                    if !v.is_empty() {
                        assert(cell_entries(self@, self.filled@[i as int]).len() > 0);
                        proof {
                            lemma_count_zero(self@, self.filled@);
                            assert(self@.contains_key(c));
                        }
                        return false;
                    }
                },
                None => {},
            }
            i = i + 1;
        }
        proof {
            lemma_count_zero(self@, self.filled@);
            self.lemma_filled_covers();
            assert forall|c: Cell| #[trigger] self@.contains_key(c) implies self@[c].len() == 0 by {
                let j = choose|j: int| 0 <= j < self.filled@.len() && self.filled@[j] == c;
                assert(cell_entries(self@, self.filled@[j]).len() == 0);
            }
        }
        true
    }

    /// The number of distinct ids among all filed entries.
    pub fn distinct_ids(&self) -> (n: usize)
        requires
            self.wf(),
        ensures
            n == stored_ids(self@).len(),
    {
        let mut seen: std::collections::HashSet<u64> = std::collections::HashSet::new();
        let mut i: usize = 0;
        assert(seen@ =~= ids_in(self@, self.filled@.take(0)));
        while i < self.filled.len()
            invariant
                self.wf(),
                i <= self.filled.len(),
                seen@ == ids_in(self@, self.filled@.take(i as int)),
            decreases self.filled.len() - i,
        {
            let c = self.filled[i];
            let k = key_of(c);
            let ghost before = seen@;
            match self.cells.get(&k) {
                Some(v) => {
                    let mut j: usize = 0;
                    while j < v.len()
                        invariant
                            j <= v.len(),
                            entry_views(v@) == cell_entries(self@, c),
                            seen@ == before.union(
                                Set::new(|id: u64| exists|t: int| 0 <= t < j && #[trigger] v@[t].id == id),
                            ),
                        decreases v.len() - j,
                    {
                        seen.insert(v[j].id);
                        assert(seen@ =~= before.union(
                            Set::new(|id: u64| exists|t: int| 0 <= t < j + 1 && #[trigger] v@[t].id == id),
                        )) by {
                            assert(v@[j as int].id == v[j as int].id);
                        }
                        j = j + 1;
                    }
                    proof {
                        let next = self.filled@.take(i + 1);
                        assert forall|id: u64| #[trigger] ids_in(self@, next).contains(id) == seen@.contains(id) by {
                            if ids_in(self@, next).contains(id) {
                                let (a, b) = choose|a: int, b: int|
                                    0 <= a < next.len() && 0 <= b < cell_entries(self@, next[a]).len()
                                        && #[trigger] cell_entries(self@, next[a])[b].id == id;
                                if a < i {
                                    assert(self.filled@.take(i as int)[a] == next[a]);
                                    assert(before.contains(id));
                                } else {
                                    assert(v@[b].id == id);
                                }
                            }
                            if before.contains(id) {
                                let (a, b) = choose|a: int, b: int|
                                    0 <= a < self.filled@.take(i as int).len() && 0 <= b < cell_entries(self@, self.filled@.take(i as int)[a]).len()
                                        && #[trigger] cell_entries(self@, self.filled@.take(i as int)[a])[b].id == id;
                                assert(next[a] == self.filled@.take(i as int)[a]);
                                assert(ids_in(self@, next).contains(id));
                            }
                            if seen@.contains(id) && !before.contains(id) {
                                let t = choose|t: int| 0 <= t < v@.len() && #[trigger] v@[t].id == id;
                                assert(next[i as int] == c);
                                assert(cell_entries(self@, next[i as int])[t].id == id);
                                assert(ids_in(self@, next).contains(id));
                            }
                        }
                        assert(seen@ =~= ids_in(self@, next));
                    }
                },
                None => {
                    proof {
                        assert(0 <= i < self.filled@.len() && cell_key(self.filled@[i as int]) == k);
                        assert(self.cells@.contains_key(k));
                    }
                },
            }
            i = i + 1;
        }
        proof {
            assert(self.filled@.take(i as int) =~= self.filled@);
            assert forall|id: u64| #[trigger] stored_ids(self@).contains(id) == seen@.contains(id) by {
                if stored_ids(self@).contains(id) {
                    let (c, b) = choose|c: Cell, b: int|
                        self@.contains_key(c) && 0 <= b < self@[c].len() && #[trigger] self@[c][b].id == id;
                    let a = choose|a: int| 0 <= a < self.filled@.len() && cell_key(self.filled@[a]) == cell_key(c);
                    lemma_cell_key_injective(self.filled@[a], c);
                    assert(cell_entries(self@, self.filled@[a])[b].id == id);
                }
                if seen@.contains(id) {
                    let (a, b) = choose|a: int, b: int|
                        0 <= a < self.filled@.len() && 0 <= b < cell_entries(self@, self.filled@[a]).len()
                            && #[trigger] cell_entries(self@, self.filled@[a])[b].id == id;
                    assert(self@.contains_key(self.filled@[a]));
                    assert(self@[self.filled@[a]][b].id == id);
                }
            }
            assert(seen@ =~= stored_ids(self@));
        }
        seen.len()
    }

    /// Finitely many ids are stored.
    pub proof fn lemma_ids_finite(self)
        requires
            self.wf(),
        ensures
            stored_ids(self@).finite(),
    {
        assert forall|id: u64| #[trigger] stored_ids(self@).contains(id) == ids_in(self@, self.filled@).contains(id) by {
            if stored_ids(self@).contains(id) {
                let (c, b) = choose|c: Cell, b: int|
                    self@.contains_key(c) && 0 <= b < self@[c].len() && #[trigger] self@[c][b].id == id;
                let a = choose|a: int| 0 <= a < self.filled@.len() && cell_key(self.filled@[a]) == cell_key(c);
                lemma_cell_key_injective(self.filled@[a], c);
                assert(cell_entries(self@, self.filled@[a])[b].id == id);
            }
            if ids_in(self@, self.filled@).contains(id) {
                let (a, b) = choose|a: int, b: int|
                    0 <= a < self.filled@.len() && 0 <= b < cell_entries(self@, self.filled@[a]).len()
                        && #[trigger] cell_entries(self@, self.filled@[a])[b].id == id;
                assert(self.cells@.contains_key(cell_key(self.filled@[a])));
                assert(self@.contains_key(self.filled@[a]));
                assert(self@[self.filled@[a]][b].id == id);
            }
        }
        assert(stored_ids(self@) =~= ids_in(self@, self.filled@));
        lemma_ids_in_finite(self@, self.filled@);
    }
}

/// The count over a prefix is at most the count over the whole.
proof fn lemma_count_prefix(m: Map<Cell, Seq<EntryView>>, cs: Seq<Cell>, i: int)
    requires
        0 <= i <= cs.len(),
    ensures
        count_in(m, cs.take(i)) <= count_in(m, cs),
    decreases cs.len(),
{
    if i < cs.len() {
        assert(cs.drop_last().take(i) =~= cs.take(i));
        lemma_count_prefix(m, cs.drop_last(), i);
    } else {
        assert(cs.take(i) =~= cs);
    }
}

} // verus!
