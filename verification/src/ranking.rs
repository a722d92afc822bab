use vstd::prelude::*;
use crate::coord::Coord;
use crate::entry::{EntryView, SpatialEntry, ref_views};

verus! {

broadcast use vstd::seq_lib::group_to_multiset_ensures, vstd::seq_lib::lemma_multiset_commutative;

/// `s` with `x` put after every item that is not farther than `x`: the
/// insertion step of a stable sort by distance, nearest first.
pub open spec fn insert_by_distance<T>(s: Seq<(T, Coord)>, x: (T, Coord)) -> Seq<(T, Coord)>
    decreases s.len(),
{
    if s.len() == 0 {
        seq![x]
    } else if x.1.spec_lt(s.last().1) {
        insert_by_distance(s.drop_last(), x).push(s.last())
    } else {
        s.push(x)
    }
}

/// The items of `s` in a stable sort by distance, nearest first; a NaN
/// distance is never nearer than another.
pub open spec fn sorted_by_distance<T>(s: Seq<(T, Coord)>) -> Seq<(T, Coord)>
    decreases s.len(),
{
    if s.len() == 0 {
        s
    } else {
        insert_by_distance(sorted_by_distance(s.drop_last()), s.last())
    }
}

/// Whether the distances of `s` never decrease.
pub open spec fn nondecreasing<T>(s: Seq<(T, Coord)>) -> bool {
    forall|i: int, j: int| 0 <= i < j < s.len() ==> #[trigger] s[i].1.spec_le(#[trigger] s[j].1)
}

/// Whether no distance in `s` is a NaN.
pub open spec fn all_numbers<T>(s: Seq<(T, Coord)>) -> bool {
    forall|i: int| 0 <= i < s.len() ==> !(#[trigger] s[i].1).spec_is_nan()
}

/// Inserting where the scan from the back stops is the insertion step.
proof fn lemma_insert_at_scan<T>(s: Seq<(T, Coord)>, x: (T, Coord), j: int)
    requires
        0 <= j <= s.len(),
        forall|k: int| j <= k < s.len() ==> x.1.spec_lt(#[trigger] s[k].1),
        j > 0 ==> !x.1.spec_lt(s[j - 1].1),
    ensures
        insert_by_distance(s, x) == s.insert(j, x),
    decreases s.len(),
{
    if s.len() == 0 {
        assert(s.insert(j, x) =~= seq![x]);
    } else if x.1.spec_lt(s.last().1) {
        assert(j < s.len());
        lemma_insert_at_scan(s.drop_last(), x, j);
        assert(s.insert(j, x) =~= s.drop_last().insert(j, x).push(s.last()));
    } else {
        assert(j == s.len());
        assert(s.insert(j, x) =~= s.push(x));
    }
}

/// The insertion step keeps every item and adds `x`.
proof fn lemma_insert_multiset<T>(s: Seq<(T, Coord)>, x: (T, Coord))
    ensures
        insert_by_distance(s, x).to_multiset() == s.to_multiset().insert(x),
        insert_by_distance(s, x).len() == s.len() + 1,
    decreases s.len(),
{
    if s.len() > 0 && x.1.spec_lt(s.last().1) {
        lemma_insert_multiset(s.drop_last(), x);
        assert(s.drop_last().push(s.last()) =~= s);
        assert(insert_by_distance(s, x).to_multiset() =~= s.to_multiset().insert(x));
    }
}

/// The insertion step keeps a sequence without NaN distances sorted.
proof fn lemma_insert_sorted<T>(s: Seq<(T, Coord)>, x: (T, Coord))
    requires
        nondecreasing(s),
        all_numbers(s),
        !x.1.spec_is_nan(),
    ensures
        nondecreasing(insert_by_distance(s, x)),
        all_numbers(insert_by_distance(s, x)),
    decreases s.len(),
{
    lemma_insert_multiset(s, x);
    if s.len() > 0 && x.1.spec_lt(s.last().1) {
        let r = insert_by_distance(s.drop_last(), x);
        lemma_insert_sorted(s.drop_last(), x);
        lemma_insert_multiset(s.drop_last(), x);
        let out = r.push(s.last());
        assert forall|i: int| 0 <= i < r.len() implies (#[trigger] r[i]).1.spec_le(s.last().1) by {
            assert(r.to_multiset().contains(r[i]));
            assert(s.drop_last().to_multiset().insert(x).contains(r[i]));
            if r[i] != x {
                assert(s.drop_last().to_multiset().contains(r[i]));
                let k = choose|k: int| 0 <= k < s.drop_last().len() && s.drop_last()[k] == r[i];
                assert(s[k] == r[i]);
            }
        }
        assert(nondecreasing(out));
    } else if s.len() > 0 {
        let out = s.push(x);
        assert forall|i: int, j: int| 0 <= i < j < out.len() implies #[trigger] out[i].1.spec_le(
            #[trigger] out[j].1,
        ) by {
            if j == s.len() && i < s.len() - 1 {
                assert(s[i].1.spec_le(s[s.len() - 1].1));
            }
        }
    }
}

/// Sorting keeps every item: the result is a permutation of the input.
pub proof fn law_sorted_is_permutation<T>(s: Seq<(T, Coord)>)
    ensures
        sorted_by_distance(s).to_multiset() == s.to_multiset(),
        sorted_by_distance(s).len() == s.len(),
    decreases s.len(),
{
    if s.len() > 0 {
        law_sorted_is_permutation(s.drop_last());
        lemma_insert_multiset(sorted_by_distance(s.drop_last()), s.last());
        assert(s.drop_last().push(s.last()) =~= s);
    }
}

/// When no distance is a NaN, the sorted items come nearest first.
pub proof fn law_sorted_is_ordered<T>(s: Seq<(T, Coord)>)
    requires
        all_numbers(s),
    ensures
        nondecreasing(sorted_by_distance(s)),
        all_numbers(sorted_by_distance(s)),
    decreases s.len(),
{
    if s.len() > 0 {
        law_sorted_is_ordered(s.drop_last());
        lemma_insert_sorted(sorted_by_distance(s.drop_last()), s.last());
    }
}

/// The items of `s` whose distance is at most `radius`, in order.
pub open spec fn within<T>(s: Seq<(T, Coord)>, radius: Coord) -> Seq<T>
    decreases s.len(),
{
    if s.len() == 0 {
        seq![]
    } else {
        let rest = within(s.drop_last(), radius);
        if s.last().1.spec_le(radius) {
            rest.push(s.last().0)
        } else {
            rest
        }
    }
}

/// Keep the items whose distance is at most `radius`, in order; an item at a
/// NaN distance is dropped.
pub fn within_radius<T>(items: Vec<(T, Coord)>, radius: Coord) -> (kept: Vec<T>)
    ensures
        kept@ == within(items@, radius),
{
    let ghost input = items@;
    let mut items = items;
    let mut kept: Vec<T> = Vec::new();
    let mut done: usize = 0;
    let total = items.len();
    while items.len() > 0
        invariant
            done + items.len() == total,
            total == input.len(),
            items@ == input.skip(done as int),
            kept@ == within(input.take(done as int), radius),
        decreases items.len(),
    {
        let x = items.remove(0);
        assert(input.take(done + 1).drop_last() =~= input.take(done as int));
        assert(input.take(done + 1).last() == x);
        if x.1.le(&radius) {
            kept.push(x.0);
        }
        done = done + 1;
        assert(items@ =~= input.skip(done as int));
    }
    assert(input.take(done as int) =~= input);
    kept
}

/// Each item paired with the distance at the same position.
pub open spec fn pair_with<T>(items: Seq<T>, distances: Seq<Coord>) -> Seq<(T, Coord)> {
    Seq::new(items.len(), |i: int| (items[i], distances[i]))
}

/// `s` with `f` applied to the item of every pair, the distances kept.
pub open spec fn map_items<A, B>(s: Seq<(A, Coord)>, f: spec_fn(A) -> B) -> Seq<(B, Coord)> {
    s.map_values(|p: (A, Coord)| (f(p.0), p.1))
}

proof fn lemma_insert_map_items<A, B>(s: Seq<(A, Coord)>, x: (A, Coord), f: spec_fn(A) -> B)
    ensures
        insert_by_distance(map_items(s, f), (f(x.0), x.1)) == map_items(insert_by_distance(s, x), f),
    decreases s.len(),
{
    if s.len() > 0 && x.1.spec_lt(s.last().1) {
        lemma_insert_map_items(s.drop_last(), x, f);
        assert(map_items(s, f).drop_last() =~= map_items(s.drop_last(), f));
        assert(map_items(insert_by_distance(s, x), f) =~= map_items(
            insert_by_distance(s.drop_last(), x),
            f,
        ).push((f(s.last().0), s.last().1)));
    } else if s.len() > 0 {
        assert(map_items(s.push(x), f) =~= map_items(s, f).push((f(x.0), x.1)));
    } else {
        assert(map_items(seq![x], f) =~= seq![(f(x.0), x.1)]);
    }
}

/// Sorting looks at the distances only: sorting and then mapping the items
/// is mapping the items and then sorting.
pub proof fn law_sort_ignores_items<A, B>(s: Seq<(A, Coord)>, f: spec_fn(A) -> B)
    ensures
        sorted_by_distance(map_items(s, f)) == map_items(sorted_by_distance(s), f),
    decreases s.len(),
{
    if s.len() > 0 {
        law_sort_ignores_items(s.drop_last(), f);
        assert(map_items(s, f).drop_last() =~= map_items(s.drop_last(), f));
        lemma_insert_map_items(sorted_by_distance(s.drop_last()), s.last(), f);
    } else {
        assert(map_items(s, f) =~= Seq::<(B, Coord)>::empty());
        assert(map_items(s, f) =~= map_items(sorted_by_distance(s), f));
    }
}

/// The `n` items nearest first: a stable sort by distance, cut after `n`
/// items.
pub fn nearest_first<T>(items: Vec<(T, Coord)>, n: usize) -> (nearest: Vec<(T, Coord)>)
    ensures
        nearest@ == sorted_by_distance(items@).take(
            if n < items@.len() { n as int } else { items@.len() as int },
        ),
{
    let ghost input = items@;
    let mut items = items;
    let mut sorted: Vec<(T, Coord)> = Vec::new();
    let mut done: usize = 0;
    let total = items.len();
    while items.len() > 0
        invariant
            done + items.len() == total,
            total == input.len(),
            items@ == input.skip(done as int),
            sorted@ == sorted_by_distance(input.take(done as int)),
        decreases items.len(),
    {
        let x = items.remove(0);
        let mut j = sorted.len();
        while j > 0 && x.1.lt(&sorted[j - 1].1)
            invariant
                j <= sorted.len(),
                forall|k: int| j <= k < sorted.len() ==> x.1.spec_lt(#[trigger] sorted@[k].1),
            decreases j,
        {
            j = j - 1;
        }
        proof {
            lemma_insert_at_scan(sorted@, x, j as int);
            assert(input.take(done + 1).drop_last() =~= input.take(done as int));
            assert(input.take(done + 1).last() == x);
        }
        sorted.insert(j, x);
        done = done + 1;
        assert(items@ =~= input.skip(done as int));
    }
    assert(input.take(done as int) =~= input);
    proof {
        law_sorted_is_permutation(input);
    }
    sorted.truncate(n);
    sorted
}

/// The first `k` items of the sort, when no distance is a NaN, are `k` of the
/// items, nearest first, and every item left out is at least as far as each
/// item kept.
pub proof fn law_nearest_are_nearest<T>(s: Seq<(T, Coord)>, k: int)
    requires
        all_numbers(s),
        0 <= k <= s.len(),
    ensures
        ({
            let kept = sorted_by_distance(s).take(k);
            &&& kept.len() == k
            &&& nondecreasing(kept)
            &&& kept.to_multiset().subset_of(s.to_multiset())
            &&& forall|x: (T, Coord), i: int|
                #![trigger kept.to_multiset().count(x), kept[i]]
                s.to_multiset().count(x) > kept.to_multiset().count(x) && 0 <= i < k
                    ==> kept[i].1.spec_le(x.1)
        }),
{
    let sorted = sorted_by_distance(s);
    law_sorted_is_permutation(s);
    law_sorted_is_ordered(s);
    let kept = sorted.take(k);
    let rest = sorted.skip(k);
    assert(sorted =~= kept + rest);
    assert(sorted.to_multiset() == kept.to_multiset().add(rest.to_multiset()));
    assert forall|x: (T, Coord), i: int|
        #![trigger kept.to_multiset().count(x), kept[i]]
        s.to_multiset().count(x) > kept.to_multiset().count(x) && 0 <= i < k implies kept[i].1.spec_le(
            x.1,
        ) by {
        assert(rest.to_multiset().count(x) > 0);
        assert(rest.contains(x));
        let j = choose|j: int| 0 <= j < rest.len() && rest[j] == x;
        assert(sorted[k + j] == x);
        assert(sorted[i].1.spec_le(sorted[k + j].1));
    }
}

/// The insertion step puts `x` at some position `p`, before exactly the items
/// that are farther than `x`.
proof fn lemma_insert_shape<T>(s: Seq<(T, Coord)>, x: (T, Coord)) -> (p: int)
    ensures
        0 <= p <= s.len(),
        insert_by_distance(s, x) == s.insert(p, x),
        forall|k: int| p <= k < s.len() ==> x.1.spec_lt(#[trigger] s[k].1),
    decreases s.len(),
{
    if s.len() == 0 {
        assert(s.insert(0, x) =~= seq![x]);
        0
    } else if x.1.spec_lt(s.last().1) {
        let p = lemma_insert_shape(s.drop_last(), x);
        assert(s.insert(p, x) =~= s.drop_last().insert(p, x).push(s.last()));
        assert forall|k: int| p <= k < s.len() implies x.1.spec_lt(#[trigger] s[k].1) by {
            if k < s.len() - 1 {
                assert(s.drop_last()[k] == s[k]);
            }
        }
        p
    } else {
        assert(s.insert(s.len() as int, x) =~= s.push(x));
        s.len() as int
    }
}

/// Whether items at equal distances keep the order of their tags.
pub open spec fn ties_in_tag_order(s: Seq<(int, Coord)>) -> bool {
    forall|i: int, j: int|
        0 <= i < j < s.len() && (#[trigger] s[i]).1.spec_num_eq((#[trigger] s[j]).1) ==> s[i].0 < s[j].0
}

/// The sort is stable: tag each item with its position, and of items at equal
/// distances the one that came first still comes first.
pub proof fn law_sort_is_stable(s: Seq<(int, Coord)>)
    requires
        forall|i: int| 0 <= i < s.len() ==> (#[trigger] s[i]).0 == i,
    ensures
        ties_in_tag_order(sorted_by_distance(s)),
    decreases s.len(),
{
    if s.len() > 0 {
        let d = s.drop_last();
        let x = s.last();
        assert forall|i: int| 0 <= i < d.len() implies (#[trigger] d[i]).0 == i by {
            assert(d[i] == s[i]);
        }
        law_sort_is_stable(d);
        let r = sorted_by_distance(d);
        law_sorted_is_permutation(d);
        assert forall|k: int| 0 <= k < r.len() implies (#[trigger] r[k]).0 < x.0 by {
            assert(r.to_multiset().contains(r[k]));
            assert(d.to_multiset().contains(r[k]));
            let t = choose|t: int| 0 <= t < d.len() && d[t] == r[k];
            assert(x.0 == s.len() - 1);
        }
        let p = lemma_insert_shape(r, x);
        let out = r.insert(p, x);
        assert forall|i: int, j: int|
            0 <= i < j < out.len() && (#[trigger] out[i]).1.spec_num_eq((#[trigger] out[j]).1) implies out[i].0
            < out[j].0 by {
            if j < p {
                assert(out[i] == r[i] && out[j] == r[j]);
            } else if j == p {
                assert(out[i] == r[i]);
            } else if i < p {
                assert(out[i] == r[i] && out[j] == r[j - 1]);
            } else if i == p {
                assert(out[j] == r[j - 1]);
                assert(x.1.spec_lt(r[j - 1].1));
            } else {
                assert(out[i] == r[i - 1] && out[j] == r[j - 1]);
            }
        }
    }
}

/// Keeping the items within a radius looks at the distances only: it commutes
/// with mapping the items.
pub proof fn law_within_ignores_items<A, B>(s: Seq<A>, d: Seq<Coord>, radius: Coord, f: spec_fn(A) -> B)
    requires
        d.len() == s.len(),
    ensures
        within(pair_with(s.map_values(f), d), radius) == within(pair_with(s, d), radius).map_values(f),
    decreases s.len(),
{
    if s.len() > 0 {
        let s2 = s.drop_last();
        let d2 = d.drop_last();
        law_within_ignores_items(s2, d2, radius, f);
        assert(pair_with(s.map_values(f), d).drop_last() =~= pair_with(s2.map_values(f), d2));
        assert(pair_with(s, d).drop_last() =~= pair_with(s2, d2));
        assert(within(pair_with(s, d), radius).map_values(f) =~= within(pair_with(s.map_values(f), d), radius));
    } else {
        assert(within(pair_with(s, d), radius).map_values(f) =~= Seq::<B>::empty());
    }
}

/// An item is kept exactly when it sits at a position whose distance is at
/// most the radius.
pub proof fn law_within_keeps_exactly_the_near<T>(s: Seq<(T, Coord)>, radius: Coord, x: T)
    ensures
        within(s, radius).contains(x) <==> exists|i: int|
            0 <= i < s.len() && #[trigger] s[i].0 == x && s[i].1.spec_le(radius),
    decreases s.len(),
{
    if s.len() > 0 {
        let d = s.drop_last();
        law_within_keeps_exactly_the_near(d, radius, x);
        let w = within(s, radius);
        let wd = within(d, radius);
        if wd.contains(x) {
            let k = choose|k: int| 0 <= k < wd.len() && wd[k] == x;
            assert(w[k] == x);
            let i = choose|i: int| 0 <= i < d.len() && #[trigger] d[i].0 == x && d[i].1.spec_le(radius);
            assert(s[i] == d[i]);
        }
        if w.contains(x) && !wd.contains(x) {
            let k = choose|k: int| 0 <= k < w.len() && w[k] == x;
            assert(k == wd.len());
            assert(s[s.len() - 1].0 == x);
        }
        if exists|i: int| 0 <= i < s.len() && #[trigger] s[i].0 == x && s[i].1.spec_le(radius) {
            let i = choose|i: int| 0 <= i < s.len() && #[trigger] s[i].0 == x && s[i].1.spec_le(radius);
            if i < s.len() - 1 {
                assert(d[i] == s[i]);
                let k = choose|k: int| 0 <= k < wd.len() && wd[k] == x;
                assert(w[k] == x);
            } else {
                assert(w[w.len() - 1] == x);
            }
        }
    }
}

/// Whether `ds` holds, for each candidate, a distance that `distance` can
/// report for it.
pub open spec fn reported_distances<F: Fn(&SpatialEntry) -> Coord>(
    distance: F,
    candidates: Seq<&SpatialEntry>,
    ds: Seq<Coord>,
) -> bool {
    &&& ds.len() == candidates.len()
    &&& forall|i: int| 0 <= i < ds.len() ==> call_ensures(distance, (candidates[i],), #[trigger] ds[i])
}

/// Keep the candidates whose distance, as `distance` reports it, is at most
/// `radius`, in order.
pub fn keep_within<'a, F: Fn(&SpatialEntry) -> Coord>(
    candidates: Vec<&'a SpatialEntry>,
    distance: &F,
    radius: Coord,
) -> (kept: Vec<&'a SpatialEntry>)
    requires
        forall|e: &SpatialEntry| call_requires(*distance, (e,)),
    ensures
        exists|ds: Seq<Coord>|
            reported_distances(*distance, candidates@, ds) && kept@ == within(pair_with(candidates@, ds), radius),
{
    let mut pairs: Vec<(&'a SpatialEntry, Coord)> = Vec::new();
    let mut i: usize = 0;
    while i < candidates.len()
        invariant
            i <= candidates.len(),
            pairs@.len() == i,
            forall|e: &SpatialEntry| call_requires(*distance, (e,)),
            forall|k: int| 0 <= k < i ==> #[trigger] pairs@[k].0 == candidates@[k],
            forall|k: int| 0 <= k < i ==> call_ensures(*distance, (candidates@[k],), #[trigger] pairs@[k].1),
        decreases candidates.len() - i,
    {
        let e = candidates[i];
        let d = distance(e);
        pairs.push((e, d));
        i = i + 1;
    }
    let ghost ds = pairs@.map_values(|p: (&SpatialEntry, Coord)| p.1);
    assert(pairs@.len() == candidates@.len());
    assert forall|k: int| 0 <= k < pairs@.len() implies #[trigger] pairs@[k] == pair_with(candidates@, ds)[k] by {
        assert(pairs@[k].0 == candidates@[k]);
        assert(ds[k] == pairs@[k].1);
    }
    assert(pairs@ =~= pair_with(candidates@, ds));
    let kept = within_radius(pairs, radius);
    assert(reported_distances(*distance, candidates@, ds));
    kept
}

} // verus!
