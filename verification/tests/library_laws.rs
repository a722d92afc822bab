use lau_spatial::ranking::{nearest_first, within_radius};
use lau_spatial::{Coord, GridHash, QuadTree, Quarters, SpatialEntry, SpatialHash, Vec2, AABB};

fn c(x: f64) -> Coord {
    Coord::from_bits(x.to_bits())
}

fn f(x: Coord) -> f64 {
    f64::from_bits(x.to_bits())
}

fn v(x: f64, y: f64) -> Vec2 {
    Vec2::new(c(x), c(y))
}

fn aabb(min: (f64, f64), max: (f64, f64)) -> AABB {
    AABB::new(v(min.0, min.1), v(max.0, max.1))
}

fn split(b: AABB) -> Quarters {
    let (min_x, min_y) = (f(b.min.x), f(b.min.y));
    let half_x = (f(b.max.x) - min_x) * 0.5;
    let half_y = (f(b.max.y) - min_y) * 0.5;
    let quarter = |x: f64, y: f64| aabb((x, y), (x + half_x, y + half_y));
    Quarters {
        nw: quarter(min_x, min_y + half_y),
        ne: quarter(min_x + half_x, min_y + half_y),
        sw: quarter(min_x, min_y),
        se: quarter(min_x + half_x, min_y),
    }
}

fn entry(id: u64, x: f64, y: f64, half: f64) -> SpatialEntry {
    SpatialEntry {
        id,
        pos: v(x, y),
        bounds: aabb((x - half, y - half), (x + half, y + half)),
        data: format!("entry-{id}"),
    }
}

fn ids(found: &[&SpatialEntry]) -> Vec<u64> {
    found.iter().map(|e| e.id).collect()
}

// ── Coordinates compare as numbers ──

#[test]
fn coord_comparisons_follow_the_numbers() {
    assert!(c(-1.0).lt(&c(0.0)));
    assert!(c(0.0).lt(&c(2.5)));
    assert!(c(-3.0).lt(&c(-2.0)));
    assert!(c(1e300).lt(&c(f64::INFINITY)));
    assert!(c(f64::NEG_INFINITY).le(&c(-1e300)));
    assert!(c(-0.0) == c(0.0));
    assert!(c(-0.0).le(&c(0.0)) && c(0.0).le(&c(-0.0)));
    assert!(!(c(0.0).lt(&c(-0.0))));
}

#[test]
fn coord_nan_compares_false() {
    let nan = c(f64::NAN);
    assert!(nan.is_nan());
    assert!(!c(1.0).is_nan());
    assert!(!c(f64::INFINITY).is_nan());
    assert!(nan != nan);
    assert!(!nan.le(&c(1.0)));
    assert!(!c(1.0).le(&nan));
    assert_eq!(f(nan.min(&c(4.0))), 4.0);
    assert_eq!(f(c(4.0).max(&nan)), 4.0);
    assert_eq!(f(c(4.0).min(&c(-7.0))), -7.0);
    assert_eq!(f(c(4.0).max(&c(-7.0))), 4.0);
}

// ── Boxes ──

#[test]
fn aabb_merge_covers_both_boxes() {
    let a = aabb((0.0, 0.0), (2.0, 2.0));
    let b = aabb((5.0, -3.0), (6.0, 1.0));
    let m = a.merge(&b);
    for p in [v(0.0, 0.0), v(2.0, 2.0), v(5.0, -3.0), v(6.0, 1.0), v(1.0, 1.0)] {
        assert!(m.contains(p));
    }
    assert_eq!(m, aabb((0.0, -3.0), (6.0, 2.0)));
}

#[test]
fn aabb_merge_is_symmetric_and_the_smallest_box_around_both() {
    let a = aabb((0.0, 0.0), (2.0, 2.0));
    let b = aabb((5.0, -3.0), (6.0, 1.0));
    assert!(a.merge(&b) == b.merge(&a));
    let m = a.merge(&b);
    let around = aabb((-1.0, -4.0), (7.0, 3.0));
    for p in [a.min, a.max, b.min, b.max, m.min, m.max] {
        assert!(around.contains(p));
    }
    let tight = aabb((0.0, -3.0), (6.0, 2.0));
    assert!(tight.contains(m.min) && tight.contains(m.max));
    let too_small = aabb((0.5, -3.0), (6.0, 2.0));
    assert!(!too_small.contains(a.min));
}

#[test]
fn aabb_expand_covers_the_point() {
    let a = aabb((0.0, 0.0), (1.0, 1.0));
    let e = a.expand(v(-4.0, 9.0));
    assert!(e.contains(v(-4.0, 9.0)));
    assert!(e.contains(v(1.0, 0.0)));
    assert_eq!(e, aabb((-4.0, 0.0), (1.0, 9.0)));
}

#[test]
fn aabb_nan_point_is_never_contained() {
    let a = aabb((0.0, 0.0), (10.0, 10.0));
    assert!(!a.contains(v(f64::NAN, 5.0)));
    assert!(!a.intersects(&aabb((f64::NAN, 0.0), (5.0, 5.0))));
}

#[test]
fn aabb_intersection_is_symmetric_and_touching_counts() {
    let a = aabb((0.0, 0.0), (10.0, 10.0));
    let b = aabb((10.0, 10.0), (20.0, 20.0));
    assert!(a.intersects(&b));
    assert!(b.intersects(&a));
    let p = v(10.0, 10.0);
    assert!(a.contains(p) && b.contains(p));
}

// ── QuadTree ──

fn scattered_tree(capacity: usize) -> (QuadTree, Vec<(u64, f64, f64)>) {
    let mut qt = QuadTree::new(aabb((0.0, 0.0), (64.0, 64.0)), capacity);
    let mut placed = Vec::new();
    for i in 0..40u64 {
        let x = ((i * 11) % 64) as f64 + 0.25;
        let y = ((i * 29) % 64) as f64 + 0.75;
        assert!(qt.insert(entry(i, x, y, 0.1), &split));
        placed.push((i, x, y));
    }
    (qt, placed)
}

#[test]
fn quadtree_point_query_finds_every_entry_at_its_position() {
    let (qt, placed) = scattered_tree(1);
    assert!(qt.is_subdivided());
    assert_eq!(qt.len(), 40);
    for (id, x, y) in placed {
        let found = qt.query_point(v(x, y));
        assert!(ids(&found).contains(&id));
        for e in &found {
            assert!(e.pos == v(x, y) || e.bounds.contains(v(x, y)));
        }
    }
}

#[test]
fn quadtree_range_query_finds_every_entry_inside() {
    let (qt, placed) = scattered_tree(2);
    let range = aabb((10.0, 20.0), (40.0, 50.0));
    let found = ids(&qt.query_range(range));
    for (id, x, y) in placed {
        if range.contains(v(x, y)) {
            assert!(found.contains(&id));
        }
    }
    for e in qt.query_range(range) {
        assert!(range.intersects(&e.bounds) || range.contains(e.pos));
    }
}

#[test]
fn quadtree_lists_quadrants_in_order_nw_ne_sw_se() {
    let mut qt = QuadTree::new(aabb((0.0, 0.0), (8.0, 8.0)), 1);
    assert!(qt.insert(entry(1, 1.0, 1.0, 0.1), &split));
    assert!(qt.insert(entry(2, 1.0, 7.0, 0.1), &split));
    assert!(qt.insert(entry(3, 7.0, 7.0, 0.1), &split));
    assert!(qt.insert(entry(4, 7.0, 1.0, 0.1), &split));
    assert!(qt.is_subdivided());
    assert_eq!(ids(&qt.collect_all()), vec![2, 3, 1, 4]);
    assert_eq!(ids(&qt.query_range(aabb((0.0, 0.0), (8.0, 8.0)))), vec![2, 3, 1, 4]);
}

#[test]
fn quadtree_len_counts_the_accepted_inserts_since_clear() {
    let mut qt = QuadTree::new(aabb((0.0, 0.0), (8.0, 8.0)), 2);
    let mut accepted = 0;
    for (i, x, y) in [(1u64, 1.0, 1.0), (2, 9.0, 1.0), (3, 7.0, 7.0), (4, -1.0, 3.0), (5, 3.0, 3.0), (6, 2.0, 6.0)] {
        if qt.insert(entry(i, x, y, 0.1), &split) {
            accepted += 1;
        }
        assert_eq!(qt.len(), accepted);
    }
    assert_eq!(accepted, 4);
    let mut all = ids(&qt.collect_all());
    all.sort();
    assert_eq!(all, vec![1, 3, 5, 6]);
    qt.clear();
    assert!(qt.is_empty());
    assert!(qt.insert(entry(7, 4.0, 4.0, 0.1), &split));
    assert_eq!(qt.len(), 1);
}

#[test]
fn quadtree_collect_all_holds_every_entry_once() {
    let (qt, _) = scattered_tree(3);
    let mut all = ids(&qt.collect_all());
    all.sort();
    assert_eq!(all, (0..40).collect::<Vec<u64>>());
}

#[test]
fn quadtree_rejected_insert_changes_nothing() {
    let (mut qt, _) = scattered_tree(3);
    assert!(!qt.insert(entry(99, 64.5, 3.0, 0.1), &split));
    assert!(!qt.insert(entry(98, f64::NAN, 3.0, 0.1), &split));
    assert_eq!(qt.len(), 40);
    assert!(qt.query_point(v(64.5, 3.0)).is_empty());
}

#[test]
fn quadtree_nearest_comes_nearest_first() {
    let (qt, _) = scattered_tree(2);
    let all = qt.collect_all();
    let distances: Vec<Coord> = all
        .iter()
        .map(|e| {
            let dx = f(e.pos.x) - 30.0;
            let dy = f(e.pos.y) - 30.0;
            c((dx * dx + dy * dy).sqrt())
        })
        .collect();
    let nearest = qt.nearest(&distances, 5);
    assert_eq!(nearest.len(), 5);
    for w in nearest.windows(2) {
        assert!(w[0].1.le(&w[1].1));
    }
    let fifth = f(nearest[4].1);
    let closer = distances.iter().filter(|d| f(**d) < fifth).count();
    assert!(closer <= 4);
    assert_eq!(qt.nearest(&distances, 100).len(), 40);
}

#[test]
fn quadtree_clear_keeps_bounds() {
    let (mut qt, _) = scattered_tree(2);
    qt.clear();
    assert!(qt.is_empty());
    assert!(!qt.is_subdivided());
    assert_eq!(qt.bounds(), aabb((0.0, 0.0), (64.0, 64.0)));
    assert!(qt.insert(entry(1, 1.0, 1.0, 0.1), &split));
    assert_eq!(qt.len(), 1);
}

// ── Ranking ──

#[test]
fn nearest_first_is_a_stable_sort() {
    let items = vec![('a', c(3.0)), ('b', c(1.0)), ('c', c(3.0)), ('d', c(0.5)), ('e', c(1.0))];
    let sorted: Vec<char> = nearest_first(items, 10).into_iter().map(|p| p.0).collect();
    assert_eq!(sorted, vec!['d', 'b', 'e', 'a', 'c']);
}

#[test]
fn nearest_first_cuts_after_n() {
    let items = vec![(1, c(9.0)), (2, c(2.0)), (3, c(4.0))];
    let first: Vec<i32> = nearest_first(items, 2).into_iter().map(|p| p.0).collect();
    assert_eq!(first, vec![2, 3]);
}

#[test]
fn within_radius_keeps_order_and_drops_nan() {
    let items = vec![(1, c(5.0)), (2, c(f64::NAN)), (3, c(1.0)), (4, c(5.000001)), (5, c(-0.0))];
    assert_eq!(within_radius(items, c(5.0)), vec![1, 3, 5]);
}

// ── GridHash ──

#[test]
fn gridhash_cells_keep_insertion_order() {
    let mut gh = GridHash::new();
    gh.insert((2, -3), entry(1, 0.0, 0.0, 0.1));
    gh.insert((2, -3), entry(2, 0.0, 0.0, 0.1));
    gh.insert((-7, 4), entry(3, 0.0, 0.0, 0.1));
    assert_eq!(ids(&gh.query_cell((2, -3))), vec![1, 2]);
    assert_eq!(ids(&gh.query_cell((-7, 4))), vec![3]);
    assert_eq!(gh.len(), 3);
    assert!(!gh.is_empty());
    assert!(GridHash::new().is_empty());
}

#[test]
fn gridhash_query_cells_goes_column_by_column() {
    let mut gh = GridHash::new();
    gh.insert((1, 1), entry(11, 0.0, 0.0, 0.1));
    gh.insert((0, 1), entry(1, 0.0, 0.0, 0.1));
    gh.insert((1, 0), entry(10, 0.0, 0.0, 0.1));
    gh.insert((0, 0), entry(0, 0.0, 0.0, 0.1));
    gh.insert((5, 5), entry(55, 0.0, 0.0, 0.1));
    assert_eq!(ids(&gh.query_cells((0, 0), (1, 1))), vec![0, 1, 10, 11]);
    assert!(gh.query_cells((1, 1), (0, 0)).is_empty());
}

#[test]
fn gridhash_extreme_cells_are_distinct() {
    let mut gh = GridHash::new();
    gh.insert((i32::MIN, i32::MAX), entry(1, 0.0, 0.0, 0.1));
    gh.insert((i32::MAX, i32::MIN), entry(2, 0.0, 0.0, 0.1));
    gh.insert((-1, -1), entry(3, 0.0, 0.0, 0.1));
    assert_eq!(ids(&gh.query_cell((i32::MIN, i32::MAX))), vec![1]);
    assert_eq!(ids(&gh.query_cell((i32::MAX, i32::MIN))), vec![2]);
    assert_eq!(ids(&gh.query_cell((-1, -1))), vec![3]);
    assert_eq!(ids(&gh.query_cells((i32::MAX, i32::MIN), (i32::MAX, i32::MIN))), vec![2]);
}

#[test]
fn gridhash_clone_holds_the_same_cells_and_stays_apart() {
    let mut gh = GridHash::new();
    gh.insert((0, 0), entry(1, 0.0, 0.0, 0.1));
    gh.insert((3, 4), entry(2, 0.0, 0.0, 0.1));
    let mut copy = gh.clone();
    assert_eq!(ids(&copy.query_cell((0, 0))), vec![1]);
    assert_eq!(ids(&copy.query_cell((3, 4))), vec![2]);
    assert_eq!(copy.len(), 2);
    copy.insert((0, 0), entry(3, 0.0, 0.0, 0.1));
    assert_eq!(ids(&copy.query_cell((0, 0))), vec![1, 3]);
    assert_eq!(ids(&gh.query_cell((0, 0))), vec![1]);
}

// ── SpatialHash ──

#[test]
fn spatialhash_insert_files_a_copy_in_every_covered_cell() {
    let mut sh = SpatialHash::new();
    sh.insert(entry(7, 0.0, 0.0, 0.1), (-1, 2), (1, 3));
    for x in -1..=1 {
        for y in 2..=3 {
            let found = sh.query_cell((x, y));
            assert_eq!(ids(&found), vec![7]);
            assert_eq!(found[0].data, "entry-7");
        }
    }
    assert!(sh.query_cell((2, 2)).is_empty());
    assert_eq!(sh.len(), 1);
}

#[test]
fn spatialhash_empty_cell_range_files_nothing() {
    let mut sh = SpatialHash::new();
    sh.insert(entry(7, 0.0, 0.0, 0.1), (1, 0), (0, 0));
    assert!(sh.is_empty());
    assert_eq!(sh.len(), 0);
}

#[test]
fn spatialhash_range_reports_each_id_once() {
    let mut sh = SpatialHash::new();
    sh.insert(entry(1, 5.0, 5.0, 4.0), (0, 0), (1, 1));
    sh.insert(entry(2, 50.0, 50.0, 0.5), (5, 5), (5, 5));
    sh.insert(entry(3, 8.0, 8.0, 0.5), (0, 0), (0, 0));
    let found = ids(&sh.query_range(aabb((0.0, 0.0), (19.0, 19.0)), (0, 0), (1, 1)));
    assert_eq!(found, vec![1, 3]);
}

#[test]
fn spatialhash_range_reports_a_later_entry_of_a_seen_id_that_meets_it() {
    let mut sh = SpatialHash::new();
    sh.insert(entry(4, 100.0, 100.0, 0.5), (0, 0), (0, 0));
    sh.insert(entry(4, 1.0, 1.0, 0.5), (0, 1), (0, 1));
    let found = sh.query_range(aabb((0.0, 0.0), (5.0, 5.0)), (0, 0), (0, 1));
    assert_eq!(found.len(), 1);
    assert_eq!(found[0].pos, v(1.0, 1.0));
}

#[test]
fn spatialhash_len_counts_distinct_ids() {
    let mut sh = SpatialHash::new();
    sh.insert(entry(1, 0.0, 0.0, 0.1), (0, 0), (2, 2));
    sh.insert(entry(2, 0.0, 0.0, 0.1), (1, 1), (1, 1));
    sh.insert(entry(1, 0.0, 0.0, 0.1), (9, 9), (9, 9));
    assert_eq!(sh.len(), 2);
    assert!(!sh.is_empty());
}

#[test]
fn spatialhash_clone_holds_the_same_cells() {
    let mut sh = SpatialHash::new();
    sh.insert(entry(1, 0.0, 0.0, 0.1), (0, 0), (1, 0));
    let copy = sh.clone();
    assert_eq!(ids(&copy.query_cell((0, 0))), vec![1]);
    assert_eq!(ids(&copy.query_cell((1, 0))), vec![1]);
    assert_eq!(copy.len(), 1);
    sh.insert(entry(2, 0.0, 0.0, 0.1), (0, 0), (0, 0));
    assert_eq!(ids(&copy.query_cell((0, 0))), vec![1]);
}

#[test]
fn coord_order_agrees_with_binary64_on_samples() {
    let samples = [
        f64::NEG_INFINITY,
        -1e308,
        -2.5,
        -1.0,
        -f64::MIN_POSITIVE,
        -5e-324,
        -0.0,
        0.0,
        5e-324,
        f64::MIN_POSITIVE,
        1.0,
        2.5,
        1e308,
        f64::INFINITY,
        f64::NAN,
        -f64::NAN,
    ];
    for a in samples {
        for b in samples {
            assert_eq!(c(a).le(&c(b)), a <= b, "{a} <= {b}");
            assert_eq!(c(a).lt(&c(b)), a < b, "{a} < {b}");
            assert_eq!(c(a) == c(b), a == b, "{a} == {b}");
            if !a.is_nan() && !b.is_nan() {
                assert_eq!(f(c(a).min(&c(b))), a.min(b));
                assert_eq!(f(c(a).max(&c(b))), a.max(b));
            }
        }
    }
}

#[test]
fn spatialhash_inserted_entry_is_found_by_a_range_over_its_cells() {
    let mut sh = SpatialHash::new();
    sh.insert(entry(1, 15.0, 15.0, 6.0), (0, 0), (2, 2));
    sh.insert(entry(2, 55.0, 55.0, 1.0), (5, 5), (5, 5));
    let found = ids(&sh.query_range(aabb((19.0, 19.0), (25.0, 25.0)), (1, 1), (2, 2)));
    assert_eq!(found, vec![1]);
}

#[test]
fn quadtree_coincident_points_stay_in_the_node_that_cannot_shrink() {
    let mut qt = QuadTree::new(aabb((0.0, 0.0), (100.0, 100.0)), 1);
    for i in 0..5 {
        assert!(qt.insert(entry(i, 10.0, 10.0, 0.5), &split));
    }
    assert_eq!(qt.len(), 5);
    let mut found = ids(&qt.query_point(v(10.0, 10.0)));
    found.sort();
    assert_eq!(found, vec![0, 1, 2, 3, 4]);
}

#[test]
fn quadtree_split_that_does_not_shrink_keeps_entries_at_the_root() {
    let same = |b: AABB| Quarters { nw: b, ne: b, sw: b, se: b };
    let mut qt = QuadTree::new(aabb((0.0, 0.0), (10.0, 10.0)), 1);
    assert!(qt.insert(entry(1, 5.0, 5.0, 0.1), &same));
    assert!(qt.insert(entry(2, 5.0, 5.0, 0.1), &same));
    assert!(qt.insert(entry(3, 6.0, 6.0, 0.1), &same));
    assert_eq!(qt.len(), 3);
    assert!(qt.is_subdivided());
    assert_eq!(qt.query_point(v(5.0, 5.0)).len(), 2);
}

#[test]
fn quadtree_range_finds_entries_whose_bounds_reach_outside_their_node() {
    let mut qt = QuadTree::new(aabb((0.0, 0.0), (10.0, 10.0)), 4);
    assert!(qt.insert(entry(1, 10.0, 10.0, 0.5), &split));
    assert_eq!(ids(&qt.query_range(aabb((10.2, 10.2), (11.0, 11.0)))), vec![1]);
    let (deep, _) = scattered_tree(1);
    let found = ids(&deep.query_range(aabb((63.3, 63.3), (63.9, 63.9))));
    let expected: Vec<u64> = deep
        .collect_all()
        .iter()
        .filter(|e| aabb((63.3, 63.3), (63.9, 63.9)).intersects(&e.bounds))
        .map(|e| e.id)
        .collect();
    assert_eq!(found, expected);
}

#[test]
fn radius_queries_keep_candidates_within_the_reported_distance() {
    let (qt, placed) = scattered_tree(2);
    let center = (30.0, 30.0);
    let dist = |e: &SpatialEntry| {
        let dx = f(e.pos.x) - center.0;
        let dy = f(e.pos.y) - center.1;
        c((dx * dx + dy * dy).sqrt())
    };
    let found = ids(&qt.query_radius(aabb((20.0, 20.0), (40.0, 40.0)), c(10.0), &dist));
    for (id, x, y) in placed {
        let d = ((x - center.0) * (x - center.0) + (y - center.1) * (y - center.1)).sqrt();
        assert_eq!(found.contains(&id), d <= 10.0, "entry {id}");
    }

    let mut gh = GridHash::new();
    gh.insert((0, 0), entry(1, 1.0, 1.0, 0.1));
    gh.insert((0, 0), entry(2, 9.0, 9.0, 0.1));
    gh.insert((1, 1), entry(3, 12.0, 12.0, 0.1));
    let near = |e: &SpatialEntry| c((f(e.pos.x) * f(e.pos.x) + f(e.pos.y) * f(e.pos.y)).sqrt());
    assert_eq!(ids(&gh.query_radius((0, 0), (1, 1), c(13.0), &near)), vec![1, 2]);

    let mut sh = SpatialHash::new();
    sh.insert(entry(1, 1.0, 1.0, 0.1), (0, 0), (0, 0));
    sh.insert(entry(2, 12.0, 12.0, 0.1), (1, 1), (1, 1));
    let range = aabb((0.0, 0.0), (20.0, 20.0));
    assert_eq!(ids(&sh.query_radius(range, (0, 0), (1, 1), c(5.0), &near)), vec![1]);
}
