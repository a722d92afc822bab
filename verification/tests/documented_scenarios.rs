use lau_spatial::{Coord, GridHash, QuadTree, Quarters, SpatialEntry, SpatialHash, Vec2, AABB};

// The caller's side of the library: binary64 arithmetic on coordinates.

fn c(x: f64) -> Coord {
    Coord::from_bits(x.to_bits())
}

fn f(x: Coord) -> f64 {
    f64::from_bits(x.to_bits())
}

fn v(x: f64, y: f64) -> Vec2 {
    Vec2::new(c(x), c(y))
}

fn aabb(min: (f64, f64), max: (f64, f64)) -> AABB {
    AABB::new(v(min.0, min.1), v(max.0, max.1))
}

fn from_center(center: (f64, f64), half: (f64, f64)) -> AABB {
    aabb((center.0 - half.0, center.1 - half.1), (center.0 + half.0, center.1 + half.1))
}

fn split(b: AABB) -> Quarters {
    let (min_x, min_y) = (f(b.min.x), f(b.min.y));
    let half_x = (f(b.max.x) - min_x) * 0.5;
    let half_y = (f(b.max.y) - min_y) * 0.5;
    let quarter = |x: f64, y: f64| aabb((x, y), (x + half_x, y + half_y));
    Quarters {
        nw: quarter(min_x, min_y + half_y),
        ne: quarter(min_x + half_x, min_y + half_y),
        sw: quarter(min_x, min_y),
        se: quarter(min_x + half_x, min_y),
    }
}

fn distance(a: Vec2, b: Vec2) -> f64 {
    let dx = f(a.x) - f(b.x);
    let dy = f(a.y) - f(b.y);
    (dx * dx + dy * dy).sqrt()
}

fn cell_of(cell_size: f64, p: Vec2) -> (i32, i32) {
    ((f(p.x) / cell_size).floor() as i32, (f(p.y) / cell_size).floor() as i32)
}

fn make_entry(id: u64, x: f64, y: f64) -> SpatialEntry {
    make_entry_with_size(id, x, y, 0.5)
}

fn make_entry_with_size(id: u64, x: f64, y: f64, half: f64) -> SpatialEntry {
    SpatialEntry {
        id,
        pos: v(x, y),
        bounds: from_center((x, y), (half, half)),
        data: format!("entry-{id}"),
    }
}

fn distance_from(center: (f64, f64)) -> impl Fn(&SpatialEntry) -> Coord {
    move |e: &SpatialEntry| c(distance(v(center.0, center.1), e.pos))
}

fn quadtree_radius(qt: &QuadTree, center: (f64, f64), radius: f64) -> Vec<u64> {
    let search = from_center(center, (radius, radius));
    qt.query_radius(search, c(radius), &distance_from(center)).iter().map(|e| e.id).collect()
}

fn grid_radius(gh: &GridHash, cell_size: f64, center: (f64, f64), radius: f64) -> Vec<u64> {
    let lo = cell_of(cell_size, v(center.0 - radius, center.1 - radius));
    let hi = cell_of(cell_size, v(center.0 + radius, center.1 + radius));
    gh.query_radius(lo, hi, c(radius), &distance_from(center)).iter().map(|e| e.id).collect()
}

fn spatial_insert(sh: &mut SpatialHash, cell_size: f64, e: SpatialEntry) {
    let lo = cell_of(cell_size, e.bounds.min);
    let hi = cell_of(cell_size, e.bounds.max);
    sh.insert(e, lo, hi);
}

fn spatial_range(sh: &SpatialHash, cell_size: f64, range: AABB) -> Vec<u64> {
    let lo = cell_of(cell_size, range.min);
    let hi = cell_of(cell_size, range.max);
    sh.query_range(range, lo, hi).iter().map(|e| e.id).collect()
}

fn spatial_radius(sh: &SpatialHash, cell_size: f64, center: (f64, f64), radius: f64) -> Vec<u64> {
    let range = from_center(center, (radius, radius));
    let lo = cell_of(cell_size, range.min);
    let hi = cell_of(cell_size, range.max);
    sh.query_radius(range, lo, hi, c(radius), &distance_from(center)).iter().map(|e| e.id).collect()
}

// ── Vec2 ──

#[test]
fn vec2_new_and_zero() {
    let p = v(3.0, 4.0);
    assert_eq!(f(p.x), 3.0);
    assert_eq!(f(p.y), 4.0);
    let z = Vec2::zero();
    assert_eq!(f(z.x), 0.0);
    assert_eq!(f(z.y), 0.0);
}

// ── AABB ──

#[test]
fn aabb_contains() {
    let b = aabb((0.0, 0.0), (10.0, 10.0));
    assert!(b.contains(v(5.0, 5.0)));
    assert!(b.contains(v(0.0, 0.0)));
    assert!(b.contains(v(10.0, 10.0)));
    assert!(!b.contains(v(11.0, 5.0)));
}

#[test]
fn aabb_intersects() {
    let a = aabb((0.0, 0.0), (10.0, 10.0));
    let b = aabb((5.0, 5.0), (15.0, 15.0));
    let cc = aabb((11.0, 11.0), (20.0, 20.0));
    assert!(a.intersects(&b));
    assert!(!a.intersects(&cc));
}

#[test]
fn aabb_merge_expand() {
    let a = aabb((0.0, 0.0), (5.0, 5.0));
    let b = aabb((3.0, 3.0), (10.0, 8.0));
    let merged = a.merge(&b);
    assert_eq!(merged.min, v(0.0, 0.0));
    assert_eq!(merged.max, v(10.0, 8.0));

    let expanded = a.expand(v(12.0, -1.0));
    assert_eq!(expanded.min, v(0.0, -1.0));
    assert_eq!(expanded.max, v(12.0, 5.0));
}

// ── QuadTree ──

#[test]
fn quadtree_insert_and_len() {
    let mut qt = QuadTree::new(aabb((0.0, 0.0), (100.0, 100.0)), 4);
    assert_eq!(qt.len(), 0);
    assert!(qt.insert(make_entry(1, 10.0, 10.0), &split));
    assert!(qt.insert(make_entry(2, 20.0, 20.0), &split));
    assert_eq!(qt.len(), 2);
}

#[test]
fn quadtree_insert_outside_bounds_fails() {
    let mut qt = QuadTree::new(aabb((0.0, 0.0), (10.0, 10.0)), 4);
    assert!(!qt.insert(make_entry(1, 20.0, 20.0), &split));
}

#[test]
fn quadtree_subdivision() {
    let mut qt = QuadTree::new(aabb((0.0, 0.0), (100.0, 100.0)), 2);
    // Insert 5 entries in the same quadrant to force subdivision
    for i in 0..5 {
        assert!(qt.insert(make_entry(i, 10.0 + i as f64, 10.0), &split));
    }
    assert_eq!(qt.len(), 5);
    // Children should exist now
    assert!(qt.is_subdivided());
}

#[test]
fn quadtree_query_point() {
    let mut qt = QuadTree::new(aabb((0.0, 0.0), (100.0, 100.0)), 4);
    qt.insert(make_entry(1, 10.0, 10.0), &split);
    qt.insert(make_entry(2, 20.0, 20.0), &split);
    qt.insert(make_entry(3, 10.0, 10.0), &split); // same pos as entry 1

    let results = qt.query_point(v(10.0, 10.0));
    assert_eq!(results.len(), 2);
}

#[test]
fn quadtree_query_range() {
    let mut qt = QuadTree::new(aabb((0.0, 0.0), (100.0, 100.0)), 4);
    qt.insert(make_entry(1, 10.0, 10.0), &split);
    qt.insert(make_entry(2, 50.0, 50.0), &split);
    qt.insert(make_entry(3, 90.0, 90.0), &split);

    let results = qt.query_range(aabb((0.0, 0.0), (55.0, 55.0)));
    assert!(results.len() >= 2);
    let ids: Vec<u64> = results.iter().map(|e| e.id).collect();
    assert!(ids.contains(&1));
    assert!(ids.contains(&2));
}

#[test]
fn quadtree_query_radius() {
    let mut qt = QuadTree::new(aabb((0.0, 0.0), (100.0, 100.0)), 4);
    qt.insert(make_entry(1, 10.0, 10.0), &split);
    qt.insert(make_entry(2, 15.0, 10.0), &split); // 5 units away
    qt.insert(make_entry(3, 80.0, 80.0), &split); // far away

    let ids = quadtree_radius(&qt, (10.0, 10.0), 6.0);
    assert!(ids.contains(&1));
    assert!(ids.contains(&2));
    assert!(!ids.contains(&3));
}

#[test]
fn quadtree_nearest() {
    let mut qt = QuadTree::new(aabb((0.0, 0.0), (100.0, 100.0)), 4);
    qt.insert(make_entry(1, 10.0, 10.0), &split);
    qt.insert(make_entry(2, 20.0, 20.0), &split);
    qt.insert(make_entry(3, 50.0, 50.0), &split);

    let point = v(12.0, 12.0);
    let distances: Vec<Coord> = qt.collect_all().iter().map(|e| c(distance(point, e.pos))).collect();
    let nearest = qt.nearest(&distances, 2);
    assert_eq!(nearest.len(), 2);
    assert_eq!(nearest[0].0.id, 1); // closest
    assert_eq!(nearest[1].0.id, 2); // second closest
}

#[test]
fn quadtree_clear() {
    let mut qt = QuadTree::new(aabb((0.0, 0.0), (100.0, 100.0)), 4);
    qt.insert(make_entry(1, 10.0, 10.0), &split);
    qt.insert(make_entry(2, 20.0, 20.0), &split);
    assert_eq!(qt.len(), 2);
    qt.clear();
    assert_eq!(qt.len(), 0);
    assert!(!qt.is_subdivided());
}

// ── GridHash ──

#[test]
fn gridhash_insert_and_query_cell() {
    let mut gh = GridHash::new();
    for e in [make_entry(1, 5.0, 5.0), make_entry(2, 15.0, 5.0), make_entry(3, 5.0, 15.0)] {
        let cell = cell_of(10.0, e.pos);
        gh.insert(cell, e);
    }

    assert_eq!(gh.query_cell((0, 0)).len(), 1);
    assert_eq!(gh.query_cell((1, 0)).len(), 1);
    assert_eq!(gh.query_cell((0, 1)).len(), 1);
    assert_eq!(gh.query_cell((5, 5)).len(), 0);
}

#[test]
fn gridhash_query_radius() {
    let mut gh = GridHash::new();
    for e in [make_entry(1, 5.0, 5.0), make_entry(2, 25.0, 5.0), make_entry(3, 8.0, 5.0)] {
        let cell = cell_of(10.0, e.pos);
        gh.insert(cell, e);
    }

    let ids = grid_radius(&gh, 10.0, (5.0, 5.0), 5.0);
    assert!(ids.contains(&1));
    assert!(ids.contains(&3));
    assert!(!ids.contains(&2));
}

#[test]
fn gridhash_len() {
    let mut gh = GridHash::new();
    assert_eq!(gh.len(), 0);
    for e in [make_entry(1, 5.0, 5.0), make_entry(2, 15.0, 5.0)] {
        let cell = cell_of(10.0, e.pos);
        gh.insert(cell, e);
    }
    assert_eq!(gh.len(), 2);
}

// ── SpatialHash ──

#[test]
fn spatialhash_insert_large_entry() {
    let mut sh = SpatialHash::new();
    // Entry spans cells (0,0) through (1,1)
    spatial_insert(&mut sh, 10.0, make_entry_with_size(1, 10.0, 10.0, 8.0));

    assert_eq!(sh.query_cell((0, 0)).len(), 1);
    assert_eq!(sh.query_cell((1, 0)).len(), 1);
    assert_eq!(sh.query_cell((0, 1)).len(), 1);
    assert_eq!(sh.query_cell((1, 1)).len(), 1);
    assert_eq!(sh.query_cell((2, 2)).len(), 0);
}

#[test]
fn spatialhash_query_range() {
    let mut sh = SpatialHash::new();
    spatial_insert(&mut sh, 10.0, make_entry(1, 5.0, 5.0));
    spatial_insert(&mut sh, 10.0, make_entry(2, 25.0, 5.0));
    spatial_insert(&mut sh, 10.0, make_entry_with_size(3, 15.0, 15.0, 8.0)); // large, overlaps both

    let ids = spatial_range(&sh, 10.0, aabb((0.0, 0.0), (12.0, 12.0)));
    assert!(ids.contains(&1));
    assert!(ids.contains(&3));
}

#[test]
fn spatialhash_query_radius() {
    let mut sh = SpatialHash::new();
    spatial_insert(&mut sh, 10.0, make_entry(1, 5.0, 5.0));
    spatial_insert(&mut sh, 10.0, make_entry(2, 25.0, 25.0));

    let ids = spatial_radius(&sh, 10.0, (5.0, 5.0), 3.0);
    assert!(ids.contains(&1));
    assert!(!ids.contains(&2));
}

#[test]
fn spatialhash_len_dedup() {
    let mut sh = SpatialHash::new();
    // Large entry goes into multiple cells
    spatial_insert(&mut sh, 10.0, make_entry_with_size(1, 10.0, 10.0, 8.0));
    assert_eq!(sh.len(), 1);
}

// ── Cross-structure agreement ──

fn scattered_entries() -> Vec<SpatialEntry> {
    (0..50).map(|i| make_entry(i, (i * 7 % 200) as f64, (i * 13 % 200) as f64)).collect()
}

#[test]
fn quadtree_and_gridhash_agree_on_radius_query() {
    let mut qt = QuadTree::new(aabb((0.0, 0.0), (200.0, 200.0)), 8);
    let mut gh = GridHash::new();

    for e in &scattered_entries() {
        qt.insert(e.clone(), &split);
        gh.insert(cell_of(20.0, e.pos), e.clone());
    }

    let mut qt_ids = quadtree_radius(&qt, (100.0, 100.0), 50.0);
    qt_ids.sort();
    let mut gh_ids = grid_radius(&gh, 20.0, (100.0, 100.0), 50.0);
    gh_ids.sort();

    assert_eq!(qt_ids, gh_ids, "QuadTree and GridHash should return the same entries for radius query");
}

#[test]
fn quadtree_and_spatialhash_agree_on_radius_query() {
    let mut qt = QuadTree::new(aabb((0.0, 0.0), (200.0, 200.0)), 8);
    let mut sh = SpatialHash::new();

    for e in &scattered_entries() {
        qt.insert(e.clone(), &split);
        spatial_insert(&mut sh, 20.0, e.clone());
    }

    let mut qt_ids = quadtree_radius(&qt, (100.0, 100.0), 50.0);
    qt_ids.sort();
    let mut sh_ids = spatial_radius(&sh, 20.0, (100.0, 100.0), 50.0);
    sh_ids.sort();

    assert_eq!(qt_ids, sh_ids, "QuadTree and SpatialHash should return the same entries for radius query");
}

