use bevyruman::aabb::{tile_coord, Aabb};
use bevyruman::spatial_index::SpatialIndex;

fn bx(min_x: i32, min_y: i32, max_x: i32, max_y: i32) -> Aabb {
    Aabb { min_x, min_y, max_x, max_y }
}

fn sorted(mut v: Vec<u64>) -> Vec<u64> {
    v.sort();
    v
}

#[test]
fn tile_coord_floors_positive_and_negative() {
    assert_eq!(tile_coord(0, 10), 0);
    assert_eq!(tile_coord(9, 10), 0);
    assert_eq!(tile_coord(10, 10), 1);
    assert_eq!(tile_coord(-1, 10), -1);
    assert_eq!(tile_coord(-10, 10), -1);
    assert_eq!(tile_coord(-11, 10), -2);
    assert_eq!(tile_coord(i32::MIN, 1), i32::MIN);
    assert_eq!(tile_coord(i32::MAX, 1), i32::MAX);
    assert_eq!(tile_coord(i32::MIN, 10), -214748365);
}

#[test]
fn aabb_from_circle_and_intersects() {
    let a = Aabb::from_circle(5, -5, 4);
    assert_eq!(a, bx(1, -9, 9, -1));
    assert!(a.intersects(&bx(9, -1, 20, 20)));
    assert!(!a.intersects(&bx(10, -1, 20, 20)));
    // A box with its minimum past its maximum holds no point.
    assert!(!a.intersects(&bx(5, -5, 4, -5)));
}

#[test]
fn empty_index_yields_nothing() {
    let idx = SpatialIndex::new(10);
    assert_eq!(idx.tile_size(), 10);
    assert!(idx.query(bx(-100, -100, 100, 100)).is_empty());
}

#[test]
fn far_query_is_empty() {
    // Body A spans tiles (0,0)-(1,1); the query sits in tile (100,100).
    let mut idx = SpatialIndex::new(10);
    idx.insert(bx(0, 0, 19, 19), 7);
    assert!(idx.query(bx(1000, 1000, 1005, 1005)).is_empty());
    assert_eq!(idx.query(bx(15, 15, 16, 16)), vec![7]);
}

#[test]
fn overlapping_box_is_found() {
    let mut idx = SpatialIndex::new(10);
    idx.insert(bx(-3, -3, 3, 3), 1);
    idx.insert(bx(40, 40, 44, 44), 2);
    let r = idx.query(bx(2, 2, 5, 5));
    assert!(r.contains(&1));
    assert!(!r.contains(&2));
}

#[test]
fn box_across_tiles_repeats_in_results() {
    let mut idx = SpatialIndex::new(10);
    // Spans tiles x in {-1, 0}, y in {-1, 0}.
    idx.insert(bx(-5, -5, 5, 5), 3);
    let r = idx.query(bx(-20, -20, 20, 20));
    assert_eq!(r, vec![3, 3, 3, 3]);
    // A query inside one tile sees it once.
    assert_eq!(idx.query(bx(-2, 1, -1, 2)), vec![3]);
}

#[test]
fn query_order_is_row_after_row() {
    let mut idx = SpatialIndex::new(10);
    idx.insert(bx(10, 0, 10, 0), 11);
    idx.insert(bx(0, 0, 0, 0), 10);
    idx.insert(bx(0, 10, 0, 10), 20);
    idx.insert(bx(1, 1, 1, 1), 12);
    assert_eq!(idx.query(bx(0, 0, 19, 19)), vec![10, 12, 11, 20]);
}

#[test]
fn disjoint_box_in_same_tile_is_not_returned() {
    // The boxes share tile (0, 0) but no point: the id never appears.
    let mut idx = SpatialIndex::new(10);
    idx.insert(bx(0, 0, 1, 1), 4);
    assert!(idx.query(bx(5, 5, 6, 6)).is_empty());
    // Touching at a single corner is an overlap.
    assert_eq!(idx.query(bx(1, 1, 6, 6)), vec![4]);
}

#[test]
fn query_keeps_only_overlapping_boxes_in_order() {
    let mut idx = SpatialIndex::new(10);
    idx.insert(bx(0, 0, 2, 2), 1);
    idx.insert(bx(7, 7, 9, 9), 2);
    idx.insert(bx(3, 3, 12, 4), 3);
    // Tile (0, 0) holds 1, 2, 3 and tile (1, 0) holds 3; only 2 misses.
    assert_eq!(idx.query(bx(2, 2, 14, 5)), vec![1, 3, 3]);
}

#[test]
fn soft_clear_empties_every_bucket() {
    let mut idx = SpatialIndex::new(10);
    idx.insert(bx(0, 0, 30, 30), 1);
    idx.soft_clear();
    assert!(idx.query(bx(-50, -50, 50, 50)).is_empty());
    idx.insert(bx(0, 0, 0, 0), 2);
    assert_eq!(idx.query(bx(-50, -50, 50, 50)), vec![2]);
}

#[test]
fn rebuild_matches_fresh_index() {
    let items = vec![
        (bx(0, 0, 12, 3), 1u64),
        (bx(-8, -8, -2, -2), 2u64),
        (bx(5, 5, 25, 25), 3u64),
    ];
    let mut reused = SpatialIndex::new(10);
    reused.insert(bx(-100, -100, 100, 100), 99);
    reused.rebuild(&items);
    let mut fresh = SpatialIndex::new(10);
    for (b, id) in items.iter() {
        fresh.insert(*b, *id);
    }
    let queries = vec![
        bx(-20, -20, 30, 30),
        bx(0, 0, 0, 0),
        bx(-5, -5, 5, 5),
        bx(100, 100, 120, 120),
    ];
    for q in queries.iter() {
        assert_eq!(reused.query(*q), fresh.query(*q));
    }
    assert_eq!(sorted(reused.query(bx(-20, -20, 30, 30))).first(), Some(&1));
    assert!(!reused.query(bx(-100, -100, 100, 100)).contains(&99));
}

#[test]
fn negative_coordinates_share_tiles_with_floor_division() {
    let mut idx = SpatialIndex::new(10);
    // -1 is in tile -1, not tile 0: a query at 0..5 does not see it.
    idx.insert(bx(-1, -1, -1, -1), 5);
    assert!(idx.query(bx(0, 0, 5, 5)).is_empty());
    assert_eq!(idx.query(bx(-10, -10, -1, -1)), vec![5]);
}

#[test]
fn extreme_coordinates_are_indexed() {
    let mut idx = SpatialIndex::new(1);
    idx.insert(bx(i32::MAX, i32::MAX, i32::MAX, i32::MAX), 1);
    idx.insert(bx(i32::MIN, i32::MIN, i32::MIN, i32::MIN), 2);
    assert_eq!(idx.query(bx(i32::MAX - 1, i32::MAX - 1, i32::MAX, i32::MAX)), vec![1]);
    assert_eq!(idx.query(bx(i32::MIN, i32::MIN, i32::MIN + 1, i32::MIN + 1)), vec![2]);
}
