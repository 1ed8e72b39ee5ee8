use bevyruman::aabb::Aabb;
use bevyruman::pairs::collision_pairs;
use bevyruman::spatial_index::SpatialIndex;

fn index_of(boxes: &Vec<Aabb>) -> SpatialIndex {
    let mut idx = SpatialIndex::new(10);
    let items: Vec<(Aabb, u64)> = boxes.iter().enumerate().map(|(k, b)| (*b, k as u64)).collect();
    idx.rebuild(&items);
    idx
}

#[test]
fn each_overlapping_pair_once() {
    // Three circles of radius 4 around the tile corner (0, 0), all overlapping.
    let boxes = vec![
        Aabb::from_circle(-2, -2, 4),
        Aabb::from_circle(2, -2, 4),
        Aabb::from_circle(0, 2, 4),
    ];
    let idx = index_of(&boxes);
    let mut pairs = collision_pairs(&idx, &boxes);
    pairs.sort();
    assert_eq!(pairs, vec![(0, 1), (0, 2), (1, 2)]);
}

#[test]
fn no_self_pairs_and_no_reverse_pairs() {
    let boxes = vec![Aabb::from_circle(0, 0, 4), Aabb::from_circle(3, 0, 4)];
    let idx = index_of(&boxes);
    let pairs = collision_pairs(&idx, &boxes);
    assert_eq!(pairs, vec![(0, 1)]);
}

#[test]
fn far_bodies_do_not_pair() {
    let boxes = vec![Aabb::from_circle(0, 0, 4), Aabb::from_circle(500, 500, 4)];
    let idx = index_of(&boxes);
    assert!(collision_pairs(&idx, &boxes).is_empty());
}

#[test]
fn no_bodies_no_pairs() {
    let boxes: Vec<Aabb> = Vec::new();
    let idx = index_of(&boxes);
    assert!(collision_pairs(&idx, &boxes).is_empty());
}

#[test]
fn ids_outside_the_arena_are_ignored() {
    let boxes = vec![Aabb::from_circle(0, 0, 4)];
    let mut idx = SpatialIndex::new(10);
    idx.insert(boxes[0], 0);
    idx.insert(boxes[0], 5);
    assert!(collision_pairs(&idx, &boxes).is_empty());
}


#[test]
fn pairs_come_body_after_body_in_query_order() {
    // Body 0 spans tiles (0, 0) and (1, 0); body 2 lies in tile (0, 0) and
    // body 1 in tile (1, 0). Body 0's query visits tile (0, 0) first, so its
    // partner 2 comes before its partner 1.
    let boxes = vec![
        Aabb { min_x: 8, min_y: 2, max_x: 12, max_y: 4 },
        Aabb { min_x: 10, min_y: 2, max_x: 11, max_y: 4 },
        Aabb { min_x: 5, min_y: 3, max_x: 9, max_y: 5 },
    ];
    let idx = index_of(&boxes);
    assert_eq!(collision_pairs(&idx, &boxes), vec![(0, 2), (0, 1)]);
}
