use boids::{SpatialHashMap2D, Vec2};

#[test]
fn added_value_is_a_neighbor_of_its_position() {
    let mut map = SpatialHashMap2D::new(10);
    let point = Vec2::new(5, 5);
    map.add(point, 7u32);
    assert_eq!(map.neighbors(point), vec![7u32]);
}

#[test]
fn three_by_three_block_returns_one_value_per_cell() {
    let mut map = SpatialHashMap2D::new(10);
    for y in 0..3 {
        for x in 0..3 {
            map.add(Vec2::new(x * 10 + 5, y * 10 + 5), (x, y));
        }
    }
    let found = map.neighbors(Vec2::new(15, 15));
    assert_eq!(found.len(), 9);
    // Row by row from the lowest row, each row from the lowest column.
    let expected: Vec<(i32, i32)> =
        vec![(0, 0), (1, 0), (2, 0), (0, 1), (1, 1), (2, 1), (0, 2), (1, 2), (2, 2)];
    assert_eq!(found, expected);
}

#[test]
fn corner_query_misses_cells_outside_its_block() {
    let mut map = SpatialHashMap2D::new(10);
    for y in 0..3 {
        for x in 0..3 {
            map.add(Vec2::new(x * 10 + 5, y * 10 + 5), (x, y));
        }
    }
    let found = map.neighbors(Vec2::new(5, 5));
    assert_eq!(found, vec![(0, 0), (1, 0), (0, 1), (1, 1)]);
}

#[test]
fn negative_positions_round_down_to_their_cell() {
    let mut map = SpatialHashMap2D::new(10);
    map.add(Vec2::new(-1, -1), 1u8);
    // Cell (-1, -1) is adjacent to cell (0, 0) ...
    assert_eq!(map.neighbors(Vec2::new(5, 5)), vec![1u8]);
    // ... but not to cell (1, 1).
    assert_eq!(map.neighbors(Vec2::new(15, 15)), Vec::<u8>::new());
    assert_eq!(map.neighbors(Vec2::new(-15, -15)), vec![1u8]);
}

#[test]
fn values_of_one_cell_keep_insertion_order() {
    let mut map = SpatialHashMap2D::new(4);
    map.add(Vec2::new(1, 1), 'a');
    map.add(Vec2::new(2, 3), 'b');
    map.add(Vec2::new(0, 0), 'c');
    assert_eq!(map.neighbors(Vec2::new(1, 2)), vec!['a', 'b', 'c']);
}

#[test]
fn clear_empties_every_cell() {
    let mut map = SpatialHashMap2D::new(10);
    map.add(Vec2::new(1, 1), 1u8);
    map.add(Vec2::new(100, 100), 2u8);
    map.clear();
    assert!(map.neighbors(Vec2::new(1, 1)).is_empty());
    assert!(map.neighbors(Vec2::new(100, 100)).is_empty());
}

#[test]
fn extreme_positions_are_filed_and_found() {
    let mut map = SpatialHashMap2D::new(1);
    map.add(Vec2::new(i32::MIN, i32::MAX), 3u8);
    assert_eq!(map.neighbors(Vec2::new(i32::MIN, i32::MAX)), vec![3u8]);
    assert_eq!(map.neighbors(Vec2::new(i32::MIN + 1, i32::MAX - 1)), vec![3u8]);
    assert!(map.neighbors(Vec2::new(i32::MIN + 2, i32::MAX)).is_empty());
}
