use tilepath::astar::AStar;
use tilepath::grid::{get_map, GridError, MapData, MapRect, Tile};

#[test]
fn rects_store_inclusive_corners() {
    let r = MapRect::new(2, 3, 4, 5);
    assert_eq!((r.x1, r.y1, r.x2, r.y2), (2, 3, 6, 8));
    assert_eq!(r.center(), (4, 5));
}

#[test]
fn touching_rects_count_as_intersecting() {
    let a = MapRect::new(1, 1, 3, 3);
    let b = MapRect::new(4, 1, 3, 3);  // shares the edge x = 4
    let c = MapRect::new(6, 6, 2, 2);
    assert!(a.intersects(&b));
    assert!(b.intersects(&a));
    assert!(!a.intersects(&c));
    assert!(a.intersects(&a));
}

#[test]
fn new_grid_is_all_wall_with_default_parameters() {
    let map = MapData::new(12, 9, 77);
    assert_eq!(map.map_width, 12);
    assert_eq!(map.map_height, 9);
    assert_eq!(map.seed, 77);
    assert_eq!(map.max_rooms, 30);
    assert_eq!(map.max_room_size, 8);
    assert_eq!(map.min_room_size, 4);
    assert_eq!(map.map.len(), 108);
    assert!(map.map.iter().all(|t| *t == Tile::Wall));
}

#[test]
fn generation_with_same_seed_is_byte_identical() {
    let a = get_map(20, 20, 42).unwrap();
    let b = get_map(20, 20, 42).unwrap();
    assert_eq!(a.map, b.map);
}

#[test]
fn generation_carves_floor_inside_the_border() {
    let map = get_map(24, 18, 7).unwrap();
    let w = map.map_width;
    let h = map.map_height;
    assert!(map.map.iter().any(|t| *t == Tile::Floor));
    for x in 0..w {
        assert_eq!(map.map[x], Tile::Wall);
        assert_eq!(map.map[x + (h - 1) * w], Tile::Wall);
    }
    for y in 0..h {
        assert_eq!(map.map[y * w], Tile::Wall);
        assert_eq!(map.map[w - 1 + y * w], Tile::Wall);
    }
}

#[test]
fn too_small_grid_is_rejected_before_carving() {
    assert!(matches!(get_map(10, 20, 1), Err(GridError::InvalidGridDimensions)));
    assert!(matches!(get_map(20, 10, 1), Err(GridError::InvalidGridDimensions)));
    let mut tiny = MapData::new(10, 10, 1);
    let before = tiny.map.clone();
    assert_eq!(tiny.gen(), Err(GridError::InvalidGridDimensions));
    assert_eq!(tiny.map, before);
}

#[test]
fn generated_map_supports_a_full_search() {
    let map = get_map(30, 30, 42).unwrap();
    let mut astar = AStar::default();
    let path = astar.run(&map, 31, 868).unwrap();
    assert_eq!(*path.first().unwrap(), 868);
    assert_eq!(*path.last().unwrap(), 31);
    // Consecutive cells of the walk are 8-neighbors.
    for pair in path.windows(2) {
        let (ax, ay) = (pair[0] % 30, pair[0] / 30);
        let (bx, by) = (pair[1] % 30, pair[1] / 30);
        let dx = (ax as isize - bx as isize).abs();
        let dy = (ay as isize - by as isize).abs();
        assert!(dx <= 1 && dy <= 1 && dx + dy > 0);
    }
}

#[test]
fn different_seeds_vary_the_first_room() {
    // The sampled values feed the carving: two seeds whose first rooms
    // differ must differ somewhere in the tiles. These two do.
    let a = get_map(20, 20, 1).unwrap();
    let b = get_map(20, 20, 2).unwrap();
    assert_ne!(a.map, b.map);
}
