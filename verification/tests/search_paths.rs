use tilepath::astar::AStar;
use tilepath::breadth_first::BreadthFirst;
use tilepath::breadth_first_alt::BreadthFirst as BreadthFirstAlt;
use tilepath::dijkstra::Dijkstra;
use tilepath::grid::{GridError, MapData, Tile};
use tilepath::search::{heuristic, make_path, offset_position};

fn floor_grid(width: usize, height: usize) -> MapData {
    MapData {
        seed: 0,
        max_rooms: 30,
        max_room_size: 8,
        min_room_size: 4,
        map_width: width,
        map_height: height,
        map: vec![Tile::Floor; width * height],
    }
}

/// Sum of step costs along a path in end-to-start order: entering every
/// cell but the walk's origin costs 1 on floor and `wall_cost` on walls.
fn derived_cost(map: &MapData, path: &[usize], wall_cost: usize) -> usize {
    let mut total = 0;
    for &p in path.iter().take(path.len() - 1) {
        total += if map.map[p] == Tile::Wall { wall_cost } else { 1 };
    }
    total
}

#[test]
fn same_start_and_end_yields_singleton_path_at_cost_zero() {
    let map = floor_grid(5, 5);
    let mut astar = AStar::default();
    let path = astar.run(&map, 12, 12).unwrap();
    assert_eq!(path, vec![12]);
    assert_eq!(derived_cost(&map, &path, 100), 0);
}

#[test]
fn open_grid_diagonal_has_length_five_and_cost_four() {
    let map = floor_grid(5, 5);
    let mut astar = AStar::default();
    // start (0, 0), end (4, 4)
    let path = astar.run(&map, 0, 24).unwrap();
    assert_eq!(path.len(), 5);
    assert_eq!(derived_cost(&map, &path, 100), 4);
    assert_eq!(*path.first().unwrap(), 24);
    assert_eq!(*path.last().unwrap(), 0);
}

#[test]
fn wall_column_with_single_gap_routes_through_the_gap() {
    let mut map = floor_grid(5, 5);
    for y in 0..5 {
        if y != 2 {
            map.map[2 + y * 5] = Tile::Wall;
        }
    }
    let mut astar = AStar::default();
    let path = astar.run(&map, 0, 24).unwrap();
    // (2, 2) is index 12: the only cheap crossing of the wall column.
    assert!(path.contains(&12));
    for &p in &path {
        assert_eq!(map.map[p], Tile::Floor);
    }
}

#[test]
fn search_is_deterministic_across_runs() {
    let mut map = floor_grid(7, 7);
    map.map[10] = Tile::Wall;
    map.map[17] = Tile::Wall;
    map.map[24] = Tile::Wall;
    let mut a1 = AStar::default();
    let mut a2 = AStar::default();
    let p1 = a1.run(&map, 0, 48).unwrap();
    let p2 = a2.run(&map, 0, 48).unwrap();
    assert_eq!(p1, p2);
}

#[test]
fn derived_path_cost_matches_recorded_end_cost() {
    let mut map = floor_grid(5, 5);
    for y in 0..5 {
        if y != 2 {
            map.map[2 + y * 5] = Tile::Wall;
        }
    }
    let mut astar = AStar::default();
    let path = astar.run(&map, 0, 24).unwrap();
    let recorded = astar.recorded_cost(24).unwrap();
    assert_eq!(derived_cost(&map, &path, 100), recorded);
}

#[test]
fn out_of_bounds_query_is_rejected() {
    let map = floor_grid(4, 4);
    let mut astar = AStar::default();
    assert_eq!(astar.run(&map, 0, 16), Err(GridError::OutOfBounds));
    assert_eq!(astar.run(&map, 99, 3), Err(GridError::OutOfBounds));
    let mut dijkstra = Dijkstra::new();
    assert!(matches!(dijkstra.run(&map, 16, 0), Err(GridError::OutOfBounds)));
}

#[test]
fn weighted_search_crosses_walls_at_a_penalty() {
    // A ring of walls around the goal corner: still reachable, because
    // walls are expensive floor for the weighted searches.
    let mut map = floor_grid(5, 5);
    map.map[3 + 3 * 5] = Tile::Wall;
    map.map[4 + 3 * 5] = Tile::Wall;
    map.map[3 + 4 * 5] = Tile::Wall;
    let mut astar = AStar::default();
    let path = astar.run(&map, 0, 24).unwrap();
    assert_eq!(*path.first().unwrap(), 24);
    assert!(derived_cost(&map, &path, 100) >= 100);
}

#[test]
fn dijkstra_map_reconstructs_to_the_start() {
    let map = floor_grid(6, 6);
    let mut dijkstra = Dijkstra::new();
    let came_from = dijkstra.run(&map, 7, 28).unwrap();
    let path = make_path(&came_from, 7, 28).unwrap();
    assert_eq!(*path.first().unwrap(), 28);
    assert_eq!(*path.last().unwrap(), 7);
}

#[test]
fn dijkstra_round_trip_cost_is_exact() {
    let mut map = floor_grid(5, 5);
    for y in 0..5 {
        if y != 2 {
            map.map[2 + y * 5] = Tile::Wall;
        }
    }
    let mut dijkstra = Dijkstra::new();
    let came_from = dijkstra.run(&map, 0, 24).unwrap();
    let path = make_path(&came_from, 0, 24).unwrap();
    let recorded = dijkstra.recorded_cost(24).unwrap();
    assert_eq!(derived_cost(&map, &path, 10), recorded);
}

#[test]
fn make_path_reports_unreachable_on_missing_chain() {
    let came_from: Vec<Option<usize>> = vec![None, None, None, None];
    assert_eq!(make_path(&came_from, 0, 3), Err(GridError::Unreachable));
}

#[test]
fn make_path_reports_unreachable_on_a_cycle() {
    let came_from: Vec<Option<usize>> = vec![Some(1), Some(0), Some(1), None];
    assert_eq!(make_path(&came_from, 3, 0), Err(GridError::Unreachable));
}

#[test]
fn make_path_follows_an_explicit_chain() {
    let came_from: Vec<Option<usize>> = vec![None, Some(0), Some(1), Some(2)];
    let path = make_path(&came_from, 0, 3).unwrap();
    assert_eq!(path, vec![3, 2, 1, 0]);
}

#[test]
fn heuristic_is_manhattan_distance() {
    assert_eq!(heuristic(0, 24, 5), 8);
    assert_eq!(heuristic(24, 0, 5), 8);
    assert_eq!(heuristic(7, 7, 5), 0);
    assert_eq!(heuristic(3, 4, 5), 1);
}

#[test]
fn offset_position_moves_one_cell() {
    // From (1, 1) on a width-5 grid.
    assert_eq!(offset_position(-1, -1, 6, 5), 0);
    assert_eq!(offset_position(1, 1, 6, 5), 12);
    assert_eq!(offset_position(0, -1, 6, 5), 1);
    assert_eq!(offset_position(-1, 0, 6, 5), 5);
}

#[test]
fn flood_covers_an_open_grid() {
    let map = floor_grid(3, 3);
    let mut bfs = BreadthFirst::new();
    let reached = bfs.run(&map);
    assert_eq!(reached.len(), 9);
    assert_eq!(reached[0], (0, 0));
}

#[test]
fn flood_on_all_walls_is_empty() {
    let mut map = floor_grid(3, 3);
    for t in map.map.iter_mut() {
        *t = Tile::Wall;
    }
    let mut bfs = BreadthFirst::new();
    assert!(bfs.run(&map).is_empty());
}

#[test]
fn walled_off_cell_is_absent_from_the_flood() {
    // Seal (4, 4) behind a closed ring of walls with no floor gap: the
    // reachability flood never records it.
    let mut map = floor_grid(5, 5);
    map.map[3 + 3 * 5] = Tile::Wall;
    map.map[4 + 3 * 5] = Tile::Wall;
    map.map[3 + 4 * 5] = Tile::Wall;
    let mut bfs = BreadthFirstAlt::new();
    let came_from = bfs.run(&map, (0, 0));
    assert!(!came_from.is_empty());
    assert_eq!(came_from[0], ((0, 0), (-1, -1)));
    assert!(came_from.iter().all(|e| e.0 != (4, 4)));
}

#[test]
fn flood_records_adjacent_floor_predecessors() {
    let map = floor_grid(4, 4);
    let mut bfs = BreadthFirstAlt::new();
    let came_from = bfs.run(&map, (1, 1));
    assert_eq!(came_from.len(), 16);
    for (k, (cell, parent)) in came_from.iter().enumerate() {
        if k == 0 {
            assert_eq!(*parent, (-1, -1));
        } else {
            let dx = (cell.0 - parent.0).abs();
            let dy = (cell.1 - parent.1).abs();
            assert!(dx <= 1 && dy <= 1 && (dx, dy) != (0, 0));
        }
    }
}
