use lvlgen::cell::Cell;
use lvlgen::grid::{
    fill_reachable_cells, find_reachable_empty_cells, grid_to_movement_graph, move_one, stamp,
    to_index, walk_graph_from, Direction,
};
use lvlgen::state_graph::find_solvable_states;

#[test]
fn test_search() {
    let grid = vec![
        Cell::BoulderInHole, Cell::Unreachable, Cell::Unreachable, Cell::BoulderInHole,
        Cell::Unreachable, Cell::Unreachable, Cell::Unreachable, Cell::Unreachable,
        Cell::Unreachable, Cell::Unreachable, Cell::Unreachable, Cell::Unreachable,
        Cell::BoulderInHole, Cell::Unreachable, Cell::Unreachable, Cell::BoulderInHole,
    ];
    find_solvable_states(8, grid, 4);
}

#[test]
fn test_walk_movement_graph() {
    let grid = vec![
        Cell::Hole, Cell::Unreachable, Cell::Unreachable, Cell::Hole,
        Cell::Unreachable, Cell::Boulder, Cell::Unreachable, Cell::Boulder,
        Cell::Boulder, Cell::Unreachable, Cell::Unreachable, Cell::Unreachable,
        Cell::Hole, Cell::Unreachable, Cell::Boulder, Cell::Hole,
    ];
    let graph = grid_to_movement_graph(&grid, 4);
    let reachable = walk_graph_from(1, &graph);
    assert_eq!(reachable.len(), 7);
    assert!(reachable.contains(&1));
    assert!(reachable.contains(&2));
    assert!(reachable.contains(&6));
    assert!(reachable.contains(&9));
    assert!(reachable.contains(&10));
    assert!(reachable.contains(&11));
    assert!(reachable.contains(&13));
}

#[test]
fn test_walk_movement_graph_2() {
    let grid = vec![
        Cell::Hole, Cell::Unreachable, Cell::Unreachable, Cell::BoulderInHole,
        Cell::Boulder, Cell::Unreachable, Cell::Unreachable, Cell::Unreachable,
        Cell::Unreachable, Cell::Unreachable, Cell::Unreachable, Cell::Unreachable,
        Cell::BoulderInHole, Cell::Unreachable, Cell::Unreachable, Cell::BoulderInHole,
    ];
    let graph = grid_to_movement_graph(&grid, 4);
    let reachable = walk_graph_from(8, &graph);
    assert_eq!(reachable.len(), 11);
    assert!(reachable.contains(&1));
    assert!(reachable.contains(&2));
    assert!(reachable.contains(&5));
    assert!(reachable.contains(&6));
    assert!(reachable.contains(&7));
    assert!(reachable.contains(&8));
    assert!(reachable.contains(&9));
    assert!(reachable.contains(&10));
    assert!(reachable.contains(&11));
    assert!(reachable.contains(&13));
    assert!(reachable.contains(&14));
}

#[test]
fn test_build_movement_graph() {
    let grid = vec![
        Cell::Hole, Cell::Unreachable, Cell::Unreachable, Cell::Hole,
        Cell::Unreachable, Cell::Boulder, Cell::Unreachable, Cell::Boulder,
        Cell::Boulder, Cell::Unreachable, Cell::Unreachable, Cell::Unreachable,
        Cell::Hole, Cell::Unreachable, Cell::Boulder, Cell::Hole,
    ];

    let graph = grid_to_movement_graph(&grid, 4);
    assert_eq!(graph.len(), 8);

    assert!(!graph.contains_key(&0));

    assert!(graph.contains_key(&1));
    assert_eq!(graph.get(&1).unwrap().len(), 1);
    assert_eq!(graph.get(&1).unwrap()[0], 2);

    assert!(graph.contains_key(&2));
    assert_eq!(graph.get(&2).unwrap().len(), 2);
    assert_eq!(graph.get(&2).unwrap()[0], 6);
    assert_eq!(graph.get(&2).unwrap()[1], 1);

    assert!(!graph.contains_key(&3));

    assert!(graph.contains_key(&4));
    assert_eq!(graph.get(&4).unwrap().len(), 0);

    assert!(!graph.contains_key(&5));

    assert!(graph.contains_key(&6));
    assert_eq!(graph.get(&6).unwrap().len(), 2);
    assert_eq!(graph.get(&6).unwrap()[0], 2);
    assert_eq!(graph.get(&6).unwrap()[1], 10);

    assert!(!graph.contains_key(&7));

    assert!(!graph.contains_key(&8));

    assert!(graph.contains_key(&9));
    assert_eq!(graph.get(&9).unwrap().len(), 2);
    assert_eq!(graph.get(&9).unwrap()[0], 13);
    assert_eq!(graph.get(&9).unwrap()[1], 10);

    assert!(graph.contains_key(&10));
    assert_eq!(graph.get(&10).unwrap().len(), 3);
    assert_eq!(graph.get(&10).unwrap()[0], 6);
    assert_eq!(graph.get(&10).unwrap()[1], 9);
    assert_eq!(graph.get(&10).unwrap()[2], 11);

    assert!(graph.contains_key(&11));
    assert_eq!(graph.get(&11).unwrap().len(), 1);
    assert_eq!(graph.get(&11).unwrap()[0], 10);

    assert!(!graph.contains_key(&12));

    assert!(graph.contains_key(&13));
    assert_eq!(graph.get(&13).unwrap().len(), 1);
    assert_eq!(graph.get(&13).unwrap()[0], 9);

    assert!(!graph.contains_key(&14));

    assert!(!graph.contains_key(&15));
}

fn sample_board() -> Vec<Cell> {
    vec![
        Cell::Hole, Cell::Unreachable, Cell::Unreachable, Cell::Hole,
        Cell::Unreachable, Cell::Boulder, Cell::Unreachable, Cell::Boulder,
        Cell::Boulder, Cell::Unreachable, Cell::Unreachable, Cell::Unreachable,
        Cell::Hole, Cell::Unreachable, Cell::Boulder, Cell::Hole,
    ]
}

#[test]
fn reachable_floor_is_part_of_the_walking_graph() {
    let mut grid = sample_board();
    grid[4] = Cell::Reachable;
    let graph = grid_to_movement_graph(&grid, 4);
    assert_eq!(graph.len(), 8);
    assert!(graph.contains_key(&4));
    assert!(graph.get(&20).is_none());
}

#[test]
fn index_arithmetic() {
    assert_eq!(to_index(2, 3, 4), 11);
    assert_eq!(move_one(5, Direction::Up, 4), Some(1));
    assert_eq!(move_one(5, Direction::Down, 4), Some(9));
    assert_eq!(move_one(5, Direction::Left, 4), Some(4));
    assert_eq!(move_one(5, Direction::Right, 4), Some(6));
    assert_eq!(move_one(3, Direction::Up, 4), None);
    assert_eq!(move_one(3, Direction::Right, 4), None);
    assert_eq!(move_one(12, Direction::Down, 4), None);
    assert_eq!(move_one(12, Direction::Left, 4), None);
}

#[test]
fn flood_is_symmetric() {
    let grid = sample_board();
    for a in 0..16usize {
        if grid[a] != Cell::Unreachable {
            continue;
        }
        let from_a = find_reachable_empty_cells(a, &grid, 4);
        for b in 0..16usize {
            if grid[b] != Cell::Unreachable {
                continue;
            }
            let from_b = find_reachable_empty_cells(b, &grid, 4);
            assert_eq!(from_a.contains(&b), from_b.contains(&a));
        }
    }
    let from_four = find_reachable_empty_cells(4, &grid, 4);
    assert_eq!(from_four.len(), 1);
    assert!(from_four.contains(&4));
}

#[test]
fn stamp_marks_the_agent_region() {
    let grid = sample_board();
    let stamped = stamp(&grid, 1, 4);
    for i in [1usize, 2, 6, 9, 10, 11, 13] {
        assert_eq!(stamped[i], Cell::Reachable);
    }
    assert_eq!(stamped[4], Cell::Unreachable);
    assert_eq!(stamped[5], Cell::Boulder);
    assert_eq!(stamped[0], Cell::Hole);
    let mut in_place = grid.clone();
    fill_reachable_cells(1, &mut in_place, 4);
    assert_eq!(in_place, stamped);
}

#[test]
fn stamp_clears_stale_marks() {
    let mut grid = sample_board();
    grid[4] = Cell::Reachable;
    let stamped = stamp(&grid, 1, 4);
    assert_eq!(stamped[4], Cell::Unreachable);
    assert_eq!(stamped[1], Cell::Reachable);
}

#[test]
fn stamp_is_idempotent() {
    let grid = sample_board();
    let first = stamp(&grid, 1, 4);
    for s2 in 0..16usize {
        if first[s2] == Cell::Reachable {
            assert_eq!(stamp(&first, s2, 4), stamp(&grid, s2, 4));
        }
    }
}
