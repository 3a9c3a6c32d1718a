use lvlgen::cell::Cell;
use lvlgen::shortest_path::{ShortestGraph, Step};
use lvlgen::state_graph::find_solvable_states;

#[test]
fn tree_paths_and_layers() {
    let mut tree = ShortestGraph::new(7);
    tree.insert(&7, 3);
    tree.insert(&3, 9);
    tree.insert(&7, 4);
    assert_eq!(tree.depth(&7), Some(0));
    assert_eq!(tree.depth(&9), Some(2));
    assert_eq!(tree.depth(&5), None);
    assert_eq!(tree.path(&9), Some(vec![9, 3, 7]));
    assert_eq!(tree.path(&5), None);
    assert_eq!(tree.build_dist(), vec![vec![7], vec![3, 4], vec![9]]);
}

#[test]
fn tree_steps() {
    let root = Step::root(4);
    assert_eq!(root, Step { id: 4, depth: 0, prev: None });
    assert_eq!(root.extend(6), Step { id: 6, depth: 1, prev: Some(4) });
}

#[test]
fn tree_from_state_graph_matches_depths() {
    let grid = vec![
        Cell::Unreachable, Cell::Unreachable, Cell::Unreachable, Cell::Unreachable,
        Cell::Unreachable, Cell::Boulder, Cell::Unreachable, Cell::Unreachable,
        Cell::Unreachable, Cell::Unreachable, Cell::Boulder, Cell::Unreachable,
        Cell::Unreachable, Cell::Unreachable, Cell::Unreachable, Cell::Hole,
    ];
    let graph = find_solvable_states(0, grid, 4);
    let tree = graph.build_shortest_path_from(&0);
    for id in 0..graph.len() {
        assert_eq!(tree.depth(&id), graph.get_depth(&id));
        assert_eq!(tree.path(&id), graph.get_path_to_root(&id));
    }
}
