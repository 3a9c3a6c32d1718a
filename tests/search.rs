use lvlgen::cell::Cell;
use lvlgen::grid::{stamp, Direction};
use lvlgen::moves::extend_state;
use lvlgen::state_graph::{find_solvable_states, key_of, StateGraph, Step};

const W: Cell = Cell::Block;
const F: Cell = Cell::Unreachable;
const P: Cell = Cell::Boulder;

fn corner_board() -> Vec<Cell> {
    vec![
        Cell::BoulderInHole, F, F, Cell::BoulderInHole,
        F, F, F, F,
        F, F, F, F,
        Cell::BoulderInHole, F, F, Cell::BoulderInHole,
    ]
}

#[test]
fn seated_pieces_never_move() {
    let graph = find_solvable_states(5, corner_board(), 4);
    assert_eq!(graph.len(), 1);
    assert_eq!(graph.get_depth(&0), Some(0));
    assert_eq!(graph.get_neighbors(&0).unwrap().len(), 0);
    let root = graph.get_state(&0).unwrap();
    assert_eq!(root[0], Cell::BoulderInHole);
    assert_eq!(root[5], Cell::Reachable);
}

fn runway_board() -> Vec<Cell> {
    vec![
        W, W, W,
        P, F, F,
        W, W, W,
    ]
}

#[test]
fn push_moves_piece_one_step() {
    let graph = find_solvable_states(5, runway_board(), 3);
    assert_eq!(graph.len(), 2);
    assert_eq!(graph.get_neighbors(&0).unwrap(), &vec![1]);
    assert_eq!(graph.get_depth(&1), Some(1));
    let next = graph.get_state(&1).unwrap();
    assert_eq!(next[3], Cell::Unreachable);
    assert_eq!(next[4], Cell::Boulder);
    assert_eq!(next[5], Cell::Reachable);
    assert_eq!(graph.get_path_to_root(&1), Some(vec![1, 0]));
}

#[test]
fn illegal_pushes_give_nothing() {
    let root = stamp(&runway_board(), 5, 3);
    assert!(extend_state(3, Direction::Up, &root, 3).is_none());
    assert!(extend_state(3, Direction::Left, &root, 3).is_none());
    let moved = extend_state(3, Direction::Right, &root, 3).unwrap();
    assert!(extend_state(4, Direction::Right, &moved, 3).is_none());
    assert!(extend_state(4, Direction::Left, &moved, 3).is_none());
    let mut seated = root.clone();
    seated[3] = Cell::BoulderInHole;
    assert!(extend_state(3, Direction::Right, &seated, 3).is_none());
}

fn board(tag: usize) -> Vec<Cell> {
    let mut b = vec![F; 9];
    b[tag] = W;
    b
}

#[test]
fn relaxation_prefers_the_shorter_route() {
    let mut graph = StateGraph::new(board(0));
    let a = graph.insert_state(board(1));
    graph.connect(0, a);
    let b = graph.insert_state(board(2));
    graph.connect(a, b);
    let c = graph.insert_state(board(3));
    graph.connect(b, c);
    assert_eq!(graph.get_depth(&c), Some(3));
    graph.connect(0, c);
    assert_eq!(graph.get_depth(&c), Some(1));
    assert_eq!(graph.get_path_to_root(&c), Some(vec![c, 0]));
    graph.connect(a, c);
    assert_eq!(graph.get_depth(&c), Some(1));
    assert_eq!(graph.get_neighbors(&0).unwrap(), &vec![a, c]);
}

#[test]
fn rebuild_paths_propagates_shorter_routes() {
    let mut graph = StateGraph::new(board(0));
    let a = graph.insert_state(board(1));
    graph.connect(0, a);
    let b = graph.insert_state(board(2));
    graph.connect(a, b);
    let c = graph.insert_state(board(3));
    graph.connect(b, c);
    let d = graph.insert_state(board(4));
    graph.connect(c, d);
    graph.connect(0, c);
    assert_eq!(graph.get_depth(&d), Some(4));
    graph.rebuild_paths();
    assert_eq!(graph.get_depth(&c), Some(1));
    assert_eq!(graph.get_depth(&d), Some(2));
    assert_eq!(graph.get_path_to_root(&d), Some(vec![d, c, 0]));
    assert_eq!(graph.get_dist(), vec![vec![0], vec![a, c], vec![b, d]]);
}

#[test]
fn connect_states_by_board() {
    let mut graph = StateGraph::new(board(0));
    graph.insert_state(board(1));
    graph.connect_states(&board(0), &board(1));
    assert_eq!(graph.get_neighbors(&0).unwrap(), &vec![1]);
    assert_eq!(graph.get_depth(&1), Some(1));
    assert!(graph.contains_state(&board(1)));
    assert!(!graph.contains_state(&board(5)));
    assert_eq!(graph.id_of(&board(1)), Some(1));
}

#[test]
fn queries_on_unknown_ids_are_absent() {
    let graph = StateGraph::new(board(0));
    assert!(graph.get_state(&7).is_none());
    assert!(graph.get_neighbors(&7).is_none());
    assert!(graph.get_depth(&7).is_none());
    assert!(graph.get_path_to_root(&7).is_none());
    assert!(graph.contains_id(&0));
    assert!(!graph.contains_id(&1));
}

#[test]
fn unconnected_node_has_no_depth() {
    let mut graph = StateGraph::new(board(0));
    let a = graph.insert_state(board(1));
    assert_eq!(graph.get_depth(&a), None);
    assert_eq!(graph.get_path_to_root(&a), None);
    assert_eq!(graph.get_dist(), vec![vec![0]]);
}

fn open_board() -> Vec<Cell> {
    vec![
        F, F, F, F,
        F, P, F, F,
        F, F, P, F,
        F, F, F, Cell::Hole,
    ]
}

#[test]
fn finished_graph_laws() {
    let graph = find_solvable_states(0, open_board(), 4);
    let n = graph.len();
    assert!(n > 2);
    assert_eq!(graph.get_depth(&0), Some(0));
    for id in 0..n {
        let depth = graph.get_depth(&id).unwrap();
        for to in graph.get_neighbors(&id).unwrap() {
            assert!(graph.get_depth(to).unwrap() <= depth + 1);
        }
        let path = graph.get_path_to_root(&id).unwrap();
        assert_eq!(path.len(), depth + 1);
        assert_eq!(*path.last().unwrap(), 0);
        assert_eq!(path[0], id);
    }
    for i in 0..n {
        for j in 0..n {
            if i != j {
                assert_ne!(graph.get_state(&i), graph.get_state(&j));
            }
        }
    }
    for id in 0..n {
        let state = graph.get_state(&id).unwrap().clone();
        for idx in 0..16usize {
            if state[idx] != Cell::Boulder {
                continue;
            }
            for dir in [Direction::Up, Direction::Down, Direction::Left, Direction::Right] {
                if let Some(next) = extend_state(idx, dir, &state, 4) {
                    let to = graph.id_of(&next).unwrap();
                    assert!(graph.get_neighbors(&id).unwrap().contains(&to));
                }
            }
        }
    }
    let total: usize = graph.get_dist().iter().map(|ids| ids.len()).sum();
    assert_eq!(total, n);
}

#[test]
fn every_edge_is_a_legal_push() {
    let graph = find_solvable_states(0, open_board(), 4);
    for id in 0..graph.len() {
        let state = graph.get_state(&id).unwrap().clone();
        for to in graph.get_neighbors(&id).unwrap() {
            let target = graph.get_state(to).unwrap();
            let mut found = false;
            for idx in 0..16usize {
                if state[idx] != Cell::Boulder {
                    continue;
                }
                for dir in [Direction::Up, Direction::Down, Direction::Left, Direction::Right] {
                    if extend_state(idx, dir, &state, 4).as_ref() == Some(target) {
                        found = true;
                    }
                }
            }
            assert!(found);
        }
    }
}

#[test]
fn sockets_and_walls_never_change() {
    let mut start = open_board();
    start[12] = W;
    let graph = find_solvable_states(0, start, 4);
    assert!(graph.len() > 2);
    for id in 0..graph.len() {
        let state = graph.get_state(&id).unwrap();
        assert_eq!(state[15], Cell::Hole);
        assert_eq!(state[12], W);
        let pieces = state.iter().filter(|c| **c == P).count();
        assert_eq!(pieces, 2);
    }
}

#[test]
fn tables_round_trip() {
    let graph = find_solvable_states(0, open_board(), 4);
    let (states, neighbors, path) = graph.parts();
    let restored = StateGraph::from_parts(states.clone(), neighbors.clone(), path.clone()).unwrap();
    assert_eq!(restored.len(), graph.len());
    for id in 0..graph.len() {
        assert_eq!(restored.get_state(&id), graph.get_state(&id));
        assert_eq!(restored.get_neighbors(&id), graph.get_neighbors(&id));
        assert_eq!(restored.get_depth(&id), graph.get_depth(&id));
        assert_eq!(restored.get_path_to_root(&id), graph.get_path_to_root(&id));
    }
}

#[test]
fn malformed_tables_are_refused() {
    let boards = vec![board(0), board(1)];
    let lists = vec![vec![1], vec![]];
    let root = Some(Step { depth: 0, prev: None });
    let child = Some(Step { depth: 1, prev: Some(0) });
    assert!(StateGraph::from_parts(boards.clone(), lists.clone(), vec![root, child]).is_some());
    assert!(StateGraph::from_parts(vec![board(0), board(0)], lists.clone(), vec![root, child]).is_none());
    assert!(StateGraph::from_parts(boards.clone(), vec![vec![2], vec![]], vec![root, child]).is_none());
    assert!(StateGraph::from_parts(boards.clone(), lists.clone(), vec![child, root]).is_none());
    let cycle = Some(Step { depth: 1, prev: Some(1) });
    assert!(StateGraph::from_parts(boards.clone(), lists.clone(), vec![root, cycle]).is_none());
    assert!(StateGraph::from_parts(vec![], vec![], vec![]).is_none());
}

#[test]
fn step_extends_by_one() {
    let s = Step { depth: 2, prev: Some(0) };
    assert_eq!(s.extend(5), Step { depth: 3, prev: Some(5) });
}

#[test]
fn board_keys_fold_cells_in_base_thirty_one() {
    assert_eq!(key_of(&vec![]), 0);
    assert_eq!(key_of(&vec![Cell::Reachable, Cell::Boulder]), 36);
    assert_eq!(key_of(&vec![Cell::Block, Cell::Hole, Cell::BoulderInHole]), 4 * 961 + 3 * 31 + 2);
    let long = vec![Cell::Boulder; 40];
    let mut expected: u64 = 0;
    for _ in 0..40 {
        expected = expected.wrapping_mul(31).wrapping_add(5);
    }
    assert_eq!(key_of(&long), expected);
}

#[test]
fn successor_lists_follow_scan_order() {
    let graph = find_solvable_states(0, open_board(), 4);
    for id in 0..graph.len() {
        let state = graph.get_state(&id).unwrap().clone();
        let mut expected = vec![];
        for idx in 0..16usize {
            if state[idx] != Cell::Boulder && state[idx] != Cell::BoulderInHole {
                continue;
            }
            for dir in [Direction::Up, Direction::Down, Direction::Left, Direction::Right] {
                if let Some(next) = extend_state(idx, dir, &state, 4) {
                    expected.push(graph.id_of(&next).unwrap());
                }
            }
        }
        assert_eq!(graph.get_neighbors(&id).unwrap(), &expected);
    }
}
