use vstd::prelude::*;

use crate::cell::{Cell, is_piece};
use crate::grid::{Direction, fill_reachable_cells, lemma_neighbor, move_one, neighbor, stamp_spec, valid_board};

verus! {

/// The board after the piece on `src` is moved one step in direction `d`,
/// with the agent ending one step further on; `None` where the move is not
/// legal. Both cells ahead must be on the grid and reachable floor, and only
/// a loose piece moves: a seated piece stays in its socket.
pub open spec fn push_spec(b: Seq<Cell>, n: int, src: int, d: Direction) -> Option<Seq<Cell>> {
    if b[src] != Cell::Boulder {
        None
    } else {
        match neighbor(n, src, d) {
            None => None,
            Some(dest) => if b[dest] != Cell::Reachable {
                None
            } else {
                match neighbor(n, dest, d) {
                    None => None,
                    Some(land) => if b[land] != Cell::Reachable {
                        None
                    } else {
                        Some(
                            stamp_spec(
                                b.update(src, Cell::Unreachable).update(dest, Cell::Boulder),
                                n,
                                land,
                            ),
                        )
                    },
                }
            },
        }
    }
}

/// Moves the piece on `boulder` one step in direction `dir`, on a copy of
/// `grid`, and returns the canonical board that results; `None` where the
/// move is not legal, with `grid` untouched either way.
pub fn extend_state(boulder: usize, dir: Direction, grid: &Vec<Cell>, size: usize) -> (r: Option<
    Vec<Cell>,
>)
    requires
        valid_board(grid@, size as int),
        boulder < grid@.len(),
        is_piece(grid@[boulder as int]),
    ensures
        match push_spec(grid@, size as int, boulder as int, dir) {
            Some(b) => r matches Some(v) && v@ == b,
            None => r is None,
        },
        r matches Some(v) ==> v@.len() == grid@.len(),
{
    if grid[boulder] != Cell::Boulder {
        return None;
    }
    let new_boulder = match move_one(boulder, dir, size) {
        Some(j) => j,
        None => {
            return None;
        },
    };
    if grid[new_boulder] != Cell::Reachable {
        return None;
    }
    proof {
        lemma_neighbor(size as int, boulder as int, dir);
    }
    let new_tractor = match move_one(new_boulder, dir, size) {
        Some(j) => j,
        None => {
            return None;
        },
    };
    if grid[new_tractor] != Cell::Reachable {
        return None;
    }
    proof {
        lemma_neighbor(size as int, new_boulder as int, dir);
    }
    let mut new_grid = grid.clone();
    assert(new_grid@ =~= grid@);
    new_grid.set(boulder, Cell::Unreachable);
    new_grid.set(new_boulder, Cell::Boulder);
    fill_reachable_cells(new_tractor, &mut new_grid, size);
    Some(new_grid)
}


/// A push keeps every socket: an empty socket stays empty and a seated
/// piece stays seated, as does every wall.
pub proof fn lemma_push_keeps_fixed_cells(b: Seq<Cell>, n: int, src: int, d: Direction, i: int)
    requires
        valid_board(b, n),
        0 <= src < b.len(),
        0 <= i < b.len(),
        push_spec(b, n, src, d) is Some,
        b[i] == Cell::BoulderInHole || b[i] == Cell::Hole || b[i] == Cell::Block,
    ensures
        push_spec(b, n, src, d).unwrap()[i] == b[i],
{
    lemma_neighbor(n, src, d);
    let dest = neighbor(n, src, d).unwrap();
    lemma_neighbor(n, dest, d);
}

} // verus!
