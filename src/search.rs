use vstd::prelude::*;

use crate::cell::Cell;
use crate::counting::{lemma_boards_bound, pow6};
use crate::grid::{Direction, fill_reachable_cells, stamp_spec, valid_board};
use crate::moves::{extend_state, push_spec};
use crate::state_graph::{StateGraph, has_smaller_pred, rooted, shortest_table};

verus! {

/// Every edge is a legal push: the board at its end results from one legal
/// push on the board at its start.
pub open spec fn edges_sound(boards: Seq<Seq<Cell>>, edges: Seq<Seq<usize>>, n: int) -> bool {
    forall|u: int, j: int|
        0 <= u < edges.len() && 0 <= j < edges[u].len() ==> one_push(n, boards[u], boards[#[trigger] edges[u][j] as int])
}

proof fn lemma_sound_after_connect(
    b: Seq<Seq<Cell>>,
    e1: Seq<Seq<usize>>,
    e2: Seq<Seq<usize>>,
    n: int,
    from: int,
    to: usize,
)
    requires
        edges_sound(b, e1, n),
        0 <= from < e1.len(),
        e2 == e1.update(from, e1[from].push(to)),
        one_push(n, b[from], b[to as int]),
    ensures
        edges_sound(b, e2, n),
{
    assert forall|u: int, j: int| 0 <= u < e2.len() && 0 <= j < e2[u].len() implies one_push(
        n,
        b[u],
        b[#[trigger] e2[u][j] as int],
    ) by {
        if u != from || j < e1[from].len() {
            assert(e2[u][j] == e1[u][j]);
        }
    }
}

proof fn lemma_sound_after_insert(b: Seq<Seq<Cell>>, e: Seq<Seq<usize>>, nb: Seq<Cell>, n: int)
    requires
        edges_sound(b, e, n),
        e.len() == b.len(),
        forall|i: int, j: int| 0 <= i < e.len() && 0 <= j < e[i].len() ==> #[trigger] e[i][j] < b.len(),
    ensures
        edges_sound(b.push(nb), e.push(Seq::empty()), n),
{
    let b2 = b.push(nb);
    let e2 = e.push(Seq::<usize>::empty());
    assert forall|u: int, j: int| 0 <= u < e2.len() && 0 <= j < e2[u].len() implies one_push(
        n,
        b2[u],
        b2[#[trigger] e2[u][j] as int],
    ) by {
        assert(e2[u][j] == e[u][j]);
        assert(e[u][j] < b.len());
        assert(one_push(n, b[u], b[e[u][j] as int]));
    }
}

/// Every board has `n * n` cells.
pub open spec fn all_valid(boards: Seq<Seq<Cell>>, n: int) -> bool {
    forall|i: int| 0 <= i < boards.len() ==> valid_board(#[trigger] boards[i], n)
}

/// Where the push of the piece on `idx` in direction `d` is legal on the
/// board of `id`, the board it gives is in the graph with an edge to it.
pub open spec fn handled(
    boards: Seq<Seq<Cell>>,
    edges: Seq<Seq<usize>>,
    n: int,
    id: int,
    idx: int,
    d: Direction,
) -> bool {
    push_spec(boards[id], n, idx, d) matches Some(nb) ==> exists|j: int|
        0 <= j < boards.len() && #[trigger] boards[j] == nb && edges[id].contains(j as usize)
}

/// Every legal push from the board of `id` has been followed.
pub open spec fn expanded(boards: Seq<Seq<Cell>>, edges: Seq<Seq<usize>>, n: int, id: int) -> bool {
    forall|idx: int, d: Direction| 0 <= idx < n * n ==> #[trigger] handled(boards, edges, n, id, idx, d)
}

/// `(b2, e2)` grows `(b1, e1)`: boards are only appended, and each
/// successor list only grows at its end.
pub open spec fn extends(
    b1: Seq<Seq<Cell>>,
    e1: Seq<Seq<usize>>,
    b2: Seq<Seq<Cell>>,
    e2: Seq<Seq<usize>>,
) -> bool {
    &&& b1.len() <= b2.len()
    &&& e1.len() == b1.len()
    &&& e2.len() == b2.len()
    &&& forall|i: int| 0 <= i < b1.len() ==> #[trigger] b2[i] == b1[i]
    &&& forall|i: int|
        0 <= i < e1.len() ==> (#[trigger] e2[i]).len() >= e1[i].len() && e1[i] == e2[i].take(
            e1[i].len() as int,
        )
}

proof fn lemma_extends_refl(b: Seq<Seq<Cell>>, e: Seq<Seq<usize>>)
    requires
        e.len() == b.len(),
    ensures
        extends(b, e, b, e),
{
    assert forall|i: int| 0 <= i < e.len() implies (#[trigger] e[i]).len() >= e[i].len() && e[i]
        == e[i].take(e[i].len() as int) by {
        assert(e[i] =~= e[i].take(e[i].len() as int));
    }
}

/// Appending one edge, or one board with no edges, grows the graph.
proof fn lemma_extends_step(
    b1: Seq<Seq<Cell>>,
    e1: Seq<Seq<usize>>,
    b2: Seq<Seq<Cell>>,
    e2: Seq<Seq<usize>>,
    from: int,
    to: usize,
)
    requires
        e1.len() == b1.len(),
        0 <= from < e1.len(),
        b2 == b1,
        e2 == e1.update(from, e1[from].push(to)),
    ensures
        extends(b1, e1, b2, e2),
{
    assert forall|i: int| 0 <= i < e1.len() implies (#[trigger] e2[i]).len() >= e1[i].len() && e1[i]
        == e2[i].take(e1[i].len() as int) by {
        assert(e1[i] =~= e2[i].take(e1[i].len() as int));
    }
}

proof fn lemma_extends_insert(
    b1: Seq<Seq<Cell>>,
    e1: Seq<Seq<usize>>,
    b: Seq<Cell>,
)
    requires
        e1.len() == b1.len(),
    ensures
        extends(b1, e1, b1.push(b), e1.push(Seq::empty())),
{
    let e2 = e1.push(Seq::<usize>::empty());
    assert forall|i: int| 0 <= i < e1.len() implies (#[trigger] e2[i]).len() >= e1[i].len() && e1[i]
        == e2[i].take(e1[i].len() as int) by {
        assert(e1[i] =~= e2[i].take(e1[i].len() as int));
    }
}

proof fn lemma_rooted_after_insert(
    e1: Seq<Seq<usize>>,
    b1: Seq<Seq<Cell>>,
    b2: Seq<Seq<Cell>>,
    e2: Seq<Seq<usize>>,
    from: int,
)
    requires
        extends(b1, e1, b2, e2),
        rooted(e1),
        e2.len() == e1.len() + 1,
        0 <= from < e1.len(),
        e2[from].contains(e1.len() as usize),
    ensures
        rooted(e2),
{
    assert forall|v: int| 1 <= v < e2.len() implies #[trigger] has_smaller_pred(e2, v) by {
        if v < e1.len() {
            assert(has_smaller_pred(e1, v));
            let u = choose|u: int| 0 <= u < v && #[trigger] e1[u].contains(v as usize);
            lemma_contains_grows(e1[u], e2[u], v as usize);
        } else {
            assert(e2[from].contains(v as usize));
        }
    }
}

/// The graph after a new board is inserted and connected from `id`.
proof fn lemma_after_insert(
    b1: Seq<Seq<Cell>>,
    e1: Seq<Seq<usize>>,
    b2: Seq<Seq<Cell>>,
    e2: Seq<Seq<usize>>,
    b3: Seq<Seq<Cell>>,
    e3: Seq<Seq<usize>>,
    id: usize,
    to: usize,
    nb: Seq<Cell>,
    n: int,
)
    requires
        e1.len() == b1.len(),
        id < b1.len(),
        to == b1.len(),
        b2 == b1.push(nb),
        e2 == e1.push(Seq::empty()),
        b3 == b2,
        e3 == e2.update(id as int, e2[id as int].push(to)),
        rooted(e1),
        all_valid(b1, n),
        valid_board(nb, n),
        b3.no_duplicates(),
    ensures
        extends(b1, e1, b3, e3),
        rooted(e3),
        all_valid(b3, n),
        e3[id as int].contains(to),
        b3[to as int] == nb,
        b3.len() <= pow6((n * n) as nat),
{
    lemma_extends_insert(b1, e1, nb);
    lemma_extends_step(b2, e2, b3, e3, id as int, to);
    lemma_extends_trans(b1, e1, b2, e2, b3, e3);
    assert(e3[id as int].last() == to);
    lemma_rooted_after_insert(e1, b1, b3, e3, id as int);
    assert forall|i: int| 0 <= i < b3.len() implies valid_board(#[trigger] b3[i], n) by {
        if i < b1.len() {
            assert(b3[i] == b1[i]);
        }
    }
    lemma_boards_bound(b3, (n * n) as nat);
}

proof fn lemma_extends_trans(
    b1: Seq<Seq<Cell>>,
    e1: Seq<Seq<usize>>,
    b2: Seq<Seq<Cell>>,
    e2: Seq<Seq<usize>>,
    b3: Seq<Seq<Cell>>,
    e3: Seq<Seq<usize>>,
)
    requires
        extends(b1, e1, b2, e2),
        extends(b2, e2, b3, e3),
    ensures
        extends(b1, e1, b3, e3),
{
    assert forall|i: int| 0 <= i < e1.len() implies (#[trigger] e3[i]).len() >= e1[i].len() && e1[i]
        == e3[i].take(e1[i].len() as int) by {
        assert(e2[i] == e3[i].take(e2[i].len() as int));
        assert(e1[i] =~= e3[i].take(e1[i].len() as int));
    }
}

proof fn lemma_contains_grows(e1: Seq<usize>, e2: Seq<usize>, x: usize)
    requires
        e2.len() >= e1.len(),
        e1 == e2.take(e1.len() as int),
        e1.contains(x),
    ensures
        e2.contains(x),
{
    let k = choose|k: int| 0 <= k < e1.len() && e1[k] == x;
    assert(e2[k] == x);
}

/// Followed pushes stay followed as the graph grows.
proof fn lemma_handled_persists(
    b1: Seq<Seq<Cell>>,
    e1: Seq<Seq<usize>>,
    b2: Seq<Seq<Cell>>,
    e2: Seq<Seq<usize>>,
    n: int,
)
    requires
        extends(b1, e1, b2, e2),
    ensures
        forall|id: int, idx: int, d: Direction|
            0 <= id < b1.len() && handled(b1, e1, n, id, idx, d) ==> #[trigger] handled(
                b2,
                e2,
                n,
                id,
                idx,
                d,
            ),
{
    assert forall|id: int, idx: int, d: Direction|
        0 <= id < b1.len() && handled(b1, e1, n, id, idx, d) implies #[trigger] handled(
        b2,
        e2,
        n,
        id,
        idx,
        d,
    ) by {
        if let Some(nb) = push_spec(b1[id], n, idx, d) {
            let j = choose|j: int|
                0 <= j < b1.len() && #[trigger] b1[j] == nb && e1[id].contains(j as usize);
            assert(b2[j] == nb);
            lemma_contains_grows(e1[id], e2[id], j as usize);
        }
    }
}

proof fn lemma_expanded_persists(
    b1: Seq<Seq<Cell>>,
    e1: Seq<Seq<usize>>,
    b2: Seq<Seq<Cell>>,
    e2: Seq<Seq<usize>>,
    n: int,
    id: int,
)
    requires
        extends(b1, e1, b2, e2),
        0 <= id < b1.len(),
        expanded(b1, e1, n, id),
    ensures
        expanded(b2, e2, n, id),
{
    lemma_handled_persists(b1, e1, b2, e2, n);
    assert forall|idx: int, d: Direction| 0 <= idx < n * n implies #[trigger] handled(
        b2,
        e2,
        n,
        id,
        idx,
        d,
    ) by {
        assert(handled(b1, e1, n, id, idx, d));
    }
}

proof fn lemma_rooted_persists(
    e1: Seq<Seq<usize>>,
    b1: Seq<Seq<Cell>>,
    b2: Seq<Seq<Cell>>,
    e2: Seq<Seq<usize>>,
)
    requires
        extends(b1, e1, b2, e2),
        rooted(e1),
        e2.len() == e1.len(),
    ensures
        rooted(e2),
{
    assert forall|v: int| 1 <= v < e2.len() implies #[trigger] has_smaller_pred(e2, v) by {
        assert(has_smaller_pred(e1, v));
        let u = choose|u: int| 0 <= u < v && #[trigger] e1[u].contains(v as usize);
        lemma_contains_grows(e1[u], e2[u], v as usize);
    }
}

pub open spec fn direction_at(k: int) -> Direction {
    if k == 0 {
        Direction::Up
    } else if k == 1 {
        Direction::Down
    } else if k == 2 {
        Direction::Left
    } else {
        Direction::Right
    }
}

fn direction_of(k: usize) -> (r: Direction)
    requires
        k < 4,
    ensures
        r == direction_at(k as int),
{
    if k == 0 {
        Direction::Up
    } else if k == 1 {
        Direction::Down
    } else if k == 2 {
        Direction::Left
    } else {
        Direction::Right
    }
}

/// Follows the push of the piece on `idx` in direction `dir` from the board
/// `state` of node `id`: a board not seen before is inserted, and its id
/// returned; either way it is connected from `id`.
#[verifier::rlimit(50)]
fn push_once(id: usize, state: &Vec<Cell>, idx: usize, dir: Direction, size: usize, found: &mut StateGraph) -> (r: Option<usize>)
    requires
        old(found).wf(),
        all_valid(old(found).boards(), size as int),
        rooted(old(found).edges()),
        edges_sound(old(found).boards(), old(found).edges(), size as int),
        id < old(found).boards().len(),
        old(found).boards()[id as int] == state@,
        idx < state@.len(),
        crate::cell::is_piece(state@[idx as int]),
    ensures
        final(found).wf(),
        all_valid(final(found).boards(), size as int),
        rooted(final(found).edges()),
        edges_sound(final(found).boards(), final(found).edges(), size as int),
        extends(old(found).boards(), old(found).edges(), final(found).boards(), final(found).edges()),
        handled(final(found).boards(), final(found).edges(), size as int, id as int, idx as int, dir),
        match r {
            Some(to) => to == old(found).boards().len() && final(found).boards().len() == to + 1,
            None => final(found).boards().len() == old(found).boards().len(),
        },
        forall|i: int| 0 <= i < old(found).edges().len() && i != id
            ==> #[trigger] final(found).edges()[i] == old(found).edges()[i],
        forall|i: int| old(found).edges().len() <= i < final(found).edges().len()
            ==> (#[trigger] final(found).edges()[i]).len() == 0,
        match push_spec(state@, size as int, idx as int, dir) {
            None => final(found).edges()[id as int] == old(found).edges()[id as int],
            Some(nb) => final(found).edges()[id as int].len() == old(found).edges()[id as int].len() + 1
                && final(found).edges()[id as int].drop_last() == old(found).edges()[id as int]
                && final(found).boards()[final(found).edges()[id as int].last() as int] == nb,
        },
{
    let ghost b1 = found.boards();
    let ghost e1 = found.edges();
    proof {
        lemma_boards_bound(b1, (size * size) as nat);
        lemma_extends_refl(b1, e1);
    }
    match extend_state(idx, dir, state, size) {
        None => None,
        Some(new_state) => {
            match found.id_of(&new_state) {
                Some(to) => {
                    proof {
                        assert(push_spec(b1[id as int], size as int, idx as int, dir) == Some(b1[to as int]));
                        assert(one_push(size as int, b1[id as int], b1[to as int]));
                    }
                    found.connect(id, to);
                    proof {
                        lemma_sound_after_connect(b1, e1, found.edges(), size as int, id as int, to);
                        lemma_extends_step(b1, e1, found.boards(), found.edges(), id as int, to);
                        lemma_rooted_persists(e1, b1, found.boards(), found.edges());
                        assert(found.edges()[id as int].last() == to);
                        assert(found.edges()[id as int].contains(to));
                        assert(found.boards()[to as int] == new_state@);
                        assert(found.edges()[id as int].drop_last() =~= e1[id as int]);
                    }
                    None
                },
                None => {
                    let to = found.insert_state(new_state.clone());
                    let ghost b2 = found.boards();
                    let ghost e2 = found.edges();
                    proof {
                        lemma_sound_after_insert(b1, e1, new_state@, size as int);
                        assert(b2[id as int] == b1[id as int]);
                        assert(push_spec(b2[id as int], size as int, idx as int, dir) == Some(b2[to as int]));
                        assert(one_push(size as int, b2[id as int], b2[to as int]));
                    }
                    found.connect(id, to);
                    proof {
                        lemma_sound_after_connect(b2, e2, found.edges(), size as int, id as int, to);
                    }
                    let ghost b3 = found.boards();
                    let ghost e3 = found.edges();
                    proof {
                        lemma_after_insert(b1, e1, b2, e2, b3, e3, id, to, new_state@, size as int);
                        assert(handled(b3, e3, size as int, id as int, idx as int, dir));
                        assert(e3[id as int].drop_last() =~= e1[id as int]);
                        assert(e3[id as int].last() == to);
                    }
                    Some(to)
                },
            }
        },
    }
}

/// The boards at the ends of the edges out of `id`, in list order.
pub open spec fn edge_boards(boards: Seq<Seq<Cell>>, edges: Seq<Seq<usize>>, id: int) -> Seq<Seq<Cell>> {
    Seq::new(edges[id].len(), |k: int| boards[edges[id][k] as int])
}

pub open spec fn opt_board(o: Option<Seq<Cell>>) -> Seq<Seq<Cell>> {
    match o {
        Some(b) => seq![b],
        None => Seq::empty(),
    }
}

/// The boards that legal pushes of the piece on `idx` give, trying the
/// first `k` of the directions Up, Down, Left, Right in that order.
pub open spec fn cell_pushes(b: Seq<Cell>, n: int, idx: int, k: nat) -> Seq<Seq<Cell>>
    decreases k,
{
    if k == 0 {
        Seq::empty()
    } else {
        cell_pushes(b, n, idx, (k - 1) as nat) + opt_board(push_spec(b, n, idx, direction_at(k - 1)))
    }
}

/// The boards that legal pushes from the cells before `idx` give, cell by
/// cell in increasing order.
pub open spec fn pushes_before(b: Seq<Cell>, n: int, idx: nat) -> Seq<Seq<Cell>>
    decreases idx,
{
    if idx == 0 {
        Seq::empty()
    } else {
        pushes_before(b, n, (idx - 1) as nat) + cell_pushes(b, n, idx - 1, 4)
    }
}

/// The boards that every legal push from `b` gives, in the order of the
/// search: cells in increasing order, and at each cell Up, Down, Left, Right.
pub open spec fn successor_boards(b: Seq<Cell>, n: int) -> Seq<Seq<Cell>> {
    pushes_before(b, n, (n * n) as nat)
}

/// The successor list of `id` holds, in order and once each, the boards of
/// every legal push from its board.
pub open spec fn finished_list(boards: Seq<Seq<Cell>>, edges: Seq<Seq<usize>>, n: int, id: int) -> bool {
    edge_boards(boards, edges, id) == successor_boards(boards[id], n)
}

/// The successor list of a frame's node holds the boards of the pushes
/// the frame has tried so far, in order.
pub open spec fn frame_list(boards: Seq<Seq<Cell>>, edges: Seq<Seq<usize>>, n: int, f: (usize, usize, usize)) -> bool {
    edge_boards(boards, edges, f.0 as int) == pushes_before(boards[f.0 as int], n, f.1 as nat) + cell_pushes(
        boards[f.0 as int],
        n,
        f.1 as int,
        f.2 as nat,
    )
}

pub open spec fn stack_distinct(s: Seq<(usize, usize, usize)>) -> bool {
    forall|j1: int, j2: int| 0 <= j1 < s.len() && 0 <= j2 < s.len() && j1 != j2 ==> #[trigger] s[j1].0 != #[trigger] s[j2].0
}

pub open spec fn frames_listed(boards: Seq<Seq<Cell>>, edges: Seq<Seq<usize>>, n: int, s: Seq<(usize, usize, usize)>) -> bool {
    forall|j: int| 0 <= j < s.len() ==> frame_list(boards, edges, n, #[trigger] s[j])
}

pub open spec fn all_listed(boards: Seq<Seq<Cell>>, edges: Seq<Seq<usize>>, n: int, s: Seq<(usize, usize, usize)>) -> bool {
    forall|id: int|
        0 <= id < boards.len() ==> #[trigger] finished_list(boards, edges, n, id) || exists|j: int|
            0 <= j < s.len() && s[j].0 == id
}

pub open spec fn targets_below(edges: Seq<Seq<usize>>, len: int) -> bool {
    forall|i: int, k: int| 0 <= i < edges.len() && 0 <= k < edges[i].len() ==> #[trigger] edges[i][k] < len
}

proof fn lemma_edge_boards_same(
    b1: Seq<Seq<Cell>>,
    e1: Seq<Seq<usize>>,
    b2: Seq<Seq<Cell>>,
    e2: Seq<Seq<usize>>,
    i: int,
)
    requires
        0 <= i < e1.len(),
        i < e2.len(),
        e2[i] == e1[i],
        targets_below(e1, b1.len() as int),
        b1.len() <= b2.len(),
        forall|j: int| 0 <= j < b1.len() ==> #[trigger] b2[j] == b1[j],
    ensures
        edge_boards(b2, e2, i) == edge_boards(b1, e1, i),
{
    assert forall|k: int| 0 <= k < e1[i].len() implies b2[e2[i][k] as int] == b1[e1[i][k] as int] by {
        assert(e1[i][k] < b1.len());
    }
    assert(edge_boards(b2, e2, i) =~= edge_boards(b1, e1, i));
}

proof fn lemma_edge_boards_push(
    b1: Seq<Seq<Cell>>,
    e1: Seq<Seq<usize>>,
    b2: Seq<Seq<Cell>>,
    e2: Seq<Seq<usize>>,
    i: int,
    nb: Seq<Cell>,
)
    requires
        0 <= i < e1.len(),
        i < e2.len(),
        e2[i].len() == e1[i].len() + 1,
        e2[i].drop_last() == e1[i],
        b2[e2[i].last() as int] == nb,
        targets_below(e1, b1.len() as int),
        b1.len() <= b2.len(),
        forall|j: int| 0 <= j < b1.len() ==> #[trigger] b2[j] == b1[j],
    ensures
        edge_boards(b2, e2, i) == edge_boards(b1, e1, i).push(nb),
{
    assert forall|k: int| 0 <= k < e1[i].len() implies b2[e2[i][k] as int] == b1[e1[i][k] as int] by {
        assert(e2[i][k] == e2[i].drop_last()[k]);
        assert(e1[i][k] < b1.len());
    }
    assert(edge_boards(b2, e2, i) =~= edge_boards(b1, e1, i).push(nb));
}

/// The lists after the top frame `(id, idx, k)` has tried direction `k` at
/// `idx`.
proof fn lemma_lists_after_try(
    b0: Seq<Seq<Cell>>,
    e0: Seq<Seq<usize>>,
    b1: Seq<Seq<Cell>>,
    e1: Seq<Seq<usize>>,
    s0: Seq<(usize, usize, usize)>,
    s1: Seq<(usize, usize, usize)>,
    n: int,
    id: usize,
    idx: usize,
    k: usize,
)
    requires
        e0.len() == b0.len(),
        e1.len() == b1.len(),
        targets_below(e0, b0.len() as int),
        b0.len() <= b1.len(),
        forall|j: int| 0 <= j < b0.len() ==> #[trigger] b1[j] == b0[j],
        forall|i: int| 0 <= i < e0.len() && i != id ==> #[trigger] e1[i] == e0[i],
        forall|i: int| e0.len() <= i < e1.len() ==> (#[trigger] e1[i]).len() == 0,
        id < b0.len(),
        k < 4,
        match push_spec(b0[id as int], n, idx as int, direction_at(k as int)) {
            None => e1[id as int] == e0[id as int],
            Some(nb) => e1[id as int].len() == e0[id as int].len() + 1 && e1[id as int].drop_last()
                == e0[id as int] && b1[e1[id as int].last() as int] == nb,
        },
        s0.len() >= 1,
        s0.last() == (id, idx, k),
        s1 == s0.update(s0.len() - 1, (id, idx, (k + 1) as usize)),
        forall|j: int| 0 <= j < s0.len() ==> (#[trigger] s0[j]).0 < b0.len(),
        stack_distinct(s0),
        frames_listed(b0, e0, n, s0),
        all_listed(b0, e0, n, s0),
    ensures
        stack_distinct(s1),
        frames_listed(b1, e1, n, s1),
        all_listed(b1, e1, n, s1) || b1.len() > b0.len(),
        forall|i: int| 0 <= i < b0.len() ==> #[trigger] finished_list(b1, e1, n, i) || exists|j: int|
            0 <= j < s1.len() && s1[j].0 == i,
{
    let top = s0.len() - 1;
    assert forall|j1: int, j2: int| 0 <= j1 < s1.len() && 0 <= j2 < s1.len() && j1 != j2 implies #[trigger] s1[j1].0
        != #[trigger] s1[j2].0 by {
        assert(s0[j1].0 != s0[j2].0);
    }
    assert forall|j: int| 0 <= j < s1.len() implies frame_list(b1, e1, n, #[trigger] s1[j]) by {
        let f = s1[j];
        assert(frame_list(b0, e0, n, s0[j]));
        if j < top {
            assert(f == s0[j]);
            assert(f.0 != id) by {
                assert(s0[j].0 != s0[top].0);
            }
            lemma_edge_boards_same(b0, e0, b1, e1, f.0 as int);
        } else {
            let b = b0[id as int];
            let c0 = cell_pushes(b, n, idx as int, k as nat);
            let c1 = cell_pushes(b, n, idx as int, (k + 1) as nat);
            let pb = pushes_before(b, n, idx as int as nat);
            assert(c1 == c0 + opt_board(push_spec(b, n, idx as int, direction_at(k as int))));
            match push_spec(b, n, idx as int, direction_at(k as int)) {
                None => {
                    lemma_edge_boards_same(b0, e0, b1, e1, id as int);
                    assert(c1 =~= c0);
                },
                Some(nb) => {
                    lemma_edge_boards_push(b0, e0, b1, e1, id as int, nb);
                    assert(pb + c1 =~= (pb + c0).push(nb));
                },
            }
        }
    }
    assert forall|i: int| 0 <= i < b0.len() implies #[trigger] finished_list(b1, e1, n, i) || exists|j: int|
        0 <= j < s1.len() && s1[j].0 == i by {
        if i == id {
            assert(s1[top].0 == i);
        } else if finished_list(b0, e0, n, i) {
            lemma_edge_boards_same(b0, e0, b1, e1, i);
        } else {
            let j = choose|j: int| 0 <= j < s0.len() && s0[j].0 == i;
            assert(s1[j].0 == i);
        }
    }
}

proof fn lemma_lists_after_pop(
    b: Seq<Seq<Cell>>,
    e: Seq<Seq<usize>>,
    n: int,
    s0: Seq<(usize, usize, usize)>,
    s1: Seq<(usize, usize, usize)>,
)
    requires
        s0.len() >= 1,
        s1 == s0.drop_last(),
        s0.last().1 == n * n,
        s0.last().2 == 0,
        n * n >= 0,
        stack_distinct(s0),
        frames_listed(b, e, n, s0),
        all_listed(b, e, n, s0),
    ensures
        stack_distinct(s1),
        frames_listed(b, e, n, s1),
        all_listed(b, e, n, s1),
{
    let top = s0.len() - 1;
    let f = s0[top];
    assert(frame_list(b, e, n, f));
    assert(cell_pushes(b[f.0 as int], n, f.1 as int, 0) =~= Seq::<Seq<Cell>>::empty());
    assert(pushes_before(b[f.0 as int], n, f.1 as nat) + Seq::<Seq<Cell>>::empty() =~= pushes_before(
        b[f.0 as int],
        n,
        f.1 as nat,
    ));
    assert(finished_list(b, e, n, f.0 as int));
    assert forall|j1: int, j2: int| 0 <= j1 < s1.len() && 0 <= j2 < s1.len() && j1 != j2 implies #[trigger] s1[j1].0
        != #[trigger] s1[j2].0 by {
        assert(s0[j1].0 != s0[j2].0);
    }
    assert forall|j: int| 0 <= j < s1.len() implies frame_list(b, e, n, #[trigger] s1[j]) by {
        assert(s1[j] == s0[j]);
    }
    assert forall|id: int| 0 <= id < b.len() implies #[trigger] finished_list(b, e, n, id) || exists|j: int|
        0 <= j < s1.len() && s1[j].0 == id by {
        if !finished_list(b, e, n, id) {
            let j = choose|j: int| 0 <= j < s0.len() && s0[j].0 == id;
            assert(j != top);
            assert(s1[j].0 == id);
        }
    }
}

proof fn lemma_lists_after_advance(
    b: Seq<Seq<Cell>>,
    e: Seq<Seq<usize>>,
    n: int,
    s0: Seq<(usize, usize, usize)>,
    s1: Seq<(usize, usize, usize)>,
)
    requires
        s0.len() >= 1,
        s0.last().2 == 4,
        s0.last().1 < usize::MAX,
        s1 == s0.update(s0.len() - 1, (s0.last().0, (s0.last().1 + 1) as usize, 0usize)),
        stack_distinct(s0),
        frames_listed(b, e, n, s0),
        all_listed(b, e, n, s0),
    ensures
        stack_distinct(s1),
        frames_listed(b, e, n, s1),
        all_listed(b, e, n, s1),
{
    let top = s0.len() - 1;
    let f = s0[top];
    let bb = b[f.0 as int];
    assert(frame_list(b, e, n, f));
    assert(pushes_before(bb, n, (f.1 + 1) as nat) == pushes_before(bb, n, f.1 as nat) + cell_pushes(bb, n, f.1 as int, 4));
    assert(cell_pushes(bb, n, (f.1 + 1) as int, 0) =~= Seq::<Seq<Cell>>::empty());
    assert(pushes_before(bb, n, (f.1 + 1) as nat) + Seq::<Seq<Cell>>::empty() =~= pushes_before(bb, n, (f.1 + 1) as nat));
    assert forall|j1: int, j2: int| 0 <= j1 < s1.len() && 0 <= j2 < s1.len() && j1 != j2 implies #[trigger] s1[j1].0
        != #[trigger] s1[j2].0 by {
        assert(s0[j1].0 != s0[j2].0);
    }
    assert forall|j: int| 0 <= j < s1.len() implies frame_list(b, e, n, #[trigger] s1[j]) by {
        if j < top {
            assert(s1[j] == s0[j]);
        }
    }
    assert forall|id: int| 0 <= id < b.len() implies #[trigger] finished_list(b, e, n, id) || exists|j: int|
        0 <= j < s1.len() && s1[j].0 == id by {
        if !finished_list(b, e, n, id) {
            let j = choose|j: int| 0 <= j < s0.len() && s0[j].0 == id;
            assert(s1[j].0 == id);
        }
    }
}

proof fn lemma_lists_after_new_frame(
    b: Seq<Seq<Cell>>,
    e: Seq<Seq<usize>>,
    n: int,
    s1: Seq<(usize, usize, usize)>,
    s2: Seq<(usize, usize, usize)>,
    to: usize,
)
    requires
        to + 1 == b.len(),
        e.len() == b.len(),
        e[to as int].len() == 0,
        s2 == s1.push((to, 0usize, 0usize)),
        forall|j: int| 0 <= j < s1.len() ==> (#[trigger] s1[j]).0 < to,
        stack_distinct(s1),
        frames_listed(b, e, n, s1),
        forall|i: int| 0 <= i < to ==> #[trigger] finished_list(b, e, n, i) || exists|j: int|
            0 <= j < s1.len() && s1[j].0 == i,
    ensures
        stack_distinct(s2),
        frames_listed(b, e, n, s2),
        all_listed(b, e, n, s2),
{
    assert forall|j1: int, j2: int| 0 <= j1 < s2.len() && 0 <= j2 < s2.len() && j1 != j2 implies #[trigger] s2[j1].0
        != #[trigger] s2[j2].0 by {
        if j1 < s1.len() && j2 < s1.len() {
            assert(s1[j1].0 != s1[j2].0);
        } else if j1 < s1.len() {
            assert(s1[j1].0 < to);
        } else {
            assert(s1[j2].0 < to);
        }
    }
    assert forall|j: int| 0 <= j < s2.len() implies frame_list(b, e, n, #[trigger] s2[j]) by {
        if j < s1.len() {
            assert(s2[j] == s1[j]);
        } else {
            let bb = b[to as int];
            assert(edge_boards(b, e, to as int) =~= Seq::<Seq<Cell>>::empty());
            assert(pushes_before(bb, n, 0) + cell_pushes(bb, n, 0, 0) =~= Seq::<Seq<Cell>>::empty());
        }
    }
    assert forall|id: int| 0 <= id < b.len() implies #[trigger] finished_list(b, e, n, id) || exists|j: int|
        0 <= j < s2.len() && s2[j].0 == id by {
        if id == to {
            assert(s2[s1.len() as int].0 == id);
        } else if !finished_list(b, e, n, id) {
            let j = choose|j: int| 0 <= j < s1.len() && s1[j].0 == id;
            assert(s2[j].0 == id);
        }
    }
}

/// What remains to be tried of a frame `(id, idx, k)` of the search stack:
/// the directions from `k` on for the piece cell `idx`, and all four for
/// each later cell, plus one for leaving the stack.
pub open spec fn frame_rest(f: (usize, usize, usize), cells: int) -> int {
    5 * (cells - f.1) + (4 - f.2) + 1
}

pub open spec fn stack_rest(stack: Seq<(usize, usize, usize)>, cells: int) -> int
    decreases stack.len(),
{
    if stack.len() == 0 {
        0
    } else {
        stack_rest(stack.drop_last(), cells) + frame_rest(stack.last(), cells)
    }
}

/// A frame `(id, idx, k)`: every push from the cells before `idx` and, from
/// `idx`, in the first `k` directions has been followed.
pub open spec fn frame_done(
    boards: Seq<Seq<Cell>>,
    edges: Seq<Seq<usize>>,
    n: int,
    f: (usize, usize, usize),
) -> bool {
    &&& f.0 < boards.len()
    &&& f.1 <= n * n
    &&& f.2 <= 4
    &&& f.1 == n * n ==> f.2 == 0
    &&& forall|i: int, d: Direction| 0 <= i < f.1 ==> #[trigger] handled(boards, edges, n, f.0 as int, i, d)
    &&& forall|kk: int| 0 <= kk < f.2 ==> #[trigger] handled(boards, edges, n, f.0 as int, f.1 as int, direction_at(kk))
}

proof fn lemma_stack_rest_nonneg(stack: Seq<(usize, usize, usize)>, cells: int)
    requires
        forall|j: int| 0 <= j < stack.len() ==> (#[trigger] stack[j]).1 <= cells && stack[j].2 <= 4,
    ensures
        stack_rest(stack, cells) >= 0,
    decreases stack.len(),
{
    if stack.len() > 0 {
        lemma_stack_rest_nonneg(stack.drop_last(), cells);
        assert(stack.last() == stack[stack.len() - 1]);
    }
}

/// Explores every board reachable from `initial_state` depth first, with an
/// explicit stack of frames `(id, cell, next direction)` in place of call
/// recursion: a board not seen before is inserted, connected and explored at
/// once; a board seen before is only connected.
fn walk_states_graph_from(initial_state: Vec<Cell>, size: usize) -> (r: StateGraph)
    requires
        valid_board(initial_state@, size as int),
    ensures
        r.wf(),
        r.boards()[0] == initial_state@,
        all_valid(r.boards(), size as int),
        rooted(r.edges()),
        edges_sound(r.boards(), r.edges(), size as int),
        fully_expanded(r.boards(), r.edges(), size as int),
        forall|id: int| 0 <= id < r.boards().len() ==> #[trigger] finished_list(r.boards(), r.edges(), size as int, id),
{
    let ghost n = size as int;
    let cells = initial_state.len();
    let ghost root = initial_state@;
    let mut found = StateGraph::new(initial_state);
    let mut stack: Vec<(usize, usize, usize)> = Vec::new();
    stack.push((0, 0, 0));
    proof {
        assert(all_valid(found.boards(), n));
        assert(stack@[0] == (0usize, 0usize, 0usize));
        let bb = found.boards()[0];
        assert(edge_boards(found.boards(), found.edges(), 0) =~= Seq::<Seq<Cell>>::empty());
        assert(pushes_before(bb, n, 0) + cell_pushes(bb, n, 0, 0) =~= Seq::<Seq<Cell>>::empty());
        assert(frame_list(found.boards(), found.edges(), n, stack@[0]));
        assert forall|id: int| 0 <= id < found.boards().len() implies #[trigger] finished_list(found.boards(), found.edges(), n, id) || exists|j: int|
            0 <= j < stack@.len() && stack@[j].0 == id by {
            assert(stack@[0].0 == id);
        }
    }
    while stack.len() > 0
        invariant
            found.wf(),
            n == size as int,
            cells == n * n,
            found.boards()[0] == root,
            all_valid(found.boards(), n),
            rooted(found.edges()),
            edges_sound(found.boards(), found.edges(), n),
            forall|j: int| 0 <= j < stack.len() ==> frame_done(found.boards(), found.edges(), n, #[trigger] stack@[j]),
            forall|id: int|
                0 <= id < found.boards().len() ==> #[trigger] expanded(found.boards(), found.edges(), n, id)
                    || exists|j: int| 0 <= j < stack.len() && stack@[j].0 == id,
            stack_distinct(stack@),
            frames_listed(found.boards(), found.edges(), n, stack@),
            all_listed(found.boards(), found.edges(), n, stack@),
        decreases pow6((size * size) as nat) - found.boards().len(), stack_rest(stack@, cells as int),
    {
        let ghost b0 = found.boards();
        let ghost e0 = found.edges();
        let ghost s0 = stack@;
        proof {
            lemma_boards_bound(b0, (size * size) as nat);
            lemma_stack_rest_nonneg(s0, cells as int);
            assert(frame_done(b0, e0, n, s0[s0.len() - 1]));
        }
        let top = stack.len() - 1;
        let (id, idx, k) = stack[top];
        if idx == cells {
            stack.pop();
            proof {
                lemma_lists_after_pop(b0, e0, n, s0, stack@);
                assert(s0.drop_last() =~= stack@);
                assert(stack_rest(s0, cells as int) == stack_rest(stack@, cells as int) + frame_rest(s0.last(), cells as int));
                assert(stack_rest(stack@, cells as int) < stack_rest(s0, cells as int));
                assert(found.boards() == b0);
                assert(expanded(b0, e0, n, id as int));
                assert forall|j: int| 0 <= j < stack.len() implies frame_done(b0, e0, n, #[trigger] stack@[j]) by {
                    assert(stack@[j] == s0[j]);
                }
                assert forall|i: int|
                    0 <= i < b0.len() implies #[trigger] expanded(b0, e0, n, i)
                        || exists|j: int| 0 <= j < stack.len() && stack@[j].0 == i by {
                    if !expanded(b0, e0, n, i) {
                        let j = choose|j: int| 0 <= j < s0.len() && s0[j].0 == i;
                        if j < stack.len() {
                            assert(stack@[j] == s0[j]);
                        }
                    }
                }
            }
        } else if k == 4 {
            stack.set(top, (id, idx + 1, 0));
            proof {
                lemma_lists_after_advance(b0, e0, n, s0, stack@);
                assert(s0.drop_last() =~= stack@.drop_last());
                assert(stack_rest(s0, cells as int) == stack_rest(s0.drop_last(), cells as int) + frame_rest(s0.last(), cells as int));
                assert(stack_rest(stack@, cells as int) == stack_rest(stack@.drop_last(), cells as int) + frame_rest(stack@.last(), cells as int));
                assert(stack_rest(stack@, cells as int) < stack_rest(s0, cells as int));
                assert forall|i: int, d: Direction| 0 <= i < idx + 1 implies #[trigger] handled(b0, e0, n, id as int, i, d) by {
                    if i == idx {
                        match d {
                            Direction::Up => assert(handled(b0, e0, n, id as int, idx as int, direction_at(0))),
                            Direction::Down => assert(handled(b0, e0, n, id as int, idx as int, direction_at(1))),
                            Direction::Left => assert(handled(b0, e0, n, id as int, idx as int, direction_at(2))),
                            Direction::Right => assert(handled(b0, e0, n, id as int, idx as int, direction_at(3))),
                        }
                    }
                }
                assert forall|j: int| 0 <= j < stack.len() implies frame_done(b0, e0, n, #[trigger] stack@[j]) by {
                    if j < top {
                        assert(stack@[j] == s0[j]);
                    }
                }
                assert forall|i: int|
                    0 <= i < b0.len() implies #[trigger] expanded(b0, e0, n, i)
                        || exists|j: int| 0 <= j < stack.len() && stack@[j].0 == i by {
                    if !expanded(b0, e0, n, i) {
                        let j = choose|j: int| 0 <= j < s0.len() && s0[j].0 == i;
                        assert(stack@[j].0 == i);
                    }
                }
            }
        } else {
            stack.set(top, (id, idx, k + 1));
            proof {
                assert(s0.drop_last() =~= stack@.drop_last());
                assert(stack_rest(s0, cells as int) == stack_rest(s0.drop_last(), cells as int) + frame_rest(s0.last(), cells as int));
                assert(stack_rest(stack@, cells as int) == stack_rest(stack@.drop_last(), cells as int) + frame_rest(stack@.last(), cells as int));
                assert(stack_rest(stack@, cells as int) < stack_rest(s0, cells as int));
            }
            let ghost rest1 = stack_rest(stack@, cells as int);
            let state = found.get_state(&id).unwrap().clone();
            assert(state@ == b0[id as int]);
            let dir = direction_of(k);
            let mut pushed: Option<usize> = None;
            if state[idx].is_piece() {
                pushed = push_once(id, &state, idx, dir, size, &mut found);
            }
            let ghost b1 = found.boards();
            let ghost e1 = found.edges();
            proof {
                if !crate::cell::is_piece(state@[idx as int]) {
                    lemma_extends_refl(b0, e0);
                }
                assert forall|j: int| 0 <= j < s0.len() implies (#[trigger] s0[j]).0 < b0.len() by {
                    assert(frame_done(b0, e0, n, s0[j]));
                }
                lemma_lists_after_try(b0, e0, b1, e1, s0, stack@, n, id, idx, k);
                lemma_handled_persists(b0, e0, b1, e1, n);
                assert(handled(b1, e1, n, id as int, idx as int, direction_at(k as int)));
                assert(s0.drop_last() =~= stack@.drop_last());
                assert forall|j: int| 0 <= j < stack.len() implies frame_done(b1, e1, n, #[trigger] stack@[j]) by {
                    let f = stack@[j];
                    if j < top {
                        assert(f == s0[j]);
                        assert(frame_done(b0, e0, n, f));
                    } else {
                        assert(frame_done(b0, e0, n, s0[j]));
                        assert forall|kk: int| 0 <= kk < f.2 implies #[trigger] handled(b1, e1, n, f.0 as int, f.1 as int, direction_at(kk)) by {
                            if kk < k {
                                assert(handled(b0, e0, n, f.0 as int, f.1 as int, direction_at(kk)));
                            }
                        }
                    }
                }
                assert forall|i: int|
                    0 <= i < b0.len() implies #[trigger] expanded(b1, e1, n, i)
                        || exists|j: int| 0 <= j < stack.len() && stack@[j].0 == i by {
                    if !expanded(b0, e0, n, i) {
                        let j = choose|j: int| 0 <= j < s0.len() && s0[j].0 == i;
                        assert(stack@[j].0 == i);
                    } else {
                        lemma_expanded_persists(b0, e0, b1, e1, n, i);
                    }
                }
            }
            match pushed {
                Some(to) => {
                    let ghost s1 = stack@;
                    stack.push((to, 0, 0));
                    proof {
                        lemma_lists_after_new_frame(b1, e1, n, s1, stack@, to);
                        assert(stack@.drop_last() =~= s1);
                        assert forall|j: int| 0 <= j < stack.len() implies frame_done(b1, e1, n, #[trigger] stack@[j]) by {
                            if j < s1.len() {
                                assert(stack@[j] == s1[j]);
                            }
                        }
                        assert forall|i: int|
                            0 <= i < b1.len() implies #[trigger] expanded(b1, e1, n, i)
                                || exists|j: int| 0 <= j < stack.len() && stack@[j].0 == i by {
                            if i == to {
                                assert(stack@[stack.len() - 1].0 == i);
                            } else if !expanded(b1, e1, n, i) {
                                let j = choose|j: int| 0 <= j < s1.len() && s1[j].0 == i;
                                assert(stack@[j].0 == i);
                            }
                        }
                        lemma_boards_bound(b1, (size * size) as nat);
                        assert(found.boards().len() == b0.len() + 1);
                    }
                },
                None => {
                    assert(stack_rest(stack@, cells as int) == rest1);
                    assert(found.boards().len() == b0.len());
                },
            }
        }
        proof {
            assert forall|j: int| 0 <= j < stack.len() implies (#[trigger] stack@[j]).1 <= cells && stack@[j].2 <= 4 by {
                assert(frame_done(found.boards(), found.edges(), n, stack@[j]));
            }
            lemma_stack_rest_nonneg(stack@, cells as int);
            lemma_boards_bound(found.boards(), (size * size) as nat);
        }
    }
    found
}

/// Every node of the graph has had every legal push followed.
pub open spec fn fully_expanded(boards: Seq<Seq<Cell>>, edges: Seq<Seq<usize>>, n: int) -> bool {
    forall|id: int| 0 <= id < boards.len() ==> #[trigger] expanded(boards, edges, n, id)
}

/// Explores every configuration reachable from `grid` with the agent on
/// `tractor`. The agent's cell is made floor and the board canonical; that
/// board is the root. The result holds every board reachable by legal pushes,
/// each once. Each node's successor list names, once each and in search
/// order (cells ascending, then Up, Down, Left, Right), the boards of its
/// legal pushes; since no board is stored twice, this fixes the ids. Path
/// entries come from one breadth-first pass: each depth is the least number
/// of pushes from the root.
pub fn find_solvable_states(tractor: usize, grid: Vec<Cell>, size: usize) -> (r: StateGraph)
    requires
        valid_board(grid@, size as int),
        tractor < grid@.len(),
    ensures
        r.wf(),
        r.boards()[0] == stamp_spec(grid@.update(tractor as int, Cell::Unreachable), size as int, tractor as int),
        all_valid(r.boards(), size as int),
        fully_expanded(r.boards(), r.edges(), size as int),
        edges_sound(r.boards(), r.edges(), size as int),
        forall|id: int| 0 <= id < r.boards().len() ==> #[trigger] finished_list(r.boards(), r.edges(), size as int, id),
        shortest_table(r.edges(), r.steps()),
{
    let mut grid = grid;
    grid.set(tractor, Cell::Unreachable);
    fill_reachable_cells(tractor, &mut grid, size);
    let mut found = walk_states_graph_from(grid, size);
    found.rebuild_paths();
    found
}

/// A sequence of boards, each the result of one legal push on the one
/// before.
pub open spec fn is_push_sequence(n: int, w: Seq<Seq<Cell>>) -> bool {
    &&& w.len() >= 1
    &&& forall|i: int| 0 <= i < w.len() - 1 ==> one_push(n, #[trigger] w[i], w[i + 1])
}

/// Board `b` results from one legal push on board `a`.
pub open spec fn one_push(n: int, a: Seq<Cell>, b: Seq<Cell>) -> bool {
    exists|idx: int, d: Direction| 0 <= idx < n * n && #[trigger] push_spec(a, n, idx, d) == Some(b)
}

/// Completeness: in a fully expanded graph, every board reachable from the
/// root by a sequence of legal pushes is present (and, by the graph's
/// invariant, present once).
pub proof fn lemma_search_complete(g: StateGraph, n: int, w: Seq<Seq<Cell>>)
    requires
        g.wf(),
        fully_expanded(g.boards(), g.edges(), n),
        is_push_sequence(n, w),
        w[0] == g.boards()[0],
    ensures
        g.boards().contains(w.last()),
        g.boards().no_duplicates(),
{
    lemma_push_prefix_present(g, n, w, w.len() - 1);
}

proof fn lemma_push_prefix_present(g: StateGraph, n: int, w: Seq<Seq<Cell>>, i: int)
    requires
        g.wf(),
        fully_expanded(g.boards(), g.edges(), n),
        is_push_sequence(n, w),
        w[0] == g.boards()[0],
        0 <= i < w.len(),
    ensures
        g.boards().contains(w[i]),
    decreases i,
{
    let b = g.boards();
    if i == 0 {
        assert(b[0] == w[0]);
    } else {
        lemma_push_prefix_present(g, n, w, i - 1);
        let id = choose|id: int| 0 <= id < b.len() && b[id] == w[i - 1];
        assert(one_push(n, w[i - 1], w[i]));
        let (idx, d) = choose|idx: int, d: Direction|
            0 <= idx < n * n && #[trigger] push_spec(w[i - 1], n, idx, d) == Some(w[i]);
        assert(expanded(b, g.edges(), n, id));
        assert(handled(b, g.edges(), n, id, idx, d));
        let j = choose|j: int| 0 <= j < b.len() && #[trigger] b[j] == w[i] && g.edges()[id].contains(j as usize);
        assert(b[j] == w[i]);
    }
}

} // verus!
