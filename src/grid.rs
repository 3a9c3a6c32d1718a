use vstd::prelude::*;
use vstd::arithmetic::div_mod::{lemma_fundamental_div_mod, lemma_fundamental_div_mod_converse};
use vstd::arithmetic::mul::lemma_mul_strict_inequality;

use crate::cell::{Cell, is_floor};
use crate::counting::lemma_distinct_indices_below;

use std::collections::HashSet;
use vstd::std_specs::hash::group_hash_axioms;

verus! {

/// One of the four directions in which the agent moves and pushes.
#[derive(Copy, Clone, Debug, PartialEq, Eq, Structural)]
pub enum Direction {
    Up,
    Down,
    Left,
    Right,
}

/// A board of side `n` holds `n * n` cells, row by row.
pub open spec fn valid_board(b: Seq<Cell>, n: int) -> bool {
    n > 0 && b.len() == n * n && b.len() <= usize::MAX
}

/// The index one step from `idx` in direction `d` on a grid of side `n`,
/// or `None` where that step leaves the grid.
pub open spec fn neighbor(n: int, idx: int, d: Direction) -> Option<int> {
    let row = idx / n;
    let col = idx % n;
    match d {
        Direction::Up => if row == 0 { None } else { Some((row - 1) * n + col) },
        Direction::Down => if row >= n - 1 { None } else { Some((row + 1) * n + col) },
        Direction::Left => if col == 0 { None } else { Some(row * n + (col - 1)) },
        Direction::Right => if col >= n - 1 { None } else { Some(row * n + (col + 1)) },
    }
}

pub open spec fn opposite(d: Direction) -> Direction {
    match d {
        Direction::Up => Direction::Down,
        Direction::Down => Direction::Up,
        Direction::Left => Direction::Right,
        Direction::Right => Direction::Left,
    }
}

proof fn lemma_split_index(n: int, i: int)
    requires
        n > 0,
        0 <= i < n * n,
    ensures
        i == (i / n) * n + i % n,
        0 <= i % n < n,
        0 <= i / n < n,
{
    lemma_fundamental_div_mod(i, n);
    assert(n * (i / n) == (i / n) * n) by (nonlinear_arith);
    assert(0 <= i % n < n) by {
        vstd::arithmetic::div_mod::lemma_mod_bound(i, n);
    }
    assert(0 <= i / n) by {
        vstd::arithmetic::div_mod::lemma_div_pos_is_pos(i, n);
    }
    if i / n >= n {
        assert((i / n) * n >= n * n) by (nonlinear_arith)
            requires i / n >= n, n > 0;
    }
}

proof fn lemma_join_index(n: int, r: int, c: int)
    requires
        0 <= r < n,
        0 <= c < n,
    ensures
        (r * n + c) / n == r,
        (r * n + c) % n == c,
        0 <= r * n + c < n * n,
{
    lemma_fundamental_div_mod_converse(r * n + c, n, r, c);
    assert(0 <= r * n + c < n * n) by (nonlinear_arith)
        requires 0 <= r < n, 0 <= c < n;
}

/// A step stays on the grid, and stepping back undoes it.
pub proof fn lemma_neighbor(n: int, idx: int, d: Direction)
    requires
        n > 0,
        0 <= idx < n * n,
    ensures
        neighbor(n, idx, d) matches Some(j) ==> 0 <= j < n * n && j != idx && neighbor(
            n,
            j,
            opposite(d),
        ) == Some(idx),
{
    lemma_split_index(n, idx);
    let row = idx / n;
    let col = idx % n;
    assert((row + 1) * n + col == row * n + col + n) by (nonlinear_arith);
    assert((row - 1) * n + col == row * n + col - n) by (nonlinear_arith);
    match d {
        Direction::Up => {
            if row != 0 {
                lemma_join_index(n, row - 1, col);
            }
        },
        Direction::Down => {
            if row < n - 1 {
                lemma_join_index(n, row + 1, col);
            }
        },
        Direction::Left => {
            if col != 0 {
                lemma_join_index(n, row, col - 1);
            }
        },
        Direction::Right => {
            if col < n - 1 {
                lemma_join_index(n, row, col + 1);
            }
        },
    }
}

pub fn to_index(row: usize, col: usize, width: usize) -> (r: usize)
    requires
        row * width + col <= usize::MAX,
    ensures
        r == row * width + col,
{
    row * width + col
}

/// The index one step from `idx` in direction `dir`, if it is on the grid.
pub fn move_one(idx: usize, dir: Direction, board_size: usize) -> (r: Option<usize>)
    requires
        board_size > 0,
        idx < board_size * board_size,
        board_size * board_size <= usize::MAX,
    ensures
        match neighbor(board_size as int, idx as int, dir) {
            Some(j) => r == Some(j as usize) && j < board_size * board_size,
            None => r is None,
        },
{
    proof {
        lemma_neighbor(board_size as int, idx as int, dir);
        lemma_split_index(board_size as int, idx as int);
    }
    let n = board_size;
    let row = idx / n;
    let col = idx % n;
    proof {
        assert(row * n + col < n * n) by (nonlinear_arith)
            requires row < n, col < n;
        assert((row + 1) * n + col == row * n + col + n) by (nonlinear_arith);
        if row > 0 {
            assert((row - 1) * n + col == row * n + col - n) by (nonlinear_arith);
        }
    }
    match dir {
        Direction::Up => if row == 0 { None } else { Some(to_index(row - 1, col, n)) },
        Direction::Down => if row >= n - 1 { None } else {
            proof {
                assert((row + 1) * n + col < n * n) by (nonlinear_arith)
                    requires row + 1 < n, col < n;
            }
            Some(to_index(row + 1, col, n))
        },
        Direction::Left => if col == 0 { None } else { Some(to_index(row, col - 1, n)) },
        Direction::Right => if col >= n - 1 { None } else { Some(to_index(row, col + 1, n)) },
    }
}


/// The cell one step away in direction `d`, as a one-element sequence when
/// it is on the grid and floor, else empty.
pub open spec fn floor_step(b: Seq<Cell>, n: int, idx: int, d: Direction) -> Seq<usize> {
    match neighbor(n, idx, d) {
        Some(j) => if is_floor(b[j]) {
            seq![j as usize]
        } else {
            Seq::empty()
        },
        None => Seq::empty(),
    }
}

/// The floor cells next to `idx`, in the order up, down, left, right.
pub open spec fn floor_neighbors(b: Seq<Cell>, n: int, idx: int) -> Seq<usize> {
    floor_step(b, n, idx, Direction::Up) + floor_step(b, n, idx, Direction::Down) + floor_step(
        b,
        n,
        idx,
        Direction::Left,
    ) + floor_step(b, n, idx, Direction::Right)
}

/// The graph in which the agent walks: every floor cell is a node, with an
/// edge to each adjacent floor cell. Other cells are no node.
pub open spec fn movement(b: Seq<Cell>, n: int) -> Seq<Option<Seq<usize>>> {
    Seq::new(
        b.len(),
        |i: int|
            if is_floor(b[i]) {
                Some(floor_neighbors(b, n, i))
            } else {
                None
            },
    )
}

/// `p` is a node of `g` with an edge to `c`.
pub open spec fn has_edge(g: Seq<Option<Seq<usize>>>, p: int, c: int) -> bool {
    &&& 0 <= p < g.len()
    &&& 0 <= c < g.len()
    &&& g[p] is Some
    &&& exists|j: int| 0 <= j < g[p].unwrap().len() && #[trigger] g[p].unwrap()[j] as int == c
}

/// `w` is a walk in `g`: it starts at a node and each next entry is along
/// an edge.
pub open spec fn is_walk(g: Seq<Option<Seq<usize>>>, w: Seq<int>) -> bool {
    &&& w.len() >= 1
    &&& 0 <= w[0] < g.len()
    &&& g[w[0]] is Some
    &&& forall|i: int| 0 <= i < w.len() - 1 ==> has_edge(g, #[trigger] w[i], w[i + 1])
}

/// `c` can be reached from node `a` of `g`.
pub open spec fn reaches(g: Seq<Option<Seq<usize>>>, a: int, c: int) -> bool {
    exists|w: Seq<int>| is_walk(g, w) && w[0] == a && #[trigger] w.last() == c
}

/// The agent, standing on `a`, can walk to `c` over floor cells.
pub open spec fn connected(b: Seq<Cell>, n: int, a: int, c: int) -> bool {
    reaches(movement(b, n), a, c)
}

/// Every edge of `g` leads to a node of `g`.
pub open spec fn edges_valid(g: Seq<Option<Seq<usize>>>) -> bool {
    forall|p: int, j: int|
        0 <= p < g.len() && g[p] is Some && 0 <= j < g[p].unwrap().len() ==> {
            let t = #[trigger] g[p].unwrap()[j];
            t < g.len() && g[t as int] is Some
        }
}

pub open spec fn opt_view(o: Option<Vec<usize>>) -> Option<Seq<usize>> {
    match o {
        Some(v) => Some(v@),
        None => None,
    }
}

pub open spec fn opt_ref_view(o: Option<&Vec<usize>>) -> Option<Seq<usize>> {
    match o {
        Some(v) => Some(v@),
        None => None,
    }
}

pub open spec fn count_nodes(g: Seq<Option<Seq<usize>>>) -> nat
    decreases g.len(),
{
    if g.len() == 0 {
        0
    } else {
        count_nodes(g.drop_last()) + if g.last() is Some {
            1nat
        } else {
            0nat
        }
    }
}

/// The walking graph of a board, indexed by cell.
pub struct MovementGraph {
    edges: Vec<Option<Vec<usize>>>,
}

impl View for MovementGraph {
    type V = Seq<Option<Seq<usize>>>;

    closed spec fn view(&self) -> Seq<Option<Seq<usize>>> {
        Seq::new(self.edges.len() as nat, |i: int| opt_view(self.edges[i]))
    }
}

impl MovementGraph {
    /// The number of nodes.
    pub fn len(&self) -> (r: usize)
        ensures
            r == count_nodes(self@),
    {
        let mut count: usize = 0;
        let mut i: usize = 0;
        while i < self.edges.len()
            invariant
                i <= self.edges.len(),
                count == count_nodes(self@.take(i as int)),
                count <= i,
            decreases self.edges.len() - i,
        {
            assert(self@.take(i + 1).drop_last() =~= self@.take(i as int));
            if self.edges[i].is_some() {
                count = count + 1;
            }
            i = i + 1;
        }
        assert(self@.take(i as int) =~= self@);
        count
    }

    /// Whether cell `idx` is a node.
    pub fn contains_key(&self, idx: &usize) -> (r: bool)
        ensures
            r == (*idx < self@.len() && self@[*idx as int] is Some),
    {
        *idx < self.edges.len() && self.edges[*idx].is_some()
    }

    /// The edges out of cell `idx`, if it is a node.
    pub fn get(&self, idx: &usize) -> (r: Option<&Vec<usize>>)
        ensures
            *idx < self@.len() ==> opt_ref_view(r) == self@[*idx as int],
            *idx >= self@.len() ==> r is None,
    {
        if *idx < self.edges.len() {
            match &self.edges[*idx] {
                Some(v) => Some(v),
                None => None,
            }
        } else {
            None
        }
    }
}

/// The walking graph of `grid`: each floor cell with its adjacent floor
/// cells, up, down, left and right.
pub fn grid_to_movement_graph(grid: &Vec<Cell>, board_size: usize) -> (r: MovementGraph)
    requires
        valid_board(grid@, board_size as int),
    ensures
        r@ == movement(grid@, board_size as int),
        edges_valid(r@),
{
    let n = board_size;
    let ghost b = grid@;
    let mut edges: Vec<Option<Vec<usize>>> = Vec::new();
    let mut idx: usize = 0;
    while idx < grid.len()
        invariant
            b == grid@,
            valid_board(b, n as int),
            idx <= grid.len(),
            edges.len() == idx,
            forall|i: int| 0 <= i < idx ==> opt_view(#[trigger] edges[i]) == movement(b, n as int)[i],
        decreases grid.len() - idx,
    {
        if !grid[idx].is_floor() {
            edges.push(None);
        } else {
            let mut out: Vec<usize> = Vec::new();
            if let Some(j) = move_one(idx, Direction::Up, n) {
                if grid[j].is_floor() {
                    out.push(j);
                }
            }
            assert(out@ =~= floor_step(b, n as int, idx as int, Direction::Up));
            let ghost up = out@;
            if let Some(j) = move_one(idx, Direction::Down, n) {
                if grid[j].is_floor() {
                    out.push(j);
                }
            }
            assert(out@ =~= up + floor_step(b, n as int, idx as int, Direction::Down));
            let ghost down = out@;
            if let Some(j) = move_one(idx, Direction::Left, n) {
                if grid[j].is_floor() {
                    out.push(j);
                }
            }
            assert(out@ =~= down + floor_step(b, n as int, idx as int, Direction::Left));
            let ghost left = out@;
            if let Some(j) = move_one(idx, Direction::Right, n) {
                if grid[j].is_floor() {
                    out.push(j);
                }
            }
            assert(out@ =~= left + floor_step(b, n as int, idx as int, Direction::Right));
            edges.push(Some(out));
        }
        idx = idx + 1;
    }
    let r = MovementGraph { edges };
    assert(r@ =~= movement(b, n as int));
    proof {
        lemma_movement_edges_valid(b, n as int);
    }
    r
}

proof fn lemma_floor_step(b: Seq<Cell>, n: int, idx: int, d: Direction, j: int)
    requires
        valid_board(b, n),
        0 <= idx < b.len(),
        0 <= j < floor_step(b, n, idx, d).len(),
    ensures
        ({
            let t = floor_step(b, n, idx, d)[j] as int;
            0 <= t < b.len() && is_floor(b[t]) && neighbor(n, idx, d) == Some(t)
        }),
{
    lemma_neighbor(n, idx, d);
    let t = neighbor(n, idx, d).unwrap();
    assert(floor_step(b, n, idx, d) == seq![t as usize]);
}

proof fn lemma_floor_neighbors_valid(b: Seq<Cell>, n: int, idx: int, j: int)
    requires
        valid_board(b, n),
        0 <= idx < b.len(),
        0 <= j < floor_neighbors(b, n, idx).len(),
    ensures
        ({
            let t = floor_neighbors(b, n, idx)[j] as int;
            0 <= t < b.len() && is_floor(b[t]) && exists|d: Direction| neighbor(n, idx, d) == Some(t)
        }),
{
    lemma_neighbor(n, idx, Direction::Up);
    lemma_neighbor(n, idx, Direction::Down);
    lemma_neighbor(n, idx, Direction::Left);
    lemma_neighbor(n, idx, Direction::Right);
    let u = floor_step(b, n, idx, Direction::Up);
    let d = floor_step(b, n, idx, Direction::Down);
    let l = floor_step(b, n, idx, Direction::Left);
    let r = floor_step(b, n, idx, Direction::Right);
    let s = floor_neighbors(b, n, idx);
    assert(s == u + d + l + r);
    if j < u.len() {
        assert(s[j] == u[j]);
        lemma_floor_step(b, n, idx, Direction::Up, j);
    } else if j < u.len() + d.len() {
        assert(s[j] == d[j - u.len()]);
        lemma_floor_step(b, n, idx, Direction::Down, j - u.len());
    } else if j < u.len() + d.len() + l.len() {
        assert(s[j] == l[j - u.len() - d.len()]);
        lemma_floor_step(b, n, idx, Direction::Left, j - u.len() - d.len());
    } else {
        assert(s[j] == r[j - u.len() - d.len() - l.len()]);
        lemma_floor_step(b, n, idx, Direction::Right, j - u.len() - d.len() - l.len());
    }
}

proof fn lemma_movement_edges_valid(b: Seq<Cell>, n: int)
    requires
        valid_board(b, n),
    ensures
        edges_valid(movement(b, n)),
{
    let g = movement(b, n);
    assert forall|p: int, j: int|
        0 <= p < g.len() && g[p] is Some && 0 <= j < g[p].unwrap().len() implies {
        let t = #[trigger] g[p].unwrap()[j];
        t < g.len() && g[t as int] is Some
    } by {
        lemma_floor_neighbors_valid(b, n, p, j);
    }
}


/// What is reached is a node of the graph.
pub proof fn lemma_walk_in_graph(g: Seq<Option<Seq<usize>>>, w: Seq<int>, i: int)
    requires
        is_walk(g, w),
        edges_valid(g),
        0 <= i < w.len(),
    ensures
        0 <= w[i] < g.len(),
        g[w[i]] is Some,
{
    if i > 0 {
        let p = w[i - 1];
        assert(has_edge(g, w[i - 1], w[i]));
        let j = choose|j: int| 0 <= j < g[p].unwrap().len() && #[trigger] g[p].unwrap()[j] as int == w[i];
        assert(g[p].unwrap()[j] as int == w[i]);
    }
}

/// A node reaches itself.
pub proof fn lemma_reach_self(g: Seq<Option<Seq<usize>>>, a: int)
    requires
        0 <= a < g.len(),
        g[a] is Some,
    ensures
        reaches(g, a, a),
{
    let w = seq![a];
    assert(is_walk(g, w) && w[0] == a && w.last() == a);
}

/// One more edge extends what is reached.
pub proof fn lemma_reach_step(g: Seq<Option<Seq<usize>>>, a: int, p: int, c: int)
    requires
        reaches(g, a, p),
        has_edge(g, p, c),
    ensures
        reaches(g, a, c),
{
    let w = choose|w: Seq<int>| is_walk(g, w) && w[0] == a && #[trigger] w.last() == p;
    let w2 = w.push(c);
    assert forall|i: int| 0 <= i < w2.len() - 1 implies has_edge(g, #[trigger] w2[i], w2[i + 1]) by {
        if i < w.len() - 1 {
            assert(has_edge(g, w[i], w[i + 1]));
        }
    }
    assert(is_walk(g, w2) && w2[0] == a && w2.last() == c);
}

/// Reaching is transitive.
pub proof fn lemma_reach_trans(g: Seq<Option<Seq<usize>>>, a: int, b: int, c: int)
    requires
        reaches(g, a, b),
        reaches(g, b, c),
    ensures
        reaches(g, a, c),
{
    let w1 = choose|w: Seq<int>| is_walk(g, w) && w[0] == a && #[trigger] w.last() == b;
    let w2 = choose|w: Seq<int>| is_walk(g, w) && w[0] == b && #[trigger] w.last() == c;
    let w = w1 + w2.drop_first();
    assert forall|i: int| 0 <= i < w.len() - 1 implies has_edge(g, #[trigger] w[i], w[i + 1]) by {
        if i < w1.len() - 1 {
            assert(has_edge(g, w1[i], w1[i + 1]));
        } else {
            let k = i - (w1.len() - 1);
            assert(has_edge(g, w2[k], w2[k + 1]));
            if k == 0 {
                assert(w[i] == w1.last());
            }
        }
    }
    assert(w.last() == c) by {
        if w2.len() == 1 {
            assert(w.last() == w1.last());
        }
    }
    assert(is_walk(g, w) && w[0] == a);
}

/// Every node reached from `a` is marked, when `a` is marked and every
/// marked node has all its edges leading to marked nodes.
proof fn lemma_closed_complete(g: Seq<Option<Seq<usize>>>, vis: Seq<bool>, w: Seq<int>)
    requires
        vis.len() == g.len(),
        is_walk(g, w),
        vis[w[0]],
        forall|i: int| 0 <= i < g.len() && #[trigger] vis[i] ==> closed_at(g, vis, i),
    ensures
        forall|i: int| 0 <= i < w.len() ==> vis[#[trigger] w[i]],
{
    assert forall|i: int| 0 <= i < w.len() implies vis[#[trigger] w[i]] by {
        lemma_closed_prefix(g, vis, w, i);
    }
}

proof fn lemma_closed_prefix(g: Seq<Option<Seq<usize>>>, vis: Seq<bool>, w: Seq<int>, i: int)
    requires
        vis.len() == g.len(),
        is_walk(g, w),
        vis[w[0]],
        forall|i: int| 0 <= i < g.len() && #[trigger] vis[i] ==> closed_at(g, vis, i),
        0 <= i < w.len(),
    ensures
        vis[w[i]],
    decreases i,
{
    if i > 0 {
        lemma_closed_prefix(g, vis, w, i - 1);
        let p = w[i - 1];
        assert(has_edge(g, w[i - 1], w[i]));
        assert(closed_at(g, vis, p));
        let j = choose|j: int| 0 <= j < g[p].unwrap().len() && #[trigger] g[p].unwrap()[j] as int == w[i];
        assert(vis[g[p].unwrap()[j] as int]);
    }
}

/// Every edge out of node `i` leads to a marked node.
pub open spec fn closed_at(g: Seq<Option<Seq<usize>>>, vis: Seq<bool>, i: int) -> bool {
    g[i] is Some ==> forall|j: int|
        0 <= j < g[i].unwrap().len() ==> vis[#[trigger] g[i].unwrap()[j] as int]
}

/// The set of values in `v`.
fn set_of(v: &Vec<usize>) -> (r: HashSet<usize>)
    ensures
        forall|c: usize| r@.contains(c) <==> v@.contains(c),
{
    broadcast use group_hash_axioms;

    let mut s: HashSet<usize> = HashSet::new();
    let mut i: usize = 0;
    while i < v.len()
        invariant
            i <= v.len(),
            forall|c: usize| s@.contains(c) <==> exists|k: int| 0 <= k < i && v@[k] == c,
        decreases v.len() - i,
    {
        s.insert(v[i]);
        proof {
            assert forall|c: usize| s@.contains(c) <==> exists|k: int| 0 <= k < i + 1 && v@[k] == c by {
                if c == v@[i as int] {
                    assert(v@[i as int] == c);
                }
            }
        }
        i = i + 1;
    }
    s
}

/// Every node reachable from `from`.
pub fn walk_graph_from(from: usize, graph: &MovementGraph) -> (r: HashSet<usize>)
    requires
        edges_valid(graph@),
        from < graph@.len(),
        graph@[from as int] is Some,
    ensures
        forall|c: usize| r@.contains(c) <==> reaches(graph@, from as int, c as int),
{
    set_of(&walk_list(from, graph))
}

/// Every node reachable from `from`, each once, in the order a depth-first
/// walk finds them.
fn walk_list(from: usize, graph: &MovementGraph) -> (r: Vec<usize>)
    requires
        edges_valid(graph@),
        from < graph@.len(),
        graph@[from as int] is Some,
    ensures
        r@.no_duplicates(),
        forall|c: usize| r@.contains(c) <==> reaches(graph@, from as int, c as int),
{
    broadcast use vstd::seq_lib::lemma_seq_contains_after_push;

    let ghost g = graph@;
    let n = graph.edges.len();
    let mut visited: Vec<bool> = Vec::new();
    while visited.len() < n
        invariant
            visited.len() <= n,
            forall|i: int| 0 <= i < visited.len() ==> !visited[i],
        decreases n - visited.len(),
    {
        visited.push(false);
    }
    visited.set(from, true);
    let mut found: Vec<usize> = Vec::new();
    found.push(from);
    let mut stack: Vec<usize> = Vec::new();
    stack.push(from);
    proof {
        lemma_reach_self(g, from as int);
    }
    while stack.len() > 0
        invariant
            g == graph@,
            n == g.len(),
            edges_valid(g),
            from < n,
            visited.len() == n,
            visited[from as int],
            forall|i: int| 0 <= i < n ==> (#[trigger] visited[i] <==> found@.contains(i as usize)),
            found@.no_duplicates(),
            forall|j: int| 0 <= j < found.len() ==> #[trigger] found[j] < n,
            forall|j: int| 0 <= j < stack.len() ==> #[trigger] stack[j] < n && visited[stack[j] as int],
            forall|i: int| 0 <= i < n && #[trigger] visited[i] ==> reaches(g, from as int, i),
            forall|i: int|
                0 <= i < n && #[trigger] visited[i] ==> stack@.contains(i as usize) || closed_at(
                    g,
                    visited@,
                    i,
                ),
        decreases n - found.len(), stack.len(),
    {
        proof {
            lemma_distinct_indices_below(found@, n as int);
        }
        let ghost stack0 = stack@;
        let cur = stack.pop().unwrap();
        assert(visited[cur as int]) by {
            assert(stack0[stack0.len() - 1] == cur);
        }
        assert forall|i: int| 0 <= i < n && #[trigger] visited[i] && stack0.contains(i as usize)
            implies i == cur || stack@.contains(i as usize) by {
            let k = choose|k: int| 0 <= k < stack0.len() && stack0[k] == i as usize;
            if k < stack0.len() - 1 {
                assert(stack@[k] == i as usize);
            }
        }
        let out: &Vec<usize> = match &graph.edges[cur] {
            Some(v) => v,
            None => {
                proof {
                    let w = choose|w: Seq<int>| is_walk(g, w) && w[0] == from as int && #[trigger] w.last() == cur as int;
                    lemma_walk_in_graph(g, w, w.len() - 1);
                }
                continue;
            },
        };
        assert(g[cur as int] == Some(out@));
        let ghost found0 = found.len();
        let ghost stack1 = stack.len();
        let mut j: usize = 0;
        while j < out.len()
            invariant
                g == graph@,
                n == g.len(),
                edges_valid(g),
                g[cur as int] == Some(out@),
                cur < n,
                visited[cur as int],
                j <= out.len(),
                from < n,
                visited.len() == n,
                visited[from as int],
                found.len() >= found0,
                forall|i: int| 0 <= i < n ==> (#[trigger] visited[i] <==> found@.contains(i as usize)),
                found@.no_duplicates(),
                forall|jj: int| 0 <= jj < found.len() ==> #[trigger] found[jj] < n,
                forall|jj: int| 0 <= jj < stack.len() ==> #[trigger] stack[jj] < n && visited[stack[jj] as int],
                stack.len() + found0 == stack1 + found.len(),
                forall|i: int| 0 <= i < n && #[trigger] visited[i] ==> reaches(g, from as int, i),
                forall|i: int|
                    0 <= i < n && #[trigger] visited[i] ==> i == cur || stack@.contains(i as usize)
                        || closed_at(g, visited@, i),
                forall|jj: int| 0 <= jj < j ==> visited[#[trigger] out@[jj] as int],
            decreases out.len() - j,
        {
            let t = out[j];
            assert(g[cur as int].unwrap()[j as int] == t);
            assert(t < n && g[t as int] is Some);
            if !visited[t] {
                proof {
                    assert(has_edge(g, cur as int, t as int));
                    lemma_reach_step(g, from as int, cur as int, t as int);
                }
                let ghost found1 = found@;
                let ghost vis1 = visited@;
                let ghost stack2 = stack@;
                visited.set(t, true);
                found.push(t);
                stack.push(t);
                assert forall|i: int|
                    0 <= i < n && #[trigger] visited[i] implies i == cur || stack@.contains(i as usize)
                        || closed_at(g, visited@, i) by {
                    if i == t {
                        assert(stack@[stack.len() - 1] == t);
                    } else if stack2.contains(i as usize) {
                        let q = choose|q: int| 0 <= q < stack2.len() && stack2[q] == i as usize;
                        assert(stack@[q] == i as usize);
                    } else if i != cur {
                        assert(vis1[i]);
                        assert(closed_at(g, vis1, i));
                        if g[i] is Some {
                            assert forall|jj: int| 0 <= jj < g[i].unwrap().len() implies visited@[
                                #[trigger] g[i].unwrap()[jj] as int] by {
                                assert(vis1[g[i].unwrap()[jj] as int]);
                            }
                        }
                    }
                }
                assert forall|i: int| 0 <= i < n implies (#[trigger] visited[i] <==> found@.contains(
                    i as usize,
                )) by {
                    if found1.contains(i as usize) {
                        let q = choose|q: int| 0 <= q < found1.len() && found1[q] == i as usize;
                        assert(found@[q] == i as usize);
                    }
                    if i == t {
                        assert(found@[found.len() - 1] == t);
                    }
                    if found@.contains(i as usize) && i != t {
                        let q = choose|q: int| 0 <= q < found.len() && found@[q] == i as usize;
                        assert(q < found1.len());
                        assert(found1[q] == i as usize);
                    }
                }
            }
            j = j + 1;
        }
        assert(closed_at(g, visited@, cur as int));
        proof {
            lemma_distinct_indices_below(found@, n as int);
        }
    }
    proof {
        assert forall|c: usize| found@.contains(c) <==> reaches(g, from as int, c as int) by {
            if reaches(g, from as int, c as int) {
                let w = choose|w: Seq<int>| is_walk(g, w) && w[0] == from as int && #[trigger] w.last() == c as int;
                lemma_walk_in_graph(g, w, w.len() - 1);
                lemma_closed_complete(g, visited@, w);
                assert(visited[w[w.len() - 1]]);
            }
            if found@.contains(c) {
                let jj = choose|jj: int| 0 <= jj < found.len() && found[jj] == c;
                assert(found[jj] < n);
                assert(visited[c as int]);
            }
        }
    }
    found
}


/// The canonical form of `b` with the agent on `start`: each floor cell is
/// marked by whether the agent can walk there; other cells are kept.
pub open spec fn stamp_spec(b: Seq<Cell>, n: int, start: int) -> Seq<Cell> {
    Seq::new(
        b.len(),
        |i: int|
            if is_floor(b[i]) {
                if connected(b, n, start, i) {
                    Cell::Reachable
                } else {
                    Cell::Unreachable
                }
            } else {
                b[i]
            },
    )
}

/// The floor cells that the agent, standing on `from`, can walk to.
pub fn find_reachable_empty_cells(from: usize, grid: &Vec<Cell>, width: usize) -> (r: HashSet<usize>)
    requires
        valid_board(grid@, width as int),
        from < grid@.len(),
        is_floor(grid@[from as int]),
    ensures
        forall|c: usize| r@.contains(c) <==> connected(grid@, width as int, from as int, c as int),
{
    set_of(&reachable_list(from, grid, width))
}

/// The floor cells that the agent, standing on `from`, can walk to, each once.
fn reachable_list(from: usize, grid: &Vec<Cell>, width: usize) -> (r: Vec<usize>)
    requires
        valid_board(grid@, width as int),
        from < grid@.len(),
        is_floor(grid@[from as int]),
    ensures
        r@.no_duplicates(),
        forall|c: usize| r@.contains(c) <==> connected(grid@, width as int, from as int, c as int),
{
    let graph = grid_to_movement_graph(grid, width);
    walk_list(from, &graph)
}

/// Marks the floor of `grid` by whether the agent, standing on `from`, can
/// walk there: the board becomes canonical.
pub fn fill_reachable_cells(from: usize, grid: &mut Vec<Cell>, size: usize)
    requires
        valid_board(old(grid)@, size as int),
        from < old(grid)@.len(),
        is_floor(old(grid)@[from as int]),
    ensures
        final(grid)@ == stamp_spec(old(grid)@, size as int, from as int),
{
    let ghost b = grid@;
    let found = reachable_list(from, grid, size);
    let len = grid.len();
    let mut mask: Vec<bool> = Vec::new();
    while mask.len() < len
        invariant
            mask.len() <= len,
            forall|i: int| 0 <= i < mask.len() ==> !mask[i],
        decreases len - mask.len(),
    {
        mask.push(false);
    }
    let mut k: usize = 0;
    while k < found.len()
        invariant
            mask.len() == len,
            len == b.len(),
            valid_board(b, size as int),
            k <= found.len(),
            forall|c: usize| found@.contains(c) <==> connected(b, size as int, from as int, c as int),
            forall|c: int| 0 <= c < len && #[trigger] mask[c] ==> connected(b, size as int, from as int, c),
            forall|q: int| 0 <= q < k ==> mask[#[trigger] found@[q] as int] && found@[q] < len,
        decreases found.len() - k,
    {
        let c = found[k];
        assert(found@.contains(c));
        proof {
            let w = choose|w: Seq<int>| is_walk(movement(b, size as int), w) && w[0] == from as int
                && #[trigger] w.last() == c as int;
            lemma_movement_edges_valid(b, size as int);
            lemma_walk_in_graph(movement(b, size as int), w, w.len() - 1);
        }
        mask.set(c, true);
        k = k + 1;
    }
    let mut i: usize = 0;
    while i < len
        invariant
            mask.len() == len,
            len == b.len(),
            grid@.len() == len,
            forall|c: usize| found@.contains(c) <==> connected(b, size as int, from as int, c as int),
            forall|c: int| 0 <= c < len && #[trigger] mask[c] ==> connected(b, size as int, from as int, c),
            forall|q: int| 0 <= q < found.len() ==> mask[#[trigger] found@[q] as int] && found@[q] < len,
            i <= len,
            forall|q: int| 0 <= q < i ==> grid@[q] == #[trigger] stamp_spec(b, size as int, from as int)[q],
            forall|q: int| i <= q < len ==> grid@[q] == #[trigger] b[q],
        decreases len - i,
    {
        if grid[i].is_floor() {
            proof {
                if connected(b, size as int, from as int, i as int) {
                    assert(found@.contains(i));
                    let q = choose|q: int| 0 <= q < found.len() && found@[q] == i;
                    assert(mask[found@[q] as int]);
                }
            }
            if mask[i] {
                grid.set(i, Cell::Reachable);
            } else {
                grid.set(i, Cell::Unreachable);
            }
        }
        i = i + 1;
    }
    assert(grid@ =~= stamp_spec(b, size as int, from as int));
}

/// The canonical form of `board` with the agent on `start`.
pub fn stamp(board: &Vec<Cell>, start: usize, size: usize) -> (r: Vec<Cell>)
    requires
        valid_board(board@, size as int),
        start < board@.len(),
        is_floor(board@[start as int]),
    ensures
        r@ == stamp_spec(board@, size as int, start as int),
{
    let mut out = board.clone();
    assert(out@ =~= board@);
    fill_reachable_cells(start, &mut out, size);
    out
}

/// A step to an adjacent floor cell is one of the walking edges.
proof fn lemma_step_is_edge(b: Seq<Cell>, n: int, q: int, d: Direction, p: int)
    requires
        valid_board(b, n),
        0 <= q < b.len(),
        is_floor(b[q]),
        neighbor(n, q, d) == Some(p),
        is_floor(b[p]),
    ensures
        has_edge(movement(b, n), q, p),
{
    lemma_neighbor(n, q, d);
    let u = floor_step(b, n, q, Direction::Up);
    let dn = floor_step(b, n, q, Direction::Down);
    let l = floor_step(b, n, q, Direction::Left);
    let r = floor_step(b, n, q, Direction::Right);
    let s = floor_neighbors(b, n, q);
    assert(s == u + dn + l + r);
    assert(floor_step(b, n, q, d) == seq![p as usize]);
    let j = match d {
        Direction::Up => 0,
        Direction::Down => u.len() as int,
        Direction::Left => (u.len() + dn.len()) as int,
        Direction::Right => (u.len() + dn.len() + l.len()) as int,
    };
    assert(s[j] == p as usize);
    let g = movement(b, n);
    assert(g[q].unwrap()[j] as int == p);
}

/// Walking edges go both ways.
proof fn lemma_edge_symmetric(b: Seq<Cell>, n: int, p: int, q: int)
    requires
        valid_board(b, n),
        has_edge(movement(b, n), p, q),
    ensures
        has_edge(movement(b, n), q, p),
{
    let g = movement(b, n);
    let j = choose|j: int| 0 <= j < g[p].unwrap().len() && #[trigger] g[p].unwrap()[j] as int == q;
    lemma_floor_neighbors_valid(b, n, p, j);
    let d = choose|d: Direction| neighbor(n, p, d) == Some(q);
    lemma_neighbor(n, p, d);
    lemma_step_is_edge(b, n, q, opposite(d), p);
}

/// Reachability between cells of a board is symmetric: the agent can walk
/// from `a` to `c` exactly when it can walk from `c` to `a`.
pub proof fn lemma_flood_symmetric(b: Seq<Cell>, n: int, a: int, c: int)
    requires
        valid_board(b, n),
    ensures
        connected(b, n, a, c) <==> connected(b, n, c, a),
{
    if connected(b, n, a, c) {
        lemma_connected_reverse(b, n, a, c);
    }
    if connected(b, n, c, a) {
        lemma_connected_reverse(b, n, c, a);
    }
}

#[verifier::rlimit(40)]
#[verifier::spinoff_prover]
proof fn lemma_connected_reverse(b: Seq<Cell>, n: int, a: int, c: int)
    requires
        valid_board(b, n),
        connected(b, n, a, c),
    ensures
        connected(b, n, c, a),
{
    let g = movement(b, n);
    lemma_movement_edges_valid(b, n);
    let w = choose|w: Seq<int>| is_walk(g, w) && w[0] == a && #[trigger] w.last() == c;
    let len = w.len();
    let v = Seq::new(len, |i: int| w[len - 1 - i]);
    lemma_walk_in_graph(g, w, len - 1);
    assert forall|i: int| 0 <= i < v.len() - 1 implies has_edge(g, #[trigger] v[i], v[i + 1]) by {
        let k = len - 2 - i;
        assert(has_edge(g, w[k], w[k + 1]));
        lemma_edge_symmetric(b, n, w[k], w[k + 1]);
    }
    assert(is_walk(g, v) && v[0] == c && v.last() == a);
}

/// Stamping twice from cells the first stamp marks reachable gives what the
/// second stamp alone gives.
pub proof fn lemma_stamp_idempotent(b: Seq<Cell>, n: int, s: int, s2: int)
    requires
        valid_board(b, n),
        0 <= s < b.len(),
        is_floor(b[s]),
        0 <= s2 < b.len(),
        stamp_spec(b, n, s)[s2] == Cell::Reachable,
    ensures
        stamp_spec(stamp_spec(b, n, s), n, s2) == stamp_spec(b, n, s2),
{
    let b1 = stamp_spec(b, n, s);
    assert forall|i: int, d: Direction| 0 <= i < b.len() implies floor_step(b1, n, i, d) == floor_step(
        b,
        n,
        i,
        d,
    ) by {
        lemma_neighbor(n, i, d);
    }
    assert forall|i: int| 0 <= i < b.len() implies floor_neighbors(b1, n, i) == floor_neighbors(b, n, i) by {
        assert(floor_step(b1, n, i, Direction::Up) == floor_step(b, n, i, Direction::Up));
        assert(floor_step(b1, n, i, Direction::Down) == floor_step(b, n, i, Direction::Down));
        assert(floor_step(b1, n, i, Direction::Left) == floor_step(b, n, i, Direction::Left));
        assert(floor_step(b1, n, i, Direction::Right) == floor_step(b, n, i, Direction::Right));
    }
    assert(movement(b1, n) =~= movement(b, n));
    assert(connected(b, n, s, s2));
    lemma_flood_symmetric(b, n, s, s2);
    assert forall|i: int| 0 <= i < b.len() implies connected(b, n, s2, i) == connected(b, n, s, i) by {
        let g = movement(b, n);
        if connected(b, n, s2, i) {
            lemma_reach_trans(g, s, s2, i);
        }
        if connected(b, n, s, i) {
            lemma_reach_trans(g, s2, s, i);
        }
    }
    assert(stamp_spec(b1, n, s2) =~= stamp_spec(b, n, s2));
}

} // verus!
