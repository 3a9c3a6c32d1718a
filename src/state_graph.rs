use vstd::prelude::*;

use crate::cell::Cell;
use crate::counting::{cell_digit, lemma_distinct_indices_below};
use crate::shortest_path::ShortestGraph;

use std::collections::HashMap;
use vstd::std_specs::hash::group_hash_axioms;
use vstd::wrapping::u64_specs;

pub use crate::search::find_solvable_states;

verus! {

/// A path entry: the best known number of pushes from the root, and the
/// node one push closer to it (`None` at the root).
#[derive(Copy, Clone, Debug, PartialEq, Eq, Structural)]
pub struct Step {
    pub depth: usize,
    pub prev: Option<usize>,
}

impl Step {
    /// The entry one push further on than `self`, coming from `from`.
    pub fn extend(&self, from: usize) -> (r: Step)
        requires
            self.depth < usize::MAX,
        ensures
            r.depth == self.depth + 1,
            r.prev == Some(from),
    {
        Step { depth: self.depth + 1, prev: Some(from) }
    }
}

/// Whether two boards hold the same cells.
pub fn same_board(a: &Vec<Cell>, b: &Vec<Cell>) -> (r: bool)
    ensures
        r == (a@ == b@),
{
    if a.len() != b.len() {
        return false;
    }
    let mut i: usize = 0;
    while i < a.len()
        invariant
            a.len() == b.len(),
            i <= a.len(),
            forall|k: int| 0 <= k < i ==> a@[k] == b@[k],
        decreases a.len() - i,
    {
        if a[i] != b[i] {
            return false;
        }
        i = i + 1;
    }
    assert(a@ =~= b@);
    true
}

/// The graph of board configurations. Each board has a dense id, given in
/// order of insertion, with id 0 the root; each id has the ids reached from
/// it by one push, in order of discovery, and a path entry once it is known
/// to be reachable from the root.
pub struct StateGraph {
    states: Vec<Vec<Cell>>,
    neighbors: Vec<Vec<usize>>,
    path: Vec<Option<Step>>,
    index: HashMap<u64, Vec<usize>>,
}

/// The key under which a board is filed in the graph's index: its cells
/// read as digits and folded into 64 bits.
pub open spec fn board_key(b: Seq<Cell>) -> u64
    decreases b.len(),
{
    if b.len() == 0 {
        0
    } else {
        u64_specs::wrapping_add(
            u64_specs::wrapping_mul(board_key(b.drop_last()), 31),
            cell_digit(b.last()) as u64,
        )
    }
}

/// Computes the index key of `b`.
pub fn key_of(b: &Vec<Cell>) -> (r: u64)
    ensures
        r == board_key(b@),
{
    let mut h: u64 = 0;
    let mut i: usize = 0;
    while i < b.len()
        invariant
            i <= b.len(),
            h == board_key(b@.take(i as int)),
        decreases b.len() - i,
    {
        assert(b@.take(i + 1).drop_last() =~= b@.take(i as int));
        let d: u64 = match b[i] {
            Cell::Unreachable => 0,
            Cell::Reachable => 1,
            Cell::BoulderInHole => 2,
            Cell::Hole => 3,
            Cell::Block => 4,
            Cell::Boulder => 5,
        };
        h = h.wrapping_mul(31).wrapping_add(d);
        i = i + 1;
    }
    assert(b@.take(i as int) =~= b@);
    h
}

/// The index files each board's id under the board's key, and holds no
/// other ids.
pub open spec fn index_valid(index: Map<u64, Vec<usize>>, boards: Seq<Seq<Cell>>) -> bool {
    &&& forall|i: int|
        0 <= i < boards.len() ==> index.contains_key(board_key(#[trigger] boards[i]))
            && index[board_key(boards[i])]@.contains(i as usize)
    &&& forall|k: u64, j: int|
        index.contains_key(k) && 0 <= j < index[k]@.len() ==> #[trigger] index[k]@[j] < boards.len()
}

/// Files `id` under `key`.
fn index_add(index: &mut HashMap<u64, Vec<usize>>, key: u64, id: usize)
    ensures
        final(index)@.contains_key(key),
        final(index)@[key]@ == (if old(index)@.contains_key(key) {
            old(index)@[key]@
        } else {
            Seq::empty()
        }).push(id),
        forall|k: u64| k != key ==> (#[trigger] final(index)@.contains_key(k) == old(index)@.contains_key(k)),
        forall|k: u64| k != key && old(index)@.contains_key(k) ==> #[trigger] final(index)@[k] == old(index)@[k],
{
    broadcast use group_hash_axioms;

    let mut bucket: Vec<usize> = match index.get(&key) {
        Some(b) => b.clone(),
        None => Vec::new(),
    };
    assert(bucket@ == (if old(index)@.contains_key(key) {
        old(index)@[key]@
    } else {
        Seq::<usize>::empty()
    }));
    bucket.push(id);
    index.insert(key, bucket);
}

/// The index of `states`.
fn index_of(states: &Vec<Vec<Cell>>) -> (r: HashMap<u64, Vec<usize>>)
    ensures
        index_valid(r@, boards_view(states@)),
{
    broadcast use group_hash_axioms;

    let mut index: HashMap<u64, Vec<usize>> = HashMap::new();
    let mut i: usize = 0;
    while i < states.len()
        invariant
            i <= states.len(),
            index_valid(index@, boards_view(states@).take(i as int)),
        decreases states.len() - i,
    {
        let key = key_of(&states[i]);
        let ghost before = index@;
        index_add(&mut index, key, i);
        proof {
            let bs = boards_view(states@);
            assert(bs.take(i as int).len() == i);
            lemma_index_after_add(before, index@, bs.take(i as int), states@[i as int]@);
            assert(bs.take(i as int).push(states@[i as int]@) =~= bs.take(i + 1));
        }
        i = i + 1;
    }
    assert(boards_view(states@).take(i as int) =~= boards_view(states@));
    index
}

proof fn lemma_index_after_add(
    index: Map<u64, Vec<usize>>,
    index2: Map<u64, Vec<usize>>,
    boards: Seq<Seq<Cell>>,
    b: Seq<Cell>,
)
    requires
        index_valid(index, boards),
        index2.contains_key(board_key(b)),
        index2[board_key(b)]@ == (if index.contains_key(board_key(b)) {
            index[board_key(b)]@
        } else {
            Seq::empty()
        }).push(boards.len() as usize),
        forall|k: u64| k != board_key(b) ==> (#[trigger] index2.contains_key(k) == index.contains_key(k)),
        forall|k: u64| k != board_key(b) && index.contains_key(k) ==> #[trigger] index2[k] == index[k],
        boards.len() <= usize::MAX,
    ensures
        index_valid(index2, boards.push(b)),
{
    let bs = boards.push(b);
    let key = board_key(b);
    assert forall|i: int| 0 <= i < bs.len() implies index2.contains_key(board_key(#[trigger] bs[i]))
        && index2[board_key(bs[i])]@.contains(i as usize) by {
        if i == boards.len() {
            assert(index2[key]@.last() == i as usize);
        } else {
            assert(bs[i] == boards[i]);
            let ki = board_key(boards[i]);
            assert(index.contains_key(ki) && index[ki]@.contains(i as usize));
            if ki == key {
                let q = choose|q: int| 0 <= q < index[ki]@.len() && index[ki]@[q] == i as usize;
                assert(index2[key]@[q] == i as usize);
            }
        }
    }
    assert forall|k: u64, j: int| index2.contains_key(k) && 0 <= j < index2[k]@.len() implies #[trigger] index2[k]@[j]
        < bs.len() by {
        if k == key {
            if j < index2[k]@.len() - 1 {
                assert(index.contains_key(k));
                assert(index2[k]@[j] == index[k]@[j]);
            }
        } else {
            assert(index2[k] == index[k]);
        }
    }
}

/// The path table after `from` is connected to `to`: `to` takes the entry
/// one push past `from` when it has none or a deeper one. Nothing changes
/// where `from` has no entry, or where its depth leaves no room to count one
/// more push.
pub open spec fn relax(path: Seq<Option<Step>>, from: int, to: int) -> Seq<Option<Step>> {
    match path[from] {
        None => path,
        Some(fs) => if fs.depth + 1 >= usize::MAX {
            path
        } else {
            match path[to] {
                Some(ts) => if ts.depth > fs.depth + 1 {
                    path.update(to, Some(Step { depth: (fs.depth + 1) as usize, prev: Some(from as usize) }))
                } else {
                    path
                },
                None => path.update(to, Some(Step { depth: (fs.depth + 1) as usize, prev: Some(from as usize) })),
            }
        },
    }
}

/// Tables that make a well-formed graph: one entry per id in each table, no
/// board twice, edges between known ids, the root at depth 0 without parent,
/// and every other entry's parent known and strictly shallower.
pub open spec fn parts_wf(boards: Seq<Seq<Cell>>, edges: Seq<Seq<usize>>, steps: Seq<Option<Step>>) -> bool {
    let n = boards.len();
    &&& n >= 1
    &&& edges.len() == n
    &&& steps.len() == n
    &&& boards.no_duplicates()
    &&& forall|i: int, j: int| 0 <= i < n && 0 <= j < edges[i].len() ==> #[trigger] edges[i][j] < n
    &&& steps[0] == Some(Step { depth: 0, prev: None })
    &&& forall|i: int|
        0 <= i < n && #[trigger] steps[i] is Some ==> {
            let s = steps[i].unwrap();
            &&& s.depth < usize::MAX
            &&& s.prev is None ==> i == 0
            &&& s.prev matches Some(p) ==> p < n && steps[p as int] is Some && steps[p as int].unwrap().depth
                < s.depth
        }
}

pub open spec fn boards_view(v: Seq<Vec<Cell>>) -> Seq<Seq<Cell>> {
    Seq::new(v.len(), |i: int| v[i]@)
}

pub open spec fn lists_view(v: Seq<Vec<usize>>) -> Seq<Seq<usize>> {
    Seq::new(v.len(), |i: int| v[i]@)
}

/// The ids from `id` to the root along the recorded parents: `p` starts at
/// `id`, each entry's parent is the next, and the last has none.
pub open spec fn is_parent_chain(path: Seq<Option<Step>>, id: int, p: Seq<usize>) -> bool {
    &&& p.len() >= 1
    &&& p[0] == id
    &&& forall|i: int| 0 <= i < p.len() ==> #[trigger] p[i] < path.len() && path[p[i] as int] is Some
    &&& forall|i: int|
        0 <= i < p.len() - 1 ==> path[#[trigger] p[i] as int].unwrap().prev == Some(p[i + 1])
    &&& path[p.last() as int].unwrap().prev is None
}

impl StateGraph {
    /// The boards, by id.
    pub closed spec fn boards(&self) -> Seq<Seq<Cell>> {
        Seq::new(self.states.len() as nat, |i: int| self.states[i]@)
    }

    /// The successor lists, by id.
    pub closed spec fn edges(&self) -> Seq<Seq<usize>> {
        Seq::new(self.neighbors.len() as nat, |i: int| self.neighbors[i]@)
    }

    /// The path table, by id.
    pub closed spec fn steps(&self) -> Seq<Option<Step>> {
        self.path@
    }

    /// The graph's invariant: its tables are well formed (see `parts_wf`)
    /// and every board is filed in the index under its key.
    pub open spec fn wf(&self) -> bool {
        parts_wf(self.boards(), self.edges(), self.steps()) && self.index_ok()
    }

    /// The index of boards by key is up to date.
    pub closed spec fn index_ok(&self) -> bool {
        index_valid(self.index@, self.boards())
    }

    /// A graph holding `root` alone, as id 0 at depth 0.
    pub fn new(root: Vec<Cell>) -> (r: StateGraph)
        ensures
            r.wf(),
            r.boards() == seq![root@],
            r.edges() == seq![Seq::<usize>::empty()],
            r.steps() == seq![Some(Step { depth: 0, prev: None })],
    {
        let mut states: Vec<Vec<Cell>> = Vec::new();
        states.push(root);
        let mut neighbors: Vec<Vec<usize>> = Vec::new();
        neighbors.push(Vec::new());
        let mut path: Vec<Option<Step>> = Vec::new();
        path.push(Some(Step { depth: 0, prev: None }));
        let index = index_of(&states);
        let r = StateGraph { states, neighbors, path, index };
        assert(r.boards() =~= seq![root@]);
        assert(r.edges() =~= seq![Seq::<usize>::empty()]);
        assert(r.steps() =~= seq![Some(Step { depth: 0, prev: None })]);
        r
    }

    /// The number of boards.
    pub fn len(&self) -> (r: usize)
        ensures
            r == self.boards().len(),
    {
        self.states.len()
    }

    /// The successors of `id`, in order of discovery.
    pub fn get_neighbors(&self, id: &usize) -> (r: Option<&Vec<usize>>)
        ensures
            *id < self.edges().len() ==> (r matches Some(v) && v@ == self.edges()[*id as int]),
            *id >= self.edges().len() ==> r is None,
    {
        if *id < self.neighbors.len() {
            Some(&self.neighbors[*id])
        } else {
            None
        }
    }

    /// The board of `id`.
    pub fn get_state(&self, id: &usize) -> (r: Option<&Vec<Cell>>)
        ensures
            *id < self.boards().len() ==> (r matches Some(v) && v@ == self.boards()[*id as int]),
            *id >= self.boards().len() ==> r is None,
    {
        if *id < self.states.len() {
            Some(&self.states[*id])
        } else {
            None
        }
    }

    /// The recorded depth of `id`.
    pub fn get_depth(&self, id: &usize) -> (r: Option<usize>)
        ensures
            *id < self.steps().len() ==> r == match self.steps()[*id as int] {
                Some(s) => Some(s.depth),
                None => None::<usize>,
            },
            *id >= self.steps().len() ==> r is None,
    {
        if *id < self.path.len() {
            match self.path[*id] {
                Some(s) => Some(s.depth),
                None => None,
            }
        } else {
            None
        }
    }

    /// Whether `id` names a board.
    pub fn contains_id(&self, id: &usize) -> (r: bool)
        ensures
            r == (*id < self.boards().len()),
    {
        *id < self.states.len()
    }

    /// The id of `state`, if it is in the graph.
    pub fn id_of(&self, state: &Vec<Cell>) -> (r: Option<usize>)
        requires
            self.wf(),
        ensures
            match r {
                Some(i) => i < self.boards().len() && self.boards()[i as int] == state@,
                None => !self.boards().contains(state@),
            },
    {
        broadcast use group_hash_axioms;

        let key = key_of(state);
        let bucket = match self.index.get(&key) {
            Some(b) => b,
            None => {
                proof {
                    if self.boards().contains(state@) {
                        let i = choose|i: int| 0 <= i < self.boards().len() && self.boards()[i] == state@;
                        assert(self.index@.contains_key(board_key(self.boards()[i])));
                    }
                }
                return None;
            },
        };
        let mut j: usize = 0;
        while j < bucket.len()
            invariant
                self.wf(),
                self.index@.contains_key(key),
                bucket@ == self.index@[key]@,
                key == board_key(state@),
                j <= bucket.len(),
                forall|q: int| 0 <= q < j ==> self.boards()[#[trigger] bucket@[q] as int] != state@,
            decreases bucket.len() - j,
        {
            let i = bucket[j];
            assert(i < self.states.len());
            if same_board(&self.states[i], state) {
                return Some(i);
            }
            j = j + 1;
        }
        proof {
            if self.boards().contains(state@) {
                let i = choose|i: int| 0 <= i < self.boards().len() && self.boards()[i] == state@;
                assert(self.index@[board_key(self.boards()[i])]@.contains(i as usize));
                let q = choose|q: int| 0 <= q < bucket@.len() && bucket@[q] == i as usize;
                assert(self.boards()[bucket@[q] as int] != state@);
            }
        }
        None
    }

    /// Whether `state` is in the graph.
    pub fn contains_state(&self, state: &Vec<Cell>) -> (r: bool)
        requires
            self.wf(),
        ensures
            r == self.boards().contains(state@),
    {
        self.id_of(state).is_some()
    }

    /// Adds a board that is not yet in the graph, under the next id, with no
    /// successors and no path entry.
    pub fn insert_state(&mut self, state: Vec<Cell>) -> (id: usize)
        requires
            old(self).wf(),
            !old(self).boards().contains(state@),
        ensures
            final(self).wf(),
            id == old(self).boards().len(),
            final(self).boards() == old(self).boards().push(state@),
            final(self).edges() == old(self).edges().push(Seq::empty()),
            final(self).steps() == old(self).steps().push(None),
    {
        let id = self.states.len();
        let ghost b = state@;
        let key = key_of(&state);
        let ghost index_before = self.index@;
        index_add(&mut self.index, key, id);
        self.states.push(state);
        self.neighbors.push(Vec::new());
        self.path.push(None);
        assert(self.boards() =~= old(self).boards().push(b));
        assert(self.edges() =~= old(self).edges().push(Seq::empty()));
        proof {
            lemma_index_after_add(index_before, self.index@, old(self).boards(), b);
            let bs = self.boards();
            assert forall|i: int, j: int| 0 <= i < bs.len() && 0 <= j < bs.len() && i != j implies bs[i]
                != bs[j] by {
                if i == id as int {
                    assert(old(self).boards().contains(bs[j]) || j == id as int);
                } else if j == id as int {
                    assert(old(self).boards()[i] == bs[i]);
                }
            }
            assert forall|i: int, j: int|
                0 <= i < bs.len() && 0 <= j < self.edges()[i].len() implies #[trigger] self.edges()[i][j]
                < bs.len() by {
                if i < id as int {
                    assert(old(self).edges()[i][j] < id);
                }
            }
        }
        id
    }

    /// Appends `to_id` to the successors of `from_id`, then relaxes the
    /// path entry of `to_id` through `from_id`.
    pub fn connect(&mut self, from_id: usize, to_id: usize)
        requires
            old(self).wf(),
            from_id < old(self).boards().len(),
            to_id < old(self).boards().len(),
        ensures
            final(self).wf(),
            final(self).boards() == old(self).boards(),
            final(self).edges() == old(self).edges().update(
                from_id as int,
                old(self).edges()[from_id as int].push(to_id),
            ),
            final(self).steps() == relax(old(self).steps(), from_id as int, to_id as int),
    {
        let mut list: Vec<usize> = Vec::new();
        std::mem::swap(&mut list, &mut self.neighbors[from_id]);
        list.push(to_id);
        self.neighbors.set(from_id, list);
        assert(self.edges() =~= old(self).edges().update(
            from_id as int,
            old(self).edges()[from_id as int].push(to_id),
        ));
        assert(self.boards() =~= old(self).boards());
        self.update_path(from_id, to_id);
    }

    /// Relaxes the path entry of `to_id` through `from_id`.
    fn update_path(&mut self, from_id: usize, to_id: usize)
        requires
            old(self).states.len() == old(self).path.len(),
            from_id < old(self).path.len(),
            to_id < old(self).path.len(),
            old(self).steps()[0] == Some(Step { depth: 0, prev: None }),
            forall|i: int|
                0 <= i < old(self).steps().len() && #[trigger] old(self).steps()[i] is Some ==> {
                    let s = old(self).steps()[i].unwrap();
                    &&& s.depth < usize::MAX
                    &&& s.prev is None ==> i == 0
                    &&& s.prev matches Some(p) ==> p < old(self).steps().len()
                        && old(self).steps()[p as int] is Some
                        && old(self).steps()[p as int].unwrap().depth < s.depth
                },
        ensures
            final(self).states == old(self).states,
            final(self).neighbors == old(self).neighbors,
            final(self).index == old(self).index,
            final(self).steps() == relax(old(self).steps(), from_id as int, to_id as int),
            final(self).steps()[0] == Some(Step { depth: 0, prev: None }),
            forall|i: int|
                0 <= i < final(self).steps().len() && #[trigger] final(self).steps()[i] is Some ==> {
                    let s = final(self).steps()[i].unwrap();
                    &&& s.depth < usize::MAX
                    &&& s.prev is None ==> i == 0
                    &&& s.prev matches Some(p) ==> p < final(self).steps().len()
                        && final(self).steps()[p as int] is Some
                        && final(self).steps()[p as int].unwrap().depth < s.depth
                },
    {
        let from_step = match self.path[from_id] {
            Some(s) => s,
            None => {
                return;
            },
        };
        if from_step.depth >= usize::MAX - 1 {
            return;
        }
        let better = match self.path[to_id] {
            Some(to_step) => to_step.depth > from_step.depth + 1,
            None => true,
        };
        if better {
            self.path.set(to_id, Some(from_step.extend(from_id)));
        }
    }

    /// The ids grouped by recorded depth: entry `d` lists, in increasing
    /// order, the ids at depth `d`; there is one entry per depth up to the
    /// greatest.
    #[verifier::rlimit(60)]
    pub fn get_dist(&self) -> (r: Vec<Vec<usize>>)
        requires
            self.wf(),
        ensures
            forall|d: int, k: int|
                0 <= d < r@.len() && 0 <= k < r@[d]@.len() ==> {
                    let i = #[trigger] r@[d]@[k];
                    i < self.steps().len() && self.steps()[i as int] is Some
                        && self.steps()[i as int].unwrap().depth == d
                },
            forall|i: int|
                0 <= i < self.steps().len() && #[trigger] self.steps()[i] is Some ==> {
                    let d = self.steps()[i].unwrap().depth as int;
                    d < r@.len() && r@[d]@.contains(i as usize)
                },
            forall|d: int, k1: int, k2: int|
                0 <= d < r@.len() && 0 <= k1 < k2 < r@[d]@.len() ==> #[trigger] r@[d]@[k1] < #[trigger] r@[d]@[k2],
            r@.len() > 0 ==> exists|i: int|
                0 <= i < self.steps().len() && #[trigger] self.steps()[i] is Some
                    && self.steps()[i].unwrap().depth == r@.len() - 1,
    {
        let ghost st = self.steps();
        let mut dist: Vec<Vec<usize>> = Vec::new();
        let mut i: usize = 0;
        while i < self.path.len()
            invariant
                st == self.steps(),
                self.wf(),
                i <= self.path.len(),
                forall|d: int, k: int|
                    0 <= d < dist@.len() && 0 <= k < dist@[d]@.len() ==> {
                        let j = #[trigger] dist@[d]@[k];
                        j < i && st[j as int] is Some && st[j as int].unwrap().depth == d
                    },
                forall|j: int|
                    0 <= j < i && #[trigger] st[j] is Some ==> {
                        let d = st[j].unwrap().depth as int;
                        d < dist@.len() && dist@[d]@.contains(j as usize)
                    },
                forall|d: int, k1: int, k2: int|
                    0 <= d < dist@.len() && 0 <= k1 < k2 < dist@[d]@.len() ==> #[trigger] dist@[d]@[k1]
                        < #[trigger] dist@[d]@[k2],
                dist@.len() > 0 ==> exists|j: int|
                    0 <= j < i && #[trigger] st[j] is Some && st[j].unwrap().depth == dist@.len() - 1,
            decreases self.path.len() - i,
        {
            if let Some(step) = self.path[i] {
                let d = step.depth;
                assert(st[i as int] is Some);
                assert(d < usize::MAX);
                let ghost before = dist@;
                while dist.len() < d + 1
                    invariant
                        dist@.len() >= before.len(),
                        forall|e: int| 0 <= e < before.len() ==> #[trigger] dist@[e] == before[e],
                        forall|e: int| before.len() <= e < dist@.len() ==> #[trigger] dist@[e]@.len() == 0,
                        dist@.len() > before.len() ==> dist@.len() <= d + 1,
                        d < usize::MAX,
                    decreases d + 1 - dist.len(),
                {
                    dist.push(Vec::new());
                }
                let ghost mid = dist@;
                let mut list: Vec<usize> = Vec::new();
                std::mem::swap(&mut list, &mut dist[d]);
                list.push(i);
                dist.set(d, list);
                proof {
                    assert forall|dd: int, k: int|
                        0 <= dd < dist@.len() && 0 <= k < dist@[dd]@.len() implies {
                            let j = #[trigger] dist@[dd]@[k];
                            j < i + 1 && st[j as int] is Some && st[j as int].unwrap().depth == dd
                        } by {
                        if dd < before.len() && dd != d {
                            assert(dist@[dd] == before[dd]);
                        }
                        if dd == d && k < mid[dd]@.len() && dd < before.len() {
                            assert(dist@[dd]@[k] == before[dd]@[k]);
                        }
                    }
                    assert forall|j: int|
                        0 <= j < i + 1 && #[trigger] st[j] is Some implies {
                            let dd = st[j].unwrap().depth as int;
                            dd < dist@.len() && dist@[dd]@.contains(j as usize)
                        } by {
                        let dd = st[j].unwrap().depth as int;
                        if j < i {
                            assert(before[dd]@.contains(j as usize));
                            let k = choose|k: int| 0 <= k < before[dd]@.len() && before[dd]@[k] == j as usize;
                            assert(dist@[dd]@[k] == j as usize);
                        } else {
                            assert(dist@[dd]@.last() == j as usize);
                        }
                    }
                    assert forall|dd: int, k1: int, k2: int|
                        0 <= dd < dist@.len() && 0 <= k1 < k2 < dist@[dd]@.len() implies #[trigger] dist@[dd]@[k1]
                            < #[trigger] dist@[dd]@[k2] by {
                        if dd < before.len() {
                            if dd != d {
                                assert(dist@[dd] == before[dd]);
                            } else if k2 < before[dd]@.len() {
                                assert(dist@[dd]@[k1] == before[dd]@[k1]);
                                assert(dist@[dd]@[k2] == before[dd]@[k2]);
                            } else {
                                assert(dist@[dd]@[k1] == before[dd]@[k1]);
                            }
                        }
                    }
                    if dist@.len() > before.len() {
                        assert(st[i as int].unwrap().depth == dist@.len() - 1);
                    } else {
                        let j = choose|j: int|
                            0 <= j < i && #[trigger] st[j] is Some && st[j].unwrap().depth == before.len() - 1;
                        assert(st[j] is Some);
                    }
                }
            }
            i = i + 1;
        }
        dist
    }

    /// Connects the board `from` to the board `to`, both in the graph.
    pub fn connect_states(&mut self, from: &Vec<Cell>, to: &Vec<Cell>)
        requires
            old(self).wf(),
            old(self).boards().contains(from@),
            old(self).boards().contains(to@),
        ensures
            final(self).wf(),
            final(self).boards() == old(self).boards(),
            exists|f: int, t: int|
                0 <= f < old(self).boards().len() && 0 <= t < old(self).boards().len()
                    && old(self).boards()[f] == from@ && old(self).boards()[t] == to@
                    && final(self).edges() == old(self).edges().update(f, old(self).edges()[f].push(t as usize))
                    && final(self).steps() == relax(old(self).steps(), f, t),
    {
        let from_id = self.id_of(from).unwrap();
        let to_id = self.id_of(to).unwrap();
        self.connect(from_id, to_id);
        assert(old(self).boards()[from_id as int] == from@);
    }

    /// The shortest-path tree of the ids reachable from `root` along the
    /// edges, built by one breadth-first pass: it holds `root` at depth 0, an
    /// edge from each entry's parent to it, and no edge from an entry leads
    /// outside the tree or more than one step deeper.
    #[verifier::rlimit(100)]
    #[verifier::spinoff_prover]
    pub fn build_shortest_path_from(&self, root: &usize) -> (r: ShortestGraph)
        requires
            self.wf(),
            *root < self.boards().len(),
            self.boards().len() < usize::MAX,
        ensures
            r.wf(),
            r.entries().contains_key(*root),
            r.entries()[*root] == (crate::shortest_path::Step { id: *root, depth: 0, prev: None }),
            r.root_id() == *root,
            forall|k: usize| #[trigger] r.entries().contains_key(k) && r.entries()[k].prev is None ==> k == *root,
            forall|k: usize| #[trigger] r.entries().contains_key(k) ==> k < self.edges().len(),
            forall|k: usize|
                #[trigger] r.entries().contains_key(k) ==> (r.entries()[k].prev matches Some(p)
                    ==> self.edges()[p as int].contains(k)),
            forall|k: usize, j: int|
                r.entries().contains_key(k) && 0 <= j < self.edges()[k as int].len() ==> {
                    let v = #[trigger] self.edges()[k as int][j];
                    r.entries().contains_key(v) && r.entries()[v].depth <= r.entries()[k].depth + 1
                },
    {
        let ghost e = self.edges();
        let n = self.states.len();
        let mut tree = ShortestGraph::new(*root);
        let mut queue: Vec<usize> = Vec::new();
        queue.push(*root);
        let mut head: usize = 0;
        while head < queue.len()
            invariant
                self.wf(),
                e == self.edges(),
                n == e.len(),
                n < usize::MAX,
                tree.wf(),
                queue@ == tree.ids(),
                1 <= queue.len(),
                queue@[0] == *root,
                tree.entries().contains_key(*root),
                tree.entries()[*root] == (crate::shortest_path::Step { id: *root, depth: 0, prev: None }),
                head <= queue.len(),
                forall|i: int| 0 <= i < queue.len() ==> #[trigger] queue@[i] < n,
                forall|i: int| 0 <= i < queue.len() ==> tree.entries()[#[trigger] queue@[i]].depth <= i,
                forall|i: int, j: int|
                    0 <= i <= j < queue.len() ==> tree.entries()[#[trigger] queue@[i]].depth
                        <= tree.entries()[#[trigger] queue@[j]].depth,
                head < queue.len() ==> tree.entries()[queue@.last()].depth <= tree.entries()[queue@[head as int]].depth + 1,
                forall|i: int, jj: int|
                    0 <= i < head && 0 <= jj < e[queue@[i] as int].len() ==> {
                        let v = #[trigger] e[queue@[i] as int][jj];
                        tree.entries().contains_key(v) && tree.entries()[v].depth <= tree.entries()[queue@[i]].depth + 1
                    },
                forall|k: usize|
                    #[trigger] tree.entries().contains_key(k) ==> (tree.entries()[k].prev matches Some(p)
                        ==> e[p as int].contains(k)),
            decreases n - head,
        {
            proof {
                lemma_distinct_indices_below(queue@, n as int);
            }
            let u = queue[head];
            assert(tree.ids().contains(u));
            let du = tree.depth(&u).unwrap();
            let list = &self.neighbors[u];
            assert(list@ == e[u as int]);
            let mut j: usize = 0;
            while j < list.len()
                invariant
                    self.wf(),
                    e == self.edges(),
                    n == e.len(),
                    n < usize::MAX,
                    list@ == e[u as int],
                    tree.wf(),
                    queue@ == tree.ids(),
                    1 <= queue.len(),
                    queue@[0] == *root,
                    tree.entries().contains_key(*root),
                    tree.entries()[*root] == (crate::shortest_path::Step { id: *root, depth: 0, prev: None }),
                    head < queue.len(),
                    u == queue@[head as int],
                    u < n,
                    tree.entries().contains_key(u),
                    du == tree.entries()[u].depth,
                    du <= head,
                    j <= list.len(),
                    forall|i: int| 0 <= i < queue.len() ==> #[trigger] queue@[i] < n,
                    forall|i: int| 0 <= i < queue.len() ==> tree.entries()[#[trigger] queue@[i]].depth <= i,
                    forall|i: int, k: int|
                        0 <= i <= k < queue.len() ==> tree.entries()[#[trigger] queue@[i]].depth
                            <= tree.entries()[#[trigger] queue@[k]].depth,
                    tree.entries()[queue@.last()].depth <= du + 1,
                    forall|i: int, jj: int|
                        0 <= i < head && 0 <= jj < e[queue@[i] as int].len() ==> {
                            let v = #[trigger] e[queue@[i] as int][jj];
                            tree.entries().contains_key(v) && tree.entries()[v].depth <= tree.entries()[queue@[i]].depth + 1
                        },
                    forall|jj: int| 0 <= jj < j ==> {
                        let v = #[trigger] list@[jj];
                        tree.entries().contains_key(v) && tree.entries()[v].depth <= du + 1
                    },
                    forall|k: usize|
                        #[trigger] tree.entries().contains_key(k) ==> (tree.entries()[k].prev matches Some(p)
                            ==> e[p as int].contains(k)),
                decreases list.len() - j,
            {
                proof {
                    lemma_distinct_indices_below(queue@, n as int);
                }
                let v = list[j];
                assert(e[u as int][j as int] == v);
                if tree.depth(&v).is_none() {
                    let ghost q0 = queue@;
                    let ghost t0 = tree.entries();
                    tree.insert(&u, v);
                    queue.push(v);
                    proof {
                        assert(e[u as int].contains(v));
                        assert(queue@.last() == v);
                        assert(!q0.contains(v));
                        assert forall|i: int| 0 <= i < queue.len() implies tree.entries()[#[trigger] queue@[i]].depth <= i by {
                            if i < q0.len() {
                                assert(q0[i] != v);
                                assert(q0.contains(q0[i]));
                            }
                        }
                        assert forall|i: int, k: int|
                            0 <= i <= k < queue.len() implies tree.entries()[#[trigger] queue@[i]].depth
                                <= tree.entries()[#[trigger] queue@[k]].depth by {
                            if k < q0.len() {
                                assert(q0.contains(q0[i]));
                                assert(q0.contains(q0[k]));
                            } else if i < q0.len() {
                                assert(q0.contains(q0[i]));
                                assert(q0.contains(q0.last()));
                                assert(t0[q0[i]].depth <= t0[q0.last()].depth);
                            }
                        }
                        assert(q0.contains(queue@[head as int]));
                        assert forall|k: usize|
                            #[trigger] tree.entries().contains_key(k) implies (tree.entries()[k].prev matches Some(p)
                                ==> e[p as int].contains(k)) by {
                            if k != v {
                                assert(t0.contains_key(k));
                            }
                        }
                    }
                }
                j = j + 1;
            }
            proof {
                assert forall|i: int, jj: int|
                    0 <= i < head + 1 && 0 <= jj < e[queue@[i] as int].len() implies {
                        let v = #[trigger] e[queue@[i] as int][jj];
                        tree.entries().contains_key(v) && tree.entries()[v].depth <= tree.entries()[queue@[i]].depth + 1
                    } by {
                    if i == head {
                        assert(list@[jj] == e[queue@[i] as int][jj]);
                    }
                }
                if head + 1 < queue.len() {
                    assert(tree.entries()[queue@[head as int]].depth <= tree.entries()[queue@[head + 1]].depth);
                }
            }
            head = head + 1;
        }
        proof {
            assert forall|k: usize| #[trigger] tree.entries().contains_key(k) implies k < e.len() by {
                assert(tree.ids().contains(k));
                let i = choose|i: int| 0 <= i < queue.len() && queue@[i] == k;
                assert(queue@[i] < n);
            }
            assert forall|k: usize, jj: int|
                tree.entries().contains_key(k) && 0 <= jj < e[k as int].len() implies {
                    let v = #[trigger] e[k as int][jj];
                    tree.entries().contains_key(v) && tree.entries()[v].depth <= tree.entries()[k].depth + 1
                } by {
                assert(tree.ids().contains(k));
                let i = choose|i: int| 0 <= i < queue.len() && queue@[i] == k;
                assert(e[queue@[i] as int][jj] == e[k as int][jj]);
            }
        }
        tree
    }

    /// The graph's tables: boards, successor lists and path entries, by id.
    pub fn parts(&self) -> (r: (&Vec<Vec<Cell>>, &Vec<Vec<usize>>, &Vec<Option<Step>>))
        ensures
            boards_view(r.0@) == self.boards(),
            lists_view(r.1@) == self.edges(),
            r.2@ == self.steps(),
    {
        assert(boards_view(self.states@) =~= self.boards());
        assert(lists_view(self.neighbors@) =~= self.edges());
        (&self.states, &self.neighbors, &self.path)
    }

    /// The graph made of the given tables, where they are well formed.
    pub fn from_parts(states: Vec<Vec<Cell>>, neighbors: Vec<Vec<usize>>, path: Vec<Option<Step>>) -> (r:
        Option<StateGraph>)
        ensures
            r is Some <==> parts_wf(boards_view(states@), lists_view(neighbors@), path@),
            r matches Some(g) ==> g.boards() == boards_view(states@) && g.edges() == lists_view(
                neighbors@,
            ) && g.steps() == path@,
    {
        let ghost bs = boards_view(states@);
        let ghost es = lists_view(neighbors@);
        let n = states.len();
        if n == 0 || neighbors.len() != n || path.len() != n {
            return None;
        }
        let mut i: usize = 0;
        while i < n
            invariant
                n == states.len(),
                bs == boards_view(states@),
                i <= n,
                forall|a: int, b: int| 0 <= a < i && 0 <= b < n && a != b ==> bs[a] != bs[b],
            decreases n - i,
        {
            let mut j: usize = 0;
            while j < n
                invariant
                    n == states.len(),
                    bs == boards_view(states@),
                    i < n,
                    j <= n,
                    forall|a: int, b: int| 0 <= a < i && 0 <= b < n && a != b ==> bs[a] != bs[b],
                    forall|b: int| 0 <= b < j && b != i ==> bs[i as int] != bs[b],
                decreases n - j,
            {
                if j != i && same_board(&states[i], &states[j]) {
                    assert(bs[i as int] == bs[j as int]);
                    return None;
                }
                j = j + 1;
            }
            i = i + 1;
        }
        let mut i: usize = 0;
        while i < n
            invariant
                n == neighbors.len(),
                es == lists_view(neighbors@),
                i <= n,
                forall|a: int, b: int| 0 <= a < i && 0 <= b < es[a].len() ==> #[trigger] es[a][b] < n,
            decreases n - i,
        {
            let list = &neighbors[i];
            let mut j: usize = 0;
            while j < list.len()
                invariant
                    n == neighbors.len(),
                    es == lists_view(neighbors@),
                    i < n,
                    list@ == es[i as int],
                    j <= list.len(),
                    forall|a: int, b: int| 0 <= a < i && 0 <= b < es[a].len() ==> #[trigger] es[a][b] < n,
                    forall|b: int| 0 <= b < j ==> #[trigger] es[i as int][b] < n,
                decreases list.len() - j,
            {
                if list[j] >= n {
                    assert(es[i as int][j as int] >= n);
                    return None;
                }
                j = j + 1;
            }
            i = i + 1;
        }
        match path[0] {
            Some(s) => {
                if s.depth != 0 || s.prev.is_some() {
                    return None;
                }
            },
            None => {
                return None;
            },
        }
        let mut i: usize = 0;
        while i < n
            invariant
                n == path.len(),
                i <= n,
                forall|a: int|
                    0 <= a < i && #[trigger] path@[a] is Some ==> {
                        let s = path@[a].unwrap();
                        &&& s.depth < usize::MAX
                        &&& s.prev is None ==> a == 0
                        &&& s.prev matches Some(p) ==> p < n && path@[p as int] is Some
                            && path@[p as int].unwrap().depth < s.depth
                    },
            decreases n - i,
        {
            if let Some(s) = path[i] {
                if s.depth == usize::MAX {
                    return None;
                }
                match s.prev {
                    None => {
                        if i != 0 {
                            return None;
                        }
                    },
                    Some(p) => {
                        if p >= n {
                            return None;
                        }
                        match path[p] {
                            Some(ps) => {
                                if ps.depth >= s.depth {
                                    return None;
                                }
                            },
                            None => {
                                return None;
                            },
                        }
                    },
                }
            }
            i = i + 1;
        }
        let index = index_of(&states);
        let g = StateGraph { states, neighbors, path, index };
        assert(g.boards() =~= bs);
        assert(g.edges() =~= es);
        Some(g)
    }

    /// Rewrites the path table by one breadth-first pass over the edges from
    /// the root, so that each depth is the least number of pushes from the
    /// root and each parent is one push closer to it.
    #[verifier::rlimit(100)]
    #[verifier::spinoff_prover]
    pub fn rebuild_paths(&mut self)
        requires
            old(self).wf(),
            rooted(old(self).edges()),
        ensures
            final(self).wf(),
            final(self).boards() == old(self).boards(),
            final(self).edges() == old(self).edges(),
            shortest_table(final(self).edges(), final(self).steps()),
    {
        let ghost e = self.edges();
        let n = self.states.len();
        let mut path: Vec<Option<Step>> = Vec::new();
        while path.len() < n
            invariant
                path.len() <= n,
                forall|i: int| 0 <= i < path.len() ==> path@[i] is None,
            decreases n - path.len(),
        {
            path.push(None);
        }
        path.set(0, Some(Step { depth: 0, prev: None }));
        let mut queue: Vec<usize> = Vec::new();
        queue.push(0);
        let mut head: usize = 0;
        while head < queue.len()
            invariant
                self.wf(),
                e == self.edges(),
                n == e.len(),
                path.len() == n,
                1 <= queue.len(),
                queue@[0] == 0,
                head <= queue.len(),
                queue@.no_duplicates(),
                forall|i: int| 0 <= i < queue.len() ==> #[trigger] queue@[i] < n,
                forall|v: int| 0 <= v < n ==> (#[trigger] path@[v] is Some <==> queue@.contains(v as usize)),
                path@[0] == Some(Step { depth: 0, prev: None }),
                forall|i: int| 0 <= i < queue.len() ==> path@[#[trigger] queue@[i] as int].unwrap().depth <= i,
                forall|i: int, j: int|
                    0 <= i <= j < queue.len() ==> path@[#[trigger] queue@[i] as int].unwrap().depth
                        <= path@[#[trigger] queue@[j] as int].unwrap().depth,
                head < queue.len() ==> path@[queue@.last() as int].unwrap().depth <= path@[queue@[head as int] as int].unwrap().depth + 1,
                forall|i: int, jj: int|
                    0 <= i < head && 0 <= jj < e[queue@[i] as int].len() ==> {
                        let v = #[trigger] e[queue@[i] as int][jj];
                        path@[v as int] is Some && path@[v as int].unwrap().depth <= path@[queue@[i] as int].unwrap().depth + 1
                    },
                forall|v: int| 0 < v < n && #[trigger] path@[v] is Some ==> {
                    let s = path@[v].unwrap();
                    s.prev matches Some(p) && p < n && path@[p as int] is Some && path@[p as int].unwrap().depth + 1 == s.depth
                        && e[p as int].contains(v as usize)
                },
            decreases n - head,
        {
            proof {
                lemma_distinct_indices_below(queue@, n as int);
            }
            let u = queue[head];
            let du = path[u].unwrap().depth;
            let list = &self.neighbors[u];
            assert(list@ == e[u as int]);
            let mut j: usize = 0;
            while j < list.len()
                invariant
                    self.wf(),
                    e == self.edges(),
                    n == e.len(),
                    list@ == e[u as int],
                    path.len() == n,
                    1 <= queue.len(),
                    queue@[0] == 0,
                    head < queue.len(),
                    u == queue@[head as int],
                    u < n,
                    path@[u as int] is Some,
                    du == path@[u as int].unwrap().depth,
                    du <= head,
                    j <= list.len(),
                    queue@.no_duplicates(),
                    forall|i: int| 0 <= i < queue.len() ==> #[trigger] queue@[i] < n,
                    forall|v: int| 0 <= v < n ==> (#[trigger] path@[v] is Some <==> queue@.contains(v as usize)),
                    path@[0] == Some(Step { depth: 0, prev: None }),
                    forall|i: int| 0 <= i < queue.len() ==> path@[#[trigger] queue@[i] as int].unwrap().depth <= i,
                    forall|i: int, k: int|
                        0 <= i <= k < queue.len() ==> path@[#[trigger] queue@[i] as int].unwrap().depth
                            <= path@[#[trigger] queue@[k] as int].unwrap().depth,
                    path@[queue@.last() as int].unwrap().depth <= du + 1,
                    forall|i: int, jj: int|
                        0 <= i < head && 0 <= jj < e[queue@[i] as int].len() ==> {
                            let v = #[trigger] e[queue@[i] as int][jj];
                            path@[v as int] is Some && path@[v as int].unwrap().depth <= path@[queue@[i] as int].unwrap().depth + 1
                        },
                    forall|jj: int| 0 <= jj < j ==> {
                        let v = #[trigger] list@[jj];
                        path@[v as int] is Some && path@[v as int].unwrap().depth <= du + 1
                    },
                    forall|v: int| 0 < v < n && #[trigger] path@[v] is Some ==> {
                        let s = path@[v].unwrap();
                        s.prev matches Some(p) && p < n && path@[p as int] is Some && path@[p as int].unwrap().depth + 1 == s.depth
                            && e[p as int].contains(v as usize)
                    },
                decreases list.len() - j,
            {
                proof {
                    lemma_distinct_indices_below(queue@, n as int);
                }
                let v = list[j];
                assert(e[u as int][j as int] == v);
                if path[v].is_none() {
                    let ghost q0 = queue@;
                    let ghost path_before = path@;
                    path.set(v, Some(Step { depth: du + 1, prev: Some(u) }));
                    queue.push(v);
                    proof {
                        assert(e[u as int].contains(v));
                        assert(queue@.last() == v);
                        assert(!q0.contains(v));
                        assert forall|v2: int| 0 <= v2 < n implies (#[trigger] path@[v2] is Some <==> queue@.contains(v2 as usize)) by {
                            if q0.contains(v2 as usize) {
                                let k = choose|k: int| 0 <= k < q0.len() && q0[k] == v2 as usize;
                                assert(queue@[k] == v2 as usize);
                            }
                            if queue@.contains(v2 as usize) && v2 != v {
                                let k = choose|k: int| 0 <= k < queue@.len() && queue@[k] == v2 as usize;
                                assert(k < q0.len());
                                assert(q0[k] == v2 as usize);
                            }
                        }
                        assert forall|i: int| 0 <= i < queue.len() implies path@[#[trigger] queue@[i] as int].unwrap().depth <= i by {
                            if i < q0.len() {
                                assert(q0[i] != v);
                                assert(q0.contains(q0[i]));
                            }
                        }
                        assert forall|i: int, k: int|
                            0 <= i <= k < queue.len() implies path@[#[trigger] queue@[i] as int].unwrap().depth
                                <= path@[#[trigger] queue@[k] as int].unwrap().depth by {
                            if k < q0.len() {
                                assert(q0.contains(q0[i]));
                                assert(q0.contains(q0[k]));
                            } else if i < q0.len() {
                                assert(q0.contains(q0[i]));
                                assert(q0.contains(q0.last()));
                                assert(path_before[q0[i] as int].unwrap().depth <= path_before[q0.last() as int].unwrap().depth);
                            }
                        }
                        assert(q0.contains(queue@[head as int]));
                    }
                }
                j = j + 1;
            }
            proof {
                assert forall|i: int, jj: int|
                    0 <= i < head + 1 && 0 <= jj < e[queue@[i] as int].len() implies {
                        let v = #[trigger] e[queue@[i] as int][jj];
                        path@[v as int] is Some && path@[v as int].unwrap().depth <= path@[queue@[i] as int].unwrap().depth + 1
                    } by {
                    if i == head {
                        assert(list@[jj] == e[queue@[i] as int][jj]);
                    }
                }
                if head + 1 < queue.len() {
                    assert(path@[queue@[head as int] as int].unwrap().depth <= path@[queue@[head + 1] as int].unwrap().depth);
                }
            }
            head = head + 1;
        }
        proof {
            assert forall|v: int| 0 <= v < n implies #[trigger] path@[v] is Some by {
                lemma_bfs_reaches_all(e, path@, queue@, v);
            }
        }
        self.path = path;
        proof {
            assert forall|i: int|
                0 <= i < n && #[trigger] self.steps()[i] is Some implies {
                    let s = self.steps()[i].unwrap();
                    &&& s.depth < usize::MAX
                    &&& s.prev is None ==> i == 0
                    &&& s.prev matches Some(p) ==> p < n && self.steps()[p as int] is Some
                        && self.steps()[p as int].unwrap().depth < s.depth
                } by {
                assert(queue@.contains(i as usize));
                let k = choose|k: int| 0 <= k < queue.len() && queue@[k] == i as usize;
                assert(self.steps()[queue@[k] as int].unwrap().depth <= k);
            }
            assert forall|u: int, jj: int| 0 <= u < n && 0 <= jj < e[u].len() implies
                self.steps()[#[trigger] e[u][jj] as int].unwrap().depth <= self.steps()[u].unwrap().depth + 1 by {
                assert(queue@.contains(u as usize));
                let k = choose|k: int| 0 <= k < queue.len() && queue@[k] == u as usize;
                assert(e[queue@[k] as int][jj] == e[u][jj]);
            }
        }
    }

    /// The ids from `id` back to the root along the recorded parents; `None`
    /// where `id` is unknown or has no path entry.
    pub fn get_path_to_root(&self, id: &usize) -> (r: Option<Vec<usize>>)
        requires
            self.wf(),
        ensures
            r is Some <==> (*id < self.steps().len() && self.steps()[*id as int] is Some),
            r matches Some(p) ==> is_parent_chain(self.steps(), *id as int, p@) && p@.last() == 0,
    {
        if *id >= self.path.len() {
            return None;
        }
        let mut current = match self.path[*id] {
            Some(s) => s,
            None => {
                return None;
            },
        };
        let mut path: Vec<usize> = Vec::new();
        path.push(*id);
        while current.prev.is_some()
            invariant
                self.wf(),
                path@.len() >= 1,
                path@[0] == *id,
                forall|i: int| 0 <= i < path@.len() ==> #[trigger] path@[i] < self.steps().len()
                    && self.steps()[path@[i] as int] is Some,
                forall|i: int|
                    0 <= i < path@.len() - 1 ==> self.steps()[#[trigger] path@[i] as int].unwrap().prev
                        == Some(path@[i + 1]),
                self.steps()[path@.last() as int] == Some(current),
            decreases current.depth,
        {
            let prev = current.prev.unwrap();
            let ghost last = path@.last();
            assert(self.steps()[last as int] is Some);
            current = self.path[prev].unwrap();
            path.push(prev);
            assert(path@[path@.len() - 2] == last);
        }
        proof {
            let last = path@.last();
            assert(self.steps()[last as int] is Some);
        }
        Some(path)
    }
}


/// The path table of a finished breadth-first pass: every id has an entry;
/// the root is at depth 0; every other id's parent has an edge to it and is
/// one push shallower; and no edge leads more than one push deeper.
pub open spec fn shortest_table(edges: Seq<Seq<usize>>, steps: Seq<Option<Step>>) -> bool {
    &&& steps.len() == edges.len()
    &&& forall|i: int| 0 <= i < steps.len() ==> #[trigger] steps[i] is Some
    &&& steps[0] == Some(Step { depth: 0, prev: None })
    &&& forall|v: int|
        0 < v < steps.len() ==> {
            let s = #[trigger] steps[v].unwrap();
            s.prev matches Some(p) && p < steps.len() && steps[p as int].unwrap().depth + 1 == s.depth
                && edges[p as int].contains(v as usize)
        }
    &&& forall|u: int, j: int|
        0 <= u < edges.len() && 0 <= j < edges[u].len() ==> steps[#[trigger] edges[u][j] as int].unwrap().depth
            <= steps[u].unwrap().depth + 1
}

/// Every id but the root has an edge to it from a smaller id.
pub open spec fn rooted(edges: Seq<Seq<usize>>) -> bool {
    forall|v: int| 1 <= v < edges.len() ==> #[trigger] has_smaller_pred(edges, v)
}

/// Some smaller id has an edge to `v`.
pub open spec fn has_smaller_pred(edges: Seq<Seq<usize>>, v: int) -> bool {
    exists|u: int| 0 <= u < v && #[trigger] edges[u].contains(v as usize)
}

/// After a breadth-first pass that processed its whole queue, every id of a
/// rooted graph has an entry.
proof fn lemma_bfs_reaches_all(e: Seq<Seq<usize>>, path: Seq<Option<Step>>, queue: Seq<usize>, v: int)
    requires
        rooted(e),
        path.len() == e.len(),
        e.len() <= usize::MAX,
        0 <= v < e.len(),
        path[0] is Some,
        forall|w: int| 0 <= w < e.len() ==> (#[trigger] path[w] is Some <==> queue.contains(w as usize)),
        forall|i: int, jj: int|
            0 <= i < queue.len() && 0 <= jj < e[queue[i] as int].len() ==> {
                let w = #[trigger] e[queue[i] as int][jj];
                path[w as int] is Some && path[w as int].unwrap().depth <= path[queue[i] as int].unwrap().depth + 1
            },
    ensures
        path[v] is Some,
    decreases v,
{
    if v > 0 {
        assert(has_smaller_pred(e, v));
        let u = choose|u: int| 0 <= u < v && #[trigger] e[u].contains(v as usize);
        lemma_bfs_reaches_all(e, path, queue, u);
        assert(queue.contains(u as usize));
        let k = choose|k: int| 0 <= k < queue.len() && queue[k] == u as usize;
        let jj = choose|jj: int| 0 <= jj < e[u].len() && e[u][jj] == v as usize;
        assert(e[queue[k] as int][jj] == v as usize);
    }
}

/// Path well-formedness: after the breadth-first pass, the parent chain of
/// any id ends at the root and holds one more id than the id's depth.
pub proof fn lemma_path_to_root_length(g: StateGraph, id: int, p: Seq<usize>)
    requires
        g.wf(),
        shortest_table(g.edges(), g.steps()),
        0 <= id < g.boards().len(),
        is_parent_chain(g.steps(), id, p),
    ensures
        p.last() == 0,
        p.len() == g.steps()[id].unwrap().depth + 1,
{
    let st = g.steps();
    assert forall|i: int| 0 <= i < p.len() implies #[trigger] st[p[i] as int].unwrap().depth + i == st[id].unwrap().depth by {
        lemma_chain_depth(g, id, p, i);
    }
    let last = p.last();
    assert(st[last as int] is Some);
    assert(last == 0) by {
        if last != 0 {
            assert(0 < last < st.len());
            assert(st[last as int].unwrap().prev is Some);
        }
    }
    assert(st[p[p.len() - 1] as int].unwrap().depth + (p.len() - 1) == st[id].unwrap().depth);
}

proof fn lemma_chain_depth(g: StateGraph, id: int, p: Seq<usize>, i: int)
    requires
        g.wf(),
        shortest_table(g.edges(), g.steps()),
        0 <= id < g.boards().len(),
        is_parent_chain(g.steps(), id, p),
        0 <= i < p.len(),
    ensures
        g.steps()[p[i] as int].unwrap().depth + i == g.steps()[id].unwrap().depth,
    decreases i,
{
    let st = g.steps();
    if i > 0 {
        lemma_chain_depth(g, id, p, i - 1);
        let v = p[i - 1];
        assert(st[v as int].unwrap().prev == Some(p[i]));
        if v == 0 {
            assert(st[0].unwrap().prev is None);
        } else {
            assert(0 < v < st.len());
            let s = st[v as int].unwrap();
            assert(st[p[i] as int].unwrap().depth + 1 == s.depth);
        }
    }
}

/// `w` is a walk along edges of the graph.
pub open spec fn is_edge_walk(edges: Seq<Seq<usize>>, w: Seq<usize>) -> bool {
    &&& w.len() >= 1
    &&& forall|i: int| 0 <= i < w.len() ==> #[trigger] w[i] < edges.len()
    &&& forall|i: int| 0 <= i < w.len() - 1 ==> edges[#[trigger] w[i] as int].contains(w[i + 1])
}

/// Depths are least: after the breadth-first pass, no walk from the root
/// to an id is shorter than the id's depth. With the parent chain, which is
/// such a walk of exactly that length, the depth is the shortest distance.
pub proof fn lemma_depth_is_least(g: StateGraph, w: Seq<usize>)
    requires
        g.wf(),
        shortest_table(g.edges(), g.steps()),
        is_edge_walk(g.edges(), w),
        w[0] == 0,
    ensures
        g.steps()[w.last() as int].unwrap().depth <= w.len() - 1,
{
    lemma_walk_depth(g, w, w.len() - 1);
}

proof fn lemma_walk_depth(g: StateGraph, w: Seq<usize>, i: int)
    requires
        g.wf(),
        shortest_table(g.edges(), g.steps()),
        is_edge_walk(g.edges(), w),
        w[0] == 0,
        0 <= i < w.len(),
    ensures
        g.steps()[w[i] as int].unwrap().depth <= i,
    decreases i,
{
    if i > 0 {
        lemma_walk_depth(g, w, i - 1);
        let e = g.edges();
        let u = w[i - 1];
        assert(e[u as int].contains(w[i]));
        let j = choose|j: int| 0 <= j < e[u as int].len() && e[u as int][j] == w[i];
        assert(g.steps()[e[u as int][j] as int].unwrap().depth <= g.steps()[u as int].unwrap().depth + 1);
    }
}

/// Restoring succeeds on a graph's own tables: whatever `parts` hands out
/// of a well-formed graph, copied as they are, `from_parts` accepts and
/// turns into a graph with the same boards, successor lists and path
/// entries.
pub proof fn lemma_parts_restorable(
    g: StateGraph,
    states: Seq<Vec<Cell>>,
    neighbors: Seq<Vec<usize>>,
    path: Seq<Option<Step>>,
)
    requires
        g.wf(),
        boards_view(states) == g.boards(),
        lists_view(neighbors) == g.edges(),
        path == g.steps(),
    ensures
        parts_wf(boards_view(states), lists_view(neighbors), path),
{
}

/// The path to the root is fixed by the path table: two parent chains
/// from the same id in the same table are the same chain. So a restored
/// graph, whose table equals the saved one, answers `get_path_to_root` as
/// the saved graph did, as it does `get_state`, `get_neighbors` and
/// `get_depth`, which read equal tables.
pub proof fn lemma_parent_chain_unique(path: Seq<Option<Step>>, id: int, p1: Seq<usize>, p2: Seq<usize>)
    requires
        is_parent_chain(path, id, p1),
        is_parent_chain(path, id, p2),
    ensures
        p1 == p2,
{
    assert forall|i: int| 0 <= i < p1.len() && i < p2.len() implies p1[i] == p2[i] by {
        lemma_chains_agree(path, id, p1, p2, i);
    }
    if p1.len() < p2.len() {
        let i = p1.len() - 1;
        assert(p1[i] == p2[i]);
        assert(path[p2[i] as int].unwrap().prev == Some(p2[i + 1]));
    } else if p2.len() < p1.len() {
        let i = p2.len() - 1;
        assert(p1[i] == p2[i]);
        assert(path[p1[i] as int].unwrap().prev == Some(p1[i + 1]));
    }
    assert(p1 =~= p2);
}

proof fn lemma_chains_agree(path: Seq<Option<Step>>, id: int, p1: Seq<usize>, p2: Seq<usize>, i: int)
    requires
        is_parent_chain(path, id, p1),
        is_parent_chain(path, id, p2),
        0 <= i < p1.len(),
        i < p2.len(),
    ensures
        p1[i] == p2[i],
    decreases i,
{
    if i > 0 {
        lemma_chains_agree(path, id, p1, p2, i - 1);
        assert(path[p1[i - 1] as int].unwrap().prev == Some(p1[i]));
        assert(path[p2[i - 1] as int].unwrap().prev == Some(p2[i]));
    }
}

} // verus!
