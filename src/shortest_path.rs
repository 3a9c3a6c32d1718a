use vstd::prelude::*;
use vstd::std_specs::hash::group_hash_axioms;

use std::collections::HashMap;

verus! {

broadcast use group_hash_axioms;

/// A node's entry in a shortest-path tree: its depth below the root and the
/// node one step closer to the root (`None` at the root).
#[derive(Copy, Clone, Debug, PartialEq, Eq, Structural)]
pub struct Step {
    pub id: usize,
    pub depth: usize,
    pub prev: Option<usize>,
}

impl Step {
    /// The entry of the root `id`.
    pub fn root(id: usize) -> (r: Step)
        ensures
            r == (Step { id, depth: 0, prev: None }),
    {
        Step { id, depth: 0, prev: None }
    }

    /// The entry of `to`, one step below `self`.
    pub fn extend(&self, to: usize) -> (r: Step)
        requires
            self.depth < usize::MAX,
        ensures
            r == (Step { id: to, depth: (self.depth + 1) as usize, prev: Some(self.id) }),
    {
        Step { id: to, depth: self.depth + 1, prev: Some(self.id) }
    }
}

/// A shortest-path tree: an entry per node, each but the root's naming a
/// parent one step shallower.
pub struct ShortestGraph {
    graph: HashMap<usize, Step>,
    order: Vec<usize>,
}

proof fn lemma_level_push_distinct(level: Seq<usize>, ids: Seq<usize>, j: int)
    requires
        ids.no_duplicates(),
        0 <= j < ids.len(),
        level.no_duplicates(),
        forall|k: int| 0 <= k < level.len() ==> exists|q: int| 0 <= q < j && ids[q] == #[trigger] level[k],
    ensures
        level.push(ids[j]).no_duplicates(),
{
    assert forall|k: int| 0 <= k < level.len() implies level[k] != ids[j] by {
        let q = choose|q: int| 0 <= q < j && ids[q] == level[k];
        assert(ids[q] != ids[j]);
    }
    let l2 = level.push(ids[j]);
    assert forall|k1: int, k2: int| 0 <= k1 < l2.len() && 0 <= k2 < l2.len() && k1 != k2 implies l2[k1] != l2[k2] by {
        if k1 < level.len() && k2 < level.len() {
            assert(level[k1] != level[k2]);
        } else if k1 < level.len() {
            assert(level[k1] != ids[j]);
        } else {
            assert(level[k2] != ids[j]);
        }
    }
}

impl ShortestGraph {
    /// The entries, by node.
    pub closed spec fn entries(&self) -> Map<usize, Step> {
        self.graph@
    }

    /// The nodes, in order of insertion.
    pub closed spec fn ids(&self) -> Seq<usize> {
        self.order@
    }

    /// The root: the first node inserted.
    pub open spec fn root_id(&self) -> usize {
        self.ids()[0]
    }

    /// Each node once, each entry naming its own node, the root alone at
    /// depth 0 without parent, and each other entry's parent present and
    /// one step shallower.
    pub open spec fn wf(&self) -> bool {
        &&& self.ids().len() >= 1
        &&& self.ids().no_duplicates()
        &&& forall|k: usize| #[trigger] self.entries().contains_key(k) <==> self.ids().contains(k)
        &&& forall|k: usize|
            #[trigger] self.entries().contains_key(k) ==> {
                let s = self.entries()[k];
                &&& s.id == k
                &&& s.depth < usize::MAX
                &&& s.prev is None ==> s.depth == 0 && k == self.root_id()
                &&& s.prev matches Some(p) ==> self.entries().contains_key(p) && self.entries()[p].depth
                    + 1 == s.depth
            }
    }

    /// The tree holding `root` alone.
    pub fn new(root: usize) -> (r: ShortestGraph)
        ensures
            r.wf(),
            r.entries() == map![root => Step { id: root, depth: 0, prev: None }],
            r.ids() == seq![root],
    {
        let mut graph: HashMap<usize, Step> = HashMap::new();
        graph.insert(root, Step::root(root));
        let mut order: Vec<usize> = Vec::new();
        order.push(root);
        let r = ShortestGraph { graph, order };
        assert(r.entries() =~= map![root => Step { id: root, depth: 0, prev: None }]);
        assert(r.ids() =~= seq![root]);
        assert(r.root_id() == root);
        assert forall|k: usize| #[trigger] r.entries().contains_key(k) <==> r.ids().contains(k) by {
            if k == root {
                assert(r.ids()[0] == root);
            }
        }
        r
    }

    /// Adds `to` one step below `from`, which is in the tree; `to` is not.
    /// An id already in the tree is never replaced: its new entry could sit
    /// below one of its own descendants, and the entries below it would no
    /// longer be one step deeper, so walking up from them might never reach
    /// the root.
    pub fn insert(&mut self, from_id: &usize, to_id: usize)
        requires
            old(self).wf(),
            old(self).entries().contains_key(*from_id),
            !old(self).entries().contains_key(to_id),
            old(self).entries()[*from_id].depth + 1 < usize::MAX,
        ensures
            final(self).wf(),
            final(self).entries() == old(self).entries().insert(
                to_id,
                Step { id: to_id, depth: (old(self).entries()[*from_id].depth + 1) as usize, prev: Some(*from_id) },
            ),
            final(self).ids() == old(self).ids().push(to_id),
    {
        let from = *self.graph.get(from_id).unwrap();
        let step = from.extend(to_id);
        self.graph.insert(to_id, step);
        self.order.push(to_id);
        proof {
            assert forall|k: usize| #[trigger] self.entries().contains_key(k) <==> self.ids().contains(k) by {
                if k == to_id {
                    assert(self.ids().last() == to_id);
                }
                if old(self).ids().contains(k) {
                    let j = choose|j: int| 0 <= j < old(self).ids().len() && old(self).ids()[j] == k;
                    assert(self.ids()[j] == k);
                }
                if self.ids().contains(k) && k != to_id {
                    let j = choose|j: int| 0 <= j < self.ids().len() && self.ids()[j] == k;
                    assert(old(self).ids()[j] == k);
                }
            }
            assert(!old(self).ids().contains(to_id));
            assert(self.ids()[0] == old(self).ids()[0]);
        }
    }

    /// The depth of `id`, if it is in the tree.
    pub fn depth(&self, id: &usize) -> (r: Option<usize>)
        requires
            self.wf(),
        ensures
            r == (if self.entries().contains_key(*id) {
                Some(self.entries()[*id].depth)
            } else {
                None
            }),
    {
        match self.graph.get(id) {
            Some(s) => Some(s.depth),
            None => None,
        }
    }

    /// The nodes from `id` up to the root; `None` where `id` is not in the
    /// tree.
    pub fn path(&self, id: &usize) -> (r: Option<Vec<usize>>)
        requires
            self.wf(),
        ensures
            r is Some <==> self.entries().contains_key(*id),
            r matches Some(p) ==> {
                &&& p@.len() == self.entries()[*id].depth + 1
                &&& p@[0] == *id
                &&& forall|i: int| 0 <= i < p@.len() ==> self.entries().contains_key(#[trigger] p@[i])
                &&& forall|i: int|
                    0 <= i < p@.len() - 1 ==> self.entries()[#[trigger] p@[i]].prev == Some(p@[i + 1])
                &&& self.entries()[p@.last()].prev is None
                &&& p@.last() == self.root_id()
            },
    {
        let mut current = match self.graph.get(id) {
            Some(c) => *c,
            None => {
                return None;
            },
        };
        let mut path: Vec<usize> = Vec::new();
        path.push(*id);
        while current.prev.is_some()
            invariant
                self.wf(),
                self.entries().contains_key(*id),
                path@.len() >= 1,
                path@[0] == *id,
                forall|i: int| 0 <= i < path@.len() ==> self.entries().contains_key(#[trigger] path@[i]),
                forall|i: int|
                    0 <= i < path@.len() - 1 ==> self.entries()[#[trigger] path@[i]].prev == Some(path@[i + 1]),
                self.entries()[path@.last()] == current,
                current.depth + path@.len() == self.entries()[*id].depth + 1,
            decreases current.depth,
        {
            let prev = current.prev.unwrap();
            let ghost last = path@.last();
            current = *self.graph.get(&prev).unwrap();
            path.push(prev);
            assert(path@[path@.len() - 2] == last);
        }
        Some(path)
    }

    /// The nodes grouped by depth, each group in order of insertion; one
    /// group per depth up to the greatest.
    #[verifier::rlimit(80)]
    #[verifier::spinoff_prover]
    pub fn build_dist(&self) -> (r: Vec<Vec<usize>>)
        requires
            self.wf(),
        ensures
            forall|d: int, k: int|
                0 <= d < r@.len() && 0 <= k < r@[d]@.len() ==> {
                    let i = #[trigger] r@[d]@[k];
                    self.entries().contains_key(i) && self.entries()[i].depth == d
                },
            forall|i: usize|
                #[trigger] self.entries().contains_key(i) ==> {
                    let d = self.entries()[i].depth as int;
                    d < r@.len() && r@[d]@.contains(i)
                },
            r@.len() > 0 ==> exists|i: usize|
                #[trigger] self.entries().contains_key(i) && self.entries()[i].depth == r@.len() - 1,
            forall|d: int| 0 <= d < r@.len() ==> (#[trigger] r@[d])@.no_duplicates(),
    {
        let mut dist: Vec<Vec<usize>> = Vec::new();
        let mut j: usize = 0;
        while j < self.order.len()
            invariant
                self.wf(),
                j <= self.order.len(),
                forall|d: int, k: int|
                    0 <= d < dist@.len() && 0 <= k < dist@[d]@.len() ==> {
                        let i = #[trigger] dist@[d]@[k];
                        self.entries().contains_key(i) && self.entries()[i].depth == d
                    },
                forall|q: int|
                    0 <= q < j ==> {
                        let i = #[trigger] self.ids()[q];
                        let d = self.entries()[i].depth as int;
                        d < dist@.len() && dist@[d]@.contains(i)
                    },
                dist@.len() > 0 ==> exists|i: usize|
                    #[trigger] self.entries().contains_key(i) && self.entries()[i].depth == dist@.len() - 1,
                forall|d: int| 0 <= d < dist@.len() ==> (#[trigger] dist@[d])@.no_duplicates(),
                forall|d: int, k: int|
                    0 <= d < dist@.len() && 0 <= k < dist@[d]@.len() ==> exists|q: int|
                        0 <= q < j && self.ids()[q] == #[trigger] dist@[d]@[k],
            decreases self.order.len() - j,
        {
            let id = self.order[j];
            assert(self.ids().contains(id));
            let d = self.graph.get(&id).unwrap().depth;
            let ghost before = dist@;
            while dist.len() < d + 1
                invariant
                    dist@.len() >= before.len(),
                    forall|e: int| 0 <= e < before.len() ==> #[trigger] dist@[e] == before[e],
                    forall|e: int| before.len() <= e < dist@.len() ==> #[trigger] dist@[e]@.len() == 0,
                    dist@.len() > before.len() ==> dist@.len() <= d + 1,
                    d < usize::MAX,
                decreases d + 1 - dist.len(),
            {
                dist.push(Vec::new());
            }
            let mut list: Vec<usize> = Vec::new();
            std::mem::swap(&mut list, &mut dist[d]);
            list.push(id);
            dist.set(d, list);
            proof {
                assert forall|dd: int, k: int|
                    0 <= dd < dist@.len() && 0 <= k < dist@[dd]@.len() implies {
                        let i = #[trigger] dist@[dd]@[k];
                        self.entries().contains_key(i) && self.entries()[i].depth == dd
                    } by {
                    if dd < before.len() && !(dd == d && k == dist@[dd]@.len() - 1) {
                        assert(dist@[dd]@[k] == before[dd]@[k]);
                    }
                }
                assert forall|q: int|
                    0 <= q < j + 1 implies {
                        let i = #[trigger] self.ids()[q];
                        let dd = self.entries()[i].depth as int;
                        dd < dist@.len() && dist@[dd]@.contains(i)
                    } by {
                    let i = self.ids()[q];
                    let dd = self.entries()[i].depth as int;
                    if q < j {
                        assert(before[dd]@.contains(i));
                        let k = choose|k: int| 0 <= k < before[dd]@.len() && before[dd]@[k] == i;
                        assert(dist@[dd]@[k] == i);
                    } else {
                        assert(dist@[dd]@.last() == i);
                    }
                }
                if dist@.len() > before.len() {
                    assert(self.entries().contains_key(id));
                }
                assert forall|dd: int, k: int|
                    0 <= dd < dist@.len() && 0 <= k < dist@[dd]@.len() implies exists|q: int|
                        0 <= q < j + 1 && self.ids()[q] == #[trigger] dist@[dd]@[k] by {
                    if dd == d && k == dist@[dd]@.len() - 1 {
                        assert(self.ids()[j as int] == id);
                    } else {
                        assert(dist@[dd]@[k] == before[dd]@[k]);
                        let q = choose|q: int| 0 <= q < j && self.ids()[q] == before[dd]@[k];
                        assert(self.ids()[q] == dist@[dd]@[k]);
                    }
                }
                assert forall|dd: int| 0 <= dd < dist@.len() implies (#[trigger] dist@[dd])@.no_duplicates() by {
                    if dd == d {
                        let lvl = if d < before.len() { before[dd]@ } else { Seq::<usize>::empty() };
                        lemma_level_push_distinct(lvl, self.ids(), j as int);
                        assert(dist@[dd]@ =~= lvl.push(id));
                    } else if dd < before.len() {
                        assert(dist@[dd] == before[dd]);
                    }
                }
            }
            j = j + 1;
        }
        proof {
            assert forall|i: usize| #[trigger] self.entries().contains_key(i) implies {
                let d = self.entries()[i].depth as int;
                d < dist@.len() && dist@[d]@.contains(i)
            } by {
                assert(self.ids().contains(i));
                let q = choose|q: int| 0 <= q < self.ids().len() && self.ids()[q] == i;
                assert(self.ids()[q] == i);
            }
        }
        dist
    }
}

} // verus!
