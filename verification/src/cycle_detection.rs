//! Cycle detection and topological ordering of task graphs.
//!
//! A task may be added on its own or through a dependency `from -> to`,
//! which adds both ends.  The graph is acyclic exactly when its tasks can
//! be listed so that every dependency points forward; otherwise a cycle of
//! dependencies is reported.

use vstd::prelude::*;

verus! {

broadcast use vstd::seq_lib::group_seq_properties;

/// Outcome of a cycle search.
#[derive(Debug, Clone)]
pub enum CycleDetectionResult {
    /// The graph is a DAG.
    NoCycle,
    /// Tasks on a cycle: each depends on the previous one's edge into it,
    /// and the last one has an edge back to the first.
    CycleDetected(Vec<usize>),
}

impl CycleDetectionResult {
    /// `true` when a cycle was found.
    pub fn has_cycle(&self) -> (b: bool)
        ensures
            b == (self is CycleDetected),
    {
        match self {
            CycleDetectionResult::CycleDetected(_) => true,
            CycleDetectionResult::NoCycle => false,
        }
    }

    /// The cycle, if one was found.
    pub fn cycle_path(&self) -> (r: Option<&[usize]>)
        ensures
            match self {
                CycleDetectionResult::CycleDetected(p) => r.is_some() && r.unwrap()@ == p@,
                CycleDetectionResult::NoCycle => r.is_none(),
            },
    {
        match self {
            CycleDetectionResult::CycleDetected(path) => Some(path.as_slice()),
            CycleDetectionResult::NoCycle => None,
        }
    }
}

/// Task graph under analysis: the tasks in the order they were first seen
/// and, for each, its successors in the order the dependencies were added.
pub struct CycleDetector {
    tasks: Vec<usize>,
    adjacency: Vec<Vec<usize>>,
}

/// Number of `false` entries.
pub open spec fn count_false(s: Seq<bool>) -> nat
    decreases s.len(),
{
    if s.len() == 0 {
        0
    } else {
        count_false(s.drop_last()) + if s.last() { 0nat } else { 1nat }
    }
}

proof fn lemma_count_false_set(s: Seq<bool>, i: int)
    requires
        0 <= i < s.len(),
        !s[i],
    ensures
        count_false(s.update(i, true)) + 1 == count_false(s),
    decreases s.len(),
{
    if i < s.len() - 1 {
        lemma_count_false_set(s.drop_last(), i);
        assert(s.update(i, true).drop_last() =~= s.drop_last().update(i, true));
    } else {
        assert(s.update(i, true).drop_last() =~= s.drop_last());
    }
}

impl CycleDetector {
    /// The tasks, in the order they were first added.
    pub closed spec fn nodes(&self) -> Seq<usize> {
        self.tasks@
    }

    /// Successors of the task at position `i`, with repetitions.
    pub closed spec fn successors_at(&self, i: int) -> Seq<usize> {
        self.adjacency@[i]@
    }

    /// The graph has a dependency `a -> b`.
    pub open spec fn edge(&self, a: usize, b: usize) -> bool {
        exists|i: int|
            0 <= i < self.nodes().len() && self.nodes()[i] == a && #[trigger] self.successors_at(i).contains(b)
    }

    /// `p` is a cycle: consecutive tasks are joined by dependencies and the
    /// last task has a dependency on the first.
    pub open spec fn is_cycle(&self, p: Seq<usize>) -> bool {
        &&& p.len() > 0
        &&& forall|k: int| 0 <= k < p.len() - 1 ==> #[trigger] self.edge(p[k], p[k + 1])
        &&& self.edge(p[p.len() - 1], p[0])
    }

    /// No cycle exists.
    pub open spec fn is_acyclic(&self) -> bool {
        forall|p: Seq<usize>| !#[trigger] self.is_cycle(p)
    }

    /// `ord` lists every task exactly once, and every dependency points
    /// from an earlier entry to a later one.
    pub open spec fn is_topological_order(&self, ord: Seq<usize>) -> bool {
        &&& ord.len() == self.nodes().len()
        &&& ord.no_duplicates()
        &&& forall|x: usize| ord.contains(x) <==> self.nodes().contains(x)
        &&& forall|i: int, j: int|
            0 <= i < ord.len() && 0 <= j < ord.len() && #[trigger] self.edge(ord[i], ord[j]) ==> i < j
    }

    /// Internal consistency: tasks are distinct, each has a successor list,
    /// and every successor is a task.
    pub closed spec fn wf(&self) -> bool {
        &&& self.tasks@.no_duplicates()
        &&& self.adjacency@.len() == self.tasks@.len()
        &&& forall|i: int, k: int|
            0 <= i < self.adjacency@.len() && 0 <= k < self.adjacency@[i]@.len()
                ==> self.tasks@.contains(#[trigger] self.adjacency@[i]@[k])
    }

    /// Every dependency joins two tasks of the graph.
    pub proof fn lemma_edges_join_tasks(&self, a: usize, b: usize)
        requires
            self.wf(),
            self.edge(a, b),
        ensures
            self.nodes().contains(a),
            self.nodes().contains(b),
    {
        let i = choose|i: int|
            0 <= i < self.nodes().len() && self.nodes()[i] == a && #[trigger] self.successors_at(i).contains(b);
        let k = choose|k: int| 0 <= k < self.adjacency@[i]@.len() && self.adjacency@[i]@[k] == b;
        assert(self.tasks@.contains(self.adjacency@[i]@[k]));
    }

    /// An empty graph.
    pub fn new() -> (d: Self)
        ensures
            d.wf(),
            d.nodes() == Seq::<usize>::empty(),
            forall|a: usize, b: usize| !d.edge(a, b),
    {
        CycleDetector { tasks: Vec::new(), adjacency: Vec::new() }
    }

    fn position(&self, t: usize) -> (r: Option<usize>)
        requires
            self.wf(),
        ensures
            match r {
                Some(i) => i < self.tasks@.len() && self.tasks@[i as int] == t,
                None => !self.tasks@.contains(t),
            },
    {
        let mut i: usize = 0;
        while i < self.tasks.len()
            invariant
                0 <= i <= self.tasks@.len(),
                forall|j: int| 0 <= j < i ==> self.tasks@[j] != t,
            decreases self.tasks@.len() - i,
        {
            if self.tasks[i] == t {
                return Some(i);
            }
            i = i + 1;
        }
        None
    }

    /// Adds a task with no dependencies, unless it is already present.
    pub fn add_task(&mut self, task_id: usize)
        requires
            old(self).wf(),
        ensures
            final(self).wf(),
            final(self).nodes() == if old(self).nodes().contains(task_id) {
                old(self).nodes()
            } else {
                old(self).nodes().push(task_id)
            },
            forall|a: usize, b: usize| final(self).edge(a, b) <==> old(self).edge(a, b),
    {
        if self.position(task_id).is_none() {
            let ghost old_tasks = self.tasks@;
            let ghost old_adj = self.adjacency@;
            self.tasks.push(task_id);
            self.adjacency.push(Vec::new());
            proof {
                assert forall|i: int, k: int|
                    0 <= i < self.adjacency@.len() && 0 <= k < self.adjacency@[i]@.len()
                        implies self.tasks@.contains(#[trigger] self.adjacency@[i]@[k]) by {
                    assert(i < old_adj.len());
                    assert(old_tasks.contains(old_adj[i]@[k]));
                    let j = choose|j: int| 0 <= j < old_tasks.len() && old_tasks[j] == old_adj[i]@[k];
                    assert(self.tasks@[j] == old_adj[i]@[k]);
                }
                assert forall|a: usize, b: usize| self.edge(a, b) <==> old(self).edge(a, b) by {
                    if self.edge(a, b) {
                        let i = choose|i: int|
                            0 <= i < self.nodes().len() && self.nodes()[i] == a && #[trigger] self.successors_at(i).contains(b);
                        assert(i < old_tasks.len());
                        assert(old(self).successors_at(i) == self.successors_at(i));
                    }
                    if old(self).edge(a, b) {
                        let i = choose|i: int|
                            0 <= i < old(self).nodes().len() && old(self).nodes()[i] == a
                                && #[trigger] old(self).successors_at(i).contains(b);
                        assert(self.successors_at(i) == old(self).successors_at(i));
                    }
                }
            }
        }
    }

    /// Adds the dependency `from -> to`, adding `from` and then `to` as
    /// tasks when they are new.  Repeated dependencies are kept.
    pub fn add_dependency(&mut self, from: usize, to: usize)
        requires
            old(self).wf(),
        ensures
            final(self).wf(),
            ({
                let n1 = if old(self).nodes().contains(from) {
                    old(self).nodes()
                } else {
                    old(self).nodes().push(from)
                };
                final(self).nodes() == if n1.contains(to) {
                    n1
                } else {
                    n1.push(to)
                }
            }),
            forall|a: usize, b: usize|
                final(self).edge(a, b) <==> (old(self).edge(a, b) || (a == from && b == to)),
    {
        self.add_task(from);
        assert(self.tasks@.contains(from));
        self.add_task(to);
        assert(self.tasks@.contains(from));
        assert(self.tasks@.contains(to));
        let ghost mid_tasks = self.tasks@;
        let ghost mid = self.adjacency@;
        let ghost mid_self = *self;
        let i = match self.position(from) {
            Some(i) => i,
            None => {
                assert(false);
                return;
            },
        };
        self.adjacency[i].push(to);
        proof {
            assert(self.tasks@ == mid_tasks);
            assert forall|j: int, k: int|
                0 <= j < self.adjacency@.len() && 0 <= k < self.adjacency@[j]@.len()
                    implies self.tasks@.contains(#[trigger] self.adjacency@[j]@[k]) by {
                if j != i {
                    assert(self.adjacency@[j] == mid[j]);
                } else if k < mid[j]@.len() {
                    assert(self.adjacency@[j]@[k] == mid[j]@[k]);
                } else {
                    assert(self.adjacency@[j]@[k] == to);
                }
            }
            assert forall|a: usize, b: usize| self.edge(a, b) <==> (mid_self.edge(a, b) || (a == from && b == to)) by {
                if self.edge(a, b) {
                    let j = choose|j: int|
                        0 <= j < self.nodes().len() && self.nodes()[j] == a && #[trigger] self.successors_at(j).contains(b);
                    assert(mid_self.nodes()[j] == a);
                    if j != i {
                        assert(self.successors_at(j) == mid_self.successors_at(j));
                        assert(mid_self.successors_at(j).contains(b));
                    } else {
                        assert(self.successors_at(j) == mid_self.successors_at(j).push(to));
                        if b != to {
                            let k = choose|k: int| 0 <= k < self.successors_at(j).len() && self.successors_at(j)[k] == b;
                            assert(mid_self.successors_at(j)[k] == b);
                            assert(mid_self.successors_at(j).contains(b));
                        }
                    }
                }
                if mid_self.edge(a, b) {
                    let j = choose|j: int|
                        0 <= j < mid_self.nodes().len() && mid_self.nodes()[j] == a
                            && #[trigger] mid_self.successors_at(j).contains(b);
                    assert(self.nodes()[j] == a);
                    if j != i {
                        assert(self.successors_at(j) == mid_self.successors_at(j));
                        assert(self.successors_at(j).contains(b));
                    } else {
                        let k = choose|k: int| 0 <= k < mid_self.successors_at(j).len() && mid_self.successors_at(j)[k] == b;
                        assert(self.successors_at(j)[k] == b);
                        assert(self.successors_at(j).contains(b));
                    }
                }
                if a == from && b == to {
                    assert(self.nodes()[i as int] == from);
                    assert(self.successors_at(i as int)[self.successors_at(i as int).len() - 1] == to);
                    assert(self.successors_at(i as int).contains(to));
                }
            }
        }
    }

    /// Positions `u` not yet placed whose successors include the task at `v`.
    fn unplaced_predecessor(&self, placed: &Vec<bool>, v: usize) -> (r: Option<usize>)
        requires
            self.wf(),
            placed@.len() == self.tasks@.len(),
            v < self.tasks@.len(),
        ensures
            match r {
                Some(u) => u < self.tasks@.len() && !placed@[u as int] && self.successors_at(u as int).contains(
                    self.tasks@[v as int],
                ),
                None => forall|u: int|
                    0 <= u < self.tasks@.len() && !placed@[u] ==> !#[trigger] self.successors_at(u).contains(
                        self.tasks@[v as int],
                    ),
            },
    {
        let target = self.tasks[v];
        let mut u: usize = 0;
        while u < self.tasks.len()
            invariant
                self.wf(),
                placed@.len() == self.tasks@.len(),
                target == self.tasks@[v as int],
                0 <= u <= self.tasks@.len(),
                forall|w: int| 0 <= w < u && !placed@[w] ==> !#[trigger] self.successors_at(w).contains(target),
            decreases self.tasks@.len() - u,
        {
            if !placed[u] {
                let succ = &self.adjacency[u];
                let mut k: usize = 0;
                while k < succ.len()
                    invariant
                        u < self.tasks@.len(),
                        placed@.len() == self.tasks@.len(),
                        !placed@[u as int],
                        target == self.tasks@[v as int],
                        succ@ == self.successors_at(u as int),
                        0 <= k <= succ@.len(),
                        forall|m: int| 0 <= m < k ==> succ@[m] != target,
                    decreases succ@.len() - k,
                {
                    if succ[k] == target {
                        assert(succ@[k as int] == target);
                        return Some(u);
                    }
                    k = k + 1;
                }
            }
            u = u + 1;
        }
        None
    }

    proof fn lemma_edge_at(&self, i: int, b: usize)
        requires
            self.wf(),
            0 <= i < self.tasks@.len(),
        ensures
            self.edge(self.tasks@[i], b) <==> self.successors_at(i).contains(b),
    {
        if self.edge(self.tasks@[i], b) {
            let j = choose|j: int|
                0 <= j < self.nodes().len() && self.nodes()[j] == self.tasks@[i]
                    && #[trigger] self.successors_at(j).contains(b);
            assert(j == i);
        }
    }

    /// A topological order rules out every cycle.
    proof fn lemma_order_excludes_cycles(&self, ord: Seq<usize>, p: Seq<usize>)
        requires
            self.wf(),
            self.is_topological_order(ord),
        ensures
            !self.is_cycle(p),
    {
        if self.is_cycle(p) {
            let pos = |x: usize| ord.index_of(x);
            assert forall|k: int| 0 <= k < p.len() implies ord.contains(#[trigger] p[k]) by {
                if k < p.len() - 1 {
                    assert(self.edge(p[k], p[k + 1]));
                    self.lemma_edges_join_tasks(p[k], p[k + 1]);
                } else {
                    self.lemma_edges_join_tasks(p[p.len() - 1], p[0]);
                }
            }
            assert forall|k: int| 0 <= k < p.len() implies #[trigger] ord.index_of(p[k]) >= ord.index_of(p[0]) + k by {
                self.lemma_cycle_positions(ord, p, k);
            }
            let last = p.len() - 1;
            assert(ord.index_of(p[last]) >= ord.index_of(p[0]) + last);
            assert(self.edge(p[last], p[0]));
            let a = ord.index_of(p[last]);
            let b = ord.index_of(p[0]);
            assert(ord[a] == p[last] && ord[b] == p[0]);
            assert(self.edge(ord[a], ord[b]));
            assert(a < b);
        }
    }

    proof fn lemma_cycle_positions(&self, ord: Seq<usize>, p: Seq<usize>, k: int)
        requires
            self.wf(),
            self.is_topological_order(ord),
            self.is_cycle(p),
            0 <= k < p.len(),
            forall|m: int| 0 <= m < p.len() ==> ord.contains(#[trigger] p[m]),
        ensures
            ord.index_of(p[k]) >= ord.index_of(p[0]) + k,
        decreases k,
    {
        if k > 0 {
            self.lemma_cycle_positions(ord, p, k - 1);
            assert(self.edge(p[k - 1], p[(k - 1) + 1]));
            assert(self.edge(p[k - 1], p[k]));
            let a = ord.index_of(p[k - 1]);
            let b = ord.index_of(p[k]);
            assert(ord[a] == p[k - 1] && ord[b] == p[k]);
            assert(self.edge(ord[a], ord[b]));
        }
    }

    /// Lists the tasks so that every dependency points forward, or returns
    /// a cycle when no such listing exists.  Tasks are taken repeatedly, in
    /// graph order, as soon as none of their predecessors is left.
    fn order_or_cycle(&self) -> (r: Result<Vec<usize>, Vec<usize>>)
        requires
            self.wf(),
        ensures
            match r {
                Ok(ord) => self.is_topological_order(ord@),
                Err(c) => self.is_cycle(c@) && c@.no_duplicates(),
            },
    {
        let n = self.tasks.len();
        let mut placed: Vec<bool> = Vec::new();
        let mut i: usize = 0;
        while i < n
            invariant
                0 <= i <= n,
                placed@.len() == i,
                forall|j: int| 0 <= j < i ==> !placed@[j],
            decreases n - i,
        {
            placed.push(false);
            i = i + 1;
        }
        let mut order: Vec<usize> = Vec::new();
        let mut progress = true;
        while progress
            invariant
                self.wf(),
                n == self.tasks@.len(),
                placed@.len() == n,
                order@.no_duplicates(),
                forall|x: usize| order@.contains(x) <==> exists|j: int| 0 <= j < n && placed@[j] && self.tasks@[j] == x,
                forall|a: int, b: int|
                    0 <= a < order@.len() && 0 <= b < order@.len() && #[trigger] self.edge(order@[a], order@[b]) ==> a < b,
                forall|j: int, u: int|
                    0 <= j < n && 0 <= u < n && placed@[j] && !placed@[u] ==> !#[trigger] self.successors_at(u).contains(self.tasks@[j]),
                !progress ==> forall|v: int| 0 <= v < n && !placed@[v] ==> exists|u: int|
                    0 <= u < n && !placed@[u] && #[trigger] self.successors_at(u).contains(self.tasks@[v]),
            decreases count_false(placed@), if progress { 1int } else { 0int },
        {
            progress = false;
            let ghost start_placed = placed@;
            let mut v: usize = 0;
            while v < n && !progress
                invariant
                    self.wf(),
                    n == self.tasks@.len(),
                    placed@.len() == n,
                    0 <= v <= n,
                    start_placed.len() == n,
                    order@.no_duplicates(),
                    forall|x: usize| order@.contains(x) <==> exists|j: int| 0 <= j < n && placed@[j] && self.tasks@[j] == x,
                    forall|a: int, b: int|
                        0 <= a < order@.len() && 0 <= b < order@.len() && #[trigger] self.edge(order@[a], order@[b]) ==> a < b,
                    forall|j: int, u: int|
                        0 <= j < n && 0 <= u < n && placed@[j] && !placed@[u] ==> !#[trigger] self.successors_at(u).contains(self.tasks@[j]),
                    !progress ==> forall|w: int| 0 <= w < v && !placed@[w] ==> exists|u: int|
                        0 <= u < n && !placed@[u] && #[trigger] self.successors_at(u).contains(self.tasks@[w]),
                    progress ==> count_false(placed@) + 1 == count_false(start_placed),
                    !progress ==> placed@ == start_placed,
                decreases n - v,
            {
                if !placed[v] {
                    match self.unplaced_predecessor(&placed, v) {
                        Some(_) => {},
                        None => {
                            let ghost old_placed = placed@;
                            let ghost old_order = order@;
                            let t = self.tasks[v];
                            proof {
                                assert(!old_order.contains(t)) by {
                                    if old_order.contains(t) {
                                        let j = choose|j: int| 0 <= j < n && old_placed[j] && self.tasks@[j] == t;
                                        assert(j == v as int);
                                    }
                                }
                                lemma_count_false_set(old_placed, v as int);
                            }
                            placed.set(v, true);
                            order.push(t);
                            progress = true;
                            proof {
                                self.lemma_place_step(old_placed, placed@, old_order, order@, v as int);
                            }
                        },
                    }
                }
                v = v + 1;
            }
        }
        // No task can be taken any more: either all are placed or a cycle remains.
        let mut s: usize = 0;
        while s < n && placed[s]
            invariant
                0 <= s <= n,
                placed@.len() == n,
                forall|j: int| 0 <= j < s ==> placed@[j],
            decreases n - s,
        {
            s = s + 1;
        }
        if s == n {
            proof {
                assert forall|x: usize| order@.contains(x) <==> self.tasks@.contains(x) by {
                    if self.tasks@.contains(x) {
                        let j = choose|j: int| 0 <= j < n && self.tasks@[j] == x;
                        assert(placed@[j]);
                    }
                }
                self.lemma_same_elements_same_len(order@);
            }
            return Ok(order);
        }
        let (walk, start) = self.walk_back(&placed, s);
        let c = self.cycle_from_walk(&walk, start);
        Err(c)
    }

    proof fn lemma_same_elements_same_len(&self, ord: Seq<usize>)
        requires
            self.wf(),
            ord.no_duplicates(),
            forall|x: usize| ord.contains(x) <==> self.tasks@.contains(x),
        ensures
            ord.len() == self.tasks@.len(),
    {
        ord.unique_seq_to_set();
        self.tasks@.unique_seq_to_set();
        assert(ord.to_set() =~= self.tasks@.to_set());
    }

    proof fn lemma_place_step(
        &self,
        old_placed: Seq<bool>,
        new_placed: Seq<bool>,
        old_order: Seq<usize>,
        new_order: Seq<usize>,
        v: int,
    )
        requires
            self.wf(),
            old_placed.len() == self.tasks@.len(),
            0 <= v < old_placed.len(),
            !old_placed[v],
            new_placed == old_placed.update(v, true),
            new_order == old_order.push(self.tasks@[v]),
            !old_order.contains(self.tasks@[v]),
            old_order.no_duplicates(),
            forall|x: usize| old_order.contains(x) <==> exists|j: int|
                0 <= j < old_placed.len() && old_placed[j] && self.tasks@[j] == x,
            forall|a: int, b: int|
                0 <= a < old_order.len() && 0 <= b < old_order.len() && #[trigger] self.edge(old_order[a], old_order[b]) ==> a < b,
            forall|j: int, u: int|
                0 <= j < old_placed.len() && 0 <= u < old_placed.len() && old_placed[j] && !old_placed[u]
                    ==> !#[trigger] self.successors_at(u).contains(self.tasks@[j]),
            forall|u: int|
                0 <= u < old_placed.len() && !old_placed[u] ==> !#[trigger] self.successors_at(u).contains(self.tasks@[v]),
        ensures
            new_order.no_duplicates(),
            forall|x: usize| new_order.contains(x) <==> exists|j: int|
                0 <= j < new_placed.len() && new_placed[j] && self.tasks@[j] == x,
            forall|a: int, b: int|
                0 <= a < new_order.len() && 0 <= b < new_order.len() && #[trigger] self.edge(new_order[a], new_order[b]) ==> a < b,
            forall|j: int, u: int|
                0 <= j < new_placed.len() && 0 <= u < new_placed.len() && new_placed[j] && !new_placed[u]
                    ==> !#[trigger] self.successors_at(u).contains(self.tasks@[j]),
    {
        let n = old_placed.len();
        let t = self.tasks@[v];
        assert forall|x: usize| new_order.contains(x) <==> exists|j: int|
            0 <= j < n && new_placed[j] && self.tasks@[j] == x by {
            if new_order.contains(x) {
                if x == t {
                    assert(new_placed[v] && self.tasks@[v] == x);
                } else {
                    let k = choose|k: int| 0 <= k < new_order.len() && new_order[k] == x;
                    assert(old_order[k] == x);
                    assert(old_order.contains(x));
                    let j = choose|j: int| 0 <= j < n && old_placed[j] && self.tasks@[j] == x;
                    assert(new_placed[j]);
                }
            }
            if exists|j: int| 0 <= j < n && new_placed[j] && self.tasks@[j] == x {
                let j = choose|j: int| 0 <= j < n && new_placed[j] && self.tasks@[j] == x;
                if j == v {
                    assert(new_order[new_order.len() - 1] == x);
                } else {
                    assert(old_placed[j]);
                    assert(old_order.contains(x));
                    let k = choose|k: int| 0 <= k < old_order.len() && old_order[k] == x;
                    assert(new_order[k] == x);
                }
            }
        }
        assert forall|a: int, b: int|
            0 <= a < new_order.len() && 0 <= b < new_order.len() && #[trigger] self.edge(new_order[a], new_order[b]) implies a < b by {
            let last = old_order.len() as int;
            if a == last {
                // An edge out of the new task into an already placed task is impossible.
                if b < last {
                    let x = new_order[b];
                    assert(old_order[b] == x);
                    assert(old_order.contains(x));
                    let j = choose|j: int| 0 <= j < n && old_placed[j] && self.tasks@[j] == x;
                    self.lemma_edge_at(v, x);
                    assert(false);
                } else {
                    self.lemma_edge_at(v, t);
                    assert(false);
                }
            } else if b == last {
            } else {
                assert(new_order[a] == old_order[a] && new_order[b] == old_order[b]);
            }
        }
        assert forall|j: int, u: int|
            0 <= j < n && 0 <= u < n && new_placed[j] && !new_placed[u]
                implies !#[trigger] self.successors_at(u).contains(self.tasks@[j]) by {
            if j != v {
                assert(old_placed[j] && !old_placed[u]);
            }
        }
    }

    /// Walks backwards from the unplaced task at `s` along unplaced
    /// predecessors until a task repeats.  Returns the walk and the position
    /// in it of the task that repeats.
    #[verifier::rlimit(40)]
    fn walk_back(&self, placed: &Vec<bool>, s: usize) -> (r: (Vec<usize>, usize))
        requires
            self.wf(),
            placed@.len() == self.tasks@.len(),
            s < self.tasks@.len(),
            !placed@[s as int],
            forall|v: int| 0 <= v < self.tasks@.len() && !placed@[v] ==> exists|u: int|
                0 <= u < self.tasks@.len() && !placed@[u] && #[trigger] self.successors_at(u).contains(self.tasks@[v]),
        ensures
            r.1 < r.0@.len(),
            r.0@.no_duplicates(),
            forall|k: int| 0 <= k < r.0@.len() ==> (#[trigger] r.0@[k]) < self.tasks@.len(),
            forall|k: int| 0 <= k < r.0@.len() - 1 ==> #[trigger] self.successors_at(r.0@[k + 1] as int).contains(self.tasks@[r.0@[k] as int]),
            self.successors_at(r.0@[r.1 as int] as int).contains(self.tasks@[r.0@[r.0@.len() - 1] as int]),
    {
        let n = self.tasks.len();
        let mut seen: Vec<bool> = Vec::new();
        let mut step_of: Vec<usize> = Vec::new();
        let mut i: usize = 0;
        while i < n
            invariant
                0 <= i <= n,
                seen@.len() == i,
                step_of@.len() == i,
                forall|j: int| 0 <= j < i ==> !seen@[j],
            decreases n - i,
        {
            seen.push(false);
            step_of.push(0);
            i = i + 1;
        }
        let mut walk: Vec<usize> = Vec::new();
        let mut cur = s;
        while !seen[cur]
            invariant
                self.wf(),
                n == self.tasks@.len(),
                seen@.len() == n,
                step_of@.len() == n,
                placed@.len() == n,
                cur < n,
                !placed@[cur as int],
                forall|v: int| 0 <= v < n && !placed@[v] ==> exists|u: int|
                    0 <= u < n && !placed@[u] && #[trigger] self.successors_at(u).contains(self.tasks@[v]),
                forall|k: int| 0 <= k < walk@.len() ==> (#[trigger] walk@[k]) < n,
                walk@.no_duplicates(),
                forall|k: int| 0 <= k < walk@.len() ==> seen@[#[trigger] walk@[k] as int],
                forall|j: int| 0 <= j < n && #[trigger] seen@[j] ==> step_of@[j] < walk@.len() && walk@[step_of@[j] as int] == j,
                forall|k: int| 0 <= k < walk@.len() - 1 ==> #[trigger] self.successors_at(walk@[k + 1] as int).contains(self.tasks@[walk@[k] as int]),
                walk@.len() > 0 ==> self.successors_at(cur as int).contains(self.tasks@[walk@[walk@.len() - 1] as int]),
            decreases count_false(seen@),
        {
            proof {
                lemma_count_false_set(seen@, cur as int);
            }
            let k = walk.len();
            let ghost w0 = walk@;
            seen.set(cur, true);
            step_of.set(cur, k);
            walk.push(cur);
            proof {
                assert forall|a: int, b: int| 0 <= a < walk@.len() && 0 <= b < walk@.len() && a != b
                    implies walk@[a] != walk@[b] by {
                    if a < w0.len() && b < w0.len() {
                        assert(w0[a] != w0[b]);
                    } else if a < w0.len() {
                        assert(seen@[w0[a] as int]);
                    } else {
                        assert(seen@[w0[b] as int]);
                    }
                };
                assert forall|q: int| 0 <= q < walk@.len() implies seen@[#[trigger] walk@[q] as int] by {
                    if q < w0.len() {
                        assert(walk@[q] == w0[q]);
                    }
                };
            }
            let pred = match self.unplaced_predecessor(placed, cur) {
                Some(u) => u,
                None => {
                    proof {
                        let u = choose|u: int|
                            0 <= u < n && !placed@[u] && #[trigger] self.successors_at(u).contains(self.tasks@[cur as int]);
                    }
                    assert(false);
                    return (walk, 0);
                },
            };
            proof {
                let w = walk@;
                assert forall|k2: int| 0 <= k2 < w.len() - 1 implies #[trigger] self.successors_at(w[k2 + 1] as int).contains(self.tasks@[w[k2] as int]) by {
                    if k2 < w.len() - 2 {
                    } else {
                        assert(w[k2 + 1] == cur);
                    }
                }
            }
            cur = pred;
        }
        let start = step_of[cur];
        (walk, start)
    }

    /// Turns a backward walk that closes on position `start` into a cycle.
    fn cycle_from_walk(&self, walk: &Vec<usize>, start: usize) -> (c: Vec<usize>)
        requires
            self.wf(),
            start < walk@.len(),
            walk@.no_duplicates(),
            forall|k: int| 0 <= k < walk@.len() ==> (#[trigger] walk@[k]) < self.tasks@.len(),
            forall|k: int| 0 <= k < walk@.len() - 1 ==> #[trigger] self.successors_at(walk@[k + 1] as int).contains(self.tasks@[walk@[k] as int]),
            self.successors_at(walk@[start as int] as int).contains(self.tasks@[walk@[walk@.len() - 1] as int]),
        ensures
            self.is_cycle(c@),
            c@.no_duplicates(),
    {
        let t = walk.len();
        let mut c: Vec<usize> = Vec::new();
        let mut m = t;
        while m > start
            invariant
                start <= m <= t,
                t == walk@.len(),
                forall|k: int| 0 <= k < walk@.len() ==> (#[trigger] walk@[k]) < self.tasks@.len(),
                c@.len() == t - m,
                forall|q: int| 0 <= q < c@.len() ==> #[trigger] c@[q] == self.tasks@[walk@[t - 1 - q] as int],
            decreases m,
        {
            m = m - 1;
            c.push(self.tasks[walk[m]]);
        }
        proof {
            let cs = c@;
            assert forall|q: int| 0 <= q < cs.len() - 1 implies #[trigger] self.edge(cs[q], cs[q + 1]) by {
                let k = t - 2 - q;
                assert(self.successors_at(walk@[k + 1] as int).contains(self.tasks@[walk@[k] as int]));
                assert(cs[q] == self.tasks@[walk@[k + 1] as int]);
                assert(cs[q + 1] == self.tasks@[walk@[k] as int]);
                self.lemma_edge_at(walk@[k + 1] as int, self.tasks@[walk@[k] as int]);
            }
            self.lemma_edge_at(walk@[start as int] as int, self.tasks@[walk@[t - 1] as int]);
            assert(cs[cs.len() - 1] == self.tasks@[walk@[start as int] as int]);
            assert(cs[0] == self.tasks@[walk@[t - 1] as int]);
            assert forall|a: int, b: int| 0 <= a < cs.len() && 0 <= b < cs.len() && a != b implies cs[a] != cs[b] by {
                assert(walk@[t - 1 - a] != walk@[t - 1 - b]);
                assert(self.tasks@[walk@[t - 1 - a] as int] != self.tasks@[walk@[t - 1 - b] as int]);
            };
        }
        c
    }

    /// Looks for a cycle.  `NoCycle` is returned exactly when the graph is
    /// acyclic; otherwise the result carries one cycle.
    pub fn detect_cycle(&self) -> (r: CycleDetectionResult)
        requires
            self.wf(),
        ensures
            match r {
                CycleDetectionResult::NoCycle => self.is_acyclic(),
                CycleDetectionResult::CycleDetected(p) => self.is_cycle(p@) && p@.no_duplicates(),
            },
    {
        match self.order_or_cycle() {
            Ok(ord) => {
                proof {
                    assert forall|p: Seq<usize>| !#[trigger] self.is_cycle(p) by {
                        self.lemma_order_excludes_cycles(ord@, p);
                    }
                }
                CycleDetectionResult::NoCycle
            },
            Err(c) => CycleDetectionResult::CycleDetected(c),
        }
    }

    /// A topological order of the tasks, or `None` exactly when the graph
    /// has a cycle.
    pub fn topological_sort(&self) -> (r: Option<Vec<usize>>)
        requires
            self.wf(),
        ensures
            r is Some <==> self.is_acyclic(),
            r matches Some(ord) ==> self.is_topological_order(ord@),
    {
        match self.order_or_cycle() {
            Ok(ord) => {
                proof {
                    assert forall|p: Seq<usize>| !#[trigger] self.is_cycle(p) by {
                        self.lemma_order_excludes_cycles(ord@, p);
                    }
                }
                Some(ord)
            },
            Err(c) => {
                assert(self.is_cycle(c@));
                None
            },
        }
    }
}

impl CycleDetector {
    /// `p` is a walk along dependencies.
    pub open spec fn is_path(&self, p: Seq<usize>) -> bool {
        &&& p.len() > 0
        &&& forall|k: int| 0 <= k < p.len() - 1 ==> #[trigger] self.edge(p[k], p[k + 1])
    }

    /// `b` can be reached from `a` by following zero or more dependencies.
    pub open spec fn reaches(&self, a: usize, b: usize) -> bool {
        exists|p: Seq<usize>| #[trigger] self.is_path(p) && p[0] == a && p[p.len() - 1] == b
    }

    /// `a` and `b` reach each other.
    pub open spec fn mutually_reach(&self, a: usize, b: usize) -> bool {
        self.reaches(a, b) && self.reaches(b, a)
    }

    /// `x` lies on a cycle: it depends on itself directly, or it reaches and
    /// is reached from another task.
    pub open spec fn on_cycle(&self, x: usize) -> bool {
        self.edge(x, x) || exists|y: usize| y != x && #[trigger] self.mutually_reach(x, y)
    }

    /// The first task of a cycle is a task of the graph and lies on a
    /// cycle.
    proof fn lemma_cycle_head(&self, p: Seq<usize>)
        requires
            self.is_cycle(p),
        ensures
            self.nodes().contains(p[0]),
            self.on_cycle(p[0]),
    {
        let x = p[0];
        if p.len() == 1 {
            assert(self.edge(x, x));
        } else {
            let y = p[1];
            assert(self.edge(p[0], p[0int + 1]));
            if y == x {
                assert(self.edge(x, x));
            } else {
                let a = seq![x, y];
                assert(self.edge(a[0], a[0int + 1]));
                assert(self.is_path(a));
                let q = p.subrange(1, p.len() as int).push(x);
                assert forall|k: int| 0 <= k < q.len() - 1 implies #[trigger] self.edge(q[k], q[k + 1]) by {
                    if k < q.len() - 2 {
                        assert(q[k] == p[k + 1] && q[k + 1] == p[k + 2]);
                    } else {
                        assert(q[k] == p[p.len() - 1] && q[k + 1] == p[0]);
                    }
                };
                assert(self.is_path(q) && q[0] == y && q[q.len() - 1] == x);
                assert(self.reaches(x, y));
                assert(self.reaches(y, x));
                assert(self.mutually_reach(x, y));
            }
        }
        let nx: usize = if p.len() == 1 { x } else { p[1] };
        assert(self.edge(x, nx));
        let i = choose|i: int| 0 <= i < self.nodes().len() && self.nodes()[i] == x && #[trigger] self.successors_at(i).contains(nx);
        assert(self.nodes()[i] == x);
    }

    /// Two different tasks that reach each other make a cycle.
    proof fn lemma_mutual_cycle(&self, x: usize, y: usize)
        requires
            x != y,
            self.mutually_reach(x, y),
        ensures
            !self.is_acyclic(),
    {
        let p = choose|p: Seq<usize>| #[trigger] self.is_path(p) && p[0] == x && p[p.len() - 1] == y;
        let q = choose|q: Seq<usize>| #[trigger] self.is_path(q) && q[0] == y && q[q.len() - 1] == x;
        let pl = p.len() as int;
        let ql = q.len() as int;
        assert(pl >= 2 && ql >= 2);
        let cyc = p.drop_last() + q.drop_last();
        assert forall|k: int| 0 <= k < cyc.len() - 1 implies #[trigger] self.edge(cyc[k], cyc[k + 1]) by {
            if k < pl - 2 {
                assert(cyc[k] == p[k] && cyc[k + 1] == p[k + 1]);
            } else if k == pl - 2 {
                assert(cyc[k] == p[pl - 2] && cyc[k + 1] == q[0]);
                assert(self.edge(p[pl - 2], p[pl - 2 + 1]));
            } else {
                let j = k - (pl - 1);
                assert(cyc[k] == q[j] && cyc[k + 1] == q[j + 1]);
            }
        };
        assert(cyc[cyc.len() - 1] == q[ql - 2] && cyc[0] == p[0]);
        assert(self.edge(q[ql - 2], q[ql - 2 + 1]));
        assert(self.is_cycle(cyc));
    }

    /// Groups of tasks as `strongly_connected_components` gives them: none
    /// exactly when the graph has no cycle.
    pub proof fn lemma_components_empty_iff_acyclic(&self, r: Seq<Vec<usize>>)
        requires
            forall|c: int| 0 <= c < r.len() ==> (#[trigger] r[c])@.len() > 0 && r[c]@.no_duplicates()
                && (r[c]@.len() > 1 || self.edge(r[c]@[0], r[c]@[0])),
            forall|c: int, x: usize, y: usize|
                #![trigger r[c]@.contains(x), r[c]@.contains(y)]
                0 <= c < r.len() && r[c]@.contains(x) && r[c]@.contains(y) ==> self.mutually_reach(x, y),
            forall|x: usize| self.nodes().contains(x) && #[trigger] self.on_cycle(x) ==> exists|c: int|
                0 <= c < r.len() && (#[trigger] r[c])@.contains(x),
        ensures
            r.len() == 0 <==> self.is_acyclic(),
    {
        if r.len() > 0 {
            let g = r[0]@;
            if g.len() > 1 {
                assert(g[0] != g[1]);
                assert(g.contains(g[0]) && g.contains(g[1]));
                self.lemma_mutual_cycle(g[0], g[1]);
            } else {
                assert(self.is_cycle(seq![g[0]]));
            }
        } else {
            assert forall|p: Seq<usize>| !#[trigger] self.is_cycle(p) by {
                if self.is_cycle(p) {
                    self.lemma_cycle_head(p);
                }
            };
        }
    }

    /// Every task reaches itself.
    pub proof fn lemma_reaches_refl(&self, a: usize)
        ensures
            self.reaches(a, a),
    {
        let p = seq![a];
        assert(self.is_path(p));
    }

    /// Reachability composes.
    pub proof fn lemma_reaches_trans(&self, a: usize, b: usize, c: usize)
        requires
            self.reaches(a, b),
            self.reaches(b, c),
        ensures
            self.reaches(a, c),
    {
        let p = choose|p: Seq<usize>| #[trigger] self.is_path(p) && p[0] == a && p[p.len() - 1] == b;
        let q = choose|q: Seq<usize>| #[trigger] self.is_path(q) && q[0] == b && q[q.len() - 1] == c;
        let r = p + q.drop_first();
        assert forall|k: int| 0 <= k < r.len() - 1 implies #[trigger] self.edge(r[k], r[k + 1]) by {
            if k < p.len() - 1 {
                assert(r[k] == p[k] && r[k + 1] == p[k + 1]);
            } else if k == p.len() - 1 {
                assert(r[k] == q[0]);
                assert(r[k + 1] == q[1]);
                assert(self.edge(q[0], q[0int + 1]));
            } else {
                let k2 = k - p.len() + 1;
                assert(r[k] == q[k2] && r[k + 1] == q[k2 + 1]);
            }
        }
        assert(self.is_path(r));
        if q.len() == 1 {
            assert(r =~= p);
        }
    }

    /// A dependency is a one-step walk.
    pub proof fn lemma_edge_reaches(&self, a: usize, b: usize)
        requires
            self.edge(a, b),
        ensures
            self.reaches(a, b),
    {
        let p = seq![a, b];
        assert(self.edge(p[0], p[0int + 1]));
        assert(self.is_path(p));
    }

    /// Successor positions of every task.
    fn index_adjacency(&self) -> (r: Vec<Vec<usize>>)
        requires
            self.wf(),
        ensures
            r@.len() == self.tasks@.len(),
            forall|u: int| 0 <= u < r@.len() ==> (#[trigger] r@[u])@.len() == self.successors_at(u).len(),
            forall|u: int, k: int| 0 <= u < r@.len() && 0 <= k < r@[u]@.len() ==> (#[trigger] r@[u]@[k]) < self.tasks@.len()
                && self.tasks@[r@[u]@[k] as int] == self.successors_at(u)[k],
    {
        let n = self.tasks.len();
        let mut r: Vec<Vec<usize>> = Vec::new();
        let mut u: usize = 0;
        while u < n
            invariant
                self.wf(),
                n == self.tasks@.len(),
                0 <= u <= n,
                r@.len() == u,
                forall|v: int| 0 <= v < u ==> (#[trigger] r@[v])@.len() == self.successors_at(v).len(),
                forall|v: int, k: int| 0 <= v < u && 0 <= k < r@[v]@.len() ==> (#[trigger] r@[v]@[k]) < n
                    && self.tasks@[r@[v]@[k] as int] == self.successors_at(v)[k],
            decreases n - u,
        {
            let succ = &self.adjacency[u];
            let mut row: Vec<usize> = Vec::new();
            let mut k: usize = 0;
            while k < succ.len()
                invariant
                    self.wf(),
                    n == self.tasks@.len(),
                    u < n,
                    succ@ == self.successors_at(u as int),
                    0 <= k <= succ@.len(),
                    row@.len() == k,
                    forall|m: int| 0 <= m < k ==> (#[trigger] row@[m]) < n && self.tasks@[row@[m] as int] == succ@[m],
                decreases succ@.len() - k,
            {
                assert(self.tasks@.contains(self.adjacency@[u as int]@[k as int]));
                let j = match self.position(succ[k]) {
                    Some(j) => j,
                    None => {
                        assert(false);
                        0
                    },
                };
                row.push(j);
                k = k + 1;
            }
            r.push(row);
            u = u + 1;
        }
        r
    }

    /// Positions of the tasks reachable from the task at position `i`.
    #[verifier::rlimit(40)]
    fn reach_from(&self, adj: &Vec<Vec<usize>>, i: usize) -> (r: Vec<bool>)
        requires
            self.wf(),
            i < self.tasks@.len(),
            adj@.len() == self.tasks@.len(),
            forall|u: int| 0 <= u < adj@.len() ==> (#[trigger] adj@[u])@.len() == self.successors_at(u).len(),
            forall|u: int, k: int| 0 <= u < adj@.len() && 0 <= k < adj@[u]@.len() ==> (#[trigger] adj@[u]@[k]) < self.tasks@.len()
                && self.tasks@[adj@[u]@[k] as int] == self.successors_at(u)[k],
        ensures
            r@.len() == self.tasks@.len(),
            forall|j: int| 0 <= j < self.tasks@.len() ==> (#[trigger] r@[j] <==> self.reaches(self.tasks@[i as int], self.tasks@[j])),
    {
        let n = self.tasks.len();
        let ghost a = self.tasks@[i as int];
        let mut marked: Vec<bool> = Vec::new();
        let mut k: usize = 0;
        while k < n
            invariant
                0 <= k <= n,
                marked@.len() == k,
                forall|j: int| 0 <= j < k ==> !marked@[j],
            decreases n - k,
        {
            marked.push(false);
            k = k + 1;
        }
        proof {
            lemma_count_false_set(marked@, i as int);
            self.lemma_reaches_refl(a);
        }
        marked.set(i, true);
        let mut stack: Vec<usize> = Vec::new();
        stack.push(i);
        while stack.len() > 0
            invariant
                self.wf(),
                n == self.tasks@.len(),
                i < n,
                a == self.tasks@[i as int],
                adj@.len() == n,
                forall|u: int| 0 <= u < adj@.len() ==> (#[trigger] adj@[u])@.len() == self.successors_at(u).len(),
                forall|u: int, k2: int| 0 <= u < adj@.len() && 0 <= k2 < adj@[u]@.len() ==> (#[trigger] adj@[u]@[k2]) < n
                    && self.tasks@[adj@[u]@[k2] as int] == self.successors_at(u)[k2],
                marked@.len() == n,
                marked@[i as int],
                stack@.no_duplicates(),
                forall|q: int| 0 <= q < stack@.len() ==> (#[trigger] stack@[q]) < n && marked@[stack@[q] as int],
                forall|j: int| 0 <= j < n && #[trigger] marked@[j] ==> self.reaches(a, self.tasks@[j]),
                forall|j: int, k2: int|
                    0 <= j < n && marked@[j] && !stack@.contains(j as usize) && 0 <= k2 < adj@[j]@.len()
                        ==> marked@[#[trigger] adj@[j]@[k2] as int],
            decreases count_false(marked@), stack@.len(),
        {
            let u = stack.pop().unwrap();
            let ghost stack_after_pop = stack@;
            proof {
                assert(!stack@.contains(u)) by {
                    if stack@.contains(u) {
                        let q = choose|q: int| 0 <= q < stack@.len() && stack@[q] == u;
                        assert(stack_after_pop.push(u)[q] == stack_after_pop.push(u)[stack_after_pop.len() as int]);
                    }
                }
            }
            let row = &adj[u];
            let mut m: usize = 0;
            let ghost cf_start = count_false(marked@);
            while m < row.len()
                invariant
                    self.wf(),
                    n == self.tasks@.len(),
                    i < n,
                    a == self.tasks@[i as int],
                    adj@.len() == n,
                    u < n,
                    row@ == adj@[u as int]@,
                    forall|u2: int| 0 <= u2 < adj@.len() ==> (#[trigger] adj@[u2])@.len() == self.successors_at(u2).len(),
                    forall|u2: int, k2: int| 0 <= u2 < adj@.len() && 0 <= k2 < adj@[u2]@.len() ==> (#[trigger] adj@[u2]@[k2]) < n
                        && self.tasks@[adj@[u2]@[k2] as int] == self.successors_at(u2)[k2],
                    marked@.len() == n,
                    marked@[i as int],
                    marked@[u as int],
                    0 <= m <= row@.len(),
                    stack@.no_duplicates(),
                    !stack@.contains(u),
                    forall|q: int| 0 <= q < stack@.len() ==> (#[trigger] stack@[q]) < n && marked@[stack@[q] as int],
                    forall|j: int| 0 <= j < n && #[trigger] marked@[j] ==> self.reaches(a, self.tasks@[j]),
                    forall|j: int, k2: int|
                        0 <= j < n && j != u && marked@[j] && !stack@.contains(j as usize) && 0 <= k2 < adj@[j]@.len()
                            ==> marked@[#[trigger] adj@[j]@[k2] as int],
                    forall|k2: int| 0 <= k2 < m ==> marked@[#[trigger] row@[k2] as int],
                    count_false(marked@) <= cf_start,
                    count_false(marked@) == cf_start ==> stack@ == stack_after_pop,
                decreases row@.len() - m,
            {
                let w = row[m];
                if !marked[w] {
                    proof {
                        lemma_count_false_set(marked@, w as int);
                        assert(self.tasks@[w as int] == self.successors_at(u as int)[m as int]);
                        assert(self.successors_at(u as int).contains(self.tasks@[w as int]));
                        self.lemma_edge_at(u as int, self.tasks@[w as int]);
                        self.lemma_edge_reaches(self.tasks@[u as int], self.tasks@[w as int]);
                        self.lemma_reaches_trans(a, self.tasks@[u as int], self.tasks@[w as int]);
                        assert(!stack@.contains(w)) by {
                            if stack@.contains(w) {
                                let q = choose|q: int| 0 <= q < stack@.len() && stack@[q] == w;
                            }
                        }
                    }
                    marked.set(w, true);
                    stack.push(w);
                    proof {
                        assert forall|j: int, k2: int|
                            0 <= j < n && j != u && marked@[j] && !stack@.contains(j as usize) && 0 <= k2 < adj@[j]@.len()
                                implies marked@[#[trigger] adj@[j]@[k2] as int] by {
                            assert(j != w);
                            assert(!stack@.drop_last().contains(j as usize)) by {
                                if stack@.drop_last().contains(j as usize) {
                                    let q = choose|q: int| 0 <= q < stack@.drop_last().len() && stack@.drop_last()[q] == j;
                                    assert(stack@[q] == j);
                                }
                            }
                        }
                    }
                }
                m = m + 1;
            }
        }
        proof {
            assert forall|j: int| 0 <= j < n implies (#[trigger] marked@[j] <==> self.reaches(a, self.tasks@[j])) by {
                if self.reaches(a, self.tasks@[j]) {
                    self.lemma_closed_contains(adj, marked@, i as int, self.tasks@[j]);
                    let m2 = choose|m2: int| 0 <= m2 < n && marked@[m2] && self.tasks@[m2] == self.tasks@[j];
                    assert(m2 == j);
                }
            }
        }
        marked
    }

    /// A marking closed under dependencies that holds `i` holds everything
    /// reachable from the task at `i`.
    proof fn lemma_closed_contains(&self, adj: &Vec<Vec<usize>>, marked: Seq<bool>, i: int, b: usize)
        requires
            self.wf(),
            0 <= i < self.tasks@.len(),
            adj@.len() == self.tasks@.len(),
            marked.len() == self.tasks@.len(),
            marked[i],
            forall|u: int| 0 <= u < adj@.len() ==> (#[trigger] adj@[u])@.len() == self.successors_at(u).len(),
            forall|u: int, k: int| 0 <= u < adj@.len() && 0 <= k < adj@[u]@.len() ==> (#[trigger] adj@[u]@[k]) < self.tasks@.len()
                && self.tasks@[adj@[u]@[k] as int] == self.successors_at(u)[k],
            forall|j: int, k2: int|
                0 <= j < self.tasks@.len() && marked[j] && 0 <= k2 < adj@[j]@.len() ==> marked[#[trigger] adj@[j]@[k2] as int],
            self.reaches(self.tasks@[i], b),
        ensures
            exists|m: int| 0 <= m < self.tasks@.len() && marked[m] && self.tasks@[m] == b,
    {
        let p = choose|p: Seq<usize>| #[trigger] self.is_path(p) && p[0] == self.tasks@[i] && p[p.len() - 1] == b;
        self.lemma_closed_path(adj, marked, i, p, p.len() - 1);
    }

    proof fn lemma_closed_path(&self, adj: &Vec<Vec<usize>>, marked: Seq<bool>, i: int, p: Seq<usize>, k: int)
        requires
            self.wf(),
            0 <= i < self.tasks@.len(),
            adj@.len() == self.tasks@.len(),
            marked.len() == self.tasks@.len(),
            marked[i],
            forall|u: int| 0 <= u < adj@.len() ==> (#[trigger] adj@[u])@.len() == self.successors_at(u).len(),
            forall|u: int, k2: int| 0 <= u < adj@.len() && 0 <= k2 < adj@[u]@.len() ==> (#[trigger] adj@[u]@[k2]) < self.tasks@.len()
                && self.tasks@[adj@[u]@[k2] as int] == self.successors_at(u)[k2],
            forall|j: int, k2: int|
                0 <= j < self.tasks@.len() && marked[j] && 0 <= k2 < adj@[j]@.len() ==> marked[#[trigger] adj@[j]@[k2] as int],
            self.is_path(p),
            p[0] == self.tasks@[i],
            0 <= k < p.len(),
        ensures
            exists|m: int| 0 <= m < self.tasks@.len() && marked[m] && self.tasks@[m] == p[k],
        decreases k,
    {
        if k == 0 {
            assert(marked[i] && self.tasks@[i] == p[0]);
        } else {
            self.lemma_closed_path(adj, marked, i, p, k - 1);
            let m = choose|m: int| 0 <= m < self.tasks@.len() && marked[m] && self.tasks@[m] == p[k - 1];
            assert(self.edge(p[k - 1], p[(k - 1) + 1]));
            self.lemma_edge_at(m, p[k]);
            let k2 = choose|k2: int| 0 <= k2 < self.successors_at(m).len() && self.successors_at(m)[k2] == p[k];
            let w = adj@[m]@[k2];
            assert(marked[w as int] && self.tasks@[w as int] == p[k]);
        }
    }

    /// A task reached from a different task is a task of the graph.
    proof fn lemma_reached_is_task(&self, a: usize, b: usize)
        requires
            self.wf(),
            self.reaches(a, b),
            a != b,
        ensures
            self.nodes().contains(b),
    {
        let p = choose|p: Seq<usize>| #[trigger] self.is_path(p) && p[0] == a && p[p.len() - 1] == b;
        assert(p.len() > 1);
        let k = p.len() - 2;
        assert(self.edge(p[k], p[k + 1]));
        self.lemma_edges_join_tasks(p[k], p[k + 1]);
    }

    /// The task at position `i` depends on itself.
    fn has_self_loop(&self, i: usize) -> (b: bool)
        requires
            self.wf(),
            i < self.tasks@.len(),
        ensures
            b == self.edge(self.tasks@[i as int], self.tasks@[i as int]),
    {
        let t = self.tasks[i];
        let succ = &self.adjacency[i];
        let mut k: usize = 0;
        while k < succ.len()
            invariant
                self.wf(),
                i < self.tasks@.len(),
                t == self.tasks@[i as int],
                succ@ == self.successors_at(i as int),
                0 <= k <= succ@.len(),
                forall|m: int| 0 <= m < k ==> succ@[m] != t,
            decreases succ@.len() - k,
        {
            if succ[k] == t {
                proof {
                    assert(succ@[k as int] == t);
                    assert(self.successors_at(i as int).contains(t));
                    self.lemma_edge_at(i as int, t);
                }
                return true;
            }
            k = k + 1;
        }
        proof {
            self.lemma_edge_at(i as int, t);
        }
        false
    }

    /// The groups of tasks that reach one another, keeping only groups of
    /// more than one task and single tasks that depend on themselves.
    /// Groups are listed by their first task in graph order.
    #[verifier::rlimit(60)]
    pub fn strongly_connected_components(&self) -> (r: Vec<Vec<usize>>)
        requires
            self.wf(),
        ensures
            forall|c: int| 0 <= c < r@.len() ==> (#[trigger] r@[c])@.len() > 0 && r@[c]@.no_duplicates()
                && (r@[c]@.len() > 1 || self.edge(r@[c]@[0], r@[c]@[0])),
            forall|c: int, x: usize, y: usize|
                #![trigger r@[c]@.contains(x), r@[c]@.contains(y)]
                0 <= c < r@.len() && r@[c]@.contains(x) && r@[c]@.contains(y) ==> self.mutually_reach(x, y),
            forall|c: int, x: usize, y: usize|
                #![trigger r@[c]@.contains(x), self.mutually_reach(x, y)]
                0 <= c < r@.len() && r@[c]@.contains(x) && self.nodes().contains(y) && self.mutually_reach(x, y)
                    ==> r@[c]@.contains(y),
            forall|x: usize| self.nodes().contains(x) && #[trigger] self.on_cycle(x) ==> exists|c: int|
                0 <= c < r@.len() && (#[trigger] r@[c])@.contains(x),
            forall|c1: int, c2: int, x: usize|
                #![trigger r@[c1]@.contains(x), r@[c2]@.contains(x)]
                0 <= c1 < r@.len() && 0 <= c2 < r@.len() && c1 != c2 && r@[c1]@.contains(x) ==> !r@[c2]@.contains(x),
            r@.len() == 0 <==> self.is_acyclic(),
    {
        let n = self.tasks.len();
        let adj = self.index_adjacency();
        let mut reach: Vec<Vec<bool>> = Vec::new();
        let mut i: usize = 0;
        while i < n
            invariant
                self.wf(),
                n == self.tasks@.len(),
                adj@.len() == n,
                forall|u: int| 0 <= u < adj@.len() ==> (#[trigger] adj@[u])@.len() == self.successors_at(u).len(),
                forall|u: int, k: int| 0 <= u < adj@.len() && 0 <= k < adj@[u]@.len() ==> (#[trigger] adj@[u]@[k]) < n
                    && self.tasks@[adj@[u]@[k] as int] == self.successors_at(u)[k],
                0 <= i <= n,
                reach@.len() == i,
                forall|a: int| 0 <= a < i ==> (#[trigger] reach@[a])@.len() == n,
                forall|a: int, b: int| 0 <= a < i && 0 <= b < n ==> (#[trigger] reach@[a]@[b] <==> self.reaches(self.tasks@[a], self.tasks@[b])),
            decreases n - i,
        {
            let row = self.reach_from(&adj, i);
            reach.push(row);
            i = i + 1;
        }
        let mut assigned: Vec<bool> = Vec::new();
        let mut k: usize = 0;
        while k < n
            invariant
                0 <= k <= n,
                assigned@.len() == k,
                forall|j: int| 0 <= j < k ==> !assigned@[j],
            decreases n - k,
        {
            assigned.push(false);
            k = k + 1;
        }
        let mut comps: Vec<Vec<usize>> = Vec::new();
        let ghost mut reps: Seq<int> = Seq::empty();
        let mut i: usize = 0;
        while i < n
            invariant
                self.wf(),
                n == self.tasks@.len(),
                0 <= i <= n,
                reach@.len() == n,
                forall|a: int| 0 <= a < n ==> (#[trigger] reach@[a])@.len() == n,
                forall|a: int, b: int| 0 <= a < n && 0 <= b < n ==> (#[trigger] reach@[a]@[b] <==> self.reaches(self.tasks@[a], self.tasks@[b])),
                assigned@.len() == n,
                forall|j: int| 0 <= j < n ==> (#[trigger] assigned@[j] <==> exists|a: int| 0 <= a < i && self.mutually_reach(self.tasks@[a], self.tasks@[j])),
                reps.len() == comps@.len(),
                forall|c: int| 0 <= c < reps.len() ==> 0 <= #[trigger] reps[c] < i,
                forall|c1: int, c2: int| 0 <= c1 < c2 < reps.len() ==> reps[c1] < reps[c2],
                forall|c: int, x: usize| #![trigger comps@[c]@.contains(x)] 0 <= c < comps@.len() ==> (comps@[c]@.contains(x) <==> (self.nodes().contains(x)
                    && self.mutually_reach(self.tasks@[reps[c]], x))),
                forall|c: int| 0 <= c < comps@.len() ==> (#[trigger] comps@[c])@.len() > 0 && comps@[c]@.no_duplicates()
                    && (comps@[c]@.len() > 1 || self.edge(comps@[c]@[0], comps@[c]@[0])),
                forall|c: int, a: int| 0 <= c < reps.len() && 0 <= a < reps[c] ==> !#[trigger] self.mutually_reach(self.tasks@[a], self.tasks@[reps[c]]),
                forall|x: int| 0 <= x < i && #[trigger] self.on_cycle(self.tasks@[x]) ==> exists|c: int|
                    0 <= c < comps@.len() && (#[trigger] comps@[c])@.contains(self.tasks@[x]),
            decreases n - i,
        {
            if !assigned[i] {
                let mut comp: Vec<usize> = Vec::new();
                let mut j: usize = 0;
                let ghost assigned_before = assigned@;
                while j < n
                    invariant
                        self.wf(),
                        n == self.tasks@.len(),
                        i < n,
                        0 <= j <= n,
                        reach@.len() == n,
                        forall|a: int| 0 <= a < n ==> (#[trigger] reach@[a])@.len() == n,
                        forall|a: int, b: int| 0 <= a < n && 0 <= b < n ==> (#[trigger] reach@[a]@[b] <==> self.reaches(self.tasks@[a], self.tasks@[b])),
                        assigned@.len() == n,
                        assigned_before.len() == n,
                        !assigned_before[i as int],
                        forall|m: int| 0 <= m < n ==> (#[trigger] assigned_before[m] <==> exists|a: int| 0 <= a < i && self.mutually_reach(self.tasks@[a], self.tasks@[m])),
                        forall|m: int| 0 <= m < n ==> (#[trigger] assigned@[m] <==> (assigned_before[m] || (m < j && self.mutually_reach(self.tasks@[i as int], self.tasks@[m])))),
                        comp@.no_duplicates(),
                        forall|q: int| 0 <= q < comp@.len() ==> exists|m: int| 0 <= m < j && self.tasks@[m] == #[trigger] comp@[q],
                        forall|x: usize| comp@.contains(x) <==> exists|m: int| 0 <= m < j && self.tasks@[m] == x
                            && self.mutually_reach(self.tasks@[i as int], x),
                        j > i ==> comp@.len() > 0 && comp@[0] == self.tasks@[i as int],
                        j <= i ==> comp@.len() == 0,
                    decreases n - j,
                {
                    if reach[i][j] && reach[j][i] {
                        let ghost before = comp@;
                        let t = self.tasks[j];
                        proof {
                            if j < i {
                                assert(self.mutually_reach(self.tasks@[j as int], self.tasks@[i as int]));
                                assert(assigned_before[i as int]);
                            }
                            assert(!before.contains(t)) by {
                                if before.contains(t) {
                                    let q = choose|q: int| 0 <= q < before.len() && before[q] == t;
                                    let m = choose|m: int| 0 <= m < j && self.tasks@[m] == before[q];
                                    assert(self.tasks@[m] == self.tasks@[j as int]);
                                }
                            }
                        }
                        comp.push(t);
                        assigned.set(j, true);
                        proof {
                            assert forall|q: int| 0 <= q < comp@.len() implies exists|m: int| 0 <= m < j + 1 && self.tasks@[m] == #[trigger] comp@[q] by {
                                if q < before.len() {
                                    assert(comp@[q] == before[q]);
                                } else {
                                    assert(self.tasks@[j as int] == comp@[q]);
                                }
                            }
                            assert forall|x: usize| comp@.contains(x) <==> exists|m: int| 0 <= m < j + 1 && self.tasks@[m] == x
                                && self.mutually_reach(self.tasks@[i as int], x) by {
                                if comp@.contains(x) && x != t {
                                    let q = choose|q: int| 0 <= q < comp@.len() && comp@[q] == x;
                                    assert(before[q] == x);
                                    assert(before.contains(x));
                                }
                                if exists|m: int| 0 <= m < j + 1 && self.tasks@[m] == x && self.mutually_reach(self.tasks@[i as int], x) {
                                    let m = choose|m: int| 0 <= m < j + 1 && self.tasks@[m] == x && self.mutually_reach(self.tasks@[i as int], x);
                                    if m < j {
                                        assert(before.contains(x));
                                        let q = choose|q: int| 0 <= q < before.len() && before[q] == x;
                                        assert(comp@[q] == x);
                                    } else {
                                        assert(comp@[comp@.len() - 1] == x);
                                    }
                                }
                            }
                            if j == i {
                                assert(before.len() == 0);
                            }
                        }
                    } else {
                        proof {
                            if j == i {
                                self.lemma_reaches_refl(self.tasks@[i as int]);
                            }
                        }
                    }
                    j = j + 1;
                }
                let keep = comp.len() > 1 || self.has_self_loop(i);
                let ghost ti = self.tasks@[i as int];
                let ghost old_comps = comps@;
                proof {
                    assert forall|x: usize| comp@.contains(x) <==> (self.nodes().contains(x)
                        && self.mutually_reach(ti, x)) by {
                        if self.nodes().contains(x) && self.mutually_reach(ti, x) {
                            let m = choose|m: int| 0 <= m < n && self.tasks@[m] == x;
                            assert(exists|m2: int| 0 <= m2 < n && self.tasks@[m2] == x && self.mutually_reach(ti, x));
                        }
                    }
                    if self.on_cycle(ti) && !self.edge(ti, ti) {
                        let y = choose|y: usize| y != ti && #[trigger] self.mutually_reach(ti, y);
                        self.lemma_reached_is_task(ti, y);
                        assert(comp@.contains(y));
                        assert(comp@.contains(ti));
                        let q = choose|q: int| 0 <= q < comp@.len() && comp@[q] == y;
                        assert(comp@[0] == ti);
                        assert(q != 0);
                        assert(comp@.len() > 1);
                    }
                }
                if keep {
                    comps.push(comp);
                    proof {
                        reps = reps.push(i as int);
                    }
                }
                proof {
                    assert forall|x: int| 0 <= x < i + 1 && #[trigger] self.on_cycle(self.tasks@[x]) implies exists|c: int|
                        0 <= c < comps@.len() && (#[trigger] comps@[c])@.contains(self.tasks@[x]) by {
                        if x < i {
                            let c = choose|c: int| 0 <= c < old_comps.len() && (#[trigger] old_comps[c])@.contains(self.tasks@[x]);
                            assert(comps@[c] == old_comps[c]);
                        } else {
                            self.lemma_reaches_refl(ti);
                            assert(comps@[comps@.len() - 1]@.contains(ti));
                        }
                    }
                    assert forall|c: int, x: usize| #![trigger comps@[c]@.contains(x)] 0 <= c < comps@.len() implies (comps@[c]@.contains(x) <==> (self.nodes().contains(x)
                        && self.mutually_reach(self.tasks@[reps[c]], x))) by {
                        if c < old_comps.len() {
                            assert(comps@[c] == old_comps[c]);
                        }
                    }
                    assert forall|c: int| 0 <= c < comps@.len() implies (#[trigger] comps@[c])@.len() > 0 && comps@[c]@.no_duplicates()
                        && (comps@[c]@.len() > 1 || self.edge(comps@[c]@[0], comps@[c]@[0])) by {
                        if c < old_comps.len() {
                            assert(comps@[c] == old_comps[c]);
                        }
                    }
                    assert forall|j2: int| 0 <= j2 < n implies (#[trigger] assigned@[j2] <==> exists|a: int| 0 <= a < i + 1 && self.mutually_reach(self.tasks@[a], self.tasks@[j2])) by {
                        if exists|a: int| 0 <= a < i + 1 && self.mutually_reach(self.tasks@[a], self.tasks@[j2]) {
                            let a = choose|a: int| 0 <= a < i + 1 && self.mutually_reach(self.tasks@[a], self.tasks@[j2]);
                            if a < i {
                                assert(assigned_before[j2]);
                            }
                        }
                    }
                    assert forall|c: int, a: int| 0 <= c < reps.len() && 0 <= a < reps[c] implies !#[trigger] self.mutually_reach(self.tasks@[a], self.tasks@[reps[c]]) by {
                        if reps[c] == i {
                            assert(!assigned_before[i as int]);
                        }
                    }
                }
            } else {
                proof {
                    let a = choose|a: int| 0 <= a < i && self.mutually_reach(self.tasks@[a], self.tasks@[i as int]);
                    assert forall|j: int| 0 <= j < n implies (#[trigger] assigned@[j] <==> exists|a2: int| 0 <= a2 < i + 1 && self.mutually_reach(self.tasks@[a2], self.tasks@[j])) by {
                        if exists|a2: int| 0 <= a2 < i + 1 && self.mutually_reach(self.tasks@[a2], self.tasks@[j]) {
                            let a2 = choose|a2: int| 0 <= a2 < i + 1 && self.mutually_reach(self.tasks@[a2], self.tasks@[j]);
                            if a2 == i {
                                self.lemma_reaches_trans(self.tasks@[a], self.tasks@[i as int], self.tasks@[j]);
                                self.lemma_reaches_trans(self.tasks@[j], self.tasks@[i as int], self.tasks@[a]);
                            }
                        }
                    }
                    assert forall|x: int| 0 <= x < i + 1 && #[trigger] self.on_cycle(self.tasks@[x]) implies exists|c: int|
                        0 <= c < comps@.len() && (#[trigger] comps@[c])@.contains(self.tasks@[x]) by {
                        if x == i {
                            let ta = self.tasks@[a];
                            let tx = self.tasks@[i as int];
                            assert(ta != tx);
                            assert(self.mutually_reach(ta, tx));
                            assert(self.on_cycle(self.tasks@[a]));
                            let c = choose|c: int| 0 <= c < comps@.len() && (#[trigger] comps@[c])@.contains(ta);
                            let rep = self.tasks@[reps[c]];
                            self.lemma_reaches_trans(rep, ta, tx);
                            self.lemma_reaches_trans(tx, ta, rep);
                            assert(self.nodes().contains(tx));
                            assert(comps@[c]@.contains(tx));
                        }
                    }
                }
            }
            i = i + 1;
        }
        proof {
            assert forall|c: int, x: usize, y: usize|
                #![trigger comps@[c]@.contains(x), comps@[c]@.contains(y)]
                0 <= c < comps@.len() && comps@[c]@.contains(x) && comps@[c]@.contains(y) implies self.mutually_reach(x, y) by {
                let rep = self.tasks@[reps[c]];
                self.lemma_reaches_trans(x, rep, y);
                self.lemma_reaches_trans(y, rep, x);
            }
            assert forall|c: int, x: usize, y: usize|
                #![trigger comps@[c]@.contains(x), self.mutually_reach(x, y)]
                0 <= c < comps@.len() && comps@[c]@.contains(x) && self.nodes().contains(y) && self.mutually_reach(x, y)
                    implies comps@[c]@.contains(y) by {
                let rep = self.tasks@[reps[c]];
                self.lemma_reaches_trans(rep, x, y);
                self.lemma_reaches_trans(y, x, rep);
            }
            assert forall|x: usize| self.nodes().contains(x) && #[trigger] self.on_cycle(x) implies exists|c: int|
                0 <= c < comps@.len() && (#[trigger] comps@[c])@.contains(x) by {
                let m = choose|m: int| 0 <= m < n && self.tasks@[m] == x;
                assert(self.on_cycle(self.tasks@[m]));
            }
            assert forall|c1: int, c2: int, x: usize|
                #![trigger comps@[c1]@.contains(x), comps@[c2]@.contains(x)]
                0 <= c1 < comps@.len() && 0 <= c2 < comps@.len() && c1 != c2 && comps@[c1]@.contains(x)
                    implies !comps@[c2]@.contains(x) by {
                if comps@[c2]@.contains(x) {
                    let r1 = self.tasks@[reps[c1]];
                    let r2 = self.tasks@[reps[c2]];
                    self.lemma_reaches_trans(r1, x, r2);
                    self.lemma_reaches_trans(r2, x, r1);
                    if reps[c1] < reps[c2] {
                        assert(!self.mutually_reach(self.tasks@[reps[c1]], self.tasks@[reps[c2]]));
                    } else {
                        assert(reps[c2] < reps[c1]);
                        assert(!self.mutually_reach(self.tasks@[reps[c2]], self.tasks@[reps[c1]]));
                    }
                }
            }
            self.lemma_components_empty_iff_acyclic(comps@);
        }
        comps
    }
}

impl Default for CycleDetector {
    fn default() -> (d: Self)
        ensures
            d.wf(),
            d.nodes() == Seq::<usize>::empty(),
    {
        CycleDetector::new()
    }
}

} // verus!
