//! The task graph: tasks with their work, dependencies between them and
//! the branch tables of condition tasks.

use vstd::prelude::*;

use crate::condition::{BranchId, ConditionalHandle, table_view};
use crate::task::{default_task_name, insert_unique, TaskHandle, TaskId, TaskKind, TaskNode};
use crate::text::{decimal, push_char, push_decimal, push_str, to_owned_string};

verus! {

broadcast use vstd::seq_lib::group_seq_properties;

/// `s` with `x` added unless it is there already.
pub open spec fn set_add(s: Seq<TaskId>, x: TaskId) -> Seq<TaskId> {
    if s.contains(x) {
        s
    } else {
        s.push(x)
    }
}

/// `n` is a fresh node for task `id` of kind `kind`.
pub open spec fn fresh_node(n: TaskNode, id: TaskId, kind: TaskKind) -> bool {
    &&& n.id == id
    &&& n.name@ == default_task_name(id)
    &&& n.kind == kind
    &&& n.successors@ == Seq::<TaskId>::empty()
    &&& n.dependents@ == Seq::<TaskId>::empty()
    &&& n.num_dependents == 0
}

/// `a` and `b` agree on everything but possibly the name.
pub open spec fn same_but_name(a: TaskNode, b: TaskNode) -> bool {
    &&& a.id == b.id
    &&& a.kind == b.kind
    &&& a.successors@ == b.successors@
    &&& a.dependents@ == b.dependents@
    &&& a.num_dependents == b.num_dependents
}

/// `a` and `b` agree on everything but possibly the successors and dependents.
pub open spec fn same_but_links(a: TaskNode, b: TaskNode) -> bool {
    &&& a.id == b.id
    &&& a.kind == b.kind
    &&& a.name@ == b.name@
    &&& a.num_dependents == b.num_dependents
}

/// Branch table entry of a condition task: branch ids with the ids of the
/// tasks each branch activates.
pub type BranchTable = Vec<(BranchId, Vec<TaskId>)>;

/// View of a branch table.
pub open spec fn branch_table_view(t: Seq<(BranchId, Vec<TaskId>)>) -> Seq<(BranchId, Seq<TaskId>)> {
    t.map_values(|e: (BranchId, Vec<TaskId>)| (e.0, e.1@))
}

/// A task graph whose tasks carry work of type `W`.  Task ids are
/// consecutive from the graph's base id, in the order tasks were added.
pub struct Taskflow<W> {
    graph: Vec<TaskNode>,
    works: Vec<Option<W>>,
    base: usize,
    conditional_branches: Vec<(TaskId, BranchTable)>,
}

impl<W> Taskflow<W> {
    /// The nodes, in id order.
    pub closed spec fn nodes(&self) -> Seq<TaskNode> {
        self.graph@
    }

    /// The work of each task, in id order; `None` once taken.
    pub closed spec fn works(&self) -> Seq<Option<W>> {
        self.works@
    }

    /// The id of the first task.
    pub closed spec fn base_id(&self) -> usize {
        self.base
    }

    /// The registered branch tables, by condition task id.
    pub closed spec fn branch_tables(&self) -> Seq<(TaskId, Seq<(BranchId, Seq<TaskId>)>)> {
        self.conditional_branches@.map_values(|e: (TaskId, BranchTable)| (e.0, branch_table_view(e.1@)))
    }

    /// `id` names a task of this graph.
    pub open spec fn has_task(&self, id: TaskId) -> bool {
        self.base_id() <= id < self.base_id() + self.nodes().len()
    }

    /// The node of task `id`.
    pub open spec fn node_of(&self, id: TaskId) -> TaskNode {
        self.nodes()[id - self.base_id()]
    }

    /// Internal consistency.
    pub closed spec fn wf(&self) -> bool {
        &&& self.works@.len() == self.graph@.len()
        &&& self.base + self.graph@.len() <= usize::MAX
        &&& forall|i: int| 0 <= i < self.graph@.len() ==> (#[trigger] self.graph@[i]).id == self.base + i
        &&& forall|i: int| 0 <= i < self.graph@.len() ==> (#[trigger] self.graph@[i]).successors@.no_duplicates()
        &&& forall|i: int| 0 <= i < self.graph@.len() ==> (#[trigger] self.graph@[i]).dependents@.no_duplicates()
    }

    /// Facts that a consistent graph offers its users.
    pub proof fn lemma_wf(&self)
        requires
            self.wf(),
        ensures
            self.works().len() == self.nodes().len(),
            self.base_id() + self.nodes().len() <= usize::MAX,
            forall|i: int| 0 <= i < self.nodes().len() ==> (#[trigger] self.nodes()[i]).id == self.base_id() + i,
            forall|i: int| 0 <= i < self.nodes().len() ==> (#[trigger] self.nodes()[i]).successors@.no_duplicates(),
            forall|i: int| 0 <= i < self.nodes().len() ==> (#[trigger] self.nodes()[i]).dependents@.no_duplicates(),
    {
    }

    /// An empty graph whose first task will get id 0.
    pub fn new() -> (tf: Self)
        ensures
            tf.wf(),
            tf.nodes() == Seq::<TaskNode>::empty(),
            tf.works() == Seq::<Option<W>>::empty(),
            tf.base_id() == 0,
            tf.branch_tables() == Seq::<(TaskId, Seq<(BranchId, Seq<TaskId>)>)>::empty(),
    {
        Self::with_base(0)
    }

    /// An empty graph whose first task will get id `base`.
    pub fn with_base(base: usize) -> (tf: Self)
        ensures
            tf.wf(),
            tf.nodes() == Seq::<TaskNode>::empty(),
            tf.works() == Seq::<Option<W>>::empty(),
            tf.base_id() == base,
            tf.branch_tables() == Seq::<(TaskId, Seq<(BranchId, Seq<TaskId>)>)>::empty(),
    {
        let tf = Taskflow { graph: Vec::new(), works: Vec::new(), base, conditional_branches: Vec::new() };
        assert(tf.branch_tables() =~= Seq::<(TaskId, Seq<(BranchId, Seq<TaskId>)>)>::empty());
        tf
    }

    fn emplace_kind(&mut self, work: W, kind: TaskKind) -> (h: TaskHandle)
        requires
            old(self).wf(),
            old(self).base_id() + old(self).nodes().len() < usize::MAX,
        ensures
            final(self).wf(),
            h.spec_id() == old(self).base_id() + old(self).nodes().len(),
            final(self).nodes().len() == old(self).nodes().len() + 1,
            final(self).nodes().drop_last() == old(self).nodes(),
            fresh_node(final(self).nodes().last(), h.spec_id(), kind),
            final(self).works() == old(self).works().push(Some(work)),
            final(self).base_id() == old(self).base_id(),
            final(self).branch_tables() == old(self).branch_tables(),
    {
        let id = self.base + self.graph.len();
        let node = TaskNode::new(id, kind);
        self.graph.push(node);
        self.works.push(Some(work));
        assert(self.graph@.drop_last() =~= old(self).graph@);
        TaskHandle::new(id)
    }

    /// Adds a task of plain work.
    pub fn emplace(&mut self, work: W) -> (h: TaskHandle)
        requires
            old(self).wf(),
            old(self).base_id() + old(self).nodes().len() < usize::MAX,
        ensures
            final(self).wf(),
            h.spec_id() == old(self).base_id() + old(self).nodes().len(),
            final(self).nodes().len() == old(self).nodes().len() + 1,
            final(self).nodes().drop_last() == old(self).nodes(),
            fresh_node(final(self).nodes().last(), h.spec_id(), TaskKind::Static),
            final(self).works() == old(self).works().push(Some(work)),
            final(self).base_id() == old(self).base_id(),
            final(self).branch_tables() == old(self).branch_tables(),
    {
        self.emplace_kind(work, TaskKind::Static)
    }

    /// Adds a task whose work builds a nested graph.
    pub fn emplace_subflow(&mut self, work: W) -> (h: TaskHandle)
        requires
            old(self).wf(),
            old(self).base_id() + old(self).nodes().len() < usize::MAX,
        ensures
            final(self).wf(),
            h.spec_id() == old(self).base_id() + old(self).nodes().len(),
            final(self).nodes().len() == old(self).nodes().len() + 1,
            final(self).nodes().drop_last() == old(self).nodes(),
            fresh_node(final(self).nodes().last(), h.spec_id(), TaskKind::Subflow),
            final(self).works() == old(self).works().push(Some(work)),
            final(self).base_id() == old(self).base_id(),
            final(self).branch_tables() == old(self).branch_tables(),
    {
        self.emplace_kind(work, TaskKind::Subflow)
    }

    /// Adds a condition task, whose work returns the branch to follow.
    pub fn emplace_condition(&mut self, work: W) -> (h: TaskHandle)
        requires
            old(self).wf(),
            old(self).base_id() + old(self).nodes().len() < usize::MAX,
        ensures
            final(self).wf(),
            h.spec_id() == old(self).base_id() + old(self).nodes().len(),
            final(self).nodes().len() == old(self).nodes().len() + 1,
            final(self).nodes().drop_last() == old(self).nodes(),
            fresh_node(final(self).nodes().last(), h.spec_id(), TaskKind::Condition),
            final(self).works() == old(self).works().push(Some(work)),
            final(self).base_id() == old(self).base_id(),
            final(self).branch_tables() == old(self).branch_tables(),
    {
        self.emplace_kind(work, TaskKind::Condition)
    }

    /// Adds a condition task and returns a handle for its branches.
    pub fn emplace_conditional(&mut self, work: W) -> (c: ConditionalHandle)
        requires
            old(self).wf(),
            old(self).base_id() + old(self).nodes().len() < usize::MAX,
        ensures
            final(self).wf(),
            c.task.spec_id() == old(self).base_id() + old(self).nodes().len(),
            c.table() == Seq::<(BranchId, Seq<TaskHandle>)>::empty(),
            final(self).nodes().len() == old(self).nodes().len() + 1,
            final(self).nodes().drop_last() == old(self).nodes(),
            fresh_node(final(self).nodes().last(), c.task.spec_id(), TaskKind::Condition),
            final(self).works() == old(self).works().push(Some(work)),
            final(self).base_id() == old(self).base_id(),
            final(self).branch_tables() == old(self).branch_tables(),
    {
        let task = self.emplace_condition(work);
        ConditionalHandle::new(task)
    }

    /// Index of task `id` in the node list.
    pub fn index_of(&self, id: TaskId) -> (r: Option<usize>)
        requires
            self.wf(),
        ensures
            r is Some <==> self.has_task(id),
            r matches Some(i) ==> i == id - self.base_id() && i < self.nodes().len(),
    {
        if id >= self.base && id - self.base < self.graph.len() {
            Some(id - self.base)
        } else {
            None
        }
    }

    /// Renames task `id`; nothing changes when it is not in the graph.
    pub fn set_name(&mut self, id: TaskId, name: &str)
        requires
            old(self).wf(),
        ensures
            final(self).wf(),
            final(self).nodes().len() == old(self).nodes().len(),
            forall|i: int| 0 <= i < old(self).nodes().len() && i != id - old(self).base_id() ==> final(self).nodes()[i] == old(self).nodes()[i],
            old(self).has_task(id) ==> same_but_name(final(self).node_of(id), old(self).node_of(id))
                && final(self).node_of(id).name@ == name@,
            !old(self).has_task(id) ==> final(self).nodes() == old(self).nodes(),
            final(self).works() == old(self).works(),
            final(self).base_id() == old(self).base_id(),
            final(self).branch_tables() == old(self).branch_tables(),
    {
        if let Some(i) = self.index_of(id) {
            self.graph[i].name = to_owned_string(name);
        }
    }

    /// Records the dependency `from -> to`: `to` joins the successors of
    /// `from` when `from` is in the graph, and `from` joins the dependents
    /// of `to` when `to` is in the graph.
    pub fn add_edge(&mut self, from: TaskId, to: TaskId)
        requires
            old(self).wf(),
        ensures
            final(self).wf(),
            final(self).nodes().len() == old(self).nodes().len(),
            forall|i: int| 0 <= i < old(self).nodes().len() ==> #[trigger] same_but_links(final(self).nodes()[i], old(self).nodes()[i]),
            forall|i: int| 0 <= i < old(self).nodes().len() && old(self).nodes()[i].id != from && old(self).nodes()[i].id != to
                ==> #[trigger] final(self).nodes()[i] == old(self).nodes()[i],
            forall|i: int| 0 <= i < old(self).nodes().len() ==> (#[trigger] final(self).nodes()[i]).successors@
                == if old(self).nodes()[i].id == from { set_add(old(self).nodes()[i].successors@, to) } else { old(self).nodes()[i].successors@ },
            forall|i: int| 0 <= i < old(self).nodes().len() ==> (#[trigger] final(self).nodes()[i]).dependents@
                == if old(self).nodes()[i].id == to { set_add(old(self).nodes()[i].dependents@, from) } else { old(self).nodes()[i].dependents@ },
            final(self).works() == old(self).works(),
            final(self).base_id() == old(self).base_id(),
            final(self).branch_tables() == old(self).branch_tables(),
    {
        let ghost g0 = self.graph@;
        if let Some(i) = self.index_of(from) {
            insert_unique(&mut self.graph[i].successors, to);
        }
        let ghost g1 = self.graph@;
        if let Some(j) = self.index_of(to) {
            insert_unique(&mut self.graph[j].dependents, from);
        }
        proof {
            assert forall|k: int| 0 <= k < g0.len() implies (#[trigger] self.graph@[k]).successors@
                == if g0[k].id == from { set_add(g0[k].successors@, to) } else { g0[k].successors@ } by {
                assert(self.graph@[k].successors@ == g1[k].successors@);
            }
            assert forall|k: int| 0 <= k < g0.len() implies (#[trigger] self.graph@[k]).dependents@
                == if g0[k].id == to { set_add(g0[k].dependents@, from) } else { g0[k].dependents@ } by {
                assert(g1[k].dependents@ == g0[k].dependents@);
            }
        }
    }

    /// Registers the branches of a condition task: each branch successor
    /// becomes a successor of the condition task, and the table replaces
    /// any earlier table of that task.
    pub fn register_branches(&mut self, cond: &ConditionalHandle)
        requires
            old(self).wf(),
        ensures
            final(self).wf(),
            final(self).nodes().len() == old(self).nodes().len(),
            forall|i: int| 0 <= i < old(self).nodes().len() ==> #[trigger] same_but_links(final(self).nodes()[i], old(self).nodes()[i]),
            forall|i: int, x: TaskId| #![trigger final(self).nodes()[i].successors@.contains(x)] 0 <= i < old(self).nodes().len() ==> ((final(self).nodes()[i]).successors@.contains(x)
                <==> (old(self).nodes()[i].successors@.contains(x) || (old(self).nodes()[i].id == cond.task.spec_id()
                    && branch_targets(cond.table(), x)))),
            forall|i: int, x: TaskId| #![trigger final(self).nodes()[i].dependents@.contains(x)] 0 <= i < old(self).nodes().len() ==> ((final(self).nodes()[i]).dependents@.contains(x)
                <==> (old(self).nodes()[i].dependents@.contains(x) || (x == cond.task.spec_id()
                    && branch_targets(cond.table(), old(self).nodes()[i].id)))),
            final(self).works() == old(self).works(),
            final(self).base_id() == old(self).base_id(),
            final(self).branch_tables() == set_branch_table(old(self).branch_tables(), cond.task.spec_id(), ids_of_table(cond.table())),
    {
        let task_id = cond.task_id();
        let mut table: BranchTable = Vec::new();
        let mut b: usize = 0;
        let ghost g0 = self.graph@;
        while b < cond.branches.len()
            invariant
                self.wf(),
                0 <= b <= cond.branches@.len(),
                task_id == cond.task.spec_id(),
                self.graph@.len() == g0.len(),
                table@.len() == b,
                forall|q: int| 0 <= q < b ==> #[trigger] table@[q].0 == cond.branches@[q].0
                    && table@[q].1@ == handles_to_ids(cond.branches@[q].1@),
                forall|i: int| 0 <= i < g0.len() ==> #[trigger] same_but_links(self.graph@[i], g0[i]),
                forall|i: int, x: TaskId| #![trigger self.graph@[i].successors@.contains(x)] 0 <= i < g0.len() ==> ((self.graph@[i]).successors@.contains(x)
                    <==> (g0[i].successors@.contains(x) || (g0[i].id == task_id
                        && branch_targets(table_view(cond.branches@.subrange(0, b as int)), x)))),
                forall|i: int, x: TaskId| #![trigger self.graph@[i].dependents@.contains(x)] 0 <= i < g0.len() ==> ((self.graph@[i]).dependents@.contains(x)
                    <==> (g0[i].dependents@.contains(x) || (x == task_id
                        && branch_targets(table_view(cond.branches@.subrange(0, b as int)), g0[i].id)))),
                self.works@ == old(self).works@,
                self.base == old(self).base,
                self.branch_tables() == old(self).branch_tables(),
            decreases cond.branches@.len() - b,
        {
            let succs = &cond.branches[b].1;
            let mut ids: Vec<TaskId> = Vec::new();
            let mut k: usize = 0;
            let ghost gb = self.graph@;
            while k < succs.len()
                invariant
                    self.wf(),
                    0 <= b < cond.branches@.len(),
                    succs@ == cond.branches@[b as int].1@,
                    0 <= k <= succs@.len(),
                    task_id == cond.task.spec_id(),
                    self.graph@.len() == gb.len(),
                    ids@ == handles_to_ids(succs@.subrange(0, k as int)),
                    forall|i: int| 0 <= i < gb.len() ==> #[trigger] same_but_links(self.graph@[i], gb[i]),
                    forall|i: int, x: TaskId| #![trigger self.graph@[i].successors@.contains(x)] 0 <= i < gb.len() ==> ((self.graph@[i]).successors@.contains(x)
                        <==> (gb[i].successors@.contains(x) || (gb[i].id == task_id
                            && handles_to_ids(succs@.subrange(0, k as int)).contains(x)))),
                    forall|i: int, x: TaskId| #![trigger self.graph@[i].dependents@.contains(x)] 0 <= i < gb.len() ==> ((self.graph@[i]).dependents@.contains(x)
                        <==> (gb[i].dependents@.contains(x) || (x == task_id
                            && handles_to_ids(succs@.subrange(0, k as int)).contains(gb[i].id)))),
                    self.works@ == old(self).works@,
                    self.base == old(self).base,
                    self.branch_tables() == old(self).branch_tables(),
                decreases succs@.len() - k,
            {
                let sid = succs[k].get_id();
                let ghost gk = self.graph@;
                self.add_edge(task_id, sid);
                ids.push(sid);
                proof {
                    let hs = succs@.subrange(0, k as int + 1);
                    assert(hs.drop_last() =~= succs@.subrange(0, k as int));
                    assert(handles_to_ids(hs) == handles_to_ids(succs@.subrange(0, k as int)).push(sid));
                    assert forall|i: int, x: TaskId| #![trigger self.graph@[i].successors@.contains(x)] 0 <= i < gb.len() implies ((self.graph@[i]).successors@.contains(x)
                        <==> (gb[i].successors@.contains(x) || (gb[i].id == task_id
                            && handles_to_ids(hs).contains(x)))) by {
                        assert(same_but_links(gk[i], gb[i]));
                        assert(same_but_links(self.graph@[i], gk[i]));
                    }
                    assert forall|i: int, x: TaskId| #![trigger self.graph@[i].dependents@.contains(x)] 0 <= i < gb.len() implies ((self.graph@[i]).dependents@.contains(x)
                        <==> (gb[i].dependents@.contains(x) || (x == task_id
                            && handles_to_ids(hs).contains(gb[i].id)))) by {
                        assert(same_but_links(gk[i], gb[i]));
                        assert(same_but_links(self.graph@[i], gk[i]));
                    }
                    assert forall|i: int| 0 <= i < gb.len() implies #[trigger] same_but_links(self.graph@[i], gb[i]) by {
                        assert(same_but_links(gk[i], gb[i]));
                        assert(same_but_links(self.graph@[i], gk[i]));
                    }
                }
                k = k + 1;
            }
            table.push((cond.branches[b].0, ids));
            proof {
                let pre = cond.branches@.subrange(0, b as int);
                let post = cond.branches@.subrange(0, b as int + 1);
                assert(succs@.subrange(0, succs@.len() as int) =~= succs@);
                assert(table_view(post) =~= table_view(pre).push((cond.branches@[b as int].0, cond.branches@[b as int].1@)));
                lemma_branch_targets_push(table_view(pre), cond.branches@[b as int].0, cond.branches@[b as int].1@);
                assert forall|i: int| 0 <= i < g0.len() implies #[trigger] same_but_links(self.graph@[i], g0[i]) by {
                    assert(same_but_links(gb[i], g0[i]));
                    assert(same_but_links(self.graph@[i], gb[i]));
                }
                assert forall|q: int| 0 <= q < b + 1 implies #[trigger] table@[q].0 == cond.branches@[q].0
                    && table@[q].1@ == handles_to_ids(cond.branches@[q].1@) by {
                    if q == b {
                        assert(table@[q].1@ == handles_to_ids(succs@));
                    }
                }
                assert forall|i: int, x: TaskId| #![trigger self.graph@[i].successors@.contains(x)] 0 <= i < g0.len() implies ((self.graph@[i]).successors@.contains(x)
                    <==> (g0[i].successors@.contains(x) || (g0[i].id == task_id
                        && branch_targets(table_view(post), x)))) by {
                    assert(same_but_links(gb[i], g0[i]));
                }
                assert forall|i: int, x: TaskId| #![trigger self.graph@[i].dependents@.contains(x)] 0 <= i < g0.len() implies ((self.graph@[i]).dependents@.contains(x)
                    <==> (g0[i].dependents@.contains(x) || (x == task_id
                        && branch_targets(table_view(post), g0[i].id)))) by {
                    assert(same_but_links(gb[i], g0[i]));
                }
            }
            b = b + 1;
        }
        proof {
            assert(cond.branches@.subrange(0, cond.branches@.len() as int) =~= cond.branches@);
            assert(branch_table_view(table@) =~= ids_of_table(cond.table()));
        }
        self.set_branch_table(task_id, table);
    }

    fn set_branch_table(&mut self, task_id: TaskId, table: BranchTable)
        ensures
            final(self).graph@ == old(self).graph@,
            final(self).works@ == old(self).works@,
            final(self).base == old(self).base,
            final(self).branch_tables() == set_branch_table(old(self).branch_tables(), task_id, branch_table_view(table@)),
    {
        let ghost old_t = self.branch_tables();
        let mut k: usize = 0;
        while k < self.conditional_branches.len() && self.conditional_branches[k].0 != task_id
            invariant
                0 <= k <= self.conditional_branches@.len(),
                self.conditional_branches@ == old(self).conditional_branches@,
                forall|j: int| 0 <= j < k ==> self.conditional_branches@[j].0 != task_id,
            decreases self.conditional_branches@.len() - k,
        {
            k = k + 1;
        }
        if k < self.conditional_branches.len() {
            self.conditional_branches.remove(k);
            self.conditional_branches.insert(k, (task_id, table));
            proof {
                assert(old_t[k as int].0 == task_id);
                assert(self.branch_tables() =~= old_t.update(k as int, (task_id, branch_table_view(table@))));
            }
        } else {
            self.conditional_branches.push((task_id, table));
            proof {
                assert(self.branch_tables() =~= old_t.push((task_id, branch_table_view(table@))));
            }
        }
    }

    /// The branch table registered for task `task_id`.
    pub fn get_conditional_branches(&self, task_id: TaskId) -> (r: Option<&BranchTable>)
        ensures
            r is Some <==> exists|k: int| 0 <= k < self.branch_tables().len() && self.branch_tables()[k].0 == task_id,
            r matches Some(t) ==> ({
                let k = first_table_index(self.branch_tables(), task_id);
                branch_table_view(t@) == self.branch_tables()[k].1
            }),
    {
        let ghost bt = self.branch_tables();
        let mut k: usize = 0;
        while k < self.conditional_branches.len() && self.conditional_branches[k].0 != task_id
            invariant
                0 <= k <= self.conditional_branches@.len(),
                bt == self.branch_tables(),
                forall|j: int| 0 <= j < k ==> self.conditional_branches@[j].0 != task_id,
            decreases self.conditional_branches@.len() - k,
        {
            k = k + 1;
        }
        if k < self.conditional_branches.len() {
            proof {
                assert(bt[k as int].0 == task_id);
                lemma_first_table_index(bt, task_id, k as int);
            }
            Some(&self.conditional_branches[k].1)
        } else {
            None
        }
    }

    /// The node of task `id`.
    pub fn node(&self, id: TaskId) -> (n: &TaskNode)
        requires
            self.wf(),
            self.has_task(id),
        ensures
            *n == self.node_of(id),
    {
        &self.graph[id - self.base]
    }

    /// Takes the work of task `id` out of the graph, leaving `None`.
    pub fn take_work(&mut self, id: TaskId) -> (w: Option<W>)
        requires
            old(self).wf(),
        ensures
            final(self).wf(),
            final(self).nodes() == old(self).nodes(),
            final(self).base_id() == old(self).base_id(),
            final(self).branch_tables() == old(self).branch_tables(),
            old(self).has_task(id) ==> w == old(self).works()[id - old(self).base_id()]
                && final(self).works() == old(self).works().update(id - old(self).base_id(), None),
            !old(self).has_task(id) ==> w is None && final(self).works() == old(self).works(),
    {
        match self.index_of(id) {
            Some(i) => {
                let mut taken: Option<W> = None;
                std::mem::swap(&mut taken, &mut self.works[i]);
                taken
            },
            None => None,
        }
    }

    /// The id of the first task.
    pub fn first_id(&self) -> (b: usize)
        ensures
            b == self.base_id(),
    {
        self.base
    }

    /// The nodes, in id order.
    pub fn task_nodes(&self) -> (g: &Vec<TaskNode>)
        ensures
            g@ == self.nodes(),
    {
        &self.graph
    }

    /// Number of tasks.
    pub fn size(&self) -> (n: usize)
        ensures
            n == self.nodes().len(),
    {
        self.graph.len()
    }

    /// `true` when the graph has no task.
    pub fn is_empty(&self) -> (b: bool)
        ensures
            b == (self.nodes().len() == 0),
    {
        self.graph.len() == 0
    }

    /// The graph in DOT format.
    pub fn dump(&self) -> (s: String)
        ensures
            s@ == dot_text(self.nodes()),
    {
        let mut dot = String::new();
        push_str(&mut dot, "digraph Taskflow {\n");
        let mut i: usize = 0;
        while i < self.graph.len()
            invariant
                0 <= i <= self.graph@.len(),
                dot@ == "digraph Taskflow {\n"@ + dot_nodes(self.graph@.subrange(0, i as int)),
            decreases self.graph@.len() - i,
        {
            let node = &self.graph[i];
            let ghost before = dot@;
            push_str(&mut dot, "  ");
            push_decimal(&mut dot, node.id);
            push_str(&mut dot, " [label=\"");
            push_str(&mut dot, node.name.as_str());
            push_str(&mut dot, "\"];\n");
            let ghost mid = dot@;
            let mut k: usize = 0;
            while k < node.successors.len()
                invariant
                    0 <= k <= node.successors@.len(),
                    dot@ == mid + dot_edges(node.id, node.successors@.subrange(0, k as int)),
                decreases node.successors@.len() - k,
            {
                push_str(&mut dot, "  ");
                push_decimal(&mut dot, node.id);
                push_str(&mut dot, " -> ");
                push_decimal(&mut dot, node.successors[k]);
                push_str(&mut dot, ";\n");
                proof {
                    let sub = node.successors@.subrange(0, k as int + 1);
                    assert(sub.drop_last() =~= node.successors@.subrange(0, k as int));
                    assert(dot@ =~= mid + dot_edges(node.id, sub));
                }
                k = k + 1;
            }
            proof {
                assert(node.successors@.subrange(0, k as int) =~= node.successors@);
                let sub = self.graph@.subrange(0, i as int + 1);
                assert(sub.drop_last() =~= self.graph@.subrange(0, i as int));
                assert(sub.last() == *node);
                assert(dot@ =~= "digraph Taskflow {\n"@ + dot_nodes(sub));
            }
            i = i + 1;
        }
        push_str(&mut dot, "}\n");
        proof {
            assert(self.graph@.subrange(0, self.graph@.len() as int) =~= self.graph@);
        }
        dot
    }

    /// Appends the tasks of a nested graph built on top of this one; their
    /// ids already follow this graph's last id.
    pub fn absorb(&mut self, sub: Taskflow<W>)
        requires
            old(self).wf(),
            sub.wf(),
            sub.base_id() == old(self).base_id() + old(self).nodes().len(),
        ensures
            final(self).wf(),
            final(self).nodes() == old(self).nodes() + sub.nodes(),
            final(self).works() == old(self).works() + sub.works(),
            final(self).base_id() == old(self).base_id(),
            final(self).branch_tables() == old(self).branch_tables() + sub.branch_tables(),
    {
        let Taskflow { graph: mut g, works: mut w, base: _, conditional_branches: mut c } = sub;
        let ghost g0 = self.graph@;
        let ghost w0 = self.works@;
        let ghost t0 = self.branch_tables();
        let ghost gs = g@;
        let ghost ws = w@;
        let ghost cs = c@;
        self.graph.append(&mut g);
        self.works.append(&mut w);
        self.conditional_branches.append(&mut c);
        proof {
            assert forall|i: int| 0 <= i < self.graph@.len() implies (#[trigger] self.graph@[i]).id == self.base + i by {
                if i >= g0.len() {
                    assert(self.graph@[i] == gs[i - g0.len()]);
                }
            }
            assert forall|i: int| 0 <= i < self.graph@.len() implies (#[trigger] self.graph@[i]).successors@.no_duplicates() by {
                if i >= g0.len() {
                    assert(self.graph@[i] == gs[i - g0.len()]);
                }
            }
            assert forall|i: int| 0 <= i < self.graph@.len() implies (#[trigger] self.graph@[i]).dependents@.no_duplicates() by {
                if i >= g0.len() {
                    assert(self.graph@[i] == gs[i - g0.len()]);
                }
            }
            assert(self.branch_tables() =~= t0 + sub.branch_tables());
        }
    }
}

/// Ids of the tasks that handles name.
pub open spec fn handles_to_ids(hs: Seq<TaskHandle>) -> Seq<TaskId>
    decreases hs.len(),
{
    if hs.len() == 0 {
        Seq::empty()
    } else {
        handles_to_ids(hs.drop_last()).push(hs.last().spec_id())
    }
}

/// The branch table with handles replaced by task ids.
pub open spec fn ids_of_table(t: Seq<(BranchId, Seq<TaskHandle>)>) -> Seq<(BranchId, Seq<TaskId>)> {
    t.map_values(|e: (BranchId, Seq<TaskHandle>)| (e.0, handles_to_ids(e.1)))
}

/// `x` is activated by some branch of the table.
pub open spec fn branch_targets(t: Seq<(BranchId, Seq<TaskHandle>)>, x: TaskId) -> bool {
    exists|q: int| 0 <= q < t.len() && #[trigger] handles_to_ids(t[q].1).contains(x)
}

proof fn lemma_branch_targets_push(t: Seq<(BranchId, Seq<TaskHandle>)>, b: BranchId, hs: Seq<TaskHandle>)
    ensures
        forall|x: TaskId| branch_targets(t.push((b, hs)), x) <==> (branch_targets(t, x) || handles_to_ids(hs).contains(x)),
{
    let t2 = t.push((b, hs));
    assert forall|x: TaskId| branch_targets(t2, x) <==> (branch_targets(t, x) || handles_to_ids(hs).contains(x)) by {
        if branch_targets(t, x) {
            let q = choose|q: int| 0 <= q < t.len() && #[trigger] handles_to_ids(t[q].1).contains(x);
            assert(t2[q] == t[q]);
        }
        if handles_to_ids(hs).contains(x) {
            assert(t2[t.len() as int].1 == hs);
        }
        if branch_targets(t2, x) {
            let q = choose|q: int| 0 <= q < t2.len() && #[trigger] handles_to_ids(t2[q].1).contains(x);
            if q < t.len() {
                assert(t2[q] == t[q]);
            }
        }
    }
}

/// The list of branch tables with the table of `task_id` set to `table`,
/// in place when the task already has one and appended otherwise.
pub open spec fn set_branch_table(
    ts: Seq<(TaskId, Seq<(BranchId, Seq<TaskId>)>)>,
    task_id: TaskId,
    table: Seq<(BranchId, Seq<TaskId>)>,
) -> Seq<(TaskId, Seq<(BranchId, Seq<TaskId>)>)> {
    if exists|k: int| 0 <= k < ts.len() && ts[k].0 == task_id {
        ts.update(first_table_index(ts, task_id), (task_id, table))
    } else {
        ts.push((task_id, table))
    }
}

/// The first position of a table for `task_id`.
pub open spec fn first_table_index(ts: Seq<(TaskId, Seq<(BranchId, Seq<TaskId>)>)>, task_id: TaskId) -> int {
    choose|k: int| 0 <= k < ts.len() && ts[k].0 == task_id && forall|j: int| 0 <= j < k ==> ts[j].0 != task_id
}

proof fn lemma_first_table_index(ts: Seq<(TaskId, Seq<(BranchId, Seq<TaskId>)>)>, task_id: TaskId, k: int)
    requires
        0 <= k < ts.len(),
        ts[k].0 == task_id,
        forall|j: int| 0 <= j < k ==> ts[j].0 != task_id,
    ensures
        first_table_index(ts, task_id) == k,
{
    let f = first_table_index(ts, task_id);
    assert(0 <= f < ts.len() && ts[f].0 == task_id && forall|j: int| 0 <= j < f ==> ts[j].0 != task_id);
    if f < k {
        assert(ts[f].0 != task_id);
    }
    if f > k {
        assert(ts[k].0 != task_id);
    }
}

/// DOT lines for the dependencies of task `id`.
pub open spec fn dot_edges(id: TaskId, succ: Seq<TaskId>) -> Seq<char>
    decreases succ.len(),
{
    if succ.len() == 0 {
        Seq::empty()
    } else {
        dot_edges(id, succ.drop_last()) + "  "@ + decimal(id as nat) + " -> "@ + decimal(succ.last() as nat) + ";\n"@
    }
}

/// DOT lines for the nodes and their dependencies.
pub open spec fn dot_nodes(nodes: Seq<TaskNode>) -> Seq<char>
    decreases nodes.len(),
{
    if nodes.len() == 0 {
        Seq::empty()
    } else {
        let n = nodes.last();
        dot_nodes(nodes.drop_last()) + "  "@ + decimal(n.id as nat) + " [label=\""@ + n.name@ + "\"];\n"@
            + dot_edges(n.id, n.successors@)
    }
}

/// The DOT text of a graph.
pub open spec fn dot_text(nodes: Seq<TaskNode>) -> Seq<char> {
    "digraph Taskflow {\n"@ + dot_nodes(nodes) + "}\n"@
}

impl TaskHandle {
    /// Renames the task in `tf` and returns the handle.
    pub fn name<W>(self, tf: &mut Taskflow<W>, name: &str) -> (h: Self)
        requires
            old(tf).wf(),
        ensures
            h == self,
            final(tf).wf(),
            final(tf).nodes().len() == old(tf).nodes().len(),
            forall|i: int| 0 <= i < old(tf).nodes().len() && i != self.spec_id() - old(tf).base_id() ==> final(tf).nodes()[i] == old(tf).nodes()[i],
            old(tf).has_task(self.spec_id()) ==> same_but_name(final(tf).node_of(self.spec_id()), old(tf).node_of(self.spec_id()))
                && final(tf).node_of(self.spec_id()).name@ == name@,
            !old(tf).has_task(self.spec_id()) ==> final(tf).nodes() == old(tf).nodes(),
            final(tf).works() == old(tf).works(),
            final(tf).base_id() == old(tf).base_id(),
            final(tf).branch_tables() == old(tf).branch_tables(),
    {
        tf.set_name(self.get_id(), name);
        self
    }

    /// Records in `tf` that `other` depends on the task of this handle.
    pub fn precede<W>(&self, tf: &mut Taskflow<W>, other: &TaskHandle)
        requires
            old(tf).wf(),
        ensures
            final(tf).wf(),
            final(tf).nodes().len() == old(tf).nodes().len(),
            forall|i: int| 0 <= i < old(tf).nodes().len() ==> #[trigger] same_but_links(final(tf).nodes()[i], old(tf).nodes()[i]),
            forall|i: int| 0 <= i < old(tf).nodes().len() && old(tf).nodes()[i].id != self.spec_id()
                && old(tf).nodes()[i].id != other.spec_id() ==> #[trigger] final(tf).nodes()[i] == old(tf).nodes()[i],
            forall|i: int| 0 <= i < old(tf).nodes().len() ==> (#[trigger] final(tf).nodes()[i]).successors@
                == if old(tf).nodes()[i].id == self.spec_id() { set_add(old(tf).nodes()[i].successors@, other.spec_id()) } else { old(tf).nodes()[i].successors@ },
            forall|i: int| 0 <= i < old(tf).nodes().len() ==> (#[trigger] final(tf).nodes()[i]).dependents@
                == if old(tf).nodes()[i].id == other.spec_id() { set_add(old(tf).nodes()[i].dependents@, self.spec_id()) } else { old(tf).nodes()[i].dependents@ },
            final(tf).works() == old(tf).works(),
            final(tf).base_id() == old(tf).base_id(),
            final(tf).branch_tables() == old(tf).branch_tables(),
    {
        tf.add_edge(self.get_id(), other.get_id());
    }

    /// Records in `tf` that the task of this handle depends on `other`.
    pub fn succeed<W>(&self, tf: &mut Taskflow<W>, other: &TaskHandle)
        requires
            old(tf).wf(),
        ensures
            final(tf).wf(),
            final(tf).nodes().len() == old(tf).nodes().len(),
            forall|i: int| 0 <= i < old(tf).nodes().len() ==> #[trigger] same_but_links(final(tf).nodes()[i], old(tf).nodes()[i]),
            forall|i: int| 0 <= i < old(tf).nodes().len() && old(tf).nodes()[i].id != self.spec_id()
                && old(tf).nodes()[i].id != other.spec_id() ==> #[trigger] final(tf).nodes()[i] == old(tf).nodes()[i],
            forall|i: int| 0 <= i < old(tf).nodes().len() ==> (#[trigger] final(tf).nodes()[i]).successors@
                == if old(tf).nodes()[i].id == other.spec_id() { set_add(old(tf).nodes()[i].successors@, self.spec_id()) } else { old(tf).nodes()[i].successors@ },
            forall|i: int| 0 <= i < old(tf).nodes().len() ==> (#[trigger] final(tf).nodes()[i]).dependents@
                == if old(tf).nodes()[i].id == self.spec_id() { set_add(old(tf).nodes()[i].dependents@, other.spec_id()) } else { old(tf).nodes()[i].dependents@ },
            final(tf).works() == old(tf).works(),
            final(tf).base_id() == old(tf).base_id(),
            final(tf).branch_tables() == old(tf).branch_tables(),
    {
        other.precede(tf, self);
    }
}

} // verus!
