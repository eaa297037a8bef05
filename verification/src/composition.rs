//! Reusable task-graph templates: a composition is built once and copied
//! into other graphs, each copy wired to the graph around it through the
//! composition's entry and exit tasks.

use vstd::prelude::*;
use std::sync::Arc;

use crate::task::{TaskHandle, TaskId, TaskKind, TaskNode, default_task_name};
use crate::taskflow::{Taskflow, fresh_node, handles_to_ids, same_but_links, same_but_name};

verus! {

broadcast use vstd::seq_lib::group_seq_properties;

/// Work that a composition can place in a graph.
pub trait ComposedWork<C>: Sized {
    /// Work that runs a copy of the reusable work `c`.
    fn from_cloneable(c: C) -> Self;

    /// Work standing in for a task whose work cannot be copied; it names
    /// the task it stands for.
    fn placeholder(name: &str) -> Self;
}

/// The reusable work registered first for task `id` among `cs`.
pub open spec fn first_cloneable<C>(cs: Seq<(TaskId, C)>, id: TaskId) -> Option<C>
    decreases cs.len(),
{
    if cs.len() == 0 {
        None
    } else if cs[0].0 == id {
        Some(cs[0].1)
    } else {
        first_cloneable(cs.drop_first(), id)
    }
}

/// Entries before `k` that are not for `id` do not change which entry
/// is first for it.
proof fn lemma_first_cloneable_skip<C>(cs: Seq<(TaskId, C)>, id: TaskId, k: int)
    requires
        0 <= k <= cs.len(),
        forall|j: int| 0 <= j < k ==> (#[trigger] cs[j]).0 != id,
    ensures
        first_cloneable(cs, id) == first_cloneable(cs.subrange(k, cs.len() as int), id),
    decreases k,
{
    if k == 0 {
        assert(cs.subrange(0, cs.len() as int) =~= cs);
    } else {
        let t = cs.drop_first();
        assert(cs[0].0 != id);
        assert forall|j: int| 0 <= j < k - 1 implies (#[trigger] t[j]).0 != id by {
            assert(t[j] == cs[j + 1]);
        };
        lemma_first_cloneable_skip(t, id, k - 1);
        assert(t.subrange(k - 1, t.len() as int) =~= cs.subrange(k, cs.len() as int));
    }
}

/// `w` is the work that copies of the template task `node` get: work made
/// by `from_cloneable` from a clone of the task's registered reusable
/// work, or, for a task without one, the `placeholder` named after it.
pub open spec fn copy_work<W: ComposedWork<C>, C: Clone>(cs: Seq<(TaskId, C)>, node: TaskNode, w: Option<W>) -> bool {
    match first_cloneable(cs, node.id) {
        Some(c) => exists|c2: C, x: W|
            w == Some(x) && call_ensures(C::clone, (&c,), c2) && #[trigger] call_ensures(W::from_cloneable, (c2,), x),
        None => exists|s: &str, x: W|
            w == Some(x) && s@ == node.name@ && #[trigger] call_ensures(W::placeholder, (s,), x),
    }
}

/// Work that can be run any number of times and shared between the
/// copies of a composition: clones run the same function.
pub struct CloneableWork<F> {
    work: Arc<F>,
}

impl<F: Fn()> CloneableWork<F> {
    /// The function the work runs.
    pub closed spec fn body(&self) -> F {
        *self.work
    }

    /// Work that runs `f`.
    pub fn new(f: F) -> (w: Self)
        ensures
            w.body() == f,
    {
        CloneableWork { work: Arc::new(f) }
    }

    /// Runs the function once.
    pub fn execute(&self)
        requires
            self.body().requires(()),
        ensures
            self.body().ensures((), ()),
    {
        (self.work)()
    }
}

impl<F: Fn()> Clone for CloneableWork<F> {
    fn clone(&self) -> (c: Self)
        ensures
            c.body() == self.body(),
    {
        CloneableWork { work: Arc::clone(&self.work) }
    }
}

/// A named component of a graph with its entry and exit tasks.
pub struct ModuleTask {
    name: String,
    entry_points: Vec<TaskHandle>,
    exit_points: Vec<TaskHandle>,
}

impl ModuleTask {
    /// A module never gains entry or exit tasks: nothing adds any.
    #[verifier::type_invariant]
    spec fn no_points(&self) -> bool {
        &&& self.entry_points@.len() == 0
        &&& self.exit_points@.len() == 0
    }

    /// The module's name.
    pub closed spec fn label(&self) -> Seq<char> {
        self.name@
    }

    /// The entry tasks.
    pub closed spec fn entry_handles(&self) -> Seq<TaskHandle> {
        self.entry_points@
    }

    /// The exit tasks.
    pub closed spec fn exit_handles(&self) -> Seq<TaskHandle> {
        self.exit_points@
    }

    /// A module with no entry or exit task yet.
    pub fn new(name: &str) -> (m: Self)
        ensures
            m.label() == name@,
            m.entry_handles().len() == 0,
            m.exit_handles().len() == 0,
    {
        ModuleTask { name: String::from_str(name), entry_points: Vec::new(), exit_points: Vec::new() }
    }

    /// The tasks that take dependencies from outside: none, for every
    /// module, since nothing adds any.
    pub fn entries(&self) -> (r: &[TaskHandle])
        ensures
            r@ == self.entry_handles(),
            r@.len() == 0,
    {
        proof {
            use_type_invariant(self);
        }
        self.entry_points.as_slice()
    }

    /// The tasks that outside tasks depend on: none, for every module,
    /// since nothing adds any.
    pub fn exits(&self) -> (r: &[TaskHandle])
        ensures
            r@ == self.exit_handles(),
            r@.len() == 0,
    {
        proof {
            use_type_invariant(self);
        }
        self.exit_points.as_slice()
    }

    /// The module's name.
    pub fn name(&self) -> (r: &str)
        ensures
            r@ == self.label(),
    {
        self.name.as_str()
    }
}

/// The ids of `ids` that are tasks of a graph with `n` tasks from `src_base`,
/// moved to the copy of that graph that starts at `new_base`; the others
/// are dropped.
pub open spec fn mapped_ids(ids: Seq<TaskId>, src_base: usize, n: nat, new_base: usize) -> Seq<TaskId>
    decreases ids.len(),
{
    if ids.len() == 0 {
        Seq::empty()
    } else {
        let rest = mapped_ids(ids.drop_last(), src_base, n, new_base);
        let x = ids.last();
        if src_base <= x < src_base + n {
            rest.push((new_base + (x - src_base)) as TaskId)
        } else {
            rest
        }
    }
}

/// Source task `a` depends on by source task `b` (both by position), among
/// the first `i` nodes and the first `k` successors of node `i`.
pub open spec fn edge_done(src: Seq<TaskNode>, src_base: usize, i: int, k: int, a: int, b: int) -> bool {
    &&& 0 <= b < src.len()
    &&& 0 <= a < src.len()
    &&& (a < i && src[a].successors@.contains((src_base + b) as TaskId)
        || a == i && src[i].successors@.subrange(0, k).contains((src_base + b) as TaskId))
}

/// Source task at position `a` is followed by the one at position `b`.
pub open spec fn src_edge(src: Seq<TaskNode>, src_base: usize, a: int, b: int) -> bool {
    &&& 0 <= b < src.len()
    &&& 0 <= a < src.len()
    &&& src[a].successors@.contains((src_base + b) as TaskId)
}

/// `t` holds, from position `first`, a copy of the source nodes: fresh
/// static tasks with the source names, linked as the source tasks are.
pub open spec fn is_copy_of(t: Seq<TaskNode>, first: int, src: Seq<TaskNode>, src_base: usize) -> bool {
    &&& t.len() == first + src.len()
    &&& forall|a: int| 0 <= a < src.len() ==> {
        let n = #[trigger] t[first + a];
        &&& n.id == t[first].id + a
        &&& n.name@ == src[a].name@
        &&& n.kind == TaskKind::Static
        &&& n.num_dependents == 0
    }
    &&& forall|a: int, y: TaskId| #![trigger t[first + a].successors@.contains(y)]
        0 <= a < src.len() ==> (t[first + a].successors@.contains(y)
            <==> (t[first].id <= y && src_edge(src, src_base, a, y - t[first].id)))
    &&& forall|a: int, y: TaskId| #![trigger t[first + a].dependents@.contains(y)]
        0 <= a < src.len() ==> (t[first + a].dependents@.contains(y)
            <==> (t[first].id <= y && src_edge(src, src_base, y - t[first].id, a)))
}

/// Builder of a composition: a graph with reusable works and marked entry
/// and exit tasks.
pub struct CompositionBuilder<W, C> {
    taskflow: Taskflow<W>,
    entry_tasks: Vec<TaskHandle>,
    exit_tasks: Vec<TaskHandle>,
    cloneable_works: Vec<(TaskId, C)>,
}

impl<W, C> CompositionBuilder<W, C> {
    /// The graph being built.
    pub closed spec fn graph(&self) -> Taskflow<W> {
        self.taskflow
    }

    /// The entry tasks marked so far.
    pub closed spec fn entry_ids(&self) -> Seq<TaskId> {
        handles_to_ids(self.entry_tasks@)
    }

    /// The exit tasks marked so far.
    pub closed spec fn exit_ids(&self) -> Seq<TaskId> {
        handles_to_ids(self.exit_tasks@)
    }

    /// The tasks whose work can be copied.
    pub closed spec fn cloneable_ids(&self) -> Seq<TaskId> {
        self.cloneable_works@.map_values(|e: (TaskId, C)| e.0)
    }

    /// The reusable works with the tasks they belong to, in the order
    /// they were added.
    pub closed spec fn cloneables(&self) -> Seq<(TaskId, C)> {
        self.cloneable_works@
    }

    /// An empty builder.
    pub fn new() -> (b: Self)
        ensures
            b.graph().wf(),
            b.graph().nodes().len() == 0,
            b.graph().base_id() == 0,
            b.entry_ids().len() == 0,
            b.exit_ids().len() == 0,
            b.cloneable_ids().len() == 0,
            b.cloneables().len() == 0,
    {
        let b = CompositionBuilder {
            taskflow: Taskflow::new(),
            entry_tasks: Vec::new(),
            exit_tasks: Vec::new(),
            cloneable_works: Vec::new(),
        };
        assert(b.cloneable_ids() =~= Seq::<TaskId>::empty());
        b
    }

    /// The graph being built, to add tasks and links.
    pub fn taskflow_mut(&mut self) -> (g: &mut Taskflow<W>)
        ensures
            *g == old(self).graph(),
            final(self).graph() == *final(g),
            final(self).entry_ids() == old(self).entry_ids(),
            final(self).exit_ids() == old(self).exit_ids(),
            final(self).cloneable_ids() == old(self).cloneable_ids(),
            final(self).cloneables() == old(self).cloneables(),
    {
        &mut self.taskflow
    }

    /// Adds a task whose work can be copied into every graph the
    /// composition is copied into.
    pub fn emplace_cloneable(&mut self, work: C) -> (h: TaskHandle)
        where W: ComposedWork<C>, C: Clone,
        requires
            old(self).graph().wf(),
            old(self).graph().base_id() + old(self).graph().nodes().len() < usize::MAX,
        ensures
            final(self).graph().wf(),
            h.spec_id() == old(self).graph().base_id() + old(self).graph().nodes().len(),
            final(self).graph().nodes().drop_last() == old(self).graph().nodes(),
            final(self).graph().nodes().len() == old(self).graph().nodes().len() + 1,
            fresh_node(final(self).graph().nodes().last(), h.spec_id(), TaskKind::Static),
            final(self).graph().base_id() == old(self).graph().base_id(),
            final(self).graph().branch_tables() == old(self).graph().branch_tables(),
            final(self).entry_ids() == old(self).entry_ids(),
            final(self).exit_ids() == old(self).exit_ids(),
            final(self).cloneable_ids() == old(self).cloneable_ids().push(h.spec_id()),
            final(self).cloneables() == old(self).cloneables().push((h.spec_id(), work)),
    {
        let copy = work.clone();
        let h = self.taskflow.emplace(W::from_cloneable(copy));
        self.cloneable_works.push((h.get_id(), work));
        proof {
            assert(self.cloneable_ids() =~= old(self).cloneable_ids().push(h.spec_id()));
        }
        h
    }

    /// Marks tasks as entry points.
    pub fn mark_entries(&mut self, tasks: &[TaskHandle])
        ensures
            final(self).graph() == old(self).graph(),
            final(self).entry_ids() == old(self).entry_ids() + handles_to_ids(tasks@),
            final(self).exit_ids() == old(self).exit_ids(),
            final(self).cloneable_ids() == old(self).cloneable_ids(),
            final(self).cloneables() == old(self).cloneables(),
    {
        append_handles(&mut self.entry_tasks, tasks);
    }

    /// Marks tasks as exit points.
    pub fn mark_exits(&mut self, tasks: &[TaskHandle])
        ensures
            final(self).graph() == old(self).graph(),
            final(self).entry_ids() == old(self).entry_ids(),
            final(self).exit_ids() == old(self).exit_ids() + handles_to_ids(tasks@),
            final(self).cloneable_ids() == old(self).cloneable_ids(),
            final(self).cloneables() == old(self).cloneables(),
    {
        append_handles(&mut self.exit_tasks, tasks);
    }

    /// The composition built.
    pub fn build(self) -> (c: Composition<W, C>)
        ensures
            c.graph() == self.graph(),
            c.entry_ids() == self.entry_ids(),
            c.exit_ids() == self.exit_ids(),
            c.cloneable_ids() == self.cloneable_ids(),
            c.cloneables() == self.cloneables(),
    {
        Composition {
            taskflow: self.taskflow,
            entry_tasks: self.entry_tasks,
            exit_tasks: self.exit_tasks,
            cloneable_works: self.cloneable_works,
        }
    }
}

proof fn lemma_handles_to_ids_add(a: Seq<TaskHandle>, b: Seq<TaskHandle>)
    ensures
        handles_to_ids(a + b) == handles_to_ids(a) + handles_to_ids(b),
    decreases b.len(),
{
    if b.len() == 0 {
        assert(a + b =~= a);
        assert(handles_to_ids(a) + handles_to_ids(b) =~= handles_to_ids(a));
    } else {
        lemma_handles_to_ids_add(a, b.drop_last());
        assert((a + b).drop_last() =~= a + b.drop_last());
        assert(handles_to_ids(a) + handles_to_ids(b) =~= (handles_to_ids(a) + handles_to_ids(b.drop_last())).push(b.last().spec_id()));
    }
}

fn append_handles(v: &mut Vec<TaskHandle>, tasks: &[TaskHandle])
    ensures
        handles_to_ids(final(v)@) == handles_to_ids(old(v)@) + handles_to_ids(tasks@),
{
    let ghost v0 = v@;
    let mut i: usize = 0;
    while i < tasks.len()
        invariant
            0 <= i <= tasks@.len(),
            v@ == v0 + tasks@.subrange(0, i as int),
        decreases tasks@.len() - i,
    {
        v.push(tasks[i]);
        i = i + 1;
    }
    proof {
        assert(tasks@.subrange(0, tasks@.len() as int) =~= tasks@);
        lemma_handles_to_ids_add(v0, tasks@);
    }
}

/// A reusable task graph with entry and exit tasks.
pub struct Composition<W, C> {
    taskflow: Taskflow<W>,
    entry_tasks: Vec<TaskHandle>,
    exit_tasks: Vec<TaskHandle>,
    cloneable_works: Vec<(TaskId, C)>,
}

impl<W, C> Composition<W, C> {
    /// The template graph.
    pub closed spec fn graph(&self) -> Taskflow<W> {
        self.taskflow
    }

    /// The entry tasks.
    pub closed spec fn entry_ids(&self) -> Seq<TaskId> {
        handles_to_ids(self.entry_tasks@)
    }

    /// The exit tasks.
    pub closed spec fn exit_ids(&self) -> Seq<TaskId> {
        handles_to_ids(self.exit_tasks@)
    }

    /// The tasks whose work can be copied.
    pub closed spec fn cloneable_ids(&self) -> Seq<TaskId> {
        self.cloneable_works@.map_values(|e: (TaskId, C)| e.0)
    }

    /// A composition of a graph with the given entry and exit tasks and
    /// no reusable work.
    pub fn new(taskflow: Taskflow<W>, entries: Vec<TaskHandle>, exits: Vec<TaskHandle>) -> (c: Self)
        ensures
            c.graph() == taskflow,
            c.entry_ids() == handles_to_ids(entries@),
            c.exit_ids() == handles_to_ids(exits@),
            c.cloneable_ids().len() == 0,
            c.cloneables().len() == 0,
    {
        let c = Composition { taskflow, entry_tasks: entries, exit_tasks: exits, cloneable_works: Vec::new() };
        assert(c.cloneable_ids() =~= Seq::<TaskId>::empty());
        c
    }

    /// The entry tasks.
    pub fn entries(&self) -> (r: &[TaskHandle])
        ensures
            handles_to_ids(r@) == self.entry_ids(),
    {
        self.entry_tasks.as_slice()
    }

    /// The exit tasks.
    pub fn exits(&self) -> (r: &[TaskHandle])
        ensures
            handles_to_ids(r@) == self.exit_ids(),
    {
        self.exit_tasks.as_slice()
    }

    /// The template graph itself.
    pub fn taskflow(&self) -> (g: &Taskflow<W>)
        ensures
            *g == self.graph(),
    {
        &self.taskflow
    }

    /// The reusable works with the tasks they belong to, in the order
    /// they were added.
    pub closed spec fn cloneables(&self) -> Seq<(TaskId, C)> {
        self.cloneable_works@
    }

    /// The reusable work of task `id`: the first one added for it, or
    /// `None` when the task has none.
    fn cloneable_for(&self, id: TaskId) -> (r: Option<&C>)
        ensures
            r is Some <==> self.cloneable_ids().contains(id),
            r matches Some(c) ==> exists|k: int|
                0 <= k < self.cloneables().len() && #[trigger] self.cloneables()[k] == (id, *c)
                    && forall|j: int| 0 <= j < k ==> (#[trigger] self.cloneables()[j]).0 != id,
            match r {
                Some(c) => first_cloneable(self.cloneables(), id) == Some(*c),
                None => first_cloneable(self.cloneables(), id) is None,
            },
    {
        let mut k: usize = 0;
        while k < self.cloneable_works.len()
            invariant
                0 <= k <= self.cloneable_works@.len(),
                forall|j: int| 0 <= j < k ==> (#[trigger] self.cloneable_works@[j]).0 != id,
            decreases self.cloneable_works@.len() - k,
        {
            if self.cloneable_works[k].0 == id {
                proof {
                    assert(self.cloneable_ids()[k as int] == id);
                }
                let r = &self.cloneable_works[k].1;
                proof {
                    assert(self.cloneables()[k as int] == (id, *r));
                    lemma_first_cloneable_skip(self.cloneables(), id, k as int);
                    assert(self.cloneables().subrange(k as int, self.cloneables().len() as int)[0] == (id, *r));
                }
                return Some(r);
            }
            k = k + 1;
        }
        proof {
            lemma_first_cloneable_skip(self.cloneables(), id, k as int);
            assert(self.cloneables().subrange(k as int, self.cloneables().len() as int).len() == 0);
            assert(!self.cloneable_ids().contains(id)) by {
                if self.cloneable_ids().contains(id) {
                    let j = choose|j: int| 0 <= j < self.cloneable_ids().len() && self.cloneable_ids()[j] == id;
                    assert(self.cloneable_works@[j].0 == id);
                }
            };
        }
        None
    }

    /// Copies the template graph after the tasks of `target`: each task
    /// becomes a static task with the same name, whose work copies the
    /// reusable work or stands in for it, and the copies are linked as the
    /// template tasks are.
    #[verifier::rlimit(30)]
    fn clone_graph_into(&self, target: &mut Taskflow<W>)
        where W: ComposedWork<C>, C: Clone,
        requires
            self.graph().wf(),
            old(target).wf(),
            old(target).base_id() + old(target).nodes().len() + self.graph().nodes().len() < usize::MAX,
        ensures
            final(target).wf(),
            final(target).base_id() == old(target).base_id(),
            final(target).branch_tables() == old(target).branch_tables(),
            final(target).works().len() == final(target).nodes().len(),
            final(target).nodes().subrange(0, old(target).nodes().len() as int) == old(target).nodes(),
            final(target).works().subrange(0, old(target).nodes().len() as int) == old(target).works(),
            is_copy_of(final(target).nodes(), old(target).nodes().len() as int, self.graph().nodes(), self.graph().base_id()),
            old(target).nodes().len() < final(target).nodes().len() ==>
                final(target).nodes()[old(target).nodes().len() as int].id == old(target).base_id() + old(target).nodes().len(),
            forall|a: int| 0 <= a < self.graph().nodes().len() ==> #[trigger] copy_work(
                self.cloneables(),
                self.graph().nodes()[a],
                final(target).works()[old(target).nodes().len() + a],
            ),
    {
        let src = self.taskflow.task_nodes();
        let n = src.len();
        let src_base = self.taskflow.first_id();
        let t0 = target.size();
        let new_base = target.first_id() + t0;
        let ghost old_nodes = target.nodes();
        let ghost old_works = target.works();
        proof {
            self.taskflow.lemma_wf();
            target.lemma_wf();
        }
        let mut i: usize = 0;
        while i < n
            invariant
                src@ == self.graph().nodes(),
                n == src@.len(),
                src_base == self.graph().base_id(),
                self.graph().wf(),
                target.wf(),
                t0 == old_nodes.len(),
                new_base == target.base_id() + t0,
                new_base + n < usize::MAX,
                target.base_id() == old(target).base_id(),
                target.branch_tables() == old(target).branch_tables(),
                0 <= i <= n,
                target.nodes().len() == t0 + i,
                target.nodes().subrange(0, t0 as int) == old_nodes,
                target.works().subrange(0, t0 as int) == old_works,
                target.works().len() == target.nodes().len(),
                forall|a: int| 0 <= a < i ==> {
                    let nd = #[trigger] target.nodes()[t0 + a];
                    &&& nd.id == new_base + a
                    &&& nd.name@ == src@[a].name@
                    &&& nd.kind == TaskKind::Static
                    &&& nd.num_dependents == 0
                    &&& nd.successors@.len() == 0
                    &&& nd.dependents@.len() == 0
                },
                forall|a: int| 0 <= a < i ==> #[trigger] copy_work(self.cloneables(), src@[a], target.works()[t0 + a]),
            decreases n - i,
        {
            let node = &src[i];
            let work = match self.cloneable_for(node.id) {
                Some(c) => {
                    let c2 = c.clone();
                    let w = W::from_cloneable(c2);
                    proof {
                        assert(call_ensures(C::clone, (c,), c2));
                        assert(call_ensures(W::from_cloneable, (c2,), w));
                        assert(first_cloneable(self.cloneables(), node.id) == Some(*c));
                        let ghost cv: C = *c;
                        assert(call_ensures(C::clone, (&cv,), c2));
                        assert(copy_work(self.cloneables(), *node, Some(w)));
                    }
                    w
                },
                None => {
                    let name = node.name.as_str();
                    let w = W::placeholder(name);
                    proof {
                        assert(call_ensures(W::placeholder, (name,), w));
                        assert(name@ == node.name@);
                        assert(first_cloneable(self.cloneables(), node.id) is None);
                        assert(copy_work(self.cloneables(), *node, Some(w)));
                    }
                    w
                },
            };
            proof {
                assert(copy_work(self.cloneables(), *node, Some(work)));
            }
            let ghost before = target.nodes();
            let ghost wb = target.works();
            let h = target.emplace(work);
            let ghost mid = target.nodes();
            target.set_name(h.get_id(), node.name.as_str());
            proof {
                assert forall|a: int| 0 <= a < i + 1 implies {
                    let nd = #[trigger] target.nodes()[t0 + a];
                    &&& nd.id == new_base + a
                    &&& nd.name@ == src@[a].name@
                    &&& nd.kind == TaskKind::Static
                    &&& nd.num_dependents == 0
                    &&& nd.successors@.len() == 0
                    &&& nd.dependents@.len() == 0
                } by {
                    if a < i {
                        assert(mid[t0 + a] == before[t0 + a]);
                        assert(t0 + a != h.spec_id() - target.base_id());
                    } else {
                        assert(mid[t0 + a] == mid.last());
                        assert(same_but_name(target.node_of(h.spec_id()), mid[t0 + a]));
                    }
                }
                assert(target.nodes().subrange(0, t0 as int) =~= old_nodes) by {
                    assert forall|j: int| 0 <= j < t0 implies target.nodes()[j] == old_nodes[j] by {
                        assert(mid[j] == before[j]);
                        assert(before.subrange(0, t0 as int)[j] == old_nodes[j]);
                    }
                }
                assert(target.works().subrange(0, t0 as int) =~= old_works) by {
                    assert forall|j: int| 0 <= j < t0 implies target.works()[j] == old_works[j] by {
                        assert(wb.subrange(0, t0 as int)[j] == old_works[j]);
                    }
                }
                target.lemma_wf();
            }
            i = i + 1;
        }
        let ghost copied = target.nodes();
        let ghost cw = target.works();
        proof {
            assert forall|a: int, y: TaskId| #![trigger target.nodes()[t0 + a].successors@.contains(y)]
                0 <= a < n implies (target.nodes()[t0 + a].successors@.contains(y)
                    <==> (new_base <= y && edge_done(src@, src_base, 0, 0, a, y - new_base))) by {
                assert(target.nodes()[t0 + a].successors@.len() == 0);
            }
            assert forall|a: int, y: TaskId| #![trigger target.nodes()[t0 + a].dependents@.contains(y)]
                0 <= a < n implies (target.nodes()[t0 + a].dependents@.contains(y)
                    <==> (new_base <= y && edge_done(src@, src_base, 0, 0, y - new_base, a))) by {
                assert(target.nodes()[t0 + a].dependents@.len() == 0);
            }
        }
        let mut i: usize = 0;
        while i < n
            invariant
                src@ == self.graph().nodes(),
                n == src@.len(),
                src_base == self.graph().base_id(),
                self.graph().wf(),
                target.wf(),
                t0 == old_nodes.len(),
                new_base == target.base_id() + t0,
                new_base + n < usize::MAX,
                target.base_id() == old(target).base_id(),
                target.branch_tables() == old(target).branch_tables(),
                0 <= i <= n,
                target.nodes().len() == t0 + n,
                copied.len() == t0 + n,
                target.works().subrange(0, t0 as int) == old_works,
                target.works().len() == target.nodes().len(),
                target.works() == cw,
                forall|a: int| 0 <= a < n ==> #[trigger] copy_work(self.cloneables(), src@[a], cw[t0 + a]),
                src_base + n <= usize::MAX,
                forall|j: int| 0 <= j < t0 + n ==> #[trigger] same_but_links(target.nodes()[j], copied[j]),
                forall|j: int| 0 <= j < t0 ==> #[trigger] target.nodes()[j] == old_nodes[j],
                forall|a: int| 0 <= a < n ==> {
                    let nd = #[trigger] copied[t0 + a];
                    &&& nd.id == new_base + a
                    &&& nd.name@ == src@[a].name@
                    &&& nd.kind == TaskKind::Static
                    &&& nd.num_dependents == 0
                },
                forall|a: int, y: TaskId| #![trigger target.nodes()[t0 + a].successors@.contains(y)]
                    0 <= a < n ==> (target.nodes()[t0 + a].successors@.contains(y)
                        <==> (new_base <= y && edge_done(src@, src_base, i as int, 0, a, y - new_base))),
                forall|a: int, y: TaskId| #![trigger target.nodes()[t0 + a].dependents@.contains(y)]
                    0 <= a < n ==> (target.nodes()[t0 + a].dependents@.contains(y)
                        <==> (new_base <= y && edge_done(src@, src_base, i as int, 0, y - new_base, a))),
            decreases n - i,
        {
            let succs = &src[i].successors;
            let mut k: usize = 0;
            proof {
                assert forall|a: int, b: int| edge_done(src@, src_base, i as int, 0, a, b)
                    == (a < i && src_edge(src@, src_base, a, b)) by {}
            }
            while k < succs.len()
                invariant
                    src@ == self.graph().nodes(),
                    n == src@.len(),
                    src_base == self.graph().base_id(),
                    i < n,
                    succs@ == src@[i as int].successors@,
                    0 <= k <= succs@.len(),
                    target.wf(),
                    t0 == old_nodes.len(),
                    new_base == target.base_id() + t0,
                    new_base + n < usize::MAX,
                    target.base_id() == old(target).base_id(),
                    target.branch_tables() == old(target).branch_tables(),
                    target.nodes().len() == t0 + n,
                    copied.len() == t0 + n,
                    target.works().subrange(0, t0 as int) == old_works,
                    target.works().len() == target.nodes().len(),
                    target.works() == cw,
                    src_base + n <= usize::MAX,
                    forall|j: int| 0 <= j < t0 + n ==> #[trigger] same_but_links(target.nodes()[j], copied[j]),
                    forall|j: int| 0 <= j < t0 ==> #[trigger] target.nodes()[j] == old_nodes[j],
                    forall|a: int| 0 <= a < n ==> {
                        let nd = #[trigger] copied[t0 + a];
                        &&& nd.id == new_base + a
                        &&& nd.name@ == src@[a].name@
                        &&& nd.kind == TaskKind::Static
                        &&& nd.num_dependents == 0
                    },
                    forall|a: int, y: TaskId| #![trigger target.nodes()[t0 + a].successors@.contains(y)]
                        0 <= a < n ==> (target.nodes()[t0 + a].successors@.contains(y)
                            <==> (new_base <= y && edge_done(src@, src_base, i as int, k as int, a, y - new_base))),
                    forall|a: int, y: TaskId| #![trigger target.nodes()[t0 + a].dependents@.contains(y)]
                        0 <= a < n ==> (target.nodes()[t0 + a].dependents@.contains(y)
                            <==> (new_base <= y && edge_done(src@, src_base, i as int, k as int, y - new_base, a))),
                decreases succs@.len() - k,
            {
                let s = succs[k];
                let ghost before = target.nodes();
                proof {
                    assert(succs@.subrange(0, k as int + 1) =~= succs@.subrange(0, k as int).push(s));
                }
                if s >= src_base && s - src_base < n {
                    let b = s - src_base;
                    target.add_edge(new_base + i, new_base + b);
                    proof {
                        target.lemma_wf();
                        assert(same_but_links(before[t0 + i as int], copied[t0 + i as int]));
                        assert(copied[t0 + i as int].id == new_base + i);
                        assert(same_but_links(before[t0 + b as int], copied[t0 + b as int]));
                        assert(copied[t0 + b as int].id == new_base + b);
                        assert forall|j: int| 0 <= j < t0 + n implies #[trigger] same_but_links(target.nodes()[j], copied[j]) by {
                            assert(same_but_links(target.nodes()[j], before[j]));
                            assert(same_but_links(before[j], copied[j]));
                        }
                        assert forall|j: int| 0 <= j < t0 implies #[trigger] target.nodes()[j] == old_nodes[j] by {
                            assert(before[j] == old_nodes[j]);
                            assert(same_but_links(target.nodes()[j], before[j]));
                            assert(target.nodes()[j].id == target.base_id() + j);
                        }
                        assert forall|a: int, y: TaskId| #![trigger target.nodes()[t0 + a].successors@.contains(y)]
                            0 <= a < n implies (target.nodes()[t0 + a].successors@.contains(y)
                                <==> (new_base <= y && edge_done(src@, src_base, i as int, k as int + 1, a, y - new_base))) by {
                            assert(same_but_links(before[t0 + a], copied[t0 + a]));
                            assert(copied[t0 + a].id == new_base + a);
                            assert(before[t0 + a].successors@.contains(y) <==> (new_base <= y && edge_done(src@, src_base, i as int, k as int, a, y - new_base)));
                        }
                        assert forall|a: int, y: TaskId| #![trigger target.nodes()[t0 + a].dependents@.contains(y)]
                            0 <= a < n implies (target.nodes()[t0 + a].dependents@.contains(y)
                                <==> (new_base <= y && edge_done(src@, src_base, i as int, k as int + 1, y - new_base, a))) by {
                            assert(same_but_links(before[t0 + a], copied[t0 + a]));
                            assert(copied[t0 + a].id == new_base + a);
                            assert(before[t0 + a].dependents@.contains(y) <==> (new_base <= y && edge_done(src@, src_base, i as int, k as int, y - new_base, a)));
                        }
                    }
                } else {
                    proof {
                        assert forall|a: int, b: int| edge_done(src@, src_base, i as int, k as int + 1, a, b)
                            == edge_done(src@, src_base, i as int, k as int, a, b) by {
                            if 0 <= b < n {
                                assert(s != (src_base + b) as TaskId);
                            }
                        }
                    }
                }
                k = k + 1;
            }
            proof {
                assert(succs@.subrange(0, succs@.len() as int) =~= succs@);
                assert forall|a: int, b: int| edge_done(src@, src_base, i as int, succs@.len() as int, a, b)
                    == edge_done(src@, src_base, i as int + 1, 0, a, b) by {}
            }
            i = i + 1;
        }
        proof {
            assert forall|a: int, b: int| edge_done(src@, src_base, n as int, 0, a, b) == src_edge(src@, src_base, a, b) by {}
            assert(target.nodes().subrange(0, t0 as int) =~= old_nodes);
            if n > 0 {
                assert(same_but_links(target.nodes()[t0 as int], copied[t0 as int]));
                assert(copied[t0 + 0] == copied[t0 as int]);
            }
            assert forall|a: int| 0 <= a < n implies {
                let nd = #[trigger] target.nodes()[t0 + a];
                &&& nd.id == target.nodes()[t0 as int].id + a
                &&& nd.name@ == src@[a].name@
                &&& nd.kind == TaskKind::Static
                &&& nd.num_dependents == 0
            } by {
                assert(same_but_links(target.nodes()[t0 + a], copied[t0 + a]));
                assert(same_but_links(target.nodes()[t0 + 0], copied[t0 + 0]));
            }
        }
    }
}

impl<W, C> Composition<W, C> {
    /// Copies the template into `target`, after its tasks, and returns the
    /// copies of the entry and exit tasks (those that are tasks of the
    /// template).
    pub fn compose_into(&self, target: &mut Taskflow<W>) -> (inst: ComposedInstance)
        where W: ComposedWork<C>, C: Clone,
        requires
            self.graph().wf(),
            old(target).wf(),
            old(target).base_id() + old(target).nodes().len() + self.graph().nodes().len() < usize::MAX,
        ensures
            final(target).wf(),
            final(target).base_id() == old(target).base_id(),
            final(target).branch_tables() == old(target).branch_tables(),
            final(target).works().len() == final(target).nodes().len(),
            final(target).nodes().subrange(0, old(target).nodes().len() as int) == old(target).nodes(),
            final(target).works().subrange(0, old(target).nodes().len() as int) == old(target).works(),
            is_copy_of(final(target).nodes(), old(target).nodes().len() as int, self.graph().nodes(), self.graph().base_id()),
            old(target).nodes().len() < final(target).nodes().len() ==>
                final(target).nodes()[old(target).nodes().len() as int].id == old(target).base_id() + old(target).nodes().len(),
            forall|a: int| 0 <= a < self.graph().nodes().len() ==> #[trigger] copy_work(
                self.cloneables(),
                self.graph().nodes()[a],
                final(target).works()[old(target).nodes().len() + a],
            ),
            inst.entry_ids() == mapped_ids(self.entry_ids(), self.graph().base_id(), self.graph().nodes().len(),
                (old(target).base_id() + old(target).nodes().len()) as usize),
            inst.exit_ids() == mapped_ids(self.exit_ids(), self.graph().base_id(), self.graph().nodes().len(),
                (old(target).base_id() + old(target).nodes().len()) as usize),
    {
        let new_base = target.first_id() + target.size();
        self.clone_graph_into(target);
        proof {
            self.taskflow.lemma_wf();
        }
        let entries = map_handles(&self.entry_tasks, self.taskflow.first_id(), self.taskflow.size(), new_base);
        let exits = map_handles(&self.exit_tasks, self.taskflow.first_id(), self.taskflow.size(), new_base);
        ComposedInstance { entries, exits }
    }
}

fn map_handles(hs: &Vec<TaskHandle>, src_base: usize, n: usize, new_base: usize) -> (r: Vec<TaskHandle>)
    requires
        src_base + n <= usize::MAX,
        new_base + n <= usize::MAX,
    ensures
        handles_to_ids(r@) == mapped_ids(handles_to_ids(hs@), src_base, n as nat, new_base),
{
    let mut r: Vec<TaskHandle> = Vec::new();
    let mut i: usize = 0;
    while i < hs.len()
        invariant
            0 <= i <= hs@.len(),
            src_base + n <= usize::MAX,
            new_base + n <= usize::MAX,
            handles_to_ids(r@) == mapped_ids(handles_to_ids(hs@.subrange(0, i as int)), src_base, n as nat, new_base),
        decreases hs@.len() - i,
    {
        let id = hs[i].get_id();
        let ghost pre = hs@.subrange(0, i as int);
        let ghost post = hs@.subrange(0, i as int + 1);
        proof {
            assert(post.drop_last() =~= pre);
            assert(handles_to_ids(post).drop_last() =~= handles_to_ids(pre));
        }
        let ghost r0 = r@;
        if id >= src_base && id - src_base < n {
            r.push(TaskHandle::new(new_base + (id - src_base)));
            proof {
                assert(r@.drop_last() =~= r0);
            }
        }
        i = i + 1;
    }
    proof {
        assert(hs@.subrange(0, hs@.len() as int) =~= hs@);
    }
    r
}

/// The copies of a composition's entry and exit tasks in the graph it was
/// copied into.
pub struct ComposedInstance {
    entries: Vec<TaskHandle>,
    exits: Vec<TaskHandle>,
}

impl ComposedInstance {
    /// Ids of the entry tasks.
    pub closed spec fn entry_ids(&self) -> Seq<TaskId> {
        handles_to_ids(self.entries@)
    }

    /// Ids of the exit tasks.
    pub closed spec fn exit_ids(&self) -> Seq<TaskId> {
        handles_to_ids(self.exits@)
    }

    /// The entry tasks.
    pub fn entries(&self) -> (r: &[TaskHandle])
        ensures
            handles_to_ids(r@) == self.entry_ids(),
    {
        self.entries.as_slice()
    }

    /// The exit tasks.
    pub fn exits(&self) -> (r: &[TaskHandle])
        ensures
            handles_to_ids(r@) == self.exit_ids(),
    {
        self.exits.as_slice()
    }

    /// Entry task number `index`, if there is one.
    pub fn entry(&self, index: usize) -> (r: Option<&TaskHandle>)
        ensures
            index < self.entry_ids().len() ==> (r matches Some(h) && h.spec_id() == self.entry_ids()[index as int]),
            index >= self.entry_ids().len() ==> r is None,
    {
        proof {
            lemma_handles_to_ids_len(self.entries@);
        }
        if index < self.entries.len() {
            proof {
                lemma_handles_to_ids_index(self.entries@, index as int);
            }
            Some(&self.entries[index])
        } else {
            None
        }
    }

    /// Exit task number `index`, if there is one.
    pub fn exit(&self, index: usize) -> (r: Option<&TaskHandle>)
        ensures
            index < self.exit_ids().len() ==> (r matches Some(h) && h.spec_id() == self.exit_ids()[index as int]),
            index >= self.exit_ids().len() ==> r is None,
    {
        proof {
            lemma_handles_to_ids_len(self.exits@);
        }
        if index < self.exits.len() {
            proof {
                lemma_handles_to_ids_index(self.exits@, index as int);
            }
            Some(&self.exits[index])
        } else {
            None
        }
    }
}

proof fn lemma_handles_to_ids_len(hs: Seq<TaskHandle>)
    ensures
        handles_to_ids(hs).len() == hs.len(),
    decreases hs.len(),
{
    if hs.len() > 0 {
        lemma_handles_to_ids_len(hs.drop_last());
    }
}

proof fn lemma_handles_to_ids_index(hs: Seq<TaskHandle>, i: int)
    requires
        0 <= i < hs.len(),
    ensures
        handles_to_ids(hs)[i] == hs[i].spec_id(),
    decreases hs.len(),
{
    lemma_handles_to_ids_len(hs.drop_last());
    if i < hs.len() - 1 {
        lemma_handles_to_ids_index(hs.drop_last(), i);
    }
}

/// The links of `t` are those of `base` plus one from each task of `froms`
/// to each task of `tos`.
pub open spec fn links_added(t: Seq<TaskNode>, base: Seq<TaskNode>, froms: Seq<TaskId>, tos: Seq<TaskId>) -> bool {
    &&& t.len() == base.len()
    &&& forall|j: int| 0 <= j < t.len() ==> #[trigger] same_but_links(t[j], base[j])
    &&& forall|j: int, y: TaskId| #![trigger t[j].successors@.contains(y)]
        0 <= j < t.len() ==> (t[j].successors@.contains(y)
            <==> (base[j].successors@.contains(y) || (froms.contains(base[j].id) && tos.contains(y))))
    &&& forall|j: int, y: TaskId| #![trigger t[j].dependents@.contains(y)]
        0 <= j < t.len() ==> (t[j].dependents@.contains(y)
            <==> (base[j].dependents@.contains(y) || (tos.contains(base[j].id) && froms.contains(y))))
}

/// `fin` is `old` followed by a copy of the template nodes `src`, with a
/// link added from each task of `froms` to each task of `tos`.
pub open spec fn is_composition(
    fin: Seq<TaskNode>,
    old: Seq<TaskNode>,
    src: Seq<TaskNode>,
    src_base: usize,
    froms: Seq<TaskId>,
    tos: Seq<TaskId>,
) -> bool {
    exists|mid: Seq<TaskNode>| #[trigger] is_copy_of(mid, old.len() as int, src, src_base)
        && mid.subrange(0, old.len() as int) == old && links_added(fin, mid, froms, tos)
}

/// Adds a link from each task of `froms` to each task of `tos`.
#[verifier::rlimit(30)]
fn link_all<W>(tf: &mut Taskflow<W>, froms: &[TaskHandle], tos: &[TaskHandle])
    requires
        old(tf).wf(),
    ensures
        final(tf).wf(),
        final(tf).works() == old(tf).works(),
        final(tf).base_id() == old(tf).base_id(),
        final(tf).branch_tables() == old(tf).branch_tables(),
        links_added(final(tf).nodes(), old(tf).nodes(), handles_to_ids(froms@), handles_to_ids(tos@)),
{
    let ghost base = tf.nodes();
    let ghost tos_ids = handles_to_ids(tos@);
    let mut i: usize = 0;
    while i < froms.len()
        invariant
            tf.wf(),
            0 <= i <= froms@.len(),
            tos_ids == handles_to_ids(tos@),
            tf.works() == old(tf).works(),
            tf.base_id() == old(tf).base_id(),
            tf.branch_tables() == old(tf).branch_tables(),
            base == old(tf).nodes(),
            links_added(tf.nodes(), base, handles_to_ids(froms@.subrange(0, i as int)), tos_ids),
        decreases froms@.len() - i,
    {
        let f = froms[i].get_id();
        let ghost fi = handles_to_ids(froms@.subrange(0, i as int));
        let ghost fi1 = handles_to_ids(froms@.subrange(0, i as int + 1));
        proof {
            assert(froms@.subrange(0, i as int + 1).drop_last() =~= froms@.subrange(0, i as int));
            assert(fi1 == fi.push(f));
        }
        let mut k: usize = 0;
        while k < tos.len()
            invariant
                tf.wf(),
                0 <= i < froms@.len(),
                f == froms@[i as int].spec_id(),
                0 <= k <= tos@.len(),
                tos_ids == handles_to_ids(tos@),
                tf.works() == old(tf).works(),
                tf.base_id() == old(tf).base_id(),
                tf.branch_tables() == old(tf).branch_tables(),
                base == old(tf).nodes(),
                tf.nodes().len() == base.len(),
                forall|j: int| 0 <= j < base.len() ==> #[trigger] same_but_links(tf.nodes()[j], base[j]),
                forall|j: int, y: TaskId| #![trigger tf.nodes()[j].successors@.contains(y)]
                    0 <= j < base.len() ==> (tf.nodes()[j].successors@.contains(y)
                        <==> (base[j].successors@.contains(y) || (fi.contains(base[j].id) && tos_ids.contains(y))
                            || (base[j].id == f && handles_to_ids(tos@.subrange(0, k as int)).contains(y)))),
                forall|j: int, y: TaskId| #![trigger tf.nodes()[j].dependents@.contains(y)]
                    0 <= j < base.len() ==> (tf.nodes()[j].dependents@.contains(y)
                        <==> (base[j].dependents@.contains(y) || (tos_ids.contains(base[j].id) && fi.contains(y))
                            || (handles_to_ids(tos@.subrange(0, k as int)).contains(base[j].id) && y == f))),
            decreases tos@.len() - k,
        {
            let e = tos[k].get_id();
            let ghost before = tf.nodes();
            let ghost tk = handles_to_ids(tos@.subrange(0, k as int));
            proof {
                assert(tos@.subrange(0, k as int + 1).drop_last() =~= tos@.subrange(0, k as int));
                assert(handles_to_ids(tos@.subrange(0, k as int + 1)) == tk.push(e));
            }
            tf.add_edge(f, e);
            proof {
                assert forall|j: int| 0 <= j < base.len() implies #[trigger] same_but_links(tf.nodes()[j], base[j]) by {
                    assert(same_but_links(tf.nodes()[j], before[j]));
                    assert(same_but_links(before[j], base[j]));
                }
                assert forall|j: int, y: TaskId| #![trigger tf.nodes()[j].successors@.contains(y)]
                    0 <= j < base.len() implies (tf.nodes()[j].successors@.contains(y)
                        <==> (base[j].successors@.contains(y) || (fi.contains(base[j].id) && tos_ids.contains(y))
                            || (base[j].id == f && handles_to_ids(tos@.subrange(0, k as int + 1)).contains(y)))) by {
                    assert(same_but_links(before[j], base[j]));
                    assert(before[j].successors@.contains(y) <==> (base[j].successors@.contains(y)
                        || (fi.contains(base[j].id) && tos_ids.contains(y)) || (base[j].id == f && tk.contains(y))));
                }
                assert forall|j: int, y: TaskId| #![trigger tf.nodes()[j].dependents@.contains(y)]
                    0 <= j < base.len() implies (tf.nodes()[j].dependents@.contains(y)
                        <==> (base[j].dependents@.contains(y) || (tos_ids.contains(base[j].id) && fi.contains(y))
                            || (handles_to_ids(tos@.subrange(0, k as int + 1)).contains(base[j].id) && y == f))) by {
                    assert(same_but_links(before[j], base[j]));
                    assert(before[j].dependents@.contains(y) <==> (base[j].dependents@.contains(y)
                        || (tos_ids.contains(base[j].id) && fi.contains(y)) || (tk.contains(base[j].id) && y == f)));
                }
            }
            k = k + 1;
        }
        proof {
            assert(tos@.subrange(0, tos@.len() as int) =~= tos@);
        }
        i = i + 1;
    }
    proof {
        assert(froms@.subrange(0, froms@.len() as int) =~= froms@);
    }
}

/// Copying compositions into a graph.
pub trait TaskflowComposable<W, C>: Sized {
    /// `self` can take a copy of `other`.
    spec fn can_compose(&self, other: &Composition<W, C>) -> bool;

    /// Copies `other` into this graph.
    fn compose(&mut self, other: &Composition<W, C>) -> (inst: ComposedInstance)
        requires
            old(self).can_compose(other),
    ;

    /// Copies `other` into this graph, after the `predecessors`.
    fn compose_after(&mut self, predecessors: &[TaskHandle], other: &Composition<W, C>) -> (inst: ComposedInstance)
        requires
            old(self).can_compose(other),
    ;

    /// Copies `other` into this graph, before the `successors`.
    fn compose_before(&mut self, other: &Composition<W, C>, successors: &[TaskHandle]) -> (inst: ComposedInstance)
        requires
            old(self).can_compose(other),
    ;
}

impl<W: ComposedWork<C>, C: Clone> TaskflowComposable<W, C> for Taskflow<W> {
    open spec fn can_compose(&self, other: &Composition<W, C>) -> bool {
        &&& self.wf()
        &&& other.graph().wf()
        &&& self.base_id() + self.nodes().len() + other.graph().nodes().len() < usize::MAX
    }

    fn compose(&mut self, other: &Composition<W, C>) -> (inst: ComposedInstance)
        ensures
            final(self).wf(),
            final(self).base_id() == old(self).base_id(),
            final(self).branch_tables() == old(self).branch_tables(),
            final(self).nodes().subrange(0, old(self).nodes().len() as int) == old(self).nodes(),
            final(self).works().subrange(0, old(self).nodes().len() as int) == old(self).works(),
            is_copy_of(final(self).nodes(), old(self).nodes().len() as int, other.graph().nodes(), other.graph().base_id()),
            inst.entry_ids() == mapped_ids(other.entry_ids(), other.graph().base_id(), other.graph().nodes().len(),
                (old(self).base_id() + old(self).nodes().len()) as usize),
            inst.exit_ids() == mapped_ids(other.exit_ids(), other.graph().base_id(), other.graph().nodes().len(),
                (old(self).base_id() + old(self).nodes().len()) as usize),
    {
        other.compose_into(self)
    }

    fn compose_after(&mut self, predecessors: &[TaskHandle], other: &Composition<W, C>) -> (inst: ComposedInstance)
        ensures
            final(self).wf(),
            final(self).base_id() == old(self).base_id(),
            final(self).branch_tables() == old(self).branch_tables(),
            final(self).works().subrange(0, old(self).nodes().len() as int) == old(self).works(),
            is_composition(final(self).nodes(), old(self).nodes(), other.graph().nodes(), other.graph().base_id(),
                handles_to_ids(predecessors@), inst.entry_ids()),
            inst.entry_ids() == mapped_ids(other.entry_ids(), other.graph().base_id(), other.graph().nodes().len(),
                (old(self).base_id() + old(self).nodes().len()) as usize),
            inst.exit_ids() == mapped_ids(other.exit_ids(), other.graph().base_id(), other.graph().nodes().len(),
                (old(self).base_id() + old(self).nodes().len()) as usize),
    {
        let inst = other.compose_into(self);
        let ghost mid = self.nodes();
        link_all(self, predecessors, inst.entries());
        proof {
            assert(is_copy_of(mid, old(self).nodes().len() as int, other.graph().nodes(), other.graph().base_id()));
        }
        inst
    }

    fn compose_before(&mut self, other: &Composition<W, C>, successors: &[TaskHandle]) -> (inst: ComposedInstance)
        ensures
            final(self).wf(),
            final(self).base_id() == old(self).base_id(),
            final(self).branch_tables() == old(self).branch_tables(),
            final(self).works().subrange(0, old(self).nodes().len() as int) == old(self).works(),
            is_composition(final(self).nodes(), old(self).nodes(), other.graph().nodes(), other.graph().base_id(),
                inst.exit_ids(), handles_to_ids(successors@)),
            inst.entry_ids() == mapped_ids(other.entry_ids(), other.graph().base_id(), other.graph().nodes().len(),
                (old(self).base_id() + old(self).nodes().len()) as usize),
            inst.exit_ids() == mapped_ids(other.exit_ids(), other.graph().base_id(), other.graph().nodes().len(),
                (old(self).base_id() + old(self).nodes().len()) as usize),
    {
        let inst = other.compose_into(self);
        let ghost mid = self.nodes();
        link_all(self, inst.exits(), successors);
        proof {
            assert(is_copy_of(mid, old(self).nodes().len() as int, other.graph().nodes(), other.graph().base_id()));
        }
        inst
    }
}

} // verus!
