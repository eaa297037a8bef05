//! The executor: how many workers it runs, and the decisions each worker
//! makes while a task graph runs (which task to start, when to stop, which
//! successors a finished task releases).  The threads themselves live with
//! the caller, which performs each decision under a lock.

use vstd::prelude::*;
use vstd::set_lib::lemma_len_subset;

use std::collections::VecDeque;

use crate::condition::BranchId;
use crate::taskflow::{BranchTable, Taskflow, branch_table_view, first_table_index, set_add};
use crate::task::{TaskId, TaskNode};

verus! {

broadcast use vstd::seq_lib::group_seq_properties;

/// `b` runs after task `a` of `tf`.
pub open spec fn follows<W>(tf: &Taskflow<W>, a: TaskId, b: TaskId) -> bool {
    tf.has_task(a) && tf.node_of(a).successors@.contains(b)
}

/// `p` is a walk along the dependencies of `tf`.
pub open spec fn is_walk<W>(tf: &Taskflow<W>, p: Seq<TaskId>) -> bool {
    &&& p.len() > 0
    &&& forall|k: int| 0 <= k < p.len() - 1 ==> #[trigger] follows(tf, p[k], p[k + 1])
}

/// `x` is reached from one of the `start` ids by following dependencies.
pub open spec fn reached_from<W>(tf: &Taskflow<W>, start: Seq<TaskId>, x: TaskId) -> bool {
    exists|p: Seq<TaskId>| #[trigger] is_walk(tf, p) && start.contains(p[0]) && p.last() == x
}

/// The ids reached from `start`, the start ids included.
pub open spec fn reach_set<W>(tf: &Taskflow<W>, start: Seq<TaskId>) -> Set<TaskId> {
    Set::new(|x: TaskId| reached_from(tf, start, x))
}

/// Every successor id named by the nodes, in order.
pub open spec fn all_successors(nodes: Seq<TaskNode>) -> Seq<TaskId>
    decreases nodes.len(),
{
    if nodes.len() == 0 {
        Seq::empty()
    } else {
        all_successors(nodes.drop_last()) + nodes.last().successors@
    }
}

proof fn lemma_all_successors(nodes: Seq<TaskNode>, i: int, x: TaskId)
    requires
        0 <= i < nodes.len(),
        nodes[i].successors@.contains(x),
    ensures
        all_successors(nodes).contains(x),
    decreases nodes.len(),
{
    let a = all_successors(nodes.drop_last());
    if i == nodes.len() - 1 {
        let k = choose|k: int| 0 <= k < nodes[i].successors@.len() && nodes[i].successors@[k] == x;
        assert((a + nodes.last().successors@)[a.len() + k] == x);
    } else {
        assert(nodes.drop_last()[i] == nodes[i]);
        lemma_all_successors(nodes.drop_last(), i, x);
        let k = choose|k: int| 0 <= k < a.len() && a[k] == x;
        assert((a + nodes.last().successors@)[k] == x);
    }
}

proof fn lemma_nodup_len_bound(s: Seq<TaskId>, u: Seq<TaskId>)
    requires
        s.no_duplicates(),
        forall|x: TaskId| s.contains(x) ==> u.contains(x),
    ensures
        s.len() <= u.len(),
{
    broadcast use vstd::seq_lib::seq_to_set_is_finite;
    s.unique_seq_to_set();
    u.lemma_cardinality_of_set();
    assert(s.to_set().subset_of(u.to_set()));
    lemma_len_subset(s.to_set(), u.to_set());
}

proof fn lemma_reach_start<W>(tf: &Taskflow<W>, start: Seq<TaskId>, x: TaskId)
    requires
        start.contains(x),
    ensures
        reached_from(tf, start, x),
{
    let p = seq![x];
    assert(is_walk(tf, p));
}

proof fn lemma_reach_step<W>(tf: &Taskflow<W>, start: Seq<TaskId>, a: TaskId, b: TaskId)
    requires
        reached_from(tf, start, a),
        follows(tf, a, b),
    ensures
        reached_from(tf, start, b),
{
    let p = choose|p: Seq<TaskId>| #[trigger] is_walk(tf, p) && start.contains(p[0]) && p.last() == a;
    let q = p.push(b);
    assert forall|k: int| 0 <= k < q.len() - 1 implies #[trigger] follows(tf, q[k], q[k + 1]) by {
        if k < p.len() - 1 {
            assert(q[k] == p[k] && q[k + 1] == p[k + 1]);
        } else {
            assert(q[k] == a && q[k + 1] == b);
        }
    }
    assert(is_walk(tf, q));
    assert(q[0] == p[0]);
}

proof fn lemma_walk_in_closed<W>(tf: &Taskflow<W>, start: Seq<TaskId>, vis: Seq<TaskId>, p: Seq<TaskId>, k: int)
    requires
        forall|x: TaskId| start.contains(x) ==> vis.contains(x),
        forall|a: TaskId, b: TaskId| vis.contains(a) && #[trigger] follows(tf, a, b) ==> vis.contains(b),
        is_walk(tf, p),
        start.contains(p[0]),
        0 <= k < p.len(),
    ensures
        vis.contains(p[k]),
    decreases k,
{
    if k > 0 {
        lemma_walk_in_closed(tf, start, vis, p, k - 1);
        assert(follows(tf, p[k - 1], p[(k - 1) + 1]));
    }
}

fn vec_contains(v: &Vec<TaskId>, x: TaskId) -> (b: bool)
    ensures
        b == v@.contains(x),
{
    let mut i: usize = 0;
    while i < v.len()
        invariant
            0 <= i <= v@.len(),
            forall|j: int| 0 <= j < i ==> v@[j] != x,
        decreases v@.len() - i,
    {
        if v[i] == x {
            return true;
        }
        i = i + 1;
    }
    false
}

/// The number of distinct ids reached from `start` by following the
/// dependencies of `tf`, the start ids included.
pub fn count_reachable_tasks<W>(tf: &Taskflow<W>, start: &[TaskId]) -> (n: usize)
    requires
        tf.wf(),
    ensures
        reach_set(tf, start@).finite(),
        n == reach_set(tf, start@).len(),
{
    let ghost u = start@ + all_successors(tf.nodes());
    let mut visited: Vec<TaskId> = Vec::new();
    let mut to_visit: Vec<TaskId> = Vec::new();
    let mut i: usize = 0;
    while i < start.len()
        invariant
            0 <= i <= start@.len(),
            to_visit@ == start@.subrange(0, i as int),
        decreases start@.len() - i,
    {
        to_visit.push(start[i]);
        i = i + 1;
    }
    proof {
        assert(to_visit@ =~= start@);
        assert forall|x: TaskId| #[trigger] to_visit@.contains(x) implies u.contains(x) && reached_from(tf, start@, x) by {
            let k = choose|k: int| 0 <= k < to_visit@.len() && to_visit@[k] == x;
            assert(u[k] == x);
            lemma_reach_start(tf, start@, x);
        }
    }
    while to_visit.len() > 0
        invariant
            tf.wf(),
            u == start@ + all_successors(tf.nodes()),
            visited@.no_duplicates(),
            forall|x: TaskId| #[trigger] visited@.contains(x) ==> u.contains(x) && reached_from(tf, start@, x),
            forall|x: TaskId| #[trigger] to_visit@.contains(x) ==> u.contains(x) && reached_from(tf, start@, x),
            forall|x: TaskId| start@.contains(x) ==> visited@.contains(x) || to_visit@.contains(x),
            forall|a: TaskId, b: TaskId| visited@.contains(a) && #[trigger] follows(tf, a, b)
                ==> visited@.contains(b) || to_visit@.contains(b),
        decreases u.len() - visited@.len(), to_visit@.len(),
    {
        proof {
            lemma_nodup_len_bound(visited@, u);
        }
        let ghost tv0 = to_visit@;
        let x = to_visit.pop().unwrap();
        let ghost rest = to_visit@;
        proof {
            assert(tv0 =~= rest.push(x));
            assert(tv0[tv0.len() - 1] == x);
            assert(tv0.contains(x));
            assert(reached_from(tf, start@, x));
            assert(u.contains(x));
            assert forall|y: TaskId| #[trigger] rest.contains(y) implies u.contains(y) && reached_from(tf, start@, y) by {
                let q = choose|q: int| 0 <= q < rest.len() && rest[q] == y;
                assert(tv0[q] == y);
                assert(tv0.contains(y));
            }
        }
        if !vec_contains(&visited, x) {
            visited.push(x);
            proof {
                lemma_nodup_len_bound(visited@, u);
            }
            match tf.index_of(x) {
                Some(ix) => {
                    let succs = &tf.task_nodes()[ix].successors;
                    let ghost vis = visited@;
                    let mut k: usize = 0;
                    proof {
                        tf.lemma_wf();
                        assert(tf.node_of(x) == tf.nodes()[ix as int]);
                    }
                    while k < succs.len()
                        invariant
                            tf.wf(),
                            tf.has_task(x),
                            succs@ == tf.node_of(x).successors@,
                            0 <= k <= succs@.len(),
                            u == start@ + all_successors(tf.nodes()),
                            visited@ == vis,
                            vis.contains(x),
                            reached_from(tf, start@, x),
                            forall|y: TaskId| #[trigger] to_visit@.contains(y) ==> u.contains(y) && reached_from(tf, start@, y),
                            forall|y: TaskId| rest.contains(y) ==> to_visit@.contains(y),
                            forall|j: int| 0 <= j < k ==> vis.contains(#[trigger] succs@[j]) || to_visit@.contains(succs@[j]),
                        decreases succs@.len() - k,
                    {
                        let s = succs[k];
                        if !vec_contains(&visited, s) {
                            let ghost before = to_visit@;
                            to_visit.push(s);
                            proof {
                                assert(follows(tf, x, s));
                                lemma_reach_step(tf, start@, x, s);
                                lemma_all_successors(tf.nodes(), x - tf.base_id(), s);
                                let a = all_successors(tf.nodes());
                                let m = choose|m: int| 0 <= m < a.len() && a[m] == s;
                                assert(u[start@.len() + m] == s);
                                assert forall|y: TaskId| #[trigger] to_visit@.contains(y) implies u.contains(y) && reached_from(tf, start@, y) by {
                                    if y != s {
                                        let q = choose|q: int| 0 <= q < to_visit@.len() && to_visit@[q] == y;
                                        assert(before[q] == y);
                                    }
                                }
                                assert forall|y: TaskId| rest.contains(y) implies to_visit@.contains(y) by {
                                    let q = choose|q: int| 0 <= q < before.len() && before[q] == y;
                                    assert(to_visit@[q] == y);
                                }
                                assert forall|j: int| 0 <= j < k + 1 implies vis.contains(#[trigger] succs@[j]) || to_visit@.contains(succs@[j]) by {
                                    if j < k && !vis.contains(succs@[j]) {
                                        let q = choose|q: int| 0 <= q < before.len() && before[q] == succs@[j];
                                        assert(to_visit@[q] == succs@[j]);
                                    }
                                }
                            }
                        }
                        k = k + 1;
                    }
                    proof {
                        assert forall|a: TaskId, b: TaskId| visited@.contains(a) && #[trigger] follows(tf, a, b)
                            implies visited@.contains(b) || to_visit@.contains(b) by {
                            if a == x {
                                let j = choose|j: int| 0 <= j < succs@.len() && succs@[j] == b;
                                assert(vis.contains(succs@[j]) || to_visit@.contains(succs@[j]));
                            } else {
                                assert(vis.drop_last().contains(a)) by {
                                    let q = choose|q: int| 0 <= q < vis.len() && vis[q] == a;
                                    assert(vis.drop_last()[q] == a);
                                }
                                if !vis.contains(b) {
                                    assert(rest.push(x).contains(b));
                                    let q = choose|q: int| 0 <= q < rest.push(x).len() && rest.push(x)[q] == b;
                                    if q < rest.len() {
                                        assert(rest[q] == b);
                                    }
                                }
                            }
                        }
                    }
                },
                None => {
                    proof {
                        assert forall|a: TaskId, b: TaskId| visited@.contains(a) && #[trigger] follows(tf, a, b)
                            implies visited@.contains(b) || to_visit@.contains(b) by {
                            assert(a != x);
                            assert(visited@.drop_last().contains(a)) by {
                                let q = choose|q: int| 0 <= q < visited@.len() && visited@[q] == a;
                                assert(visited@.drop_last()[q] == a);
                            }
                            if !visited@.contains(b) {
                                assert(rest.push(x).contains(b));
                                let q = choose|q: int| 0 <= q < rest.push(x).len() && rest.push(x)[q] == b;
                                if q < rest.len() {
                                    assert(rest[q] == b);
                                }
                            }
                        }
                    }
                },
            }
            proof {
                assert forall|y: TaskId| start@.contains(y) implies visited@.contains(y) || to_visit@.contains(y) by {
                    if !visited@.contains(y) {
                        assert(rest.push(x).contains(y));
                        let q = choose|q: int| 0 <= q < rest.push(x).len() && rest.push(x)[q] == y;
                        if q < rest.len() {
                            assert(rest[q] == y);
                        }
                    }
                }
            }
        } else {
            proof {
                assert forall|a: TaskId, b: TaskId| visited@.contains(a) && #[trigger] follows(tf, a, b)
                    implies visited@.contains(b) || to_visit@.contains(b) by {
                    if !visited@.contains(b) {
                        assert(rest.push(x).contains(b));
                        let q = choose|q: int| 0 <= q < rest.push(x).len() && rest.push(x)[q] == b;
                        if q < rest.len() {
                            assert(rest[q] == b);
                        }
                    }
                }
                assert forall|y: TaskId| start@.contains(y) implies visited@.contains(y) || to_visit@.contains(y) by {
                    if !visited@.contains(y) {
                        assert(rest.push(x).contains(y));
                        let q = choose|q: int| 0 <= q < rest.push(x).len() && rest.push(x)[q] == y;
                        if q < rest.len() {
                            assert(rest[q] == y);
                        }
                    }
                }
            }
        }
    }
    proof {
        broadcast use vstd::seq_lib::seq_to_set_is_finite;
        assert(forall|b: TaskId| !to_visit@.contains(b));
        let r = reach_set(tf, start@);
        assert forall|a: TaskId, b: TaskId| visited@.contains(a) && #[trigger] follows(tf, a, b) implies visited@.contains(b) by {
            assert(!to_visit@.contains(b));
        }
        assert forall|x: TaskId| start@.contains(x) implies visited@.contains(x) by {
            assert(!to_visit@.contains(x));
        }
        assert forall|x: TaskId| r.contains(x) implies visited@.to_set().contains(x) by {
            let p = choose|p: Seq<TaskId>| #[trigger] is_walk(tf, p) && start@.contains(p[0]) && p.last() == x;
            lemma_walk_in_closed(tf, start@, visited@, p, p.len() - 1);
        }
        assert forall|x: TaskId| visited@.to_set().contains(x) implies r.contains(x) by {
            assert(visited@.contains(x));
        }
        assert(r =~= visited@.to_set());
        visited@.unique_seq_to_set();
    }
    visited.len()
}

/// The number of CPUs available to this process, as `num_cpus::get`
/// reports it; its documentation promises at least one.
#[verifier::external_body]
pub(crate) fn available_cpus() -> (n: usize)
    ensures
        n >= 1,
{
    num_cpus::get()
}

/// What a repeated run does next.
#[derive(Debug, Clone, Copy, PartialEq, Eq, Structural)]
pub enum RepeatStep {
    /// Run the graph once more and wait for it.
    RunAndWait,
    /// Run the graph one last time and hand back its completion handle.
    RunLast,
    /// Run nothing more: the runs asked for are done.
    Stop,
}

/// The step of `run_n` after `done` finished runs: the first `n - 1` runs
/// are waited for and the `n`-th is the one handed back, so the graph runs
/// exactly `n` times; nothing runs when `n` is zero.
pub fn run_n_step(n: usize, done: usize) -> (s: RepeatStep)
    ensures
        s == if done + 1 < n {
            RepeatStep::RunAndWait
        } else if done + 1 == n {
            RepeatStep::RunLast
        } else {
            RepeatStep::Stop
        },
{
    if n > 0 && done < n - 1 {
        RepeatStep::RunAndWait
    } else if n > 0 && done == n - 1 {
        RepeatStep::RunLast
    } else {
        RepeatStep::Stop
    }
}

/// The step of `run_until` after a waited run, given whether the
/// predicate now holds: another waited run while it does not, and nothing
/// more once it does.
pub fn run_until_step(predicate_holds: bool) -> (s: RepeatStep)
    ensures
        s == if predicate_holds { RepeatStep::Stop } else { RepeatStep::RunAndWait },
{
    if predicate_holds {
        RepeatStep::Stop
    } else {
        RepeatStep::RunAndWait
    }
}

/// A pool of worker threads that runs task graphs.
pub struct Executor {
    num_workers: usize,
}

impl Executor {
    /// The number of worker threads.
    pub closed spec fn workers(&self) -> usize {
        self.num_workers
    }

    /// An executor with `num_workers` workers, or one per available CPU
    /// when `num_workers` is zero.
    pub fn new(num_workers: usize) -> (e: Self)
        ensures
            num_workers > 0 ==> e.workers() == num_workers,
            e.workers() >= 1,
    {
        if num_workers == 0 {
            Self::with_cpus(num_workers, available_cpus())
        } else {
            Self::with_cpus(num_workers, 1)
        }
    }

    /// An executor with `num_workers` workers, or `cpus` workers when
    /// `num_workers` is zero.
    pub fn with_cpus(num_workers: usize, cpus: usize) -> (e: Self)
        ensures
            e.workers() == if num_workers == 0 { cpus } else { num_workers },
    {
        let n = if num_workers == 0 { cpus } else { num_workers };
        Executor { num_workers: n }
    }

    /// The number of worker threads.
    pub fn num_workers(&self) -> (n: usize)
        ensures
            n == self.workers(),
    {
        self.num_workers
    }

    /// Waits for the runs started by this executor.  Each run is awaited
    /// through its own future, so there is nothing left to wait for here.
    pub fn wait_for_all(&self) {
    }
}

/// `x - y` as `usize` arithmetic wraps it.
pub open spec fn wsub(x: usize, y: usize) -> usize {
    if x >= y {
        (x - y) as usize
    } else {
        (x - y + usize::MAX + 1) as usize
    }
}

/// `x + y` as `usize` arithmetic wraps it.
pub open spec fn wadd(x: usize, y: usize) -> usize {
    if x + y > usize::MAX {
        (x + y - usize::MAX - 1) as usize
    } else {
        (x + y) as usize
    }
}

/// The number of unfinished dependencies of each node when a run starts.
pub open spec fn dep_counts(nodes: Seq<TaskNode>) -> Seq<usize> {
    nodes.map_values(|n: TaskNode| n.dependents@.len() as usize)
}

/// The ids of the nodes without dependencies, in order.
pub open spec fn sources(nodes: Seq<TaskNode>) -> Seq<TaskId>
    decreases nodes.len(),
{
    if nodes.len() == 0 {
        Seq::empty()
    } else if nodes.last().dependents@.len() == 0 {
        sources(nodes.drop_last()).push(nodes.last().id)
    } else {
        sources(nodes.drop_last())
    }
}

/// The branch table registered for `task`, if any.
pub open spec fn table_of(
    tables: Seq<(TaskId, Seq<(BranchId, Seq<TaskId>)>)>,
    task: TaskId,
) -> Option<Seq<(BranchId, Seq<TaskId>)>> {
    if exists|k: int| 0 <= k < tables.len() && tables[k].0 == task {
        Some(tables[first_table_index(tables, task)].1)
    } else {
        None
    }
}

/// The first position of branch `b` in a table.
pub open spec fn first_branch_index(table: Seq<(BranchId, Seq<TaskId>)>, b: BranchId) -> int {
    choose|k: int| 0 <= k < table.len() && table[k].0 == b && forall|j: int| 0 <= j < k ==> table[j].0 != b
}

/// The successors listed for branch `b`, if the table has that branch.
pub open spec fn branch_entry(table: Seq<(BranchId, Seq<TaskId>)>, b: BranchId) -> Option<Seq<TaskId>> {
    if exists|k: int| 0 <= k < table.len() && table[k].0 == b {
        Some(table[first_branch_index(table, b)].1)
    } else {
        None
    }
}

/// How many tasks the branches other than `b` reach: those tasks will not
/// run once `b` is taken.
pub open spec fn skipped_count<W>(tf: &Taskflow<W>, table: Seq<(BranchId, Seq<TaskId>)>, b: BranchId) -> nat
    decreases table.len(),
{
    if table.len() == 0 {
        0
    } else {
        skipped_count(tf, table.drop_last(), b) + if table.last().0 != b {
            reach_set(tf, table.last().1).len()
        } else {
            0
        }
    }
}

/// The tasks whose dependency on `task` is satisfied when `task` finishes
/// having chosen `branch`: the successors of the chosen branch when the
/// task has a table with that branch, else all its successors.
pub open spec fn released_by<W>(tf: &Taskflow<W>, task: TaskId, branch: Option<usize>) -> Seq<TaskId> {
    match branch {
        Some(b) => match table_of(tf.branch_tables(), task) {
            Some(t) => match branch_entry(t, BranchId(b)) {
                Some(s) => s,
                None => tf.node_of(task).successors@,
            },
            None => tf.node_of(task).successors@,
        },
        None => tf.node_of(task).successors@,
    }
}

/// The number of tasks that will not run because `task` chose `branch`.
pub open spec fn skipped<W>(tf: &Taskflow<W>, task: TaskId, branch: Option<usize>) -> nat {
    match branch {
        Some(b) => match table_of(tf.branch_tables(), task) {
            Some(t) => skipped_count(tf, t, BranchId(b)),
            None => 0,
        },
        None => 0,
    }
}

/// Counting down the dependency counts of the `acts` in turn: the new
/// counts, and the ids whose count went from one to zero, in that order.
/// Ids outside the counted range are passed over.
pub open spec fn release(deps: Seq<usize>, base: usize, acts: Seq<TaskId>) -> (Seq<usize>, Seq<TaskId>)
    decreases acts.len(),
{
    if acts.len() == 0 {
        (deps, Seq::empty())
    } else {
        let (d, r) = release(deps, base, acts.drop_last());
        let x = acts.last();
        if base <= x < base + d.len() {
            let prev = d[x - base];
            (d.update(x - base, wsub(prev, 1)), if prev == 1 { r.push(x) } else { r })
        } else {
            (d, r)
        }
    }
}

proof fn lemma_release_len(deps: Seq<usize>, base: usize, acts: Seq<TaskId>)
    ensures
        release(deps, base, acts).0.len() == deps.len(),
    decreases acts.len(),
{
    if acts.len() > 0 {
        lemma_release_len(deps, base, acts.drop_last());
    }
}

proof fn lemma_skipped_prefix<W>(tf: &Taskflow<W>, t: Seq<(BranchId, Seq<TaskId>)>, b: BranchId, k: int)
    requires
        0 <= k <= t.len(),
    ensures
        skipped_count(tf, t.subrange(0, k), b) <= skipped_count(tf, t, b),
    decreases t.len() - k,
{
    if k < t.len() {
        lemma_skipped_prefix(tf, t, b, k + 1);
        let s = t.subrange(0, k + 1);
        assert(s.drop_last() =~= t.subrange(0, k));
    } else {
        assert(t.subrange(0, k) =~= t);
    }
}

/// What a worker does next.
#[derive(Debug, Clone, Copy, PartialEq, Eq, Structural)]
pub enum WorkerStep {
    /// Start the task with this id.
    Run(TaskId),
    /// Another worker has seen the run finish: stop.
    Exit,
    /// Every task is accounted for: the run is over; wake the others and stop.
    Finish,
    /// Nothing is ready yet: wait for a finished task to release some.
    Wait,
}

/// The shared bookkeeping of one run of a task graph: the unfinished
/// dependencies of each task, the tasks ready to run, how many tasks are
/// still to be accounted for, and whether the run is over.
pub struct ExecutionState {
    base: usize,
    deps: Vec<usize>,
    queue: VecDeque<TaskId>,
    remaining: usize,
    shutdown: bool,
}

impl ExecutionState {
    /// Id of the first task of the graph being run.
    pub closed spec fn base_id(&self) -> usize {
        self.base
    }

    /// Unfinished dependency count of each task, by position.
    pub closed spec fn pending(&self) -> Seq<usize> {
        self.deps@
    }

    /// Tasks ready to run, oldest first.
    pub closed spec fn ready(&self) -> Seq<TaskId> {
        self.queue@
    }

    /// Tasks neither finished nor known to be skipped.
    pub closed spec fn remaining(&self) -> usize {
        self.remaining
    }

    /// The run is over.
    pub closed spec fn is_shut_down(&self) -> bool {
        self.shutdown
    }

    /// The state at the start of a run of `tf`: every task counts its
    /// dependencies, and the tasks without any are ready, in id order.
    pub fn start<W>(tf: &Taskflow<W>) -> (st: Self)
        requires
            tf.wf(),
        ensures
            st.base_id() == tf.base_id(),
            st.pending() == dep_counts(tf.nodes()),
            st.ready() == sources(tf.nodes()),
            st.remaining() == tf.nodes().len(),
            !st.is_shut_down(),
    {
        let mut st = ExecutionState { base: tf.first_id(), deps: Vec::new(), queue: VecDeque::new(), remaining: 0, shutdown: false };
        st.add_tasks(tf);
        proof {
            tf.lemma_wf();
            assert(tf.nodes().len() <= usize::MAX);
            assert(wadd(0, (tf.nodes().len() - 0) as usize) == tf.nodes().len());
            assert(tf.nodes().subrange(0, tf.nodes().len() as int) =~= tf.nodes());
            assert(tf.nodes().skip(0) =~= tf.nodes());
            assert(st.deps@ =~= dep_counts(tf.nodes()));
        }
        st
    }

    /// Takes in the tasks that were appended to `tf` since the counts were
    /// last set up (those of a subflow that just ran): they count their
    /// dependencies, join the remaining tasks, and those without
    /// dependencies become ready.  Returns whether there were any.
    pub fn add_tasks<W>(&mut self, tf: &Taskflow<W>) -> (added: bool)
        requires
            tf.wf(),
            old(self).base_id() == tf.base_id(),
            old(self).pending().len() <= tf.nodes().len(),
        ensures
            added == (old(self).pending().len() < tf.nodes().len()),
            final(self).base_id() == old(self).base_id(),
            final(self).pending() == old(self).pending() + dep_counts(tf.nodes().skip(old(self).pending().len() as int)),
            final(self).ready() == old(self).ready() + sources(tf.nodes().skip(old(self).pending().len() as int)),
            final(self).remaining() == if added {
                wadd(old(self).remaining(), (tf.nodes().len() - old(self).pending().len()) as usize)
            } else {
                old(self).remaining()
            },
            final(self).is_shut_down() == old(self).is_shut_down(),
    {
        let nodes = tf.task_nodes();
        let first = self.deps.len();
        let total = nodes.len();
        if first == total {
            proof {
                assert(tf.nodes().skip(first as int) =~= Seq::<TaskNode>::empty());
                assert(self.deps@ + dep_counts(Seq::<TaskNode>::empty()) =~= self.deps@);
                assert(self.queue@ + sources(Seq::<TaskNode>::empty()) =~= self.queue@);
            }
            return false;
        }
        self.remaining = self.remaining.wrapping_add(total - first);
        let ghost d0 = self.deps@;
        let ghost q0 = self.queue@;
        let mut i: usize = first;
        while i < total
            invariant
                nodes@ == tf.nodes(),
                total == nodes@.len(),
                first <= i <= total,
                first == d0.len(),
                self.deps@ == d0 + dep_counts(nodes@.subrange(first as int, i as int)),
                self.queue@ == q0 + sources(nodes@.subrange(first as int, i as int)),
                self.base == old(self).base,
                self.shutdown == old(self).shutdown,
                self.remaining == wadd(old(self).remaining, (total - first) as usize),
            decreases total - i,
        {
            let node = &nodes[i];
            let ghost pre = nodes@.subrange(first as int, i as int);
            let ghost post = nodes@.subrange(first as int, i as int + 1);
            proof {
                assert(post.drop_last() =~= pre);
                assert(post.last() == nodes@[i as int]);
            }
            self.deps.push(node.dependents.len());
            if node.dependents.len() == 0 {
                self.queue.push_back(node.id);
            }
            proof {
                assert(dep_counts(post) =~= dep_counts(pre).push(node.dependents@.len() as usize));
                assert(self.deps@ =~= d0 + dep_counts(post));
                assert(self.queue@ =~= q0 + sources(post));
            }
            i = i + 1;
        }
        proof {
            assert(nodes@.subrange(first as int, total as int) =~= tf.nodes().skip(first as int));
        }
        true
    }

    /// The next thing a worker does: run the oldest ready task; stop if the
    /// run is over; declare the run over when no task is ready and none
    /// remains; otherwise wait.
    pub fn next_step(&mut self) -> (step: WorkerStep)
        ensures
            final(self).base_id() == old(self).base_id(),
            final(self).pending() == old(self).pending(),
            final(self).remaining() == old(self).remaining(),
            old(self).ready().len() > 0 ==> step == WorkerStep::Run(old(self).ready()[0])
                && final(self).ready() == old(self).ready().drop_first()
                && final(self).is_shut_down() == old(self).is_shut_down(),
            old(self).ready().len() == 0 ==> final(self).ready() == old(self).ready() && (
                if old(self).is_shut_down() {
                    step == WorkerStep::Exit && final(self).is_shut_down()
                } else if old(self).remaining() == 0 {
                    step == WorkerStep::Finish && final(self).is_shut_down()
                } else {
                    step == WorkerStep::Wait && !final(self).is_shut_down()
                }),
    {
        match self.queue.pop_front() {
            Some(id) => WorkerStep::Run(id),
            None => {
                if self.shutdown {
                    WorkerStep::Exit
                } else if self.remaining == 0 {
                    self.shutdown = true;
                    WorkerStep::Finish
                } else {
                    WorkerStep::Wait
                }
            },
        }
    }

    /// `true` once the run is over.
    pub fn is_finished(&self) -> (b: bool)
        ensures
            b == self.is_shut_down(),
    {
        self.shutdown
    }

    /// Counts down the dependencies of each of `acts`, in order; a task
    /// whose count goes from one to zero becomes ready.
    fn release_all(&mut self, acts: &Vec<TaskId>) -> (any: bool)
        ensures
            final(self).base == old(self).base,
            final(self).remaining == old(self).remaining,
            final(self).shutdown == old(self).shutdown,
            final(self).deps@ == release(old(self).deps@, old(self).base, acts@).0,
            final(self).queue@ == old(self).queue@ + release(old(self).deps@, old(self).base, acts@).1,
            any == (release(old(self).deps@, old(self).base, acts@).1.len() > 0),
    {
        let ghost d0 = self.deps@;
        let ghost q0 = self.queue@;
        let mut any = false;
        let mut k: usize = 0;
        while k < acts.len()
            invariant
                0 <= k <= acts@.len(),
                self.base == old(self).base,
                self.remaining == old(self).remaining,
                self.shutdown == old(self).shutdown,
                d0 == old(self).deps@,
                q0 == old(self).queue@,
                self.deps@ == release(d0, self.base, acts@.subrange(0, k as int)).0,
                self.queue@ == q0 + release(d0, self.base, acts@.subrange(0, k as int)).1,
                any == (release(d0, self.base, acts@.subrange(0, k as int)).1.len() > 0),
            decreases acts@.len() - k,
        {
            let x = acts[k];
            let ghost pre = acts@.subrange(0, k as int);
            let ghost post = acts@.subrange(0, k as int + 1);
            proof {
                assert(post.drop_last() =~= pre);
                assert(post.last() == x);
                lemma_release_len(d0, self.base, pre);
            }
            if x >= self.base && x - self.base < self.deps.len() {
                let idx = x - self.base;
                let prev = self.deps[idx];
                self.deps.set(idx, prev.wrapping_sub(1));
                if prev == 1 {
                    self.queue.push_back(x);
                    any = true;
                }
                proof {
                    assert(self.queue@ =~= q0 + release(d0, self.base, post).1);
                }
            }
            k = k + 1;
        }
        proof {
            assert(acts@.subrange(0, acts@.len() as int) =~= acts@);
        }
        any
    }

    /// Records that `task` of `tf` finished, having chosen `branch` if it is
    /// a condition task.  The task leaves the remaining count, and so do the
    /// tasks that the branches not chosen reach; the released tasks count
    /// down their dependencies, and those that reach zero become ready.
    /// Returns whether any task became ready.
    pub fn complete<W>(&mut self, tf: &Taskflow<W>, task: TaskId, branch: Option<usize>) -> (any: bool)
        requires
            tf.wf(),
            tf.has_task(task),
            old(self).base_id() == tf.base_id(),
            skipped(tf, task, branch) <= usize::MAX,
        ensures
            final(self).base_id() == old(self).base_id(),
            final(self).is_shut_down() == old(self).is_shut_down(),
            final(self).remaining() == wsub(wsub(old(self).remaining(), 1), skipped(tf, task, branch) as usize),
            final(self).pending() == release(old(self).pending(), old(self).base_id(), released_by(tf, task, branch)).0,
            final(self).ready() == old(self).ready() + release(old(self).pending(), old(self).base_id(), released_by(tf, task, branch)).1,
            any == (release(old(self).pending(), old(self).base_id(), released_by(tf, task, branch)).1.len() > 0),
    {
        self.remaining = self.remaining.wrapping_sub(1);
        let own = &tf.task_nodes()[task - self.base].successors;
        proof {
            tf.lemma_wf();
            assert(own@ == tf.node_of(task).successors@);
        }
        let released: &Vec<TaskId> = match branch {
            Some(b) => match tf.get_conditional_branches(task) {
                Some(table) => {
                    let lost = skipped_tasks(tf, table, b);
                    self.remaining = self.remaining.wrapping_sub(lost);
                    match branch_successors(table, b) {
                        Some(s) => s,
                        None => own,
                    }
                },
                None => own,
            },
            None => own,
        };
        self.release_all(released)
    }
}

/// The successors listed for branch `b` in a table.
fn branch_successors(table: &BranchTable, b: usize) -> (r: Option<&Vec<TaskId>>)
    ensures
        match branch_entry(branch_table_view(table@), BranchId(b)) {
            Some(s) => r matches Some(v) && v@ == s,
            None => r is None,
        },
{
    let ghost t = branch_table_view(table@);
    let mut k: usize = 0;
    while k < table.len() && table[k].0.0 != b
        invariant
            0 <= k <= table@.len(),
            t == branch_table_view(table@),
            forall|j: int| 0 <= j < k ==> t[j].0 != BranchId(b),
        decreases table@.len() - k,
    {
        k = k + 1;
    }
    if k < table.len() {
        proof {
            assert(t[k as int].0 == BranchId(b));
            let f = first_branch_index(t, BranchId(b));
            assert(0 <= f < t.len() && t[f].0 == BranchId(b) && forall|j: int| 0 <= j < f ==> t[j].0 != BranchId(b));
            if f < k {
                assert(t[f].0 != BranchId(b));
            }
            if f > k {
                assert(t[k as int].0 != BranchId(b));
            }
        }
        Some(&table[k].1)
    } else {
        proof {
            assert forall|j: int| 0 <= j < t.len() implies t[j].0 != BranchId(b) by {}
        }
        None
    }
}

/// How many tasks the branches of `table` other than `b` reach.
fn skipped_tasks<W>(tf: &Taskflow<W>, table: &BranchTable, b: usize) -> (n: usize)
    requires
        tf.wf(),
        skipped_count(tf, branch_table_view(table@), BranchId(b)) <= usize::MAX,
    ensures
        n == skipped_count(tf, branch_table_view(table@), BranchId(b)),
{
    let ghost t = branch_table_view(table@);
    let mut total: usize = 0;
    let mut k: usize = 0;
    while k < table.len()
        invariant
            tf.wf(),
            0 <= k <= table@.len(),
            t == branch_table_view(table@),
            skipped_count(tf, t, BranchId(b)) <= usize::MAX,
            total == skipped_count(tf, t.subrange(0, k as int), BranchId(b)),
        decreases table@.len() - k,
    {
        let ghost pre = t.subrange(0, k as int);
        let ghost post = t.subrange(0, k as int + 1);
        proof {
            assert(post.drop_last() =~= pre);
            lemma_skipped_prefix(tf, t, BranchId(b), k as int + 1);
        }
        if table[k].0.0 != b {
            let c = count_reachable_tasks(tf, table[k].1.as_slice());
            total = total + c;
        }
        k = k + 1;
    }
    proof {
        assert(t.subrange(0, t.len() as int) =~= t);
    }
    total
}

/// Every dependency of `nodes` (whose ids run from `base`) joins two of
/// its tasks and is recorded on both of them, each at most once.
pub open spec fn consistent_links(nodes: Seq<TaskNode>, base: int) -> bool {
    &&& forall|i: int| 0 <= i < nodes.len() ==> (#[trigger] nodes[i]).id == base + i
    &&& forall|i: int| 0 <= i < nodes.len() ==> (#[trigger] nodes[i]).successors@.no_duplicates()
    &&& forall|i: int| 0 <= i < nodes.len() ==> (#[trigger] nodes[i]).dependents@.no_duplicates()
    &&& forall|i: int, x: TaskId| 0 <= i < nodes.len() && #[trigger] nodes[i].successors@.contains(x)
        ==> base <= x < base + nodes.len() && nodes[x - base].dependents@.contains(nodes[i].id)
    &&& forall|i: int, x: TaskId| 0 <= i < nodes.len() && #[trigger] nodes[i].dependents@.contains(x)
        ==> base <= x < base + nodes.len() && nodes[x - base].successors@.contains(nodes[i].id)
}

/// The dependency counts after the tasks of `done` finished in that order,
/// each counting down its successors.
pub open spec fn counts_after(nodes: Seq<TaskNode>, base: usize, done: Seq<TaskId>) -> Seq<usize>
    decreases done.len(),
{
    if done.len() == 0 {
        dep_counts(nodes)
    } else {
        release(counts_after(nodes, base, done.drop_last()), base, nodes[done.last() - base].successors@).0
    }
}

/// How many of `deps` are not in `done`.
pub open spec fn open_count(deps: Seq<TaskId>, done: Seq<TaskId>) -> nat
    decreases deps.len(),
{
    if deps.len() == 0 {
        0
    } else {
        open_count(deps.drop_last(), done) + if done.contains(deps.last()) { 0nat } else { 1nat }
    }
}

proof fn lemma_open_count_bound(deps: Seq<TaskId>, done: Seq<TaskId>)
    ensures
        open_count(deps, done) <= deps.len(),
    decreases deps.len(),
{
    if deps.len() > 0 {
        lemma_open_count_bound(deps.drop_last(), done);
    }
}

proof fn lemma_open_count_all(deps: Seq<TaskId>, done: Seq<TaskId>)
    ensures
        open_count(deps, Seq::empty()) == deps.len(),
        open_count(deps, done) == 0 <==> forall|x: TaskId| deps.contains(x) ==> done.contains(x),
    decreases deps.len(),
{
    if deps.len() > 0 {
        lemma_open_count_all(deps.drop_last(), done);
        if open_count(deps, done) == 0 {
            assert forall|x: TaskId| deps.contains(x) implies done.contains(x) by {
                let k = choose|k: int| 0 <= k < deps.len() && deps[k] == x;
                if k < deps.len() - 1 {
                    assert(deps.drop_last().contains(x));
                }
            }
        }
        if forall|x: TaskId| deps.contains(x) ==> done.contains(x) {
            assert forall|x: TaskId| deps.drop_last().contains(x) implies done.contains(x) by {
                let k = choose|k: int| 0 <= k < deps.drop_last().len() && deps.drop_last()[k] == x;
                assert(deps[k] == x);
            }
            assert(deps.contains(deps.last()));
        }
    }
}

proof fn lemma_open_count_push(deps: Seq<TaskId>, done: Seq<TaskId>, a: TaskId)
    requires
        deps.no_duplicates(),
        !done.contains(a),
    ensures
        open_count(deps, done.push(a)) + (if deps.contains(a) { 1nat } else { 0nat }) == open_count(deps, done),
    decreases deps.len(),
{
    if deps.len() > 0 {
        let dl = deps.drop_last();
        assert(dl.no_duplicates()) by {
            assert forall|i: int, j: int| 0 <= i < dl.len() && 0 <= j < dl.len() && i != j implies dl[i] != dl[j] by {
                assert(deps[i] == dl[i] && deps[j] == dl[j]);
            }
        }
        lemma_open_count_push(dl, done, a);
        let x = deps.last();
        assert(done.push(a).contains(x) == (done.contains(x) || x == a)) by {
            if done.push(a).contains(x) {
                let k = choose|k: int| 0 <= k < done.push(a).len() && done.push(a)[k] == x;
                if k < done.len() {
                    assert(done[k] == x);
                }
            }
            if done.contains(x) {
                let k = choose|k: int| 0 <= k < done.len() && done[k] == x;
                assert(done.push(a)[k] == x);
            }
            if x == a {
                assert(done.push(a)[done.len() as int] == x);
            }
        }
        if x == a {
            assert(!dl.contains(a)) by {
                if dl.contains(a) {
                    let k = choose|k: int| 0 <= k < dl.len() && dl[k] == a;
                    assert(deps[k] == deps[deps.len() - 1]);
                }
            }
        }
        assert(deps.contains(a) == (dl.contains(a) || x == a)) by {
            if deps.contains(a) {
                let k = choose|k: int| 0 <= k < deps.len() && deps[k] == a;
                if k < dl.len() {
                    assert(dl[k] == a);
                }
            }
            if dl.contains(a) {
                let k = choose|k: int| 0 <= k < dl.len() && dl[k] == a;
                assert(deps[k] == a);
            }
        }
    }
}

/// Counting down the successors of one task, each named once and each with
/// a positive count: exactly their counts drop by one, and those that were
/// at one become ready, in the order of the successors.
proof fn lemma_release_distinct(d: Seq<usize>, base: usize, acts: Seq<TaskId>)
    requires
        base + d.len() <= usize::MAX,
        acts.no_duplicates(),
        forall|x: TaskId| #[trigger] acts.contains(x) ==> base <= x < base + d.len() && d[x - base] >= 1,
    ensures
        release(d, base, acts).0.len() == d.len(),
        forall|k: int| 0 <= k < d.len() ==> #[trigger] release(d, base, acts).0[k] == if acts.contains((base + k) as TaskId) {
            d[k] - 1
        } else {
            d[k] as int
        },
        forall|x: TaskId| #[trigger] release(d, base, acts).1.contains(x) <==> acts.contains(x) && d[x - base] == 1,
    decreases acts.len(),
{
    if acts.len() > 0 {
        let dl = acts.drop_last();
        let x = acts.last();
        assert(dl.no_duplicates()) by {
            assert forall|i: int, j: int| 0 <= i < dl.len() && 0 <= j < dl.len() && i != j implies dl[i] != dl[j] by {
                assert(acts[i] == dl[i] && acts[j] == dl[j]);
            }
        }
        assert forall|y: TaskId| #[trigger] dl.contains(y) implies base <= y < base + d.len() && d[y - base] >= 1 by {
            let k = choose|k: int| 0 <= k < dl.len() && dl[k] == y;
            assert(acts[k] == y);
            assert(acts.contains(y));
        }
        lemma_release_distinct(d, base, dl);
        assert(acts.contains(x));
        assert(!dl.contains(x)) by {
            if dl.contains(x) {
                let k = choose|k: int| 0 <= k < dl.len() && dl[k] == x;
                assert(acts[k] == acts[acts.len() - 1]);
            }
        }
        assert forall|y: TaskId| acts.contains(y) == (dl.contains(y) || y == x) by {
            if acts.contains(y) {
                let k = choose|k: int| 0 <= k < acts.len() && acts[k] == y;
                if k < dl.len() {
                    assert(dl[k] == y);
                }
            }
            if dl.contains(y) {
                let k = choose|k: int| 0 <= k < dl.len() && dl[k] == y;
                assert(acts[k] == y);
            }
        }
        let (d1, r1) = release(d, base, dl);
        assert(d1[x - base] == d[x - base]);
        assert forall|k: int| 0 <= k < d.len() implies #[trigger] release(d, base, acts).0[k] == if acts.contains((base + k) as TaskId) {
            d[k] - 1
        } else {
            d[k] as int
        } by {
            if k == x - base {
                assert((base + k) as TaskId == x);
            } else {
                assert((base + k) as TaskId != x);
                assert(release(d, base, acts).0[k] == d1[k]);
            }
        }
        let r = release(d, base, acts).1;
        assert forall|y: TaskId| #[trigger] r.contains(y) <==> acts.contains(y) && d[y - base] == 1 by {
            if d1[x - base] == 1 {
                assert(r == r1.push(x));
                if r.contains(y) {
                    let k = choose|k: int| 0 <= k < r.len() && r[k] == y;
                    if k < r1.len() {
                        assert(r1[k] == y);
                        assert(r1.contains(y));
                    }
                }
                if r1.contains(y) {
                    let k = choose|k: int| 0 <= k < r1.len() && r1[k] == y;
                    assert(r[k] == y);
                }
                if y == x {
                    assert(r[r1.len() as int] == y);
                }
            } else {
                assert(r == r1);
            }
        }
    }
}

/// What a run promises about dependencies: after the tasks of `done`
/// finished (each once, in that order), the count of every task is the
/// number of its dependencies that have not finished.  So a task's count
/// is zero exactly when all it depends on has finished, and a finishing
/// task makes ready exactly those successors whose last unfinished
/// dependency it was.
pub proof fn lemma_counts_track_dependencies(nodes: Seq<TaskNode>, base: usize, done: Seq<TaskId>)
    requires
        consistent_links(nodes, base as int),
        base + nodes.len() <= usize::MAX,
        done.no_duplicates(),
        forall|x: TaskId| #[trigger] done.contains(x) ==> base <= x < base + nodes.len(),
    ensures
        counts_after(nodes, base, done).len() == nodes.len(),
        forall|k: int| 0 <= k < nodes.len() ==> #[trigger] counts_after(nodes, base, done)[k] == open_count(
            nodes[k].dependents@,
            done,
        ),
        forall|k: int| 0 <= k < nodes.len() ==> (#[trigger] counts_after(nodes, base, done)[k] == 0 <==> forall|x: TaskId|
            nodes[k].dependents@.contains(x) ==> done.contains(x)),
    decreases done.len(),
{
    if done.len() == 0 {
        assert forall|k: int| 0 <= k < nodes.len() implies #[trigger] counts_after(nodes, base, done)[k] == open_count(
            nodes[k].dependents@,
            done,
        ) by {
            lemma_open_count_all(nodes[k].dependents@, done);
            assert(done =~= Seq::<TaskId>::empty());
            assert(nodes[k].dependents@.len() <= usize::MAX) by {
                let u = Seq::new(nodes.len(), |i: int| (base + i) as TaskId);
                assert forall|x: TaskId| nodes[k].dependents@.contains(x) implies u.contains(x) by {
                    assert(u[x - base] == x);
                }
                lemma_nodup_len_bound(nodes[k].dependents@, u);
            }
        }
    } else {
        let dl = done.drop_last();
        let a = done.last();
        assert(dl.no_duplicates()) by {
            assert forall|i: int, j: int| 0 <= i < dl.len() && 0 <= j < dl.len() && i != j implies dl[i] != dl[j] by {
                assert(done[i] == dl[i] && done[j] == dl[j]);
            }
        }
        assert forall|x: TaskId| #[trigger] dl.contains(x) implies base <= x < base + nodes.len() by {
            let k = choose|k: int| 0 <= k < dl.len() && dl[k] == x;
            assert(done[k] == x);
            assert(done.contains(x));
        }
        lemma_counts_track_dependencies(nodes, base, dl);
        assert(done.contains(a));
        assert(!dl.contains(a)) by {
            if dl.contains(a) {
                let k = choose|k: int| 0 <= k < dl.len() && dl[k] == a;
                assert(done[k] == done[done.len() - 1]);
            }
        }
        assert(dl.push(a) =~= done);
        let ai = a - base;
        let succ = nodes[ai].successors@;
        let d = counts_after(nodes, base, dl);
        assert forall|x: TaskId| #[trigger] succ.contains(x) implies base <= x < base + d.len() && d[x - base] >= 1 by {
            assert(nodes[ai].id == a);
            assert(nodes[x - base].dependents@.contains(a));
            lemma_open_count_push(nodes[x - base].dependents@, dl, a);
        }
        lemma_release_distinct(d, base, succ);
        assert forall|k: int| 0 <= k < nodes.len() implies #[trigger] counts_after(nodes, base, done)[k] == open_count(
            nodes[k].dependents@,
            done,
        ) by {
            lemma_open_count_push(nodes[k].dependents@, dl, a);
            assert(nodes[k].id == base + k);
            if succ.contains((base + k) as TaskId) {
                assert(nodes[k].dependents@.contains(nodes[ai].id));
            }
            if nodes[k].dependents@.contains(a) {
                assert(nodes[a - base].successors@.contains(nodes[k].id));
            }
        }
    }
    assert forall|k: int| 0 <= k < nodes.len() implies (#[trigger] counts_after(nodes, base, done)[k] == 0 <==> forall|x: TaskId|
        nodes[k].dependents@.contains(x) ==> done.contains(x)) by {
        lemma_open_count_all(nodes[k].dependents@, done);
    }
}

/// When task `a` finishes after the tasks of `done`, the tasks that its
/// count-down makes ready are exactly its successors all of whose
/// dependencies have now finished.
pub proof fn lemma_ready_when_dependencies_finish(nodes: Seq<TaskNode>, base: usize, done: Seq<TaskId>, a: TaskId)
    requires
        consistent_links(nodes, base as int),
        base + nodes.len() <= usize::MAX,
        done.no_duplicates(),
        forall|x: TaskId| #[trigger] done.contains(x) ==> base <= x < base + nodes.len(),
        base <= a < base + nodes.len(),
        !done.contains(a),
    ensures
        forall|x: TaskId| #[trigger] release(counts_after(nodes, base, done), base, nodes[a - base].successors@).1.contains(x)
            <==> nodes[a - base].successors@.contains(x) && forall|y: TaskId| #[trigger] nodes[x - base].dependents@.contains(y)
            ==> done.push(a).contains(y),
{
    lemma_counts_track_dependencies(nodes, base, done);
    let d = counts_after(nodes, base, done);
    let succ = nodes[a - base].successors@;
    assert(nodes[a - base].id == a);
    assert forall|x: TaskId| #[trigger] succ.contains(x) implies base <= x < base + d.len() && d[x - base] >= 1 by {
        assert(nodes[x - base].dependents@.contains(a));
        lemma_open_count_push(nodes[x - base].dependents@, done, a);
    }
    lemma_release_distinct(d, base, succ);
    assert forall|x: TaskId| #[trigger] release(d, base, succ).1.contains(x)
        <==> succ.contains(x) && forall|y: TaskId| #[trigger] nodes[x - base].dependents@.contains(y) ==> done.push(a).contains(y) by {
        if succ.contains(x) {
            assert(nodes[x - base].dependents@.contains(a));
            lemma_open_count_push(nodes[x - base].dependents@, done, a);
            lemma_open_count_all(nodes[x - base].dependents@, done.push(a));
        }
    }
}

/// `new` is `old` with the dependency `from -> to` recorded, as
/// `Taskflow::add_edge` (and so `precede` and `succeed`) records it.
pub open spec fn edge_recorded(old: Seq<TaskNode>, new: Seq<TaskNode>, from: TaskId, to: TaskId) -> bool {
    &&& new.len() == old.len()
    &&& forall|i: int| 0 <= i < old.len() ==> #[trigger] new[i].id == old[i].id
    &&& forall|i: int| 0 <= i < old.len() ==> (#[trigger] new[i]).successors@ == if old[i].id == from {
        set_add(old[i].successors@, to)
    } else {
        old[i].successors@
    }
    &&& forall|i: int| 0 <= i < old.len() ==> (#[trigger] new[i]).dependents@ == if old[i].id == to {
        set_add(old[i].dependents@, from)
    } else {
        old[i].dependents@
    }
}

/// Recording a dependency between two tasks of a consistent graph keeps
/// it consistent: every dependency still joins two of its tasks and is
/// recorded on both.
pub proof fn lemma_edge_keeps_links_consistent(old: Seq<TaskNode>, new: Seq<TaskNode>, base: int, from: TaskId, to: TaskId)
    requires
        consistent_links(old, base),
        base <= from < base + old.len(),
        base <= to < base + old.len(),
        edge_recorded(old, new, from, to),
    ensures
        consistent_links(new, base),
{
    assert forall|i: int| 0 <= i < new.len() implies (#[trigger] new[i]).successors@.no_duplicates() by {
        let s = old[i].successors@;
        if old[i].id == from && !s.contains(to) {
            assert forall|a: int, b: int| 0 <= a < s.push(to).len() && 0 <= b < s.push(to).len() && a != b implies s.push(to)[a] != s.push(to)[b] by {
                if a < s.len() && b < s.len() {
                    assert(s.push(to)[a] == s[a] && s.push(to)[b] == s[b]);
                } else if a < s.len() {
                    assert(s.push(to)[a] == s[a]);
                    assert(s.contains(s[a]));
                } else if b < s.len() {
                    assert(s.push(to)[b] == s[b]);
                    assert(s.contains(s[b]));
                }
            }
        }
    }
    assert forall|i: int| 0 <= i < new.len() implies (#[trigger] new[i]).dependents@.no_duplicates() by {
        let s = old[i].dependents@;
        if old[i].id == to && !s.contains(from) {
            assert forall|a: int, b: int| 0 <= a < s.push(from).len() && 0 <= b < s.push(from).len() && a != b implies s.push(from)[a] != s.push(from)[b] by {
                if a < s.len() && b < s.len() {
                    assert(s.push(from)[a] == s[a] && s.push(from)[b] == s[b]);
                } else if a < s.len() {
                    assert(s.push(from)[a] == s[a]);
                    assert(s.contains(s[a]));
                } else if b < s.len() {
                    assert(s.push(from)[b] == s[b]);
                    assert(s.contains(s[b]));
                }
            }
        }
    }
    assert forall|i: int, x: TaskId| 0 <= i < new.len() && #[trigger] new[i].successors@.contains(x)
        implies base <= x < base + new.len() && new[x - base].dependents@.contains(new[i].id) by {
        let s = old[i].successors@;
        if old[i].id == from && x == to {
            assert(old[to - base].id == to);
            let d = old[to - base].dependents@;
            if !d.contains(from) {
                assert(d.push(from)[d.len() as int] == from);
            }
        } else {
            assert(s.contains(x)) by {
                if old[i].id == from && !s.contains(to) {
                    let k = choose|k: int| 0 <= k < s.push(to).len() && s.push(to)[k] == x;
                    assert(k < s.len());
                    assert(s[k] == x);
                }
            }
            assert(old[x - base].dependents@.contains(old[i].id));
            let d = old[x - base].dependents@;
            if old[x - base].id == to && !d.contains(from) {
                let k = choose|k: int| 0 <= k < d.len() && d[k] == old[i].id;
                assert(d.push(from)[k] == old[i].id);
            }
        }
    }
    assert forall|i: int, x: TaskId| 0 <= i < new.len() && #[trigger] new[i].dependents@.contains(x)
        implies base <= x < base + new.len() && new[x - base].successors@.contains(new[i].id) by {
        let s = old[i].dependents@;
        if old[i].id == to && x == from {
            assert(old[from - base].id == from);
            let d = old[from - base].successors@;
            if !d.contains(to) {
                assert(d.push(to)[d.len() as int] == to);
            }
        } else {
            assert(s.contains(x)) by {
                if old[i].id == to && !s.contains(from) {
                    let k = choose|k: int| 0 <= k < s.push(from).len() && s.push(from)[k] == x;
                    assert(k < s.len());
                    assert(s[k] == x);
                }
            }
            assert(old[x - base].successors@.contains(old[i].id));
            let d = old[x - base].successors@;
            if old[x - base].id == from && !d.contains(to) {
                let k = choose|k: int| 0 <= k < d.len() && d[k] == old[i].id;
                assert(d.push(to)[k] == old[i].id);
            }
        }
    }
}

/// Adding a task with no dependencies keeps a graph consistent.
pub proof fn lemma_new_task_keeps_links_consistent(old: Seq<TaskNode>, n: TaskNode, base: int)
    requires
        consistent_links(old, base),
        n.id == base + old.len(),
        n.successors@.len() == 0,
        n.dependents@.len() == 0,
    ensures
        consistent_links(old.push(n), base),
{
    let new = old.push(n);
    assert forall|i: int, x: TaskId| 0 <= i < new.len() && #[trigger] new[i].successors@.contains(x)
        implies base <= x < base + new.len() && new[x - base].dependents@.contains(new[i].id) by {
        assert(i < old.len());
        assert(new[x - base] == old[x - base]);
    }
    assert forall|i: int, x: TaskId| 0 <= i < new.len() && #[trigger] new[i].dependents@.contains(x)
        implies base <= x < base + new.len() && new[x - base].successors@.contains(new[i].id) by {
        assert(i < old.len());
        assert(new[x - base] == old[x - base]);
    }
}

} // verus!
