//! Pluggable scheduling policies: first-in-first-out, priority order and
//! round-robin over per-worker queues.

use std::collections::VecDeque;
use vstd::prelude::*;

use crate::advanced::Priority;
use crate::dynamic_priority::DynamicPriorityScheduler;

verus! {

/// A queue of ready task ids with a policy for the next one to run.
pub trait Scheduler {
    /// The scheduler's internal consistency.
    spec fn well_formed(&self) -> bool;

    /// One more task can be queued.
    spec fn has_room(&self) -> bool;

    /// Number of queued tasks.
    spec fn size(&self) -> nat;

    /// Adds a task.
    fn push(&mut self, task_id: usize, priority: Priority)
        requires
            old(self).well_formed(),
            old(self).has_room(),
        ensures
            final(self).well_formed(),
            final(self).size() == old(self).size() + 1,
    ;

    /// Takes the next task to run; `None` exactly when nothing is queued.
    fn pop(&mut self) -> (r: Option<usize>)
        requires
            old(self).well_formed(),
        ensures
            final(self).well_formed(),
            r is None <==> old(self).size() == 0,
            r is None ==> final(self).size() == 0,
            r is Some ==> final(self).size() + 1 == old(self).size(),
    ;

    /// `true` when nothing is queued.
    fn is_empty(&self) -> (b: bool)
        requires
            self.well_formed(),
        ensures
            b == (self.size() == 0),
    ;

    /// Number of queued tasks.
    fn len(&self) -> (n: usize)
        requires
            self.well_formed(),
        ensures
            n == self.size(),
    ;
}

/// Runs tasks in the order they were pushed; priorities are ignored.
pub struct FifoScheduler {
    queue: VecDeque<usize>,
}

impl View for FifoScheduler {
    type V = Seq<usize>;

    /// The queued task ids, oldest first.
    closed spec fn view(&self) -> Seq<usize> {
        self.queue@
    }
}

impl FifoScheduler {
    /// An empty queue.
    pub fn new() -> (s: Self)
        ensures
            s@ == Seq::<usize>::empty(),
    {
        FifoScheduler { queue: VecDeque::new() }
    }

    /// Appends a task; the priority does not matter to this policy.
    pub fn push_task(&mut self, task_id: usize, _priority: Priority)
        ensures
            final(self)@ == old(self)@.push(task_id),
    {
        self.queue.push_back(task_id);
    }

    /// Takes the oldest task.
    pub fn pop_task(&mut self) -> (r: Option<usize>)
        ensures
            old(self)@.len() == 0 ==> r is None && final(self)@ == old(self)@,
            old(self)@.len() > 0 ==> r == Some(old(self)@[0]) && final(self)@ == old(self)@.drop_first(),
    {
        let r = self.queue.pop_front();
        proof {
            if old(self)@.len() > 0 {
                assert(self.queue@ =~= old(self)@.drop_first());
            }
        }
        r
    }

    /// Number of queued tasks.
    pub fn task_count(&self) -> (n: usize)
        ensures
            n == self@.len(),
    {
        self.queue.len()
    }
}

impl Default for FifoScheduler {
    fn default() -> (s: Self)
        ensures
            s@ == Seq::<usize>::empty(),
    {
        FifoScheduler::new()
    }
}

impl Scheduler for FifoScheduler {
    open spec fn well_formed(&self) -> bool {
        true
    }

    open spec fn has_room(&self) -> bool {
        true
    }

    open spec fn size(&self) -> nat {
        self@.len()
    }

    fn push(&mut self, task_id: usize, priority: Priority) {
        self.push_task(task_id, priority);
    }

    fn pop(&mut self) -> (r: Option<usize>) {
        self.pop_task()
    }

    fn is_empty(&self) -> (b: bool) {
        self.task_count() == 0
    }

    fn len(&self) -> (n: usize) {
        self.task_count()
    }
}

/// A queued task of the priority policy.
#[derive(Debug, Clone, Copy, PartialEq, Eq, Structural)]
pub struct PriorityTask {
    pub task_id: usize,
    pub priority: Priority,
    pub insertion_order: usize,
}

/// `a` is at least as urgent as `b`: a higher priority, or the same
/// priority and an insertion order no later than `b`'s.
pub open spec fn at_least_as_urgent(a: PriorityTask, b: PriorityTask) -> bool {
    a.priority.level() > b.priority.level() || (a.priority.level() == b.priority.level()
        && a.insertion_order <= b.insertion_order)
}

/// Runs the highest priority first; among equal priorities, the smallest
/// insertion order first.  A task's insertion order is the number of tasks
/// queued when it was pushed, so after pops two tasks may share one; which
/// of two such tasks runs first is left open.
pub struct PriorityScheduler {
    heap: Vec<PriorityTask>,
}

impl View for PriorityScheduler {
    type V = Seq<PriorityTask>;

    /// The queued tasks, in no particular order.
    closed spec fn view(&self) -> Seq<PriorityTask> {
        self.heap@
    }
}

impl PriorityScheduler {
    /// An empty queue.
    pub fn new() -> (s: Self)
        ensures
            s@ == Seq::<PriorityTask>::empty(),
    {
        PriorityScheduler { heap: Vec::new() }
    }

    /// The insertion order that the next push receives: the number of
    /// queued tasks.
    fn next_insertion_order(&self) -> (n: usize)
        ensures
            n == self@.len(),
    {
        self.heap.len()
    }

    /// Queues a task with its priority.
    pub fn push_task(&mut self, task_id: usize, priority: Priority)
        ensures
            final(self)@ == old(self)@.push(
                PriorityTask { task_id, priority, insertion_order: old(self)@.len() as usize },
            ),
    {
        let insertion_order = self.next_insertion_order();
        self.heap.push(PriorityTask { task_id, priority, insertion_order });
    }

    /// Takes a most urgent task.
    pub fn pop_task(&mut self) -> (r: Option<usize>)
        ensures
            old(self)@.len() == 0 ==> r is None && final(self)@ == old(self)@,
            old(self)@.len() > 0 ==> exists|k: int|
                0 <= k < old(self)@.len() && r == Some(old(self)@[k].task_id) && final(self)@
                    == old(self)@.remove(k) && forall|j: int|
                    0 <= j < old(self)@.len() ==> #[trigger] at_least_as_urgent(
                        old(self)@[k],
                        old(self)@[j],
                    ),
    {
        if self.heap.len() == 0 {
            return None;
        }
        let mut best: usize = 0;
        let mut i: usize = 1;
        while i < self.heap.len()
            invariant
                1 <= i <= self.heap@.len(),
                best < i,
                self.heap@ == old(self)@,
                forall|j: int| 0 <= j < i ==> #[trigger] at_least_as_urgent(self.heap@[best as int], self.heap@[j]),
            decreases self.heap@.len() - i,
        {
            let cand = self.heap[i];
            let cur = self.heap[best];
            let lc = cand.priority.value();
            let lb = cur.priority.value();
            if lc > lb || (lc == lb && cand.insertion_order < cur.insertion_order) {
                proof {
                    assert forall|j: int| 0 <= j < i implies #[trigger] at_least_as_urgent(self.heap@[i as int], self.heap@[j]) by {
                        assert(at_least_as_urgent(self.heap@[best as int], self.heap@[j]));
                    }
                }
                best = i;
            }
            i = i + 1;
        }
        let t = self.heap.remove(best);
        Some(t.task_id)
    }

    /// Number of queued tasks.
    pub fn task_count(&self) -> (n: usize)
        ensures
            n == self@.len(),
    {
        self.heap.len()
    }
}

impl Default for PriorityScheduler {
    fn default() -> (s: Self)
        ensures
            s@ == Seq::<PriorityTask>::empty(),
    {
        PriorityScheduler::new()
    }
}

impl Scheduler for PriorityScheduler {
    open spec fn well_formed(&self) -> bool {
        true
    }

    open spec fn has_room(&self) -> bool {
        self@.len() < usize::MAX
    }

    open spec fn size(&self) -> nat {
        self@.len()
    }

    fn push(&mut self, task_id: usize, priority: Priority) {
        self.push_task(task_id, priority);
    }

    fn pop(&mut self) -> (r: Option<usize>) {
        self.pop_task()
    }

    fn is_empty(&self) -> (b: bool) {
        self.task_count() == 0
    }

    fn len(&self) -> (n: usize) {
        self.task_count()
    }
}

/// Total number of task ids held by the queues.
pub open spec fn total_len(qs: Seq<Seq<usize>>) -> nat
    decreases qs.len(),
{
    if qs.len() == 0 {
        0
    } else {
        total_len(qs.drop_last()) + qs.last().len()
    }
}

proof fn lemma_total_len_update(qs: Seq<Seq<usize>>, i: int, q: Seq<usize>)
    requires
        0 <= i < qs.len(),
    ensures
        total_len(qs.update(i, q)) + qs[i].len() == total_len(qs) + q.len(),
    decreases qs.len(),
{
    if i < qs.len() - 1 {
        lemma_total_len_update(qs.drop_last(), i, q);
        assert(qs.update(i, q).drop_last() =~= qs.drop_last().update(i, q));
    } else {
        assert(qs.update(i, q).drop_last() =~= qs.drop_last());
    }
}

proof fn lemma_total_len_zero(qs: Seq<Seq<usize>>)
    ensures
        total_len(qs) == 0 <==> forall|i: int| 0 <= i < qs.len() ==> #[trigger] qs[i].len() == 0,
    decreases qs.len(),
{
    if qs.len() > 0 {
        lemma_total_len_zero(qs.drop_last());
        if total_len(qs) == 0 {
            assert forall|i: int| 0 <= i < qs.len() implies #[trigger] qs[i].len() == 0 by {
                if i < qs.len() - 1 {
                    assert(qs.drop_last()[i] == qs[i]);
                }
            }
        }
        if forall|i: int| 0 <= i < qs.len() ==> #[trigger] qs[i].len() == 0 {
            assert forall|i: int| 0 <= i < qs.drop_last().len() implies #[trigger] qs.drop_last()[i].len() == 0 by {
                assert(qs[i].len() == 0);
            }
        }
    }
}

/// Spreads tasks over per-worker queues in turn and takes them back in turn.
pub struct RoundRobinScheduler {
    queues: Vec<VecDeque<usize>>,
    current: usize,
}

impl RoundRobinScheduler {
    /// The contents of each queue.
    pub closed spec fn queue_contents(&self) -> Seq<Seq<usize>> {
        self.queues@.map_values(|q: VecDeque<usize>| q@)
    }

    /// The queue that the next push or pop visits first.
    pub closed spec fn cursor(&self) -> usize {
        self.current
    }

    /// Internal consistency: the cursor points at a queue.
    pub closed spec fn wf(&self) -> bool {
        self.queues@.len() > 0 ==> self.current < self.queues@.len()
    }

    /// One queue per worker, all empty.
    pub fn new(num_workers: usize) -> (s: Self)
        ensures
            s.wf(),
            s.queue_contents().len() == num_workers,
            forall|i: int| 0 <= i < num_workers ==> #[trigger] s.queue_contents()[i] == Seq::<usize>::empty(),
            s.cursor() == 0,
    {
        let mut queues: Vec<VecDeque<usize>> = Vec::new();
        let mut i: usize = 0;
        while i < num_workers
            invariant
                0 <= i <= num_workers,
                queues@.len() == i,
                forall|j: int| 0 <= j < i ==> (#[trigger] queues@[j])@ == Seq::<usize>::empty(),
            decreases num_workers - i,
        {
            queues.push(VecDeque::new());
            i = i + 1;
        }
        let s = RoundRobinScheduler { queues, current: 0 };
        assert forall|i: int| 0 <= i < num_workers implies #[trigger] s.queue_contents()[i] == Seq::<usize>::empty() by {
            assert(s.queues@[i]@ == Seq::<usize>::empty());
        }
        s
    }

    /// Appends the task to the queue under the cursor and moves the cursor on.
    pub fn push_task(&mut self, task_id: usize, _priority: Priority)
        requires
            old(self).wf(),
            old(self).queue_contents().len() > 0,
        ensures
            final(self).wf(),
            final(self).queue_contents() == old(self).queue_contents().update(
                old(self).cursor() as int,
                old(self).queue_contents()[old(self).cursor() as int].push(task_id),
            ),
            final(self).cursor() == (old(self).cursor() + 1) % (old(self).queue_contents().len() as int),
    {
        let n = self.queues.len();
        proof {
            lemma_wrap(self.current as int, n as int);
        }
        let idx = self.current % n;
        self.queues[idx].push_back(task_id);
        self.current = (self.current + 1) % n;
        proof {
            lemma_wrap(old(self).current as int + 1, n as int);
            let nq = self.queue_contents();
            let oq = old(self).queue_contents();
            assert forall|j: int| 0 <= j < n implies #[trigger] nq[j] == oq.update(idx as int, oq[idx as int].push(task_id))[j] by {
                if j != idx {
                    assert(self.queues@[j] == old(self).queues@[j]);
                }
            }
            assert(nq =~= oq.update(idx as int, oq[idx as int].push(task_id)));
        }
    }

    fn pop_front_of(&mut self, i: usize) -> (r: Option<usize>)
        requires
            i < old(self).queues@.len(),
        ensures
            final(self).current == old(self).current,
            final(self).queues@.len() == old(self).queues@.len(),
            forall|j: int| 0 <= j < old(self).queues@.len() && j != i ==> final(self).queues@[j] == old(self).queues@[j],
            old(self).queues@[i as int]@.len() == 0 ==> r is None && final(self).queues@[i as int]@ == old(self).queues@[i as int]@,
            old(self).queues@[i as int]@.len() > 0 ==> r == Some(old(self).queues@[i as int]@[0])
                && final(self).queues@[i as int]@ == old(self).queues@[i as int]@.drop_first(),
    {
        let r = self.queues[i].pop_front();
        proof {
            if old(self).queues@[i as int]@.len() > 0 {
                assert(self.queues@[i as int]@ =~= old(self).queues@[i as int]@.drop_first());
            }
        }
        r
    }

    /// Visits the queues in turn from the cursor and takes the oldest task
    /// of the first non-empty one; the cursor ends just past the queue it
    /// took from, or back where it started when all queues are empty.
    pub fn pop_task(&mut self) -> (r: Option<usize>)
        requires
            old(self).wf(),
        ensures
            final(self).wf(),
            final(self).queue_contents().len() == old(self).queue_contents().len(),
            r is None <==> forall|i: int| 0 <= i < old(self).queue_contents().len() ==> #[trigger] old(self).queue_contents()[i].len() == 0,
            r is None ==> final(self).queue_contents() == old(self).queue_contents(),
            r is Some ==> exists|k: int|
                0 <= k < old(self).queue_contents().len()
                    && old(self).queue_contents()[k].len() > 0
                    && r == Some(old(self).queue_contents()[k][0])
                    && final(self).queue_contents() == old(self).queue_contents().update(k, old(self).queue_contents()[k].drop_first())
                    && final(self).cursor() == (k + 1) % (old(self).queue_contents().len() as int)
                    && forall|d: int| 0 <= d < (k - old(self).cursor() + old(self).queue_contents().len()) % (old(self).queue_contents().len() as int)
                        ==> #[trigger] old(self).queue_contents()[(old(self).cursor() + d) % (old(self).queue_contents().len() as int)].len() == 0,
    {
        let n = self.queues.len();
        let ghost start = self.current as int;
        let ghost qc = self.queue_contents();
        proof {
            if n > 0 {
                lemma_wrap(start, n as int);
            }
        }
        let mut step: usize = 0;
        while step < n
            invariant
                n == self.queues@.len(),
                qc.len() == n,
                qc == old(self).queue_contents(),
                start == old(self).current as int,
                0 <= step <= n,
                n > 0 ==> self.current as int == (start + step) % (n as int),
                n > 0 ==> 0 <= start < n,
                self.queue_contents() == qc,
                self.wf(),
                forall|d: int| 0 <= d < step ==> #[trigger] qc[(start + d) % (n as int)].len() == 0,
            decreases n - step,
        {
            proof {
                lemma_wrap(start + step, n as int);
                lemma_wrap(start + step + 1, n as int);
            }
            let cur = self.current;
            let ghost before = self.queues@;
            let r = self.pop_front_of(cur);
            match r {
                Some(task_id) => {
                    proof {
                        lemma_wrap(cur as int + 1, n as int);
                        lemma_wrap(cur as int - start + n, n as int);
                    }
                    self.current = (self.current + 1) % n;
                    proof {
                        let nq = self.queue_contents();
                        assert(qc[cur as int].len() > 0);
                        assert(qc[cur as int][0] == task_id);
                        assert forall|j: int| 0 <= j < n implies #[trigger] nq[j] == qc.update(cur as int, qc[cur as int].drop_first())[j] by {
                            if j != cur {
                                assert(self.queues@[j] == before[j]);
                            } else {
                                assert(nq[j] =~= qc[cur as int].drop_first());
                            }
                        }
                        assert(nq =~= qc.update(cur as int, qc[cur as int].drop_first()));
                        assert((cur as int - start + n) % (n as int) == step as int);
                    }
                    return Some(task_id);
                },
                None => {
                    proof {
                        let nq = self.queue_contents();
                        assert forall|j: int| 0 <= j < n implies #[trigger] nq[j] == qc[j] by {
                            if j != cur {
                                assert(self.queues@[j] == before[j]);
                            }
                        }
                        assert(nq =~= qc);
                        assert(qc[(start + step) % (n as int)].len() == 0);
                        lemma_wrap(cur as int + 1, n as int);
                    }
                    self.current = (self.current + 1) % n;
                    step = step + 1;
                },
            }
        }
        proof {
            assert forall|i: int| 0 <= i < qc.len() implies #[trigger] qc[i].len() == 0 by {
                lemma_wrap(i - start + n, n as int);
                let d = (i - start + n) % (n as int);
                lemma_wrap(start + d, n as int);
                assert(qc[(start + d) % (n as int)].len() == 0);
            }
        }
        None
    }

    /// Total number of queued tasks.
    pub fn task_count(&self) -> (n: usize)
        requires
            total_len(self.queue_contents()) <= usize::MAX,
        ensures
            n == total_len(self.queue_contents()),
    {
        let mut sum: usize = 0;
        let mut i: usize = 0;
        while i < self.queues.len()
            invariant
                0 <= i <= self.queues@.len(),
                total_len(self.queue_contents()) <= usize::MAX,
                sum == total_len(self.queue_contents().subrange(0, i as int)),
            decreases self.queues@.len() - i,
        {
            proof {
                let qs = self.queue_contents();
                assert(qs.subrange(0, i as int + 1).drop_last() =~= qs.subrange(0, i as int));
                lemma_total_len_prefix(qs, i as int + 1);
            }
            sum = sum + self.queues[i].len();
            i = i + 1;
        }
        assert(self.queue_contents().subrange(0, i as int) =~= self.queue_contents());
        sum
    }

    /// `true` when every queue is empty.
    pub fn all_empty(&self) -> (b: bool)
        ensures
            b == forall|i: int| 0 <= i < self.queue_contents().len() ==> #[trigger] self.queue_contents()[i].len() == 0,
    {
        let mut i: usize = 0;
        while i < self.queues.len()
            invariant
                0 <= i <= self.queues@.len(),
                forall|j: int| 0 <= j < i ==> #[trigger] self.queue_contents()[j].len() == 0,
            decreases self.queues@.len() - i,
        {
            if self.queues[i].len() > 0 {
                assert(self.queue_contents()[i as int].len() > 0);
                return false;
            }
            i = i + 1;
        }
        true
    }
}

proof fn lemma_wrap(a: int, n: int)
    requires
        0 <= a < 2 * n,
        n > 0,
    ensures
        a % n == if a < n { a } else { a - n },
{
    if a < n {
        vstd::arithmetic::div_mod::lemma_small_mod(a as nat, n as nat);
    } else {
        vstd::arithmetic::div_mod::lemma_small_mod((a - n) as nat, n as nat);
        vstd::arithmetic::div_mod::lemma_mod_add_multiples_vanish(a - n, n);
    }
}

proof fn lemma_total_len_prefix(qs: Seq<Seq<usize>>, k: int)
    requires
        0 <= k <= qs.len(),
    ensures
        total_len(qs.subrange(0, k)) <= total_len(qs),
    decreases qs.len() - k,
{
    if k < qs.len() {
        lemma_total_len_prefix(qs, k + 1);
        assert(qs.subrange(0, k + 1).drop_last() =~= qs.subrange(0, k));
    } else {
        assert(qs.subrange(0, k) =~= qs);
    }
}

impl Scheduler for RoundRobinScheduler {
    open spec fn well_formed(&self) -> bool {
        self.wf() && total_len(self.queue_contents()) <= usize::MAX
    }

    open spec fn has_room(&self) -> bool {
        self.queue_contents().len() > 0 && total_len(self.queue_contents()) < usize::MAX
    }

    open spec fn size(&self) -> nat {
        total_len(self.queue_contents())
    }

    fn push(&mut self, task_id: usize, priority: Priority) {
        let ghost qc = self.queue_contents();
        let ghost c = self.cursor() as int;
        self.push_task(task_id, priority);
        proof {
            lemma_total_len_update(qc, c, qc[c].push(task_id));
        }
    }

    fn pop(&mut self) -> (r: Option<usize>) {
        let ghost qc = self.queue_contents();
        proof {
            lemma_total_len_zero(qc);
        }
        let r = self.pop_task();
        proof {
            if r is Some {
                let k = choose|k: int|
                    0 <= k < qc.len() && qc[k].len() > 0 && r == Some(qc[k][0])
                        && self.queue_contents() == qc.update(k, qc[k].drop_first())
                        && self.cursor() == (k + 1) % (qc.len() as int)
                        && forall|d: int| 0 <= d < (k - old(self).cursor() + qc.len()) % (qc.len() as int)
                            ==> #[trigger] qc[(old(self).cursor() + d) % (qc.len() as int)].len() == 0;
                lemma_total_len_update(qc, k, qc[k].drop_first());
            }
        }
        r
    }

    fn is_empty(&self) -> (b: bool) {
        proof {
            lemma_total_len_zero(self.queue_contents());
        }
        self.all_empty()
    }

    fn len(&self) -> (n: usize) {
        self.task_count()
    }
}

impl Scheduler for DynamicPriorityScheduler {
    open spec fn well_formed(&self) -> bool {
        self.wf()
    }

    open spec fn has_room(&self) -> bool {
        self.next_seq() < u64::MAX
    }

    open spec fn size(&self) -> nat {
        self@.len()
    }

    fn push(&mut self, task_id: usize, priority: Priority) {
        self.push_inner(task_id, priority);
    }

    fn pop(&mut self) -> (r: Option<usize>) {
        DynamicPriorityScheduler::pop(self)
    }

    fn is_empty(&self) -> (b: bool) {
        DynamicPriorityScheduler::is_empty(self)
    }

    fn len(&self) -> (n: usize) {
        DynamicPriorityScheduler::len(self)
    }
}

} // verus!
