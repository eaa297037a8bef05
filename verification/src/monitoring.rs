//! Run counters: tasks completed, stolen and failed, time spent in tasks,
//! and each worker's busy and idle time.  Times are nanoseconds; counters
//! wrap around as machine counters do.

use vstd::prelude::*;

verus! {

/// `x + y` as `u64` arithmetic wraps it.
pub open spec fn wadd64(x: u64, y: u64) -> u64 {
    if x + y > u64::MAX {
        (x + y - u64::MAX - 1) as u64
    } else {
        (x + y) as u64
    }
}

/// `x + 1` as `usize` arithmetic wraps it.
pub open spec fn winc(x: usize) -> usize {
    if x == usize::MAX {
        0
    } else {
        (x + 1) as usize
    }
}

/// Counters of one run.
pub struct PerformanceMetrics {
    tasks_completed: usize,
    tasks_stolen: usize,
    tasks_failed: usize,
    total_execution_time_ns: u64,
    total_wait_time_ns: u64,
    num_workers: usize,
    worker_idle_time_ns: Vec<u64>,
    worker_busy_time_ns: Vec<u64>,
    start_time: Option<u128>,
}

impl PerformanceMetrics {
    /// Tasks completed.
    pub closed spec fn completed(&self) -> usize {
        self.tasks_completed
    }

    /// Tasks taken from another worker's queue.
    pub closed spec fn stolen(&self) -> usize {
        self.tasks_stolen
    }

    /// Tasks that failed.
    pub closed spec fn failed(&self) -> usize {
        self.tasks_failed
    }

    /// Time spent in completed tasks.
    pub closed spec fn execution_ns(&self) -> u64 {
        self.total_execution_time_ns
    }

    /// The number of workers counted.
    pub closed spec fn workers(&self) -> usize {
        self.num_workers
    }

    /// Idle time of each worker.
    pub closed spec fn idle_ns(&self) -> Seq<u64> {
        self.worker_idle_time_ns@
    }

    /// Busy time of each worker.
    pub closed spec fn busy_ns(&self) -> Seq<u64> {
        self.worker_busy_time_ns@
    }

    /// When the run started, if it was marked.
    pub closed spec fn started_at(&self) -> Option<u128> {
        self.start_time
    }

    /// Internal consistency: one idle and one busy time per worker.
    pub closed spec fn wf(&self) -> bool {
        &&& self.worker_idle_time_ns@.len() == self.num_workers
        &&& self.worker_busy_time_ns@.len() == self.num_workers
    }

    /// All counters zero, for `num_workers` workers.
    pub fn new(num_workers: usize) -> (m: Self)
        ensures
            m.wf(),
            m.workers() == num_workers,
            m.completed() == 0,
            m.stolen() == 0,
            m.failed() == 0,
            m.execution_ns() == 0,
            m.idle_ns() == Seq::new(num_workers as nat, |i: int| 0u64),
            m.busy_ns() == Seq::new(num_workers as nat, |i: int| 0u64),
            m.started_at() is None,
    {
        let mut idle: Vec<u64> = Vec::new();
        let mut busy: Vec<u64> = Vec::new();
        let mut k: usize = 0;
        while k < num_workers
            invariant
                0 <= k <= num_workers,
                idle@ == Seq::new(k as nat, |i: int| 0u64),
                busy@ == Seq::new(k as nat, |i: int| 0u64),
            decreases num_workers - k,
        {
            idle.push(0);
            busy.push(0);
            proof {
                assert(idle@ =~= Seq::new((k + 1) as nat, |i: int| 0u64));
                assert(busy@ =~= Seq::new((k + 1) as nat, |i: int| 0u64));
            }
            k = k + 1;
        }
        PerformanceMetrics {
            tasks_completed: 0,
            tasks_stolen: 0,
            tasks_failed: 0,
            total_execution_time_ns: 0,
            total_wait_time_ns: 0,
            num_workers,
            worker_idle_time_ns: idle,
            worker_busy_time_ns: busy,
            start_time: None,
        }
    }

    /// Marks the start of the run at `now_ns`.
    pub fn start(&mut self, now_ns: u128)
        ensures
            final(self).started_at() == Some(now_ns),
            final(self).wf() == old(self).wf(),
            final(self).workers() == old(self).workers(),
            final(self).completed() == old(self).completed(),
            final(self).stolen() == old(self).stolen(),
            final(self).failed() == old(self).failed(),
            final(self).execution_ns() == old(self).execution_ns(),
            final(self).idle_ns() == old(self).idle_ns(),
            final(self).busy_ns() == old(self).busy_ns(),
    {
        self.start_time = Some(now_ns);
    }

    /// Counts a completed task that ran `duration_ns`.
    pub fn record_task_completion(&mut self, duration_ns: u64)
        ensures
            final(self).completed() == winc(old(self).completed()),
            final(self).execution_ns() == wadd64(old(self).execution_ns(), duration_ns),
            final(self).wf() == old(self).wf(),
            final(self).workers() == old(self).workers(),
            final(self).stolen() == old(self).stolen(),
            final(self).failed() == old(self).failed(),
            final(self).idle_ns() == old(self).idle_ns(),
            final(self).busy_ns() == old(self).busy_ns(),
            final(self).started_at() == old(self).started_at(),
    {
        self.tasks_completed = self.tasks_completed.wrapping_add(1);
        self.total_execution_time_ns = self.total_execution_time_ns.wrapping_add(duration_ns);
    }

    /// Counts a task taken from another worker.
    pub fn record_task_steal(&mut self)
        ensures
            final(self).stolen() == winc(old(self).stolen()),
            final(self).wf() == old(self).wf(),
            final(self).workers() == old(self).workers(),
            final(self).completed() == old(self).completed(),
            final(self).failed() == old(self).failed(),
            final(self).execution_ns() == old(self).execution_ns(),
            final(self).idle_ns() == old(self).idle_ns(),
            final(self).busy_ns() == old(self).busy_ns(),
            final(self).started_at() == old(self).started_at(),
    {
        self.tasks_stolen = self.tasks_stolen.wrapping_add(1);
    }

    /// Counts a failed task.
    pub fn record_task_failure(&mut self)
        ensures
            final(self).failed() == winc(old(self).failed()),
            final(self).wf() == old(self).wf(),
            final(self).workers() == old(self).workers(),
            final(self).completed() == old(self).completed(),
            final(self).stolen() == old(self).stolen(),
            final(self).execution_ns() == old(self).execution_ns(),
            final(self).idle_ns() == old(self).idle_ns(),
            final(self).busy_ns() == old(self).busy_ns(),
            final(self).started_at() == old(self).started_at(),
    {
        self.tasks_failed = self.tasks_failed.wrapping_add(1);
    }

    /// Adds idle time to a worker; other worker ids are ignored.
    pub fn record_worker_idle(&mut self, worker_id: usize, duration_ns: u64)
        requires
            old(self).wf(),
        ensures
            final(self).wf(),
            final(self).idle_ns() == if worker_id < old(self).workers() {
                old(self).idle_ns().update(worker_id as int, wadd64(old(self).idle_ns()[worker_id as int], duration_ns))
            } else {
                old(self).idle_ns()
            },
            final(self).workers() == old(self).workers(),
            final(self).completed() == old(self).completed(),
            final(self).stolen() == old(self).stolen(),
            final(self).failed() == old(self).failed(),
            final(self).execution_ns() == old(self).execution_ns(),
            final(self).busy_ns() == old(self).busy_ns(),
            final(self).started_at() == old(self).started_at(),
    {
        if worker_id < self.num_workers {
            let v = self.worker_idle_time_ns[worker_id].wrapping_add(duration_ns);
            self.worker_idle_time_ns.set(worker_id, v);
        }
    }

    /// Adds busy time to a worker; other worker ids are ignored.
    pub fn record_worker_busy(&mut self, worker_id: usize, duration_ns: u64)
        requires
            old(self).wf(),
        ensures
            final(self).wf(),
            final(self).busy_ns() == if worker_id < old(self).workers() {
                old(self).busy_ns().update(worker_id as int, wadd64(old(self).busy_ns()[worker_id as int], duration_ns))
            } else {
                old(self).busy_ns()
            },
            final(self).workers() == old(self).workers(),
            final(self).completed() == old(self).completed(),
            final(self).stolen() == old(self).stolen(),
            final(self).failed() == old(self).failed(),
            final(self).execution_ns() == old(self).execution_ns(),
            final(self).idle_ns() == old(self).idle_ns(),
            final(self).started_at() == old(self).started_at(),
    {
        if worker_id < self.num_workers {
            let v = self.worker_busy_time_ns[worker_id].wrapping_add(duration_ns);
            self.worker_busy_time_ns.set(worker_id, v);
        }
    }

    /// Tasks completed.
    pub fn tasks_completed(&self) -> (n: usize)
        ensures
            n == self.completed(),
    {
        self.tasks_completed
    }

    /// Tasks stolen.
    pub fn tasks_stolen(&self) -> (n: usize)
        ensures
            n == self.stolen(),
    {
        self.tasks_stolen
    }

    /// Tasks failed.
    pub fn tasks_failed(&self) -> (n: usize)
        ensures
            n == self.failed(),
    {
        self.tasks_failed
    }

    /// The number of workers counted.
    pub fn num_workers(&self) -> (n: usize)
        ensures
            n == self.workers(),
    {
        self.num_workers
    }

    /// When the run started, if it was marked.
    pub fn start_time(&self) -> (t: Option<u128>)
        ensures
            t == self.started_at(),
    {
        self.start_time
    }

    /// Time spent in completed tasks, in nanoseconds.
    pub fn total_execution_time(&self) -> (d: u64)
        ensures
            d == self.execution_ns(),
    {
        self.total_execution_time_ns
    }

    /// The mean time of a completed task, in nanoseconds (rounded down);
    /// zero when none completed.
    pub fn average_task_duration(&self) -> (d: u64)
        ensures
            self.completed() == 0 ==> d == 0,
            self.completed() > 0 ==> d == self.execution_ns() / (self.completed() as u64),
    {
        if self.tasks_completed == 0 {
            return 0;
        }
        self.total_execution_time_ns / (self.tasks_completed as u64)
    }

    /// Idle and busy time of a worker, zero for other worker ids.
    pub fn worker_times(&self, worker_id: usize) -> (t: (u64, u64))
        requires
            self.wf(),
        ensures
            worker_id < self.workers() ==> t == (self.idle_ns()[worker_id as int], self.busy_ns()[worker_id as int]),
            worker_id >= self.workers() ==> t == (0u64, 0u64),
    {
        if worker_id < self.num_workers {
            (self.worker_idle_time_ns[worker_id], self.worker_busy_time_ns[worker_id])
        } else {
            (0, 0)
        }
    }

    /// Sets every counter back to zero and forgets the start.
    pub fn reset(&mut self)
        requires
            old(self).wf(),
        ensures
            final(self).wf(),
            final(self).workers() == old(self).workers(),
            final(self).completed() == 0,
            final(self).stolen() == 0,
            final(self).failed() == 0,
            final(self).execution_ns() == 0,
            final(self).idle_ns() == Seq::new(old(self).workers() as nat, |i: int| 0u64),
            final(self).busy_ns() == Seq::new(old(self).workers() as nat, |i: int| 0u64),
            final(self).started_at() is None,
    {
        let mut k: usize = 0;
        while k < self.worker_idle_time_ns.len()
            invariant
                0 <= k <= self.worker_idle_time_ns@.len(),
                self.worker_idle_time_ns@.len() == old(self).num_workers,
                self.num_workers == old(self).num_workers,
                forall|j: int| 0 <= j < k ==> self.worker_idle_time_ns@[j] == 0,
                self.worker_busy_time_ns@ == old(self).worker_busy_time_ns@,
            decreases self.worker_idle_time_ns@.len() - k,
        {
            self.worker_idle_time_ns.set(k, 0);
            k = k + 1;
        }
        let mut k: usize = 0;
        while k < self.worker_busy_time_ns.len()
            invariant
                0 <= k <= self.worker_busy_time_ns@.len(),
                self.worker_busy_time_ns@.len() == old(self).num_workers,
                self.num_workers == old(self).num_workers,
                forall|j: int| 0 <= j < k ==> self.worker_busy_time_ns@[j] == 0,
                self.worker_idle_time_ns@.len() == old(self).num_workers,
                forall|j: int| 0 <= j < self.worker_idle_time_ns@.len() ==> self.worker_idle_time_ns@[j] == 0,
            decreases self.worker_busy_time_ns@.len() - k,
        {
            self.worker_busy_time_ns.set(k, 0);
            k = k + 1;
        }
        self.tasks_completed = 0;
        self.tasks_stolen = 0;
        self.tasks_failed = 0;
        self.total_execution_time_ns = 0;
        self.total_wait_time_ns = 0;
        self.start_time = None;
        proof {
            assert(self.worker_idle_time_ns@ =~= Seq::new(old(self).workers() as nat, |i: int| 0u64));
            assert(self.worker_busy_time_ns@ =~= Seq::new(old(self).workers() as nat, |i: int| 0u64));
        }
    }
}

} // verus!
