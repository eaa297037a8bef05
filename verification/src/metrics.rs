//! Metrics collection: per-task timings, per-worker busy and idle time and
//! task counts, memory usage with its peak, and a histogram of task times.
//!
//! Times are nanoseconds given by the caller (`now_ns` is a reading of a
//! monotonic clock); counters wrap around as machine counters do.

use std::collections::HashMap;
use vstd::prelude::*;

use crate::monitoring::{wadd64, winc};

verus! {

broadcast use vstd::std_specs::hash::group_hash_axioms;

/// Width of a histogram bucket: 100 microseconds, in nanoseconds.
pub const BUCKET_NS: u64 = 100_000;

/// The time from `start` to `now`, in nanoseconds, truncated to 64 bits;
/// zero when `now` is not after `start`.
pub open spec fn elapsed_ns(start: u128, now: u128) -> u64 {
    if now > start {
        ((now - start) % 0x1_0000_0000_0000_0000) as u64
    } else {
        0
    }
}

/// The histogram bucket of a task time: the time rounded down to a whole
/// number of 100-microsecond steps.
pub open spec fn bucket_of(d: u64) -> u64 {
    ((d / BUCKET_NS) * BUCKET_NS) as u64
}

/// The number of tasks in `timings` whose time falls into bucket `b`.
pub open spec fn bucket_count(timings: Map<usize, u64>, b: u64) -> nat {
    timings.dom().filter(|k: usize| bucket_of(timings[k]) == b).len()
}

/// The number of ids in `s` whose time falls into bucket `b`.
pub open spec fn count_in(s: Seq<usize>, timings: Map<usize, u64>, b: u64) -> nat
    decreases s.len(),
{
    if s.len() == 0 {
        0
    } else {
        count_in(s.drop_last(), timings, b) + if bucket_of(timings[s.last()]) == b { 1nat } else { 0nat }
    }
}

/// The state of a metrics collector.
pub struct MetricsView {
    /// Tasks completed.
    pub executed: usize,
    /// Tasks failed.
    pub failed: usize,
    /// Time spent in completed tasks.
    pub execution_ns: u64,
    /// The time of the last completion of each task id.
    pub timings: Map<usize, u64>,
    /// When each task that has started but not ended started.
    pub starts: Map<usize, u128>,
    /// The number of workers counted.
    pub workers: usize,
    /// Busy time of each worker.
    pub busy_ns: Seq<u64>,
    /// Idle time of each worker.
    pub idle_ns: Seq<u64>,
    /// Tasks completed by each worker.
    pub worker_tasks: Seq<usize>,
    /// The last memory reading.
    pub current_memory: u64,
    /// The largest memory reading since the last reset.
    pub peak_memory: u64,
    /// When collection started, if it was marked.
    pub start: Option<u128>,
}

/// A metrics collector.
pub struct Metrics {
    total_tasks_executed: usize,
    total_tasks_failed: usize,
    total_execution_time_ns: u64,
    task_timings: HashMap<usize, u64>,
    timed_ids: Vec<usize>,
    task_start_times: HashMap<usize, u128>,
    num_workers: usize,
    worker_busy_time_ns: Vec<u64>,
    worker_idle_time_ns: Vec<u64>,
    worker_tasks_executed: Vec<usize>,
    peak_memory_bytes: u64,
    current_memory_bytes: u64,
    start_time: Option<u128>,
}

/// `n` zeros.
pub open spec fn zeros64(n: nat) -> Seq<u64> {
    Seq::new(n, |i: int| 0u64)
}

/// `n` zeros.
pub open spec fn zeros(n: nat) -> Seq<usize> {
    Seq::new(n, |i: int| 0usize)
}

/// `s` with `d` added (wrapping) at `i`, when `i` is in range.
pub open spec fn add_at(s: Seq<u64>, i: usize, d: u64) -> Seq<u64> {
    if i < s.len() {
        s.update(i as int, wadd64(s[i as int], d))
    } else {
        s
    }
}

/// `s` with one more (wrapping) at `i`, when `i` is in range.
pub open spec fn inc_at(s: Seq<usize>, i: usize) -> Seq<usize> {
    if i < s.len() {
        s.update(i as int, winc(s[i as int]))
    } else {
        s
    }
}

/// The collector with everything counted zero, for `workers` workers.
pub open spec fn cleared(workers: usize, start: Option<u128>) -> MetricsView {
    MetricsView {
        executed: 0,
        failed: 0,
        execution_ns: 0,
        timings: Map::empty(),
        starts: Map::empty(),
        workers,
        busy_ns: zeros64(workers as nat),
        idle_ns: zeros64(workers as nat),
        worker_tasks: zeros(workers as nat),
        current_memory: 0,
        peak_memory: 0,
        start,
    }
}

/// The collector after the completion of `task_id` on `worker_id` at `now`.
pub open spec fn completed(m: MetricsView, task_id: usize, worker_id: usize, now: u128) -> MetricsView {
    let d: u64 = if m.starts.contains_key(task_id) { elapsed_ns(m.starts[task_id], now) } else { 0 };
    MetricsView {
        executed: winc(m.executed),
        execution_ns: wadd64(m.execution_ns, d),
        timings: m.timings.insert(task_id, d),
        starts: m.starts.remove(task_id),
        busy_ns: add_at(m.busy_ns, worker_id, d),
        worker_tasks: inc_at(m.worker_tasks, worker_id),
        ..m
    }
}

/// Whether `r` lists buckets in strictly ascending order.
pub open spec fn ascending_buckets(r: Seq<(u64, usize)>) -> bool {
    forall|a: int, c: int| 0 <= a < c < r.len() ==> (#[trigger] r[a]).0 < (#[trigger] r[c]).0
}

/// Whether `r` is the histogram of `timings`: its non-empty buckets in
/// ascending order, each with the number of tasks in it.
pub open spec fn is_histogram(timings: Map<usize, u64>, r: Seq<(u64, usize)>) -> bool {
    &&& ascending_buckets(r)
    &&& forall|j: int| 0 <= j < r.len() ==> (#[trigger] r[j]).1 == bucket_count(timings, r[j].0)
    &&& forall|j: int| 0 <= j < r.len() ==> (#[trigger] r[j]).1 > 0
    &&& forall|k: usize| #[trigger]
        timings.contains_key(k) ==> exists|j: int| 0 <= j < r.len() && (#[trigger] r[j]).0 == bucket_of(timings[k])
}

/// The number of ids of `s` in bucket `b` is the number of elements of `d`
/// in it, when `s` lists `d` once each.
proof fn lemma_count_in_set(s: Seq<usize>, d: Set<usize>, timings: Map<usize, u64>, b: u64)
    requires
        s.no_duplicates(),
        forall|k: usize| d.contains(k) <==> s.contains(k),
    ensures
        count_in(s, timings, b) == d.filter(|k: usize| bucket_of(timings[k]) == b).len(),
    decreases s.len(),
{
    let p = |k: usize| bucket_of(timings[k]) == b;
    assert(d =~= s.to_set());
    if s.len() == 0 {
        assert(d.filter(p) =~= Set::empty());
    } else {
        let x = s.last();
        let t = s.drop_last();
        let e = d.remove(x);
        assert forall|k: usize| e.contains(k) <==> t.contains(k) by {
            if t.contains(k) {
                let i = choose|i: int| 0 <= i < t.len() && t[i] == k;
                assert(s[i] == k);
            }
            if s.contains(k) && k != x {
                let i = choose|i: int| 0 <= i < s.len() && s[i] == k;
                assert(i != s.len() - 1);
                assert(t[i] == k);
            }
            if t.contains(k) {
                let i = choose|i: int| 0 <= i < t.len() && t[i] == k;
                assert(s[i] == k && i != s.len() - 1);
            }
        };
        assert(s[s.len() - 1] == x);
        assert(t.no_duplicates()) by {
            assert forall|i: int, j: int| 0 <= i < t.len() && 0 <= j < t.len() && i != j implies t[i] != t[j] by {
                assert(s[i] == t[i] && s[j] == t[j]);
            };
        };
        lemma_count_in_set(t, e, timings, b);
        assert(e =~= t.to_set());
        assert(!e.contains(x));
        if p(x) {
            assert(d.filter(p) =~= e.filter(p).insert(x));
            assert(!e.filter(p).contains(x));
        } else {
            assert(d.filter(p) =~= e.filter(p));
        }
    }
}

/// Counting over one more id.
proof fn lemma_count_in_push(s: Seq<usize>, x: usize, timings: Map<usize, u64>, b: u64)
    ensures
        count_in(s.push(x), timings, b) == count_in(s, timings, b) + if bucket_of(timings[x]) == b { 1nat } else { 0nat },
{
    assert(s.push(x).drop_last() =~= s);
}

/// Index of the first bucket of `r` that is not below `b`.
fn bucket_position(r: &Vec<(u64, usize)>, b: u64) -> (p: usize)
    ensures
        p <= r@.len(),
        forall|j: int| 0 <= j < p ==> (#[trigger] r@[j]).0 < b,
        ascending_buckets(r@) && p < r@.len() ==> r@[p as int].0 >= b,
        ascending_buckets(r@) ==> forall|j: int| p <= j < r@.len() ==> (#[trigger] r@[j]).0 >= b,
{
    let mut p: usize = 0;
    while p < r.len() && r[p].0 < b
        invariant
            p <= r@.len(),
            forall|j: int| 0 <= j < p ==> (#[trigger] r@[j]).0 < b,
        decreases r@.len() - p,
    {
        p = p + 1;
    }
    proof {
        if ascending_buckets(r@) && p < r@.len() {
            assert forall|j: int| p <= j < r@.len() implies (#[trigger] r@[j]).0 >= b by {
                if j > p {
                    assert(r@[p as int].0 < r@[j].0);
                }
            };
        }
    }
    p
}

impl View for Metrics {
    type V = MetricsView;

    closed spec fn view(&self) -> MetricsView {
        MetricsView {
            executed: self.total_tasks_executed,
            failed: self.total_tasks_failed,
            execution_ns: self.total_execution_time_ns,
            timings: self.task_timings@,
            starts: self.task_start_times@,
            workers: self.num_workers,
            busy_ns: self.worker_busy_time_ns@,
            idle_ns: self.worker_idle_time_ns@,
            worker_tasks: self.worker_tasks_executed@,
            current_memory: self.current_memory_bytes,
            peak_memory: self.peak_memory_bytes,
            start: self.start_time,
        }
    }
}

impl Metrics {
    /// Internal consistency: one entry per worker in each per-worker
    /// table, and `timed_ids` lists each timed task once.
    pub closed spec fn wf(&self) -> bool {
        &&& self.worker_busy_time_ns@.len() == self.num_workers
        &&& self.worker_idle_time_ns@.len() == self.num_workers
        &&& self.worker_tasks_executed@.len() == self.num_workers
        &&& self.timed_ids@.no_duplicates()
        &&& forall|k: usize| self.task_timings@.contains_key(k) <==> self.timed_ids@.contains(k)
    }

    /// A consistent collector has one entry per worker in each table.
    pub proof fn lemma_wf(&self)
        requires
            self.wf(),
        ensures
            self@.busy_ns.len() == self@.workers,
            self@.idle_ns.len() == self@.workers,
            self@.worker_tasks.len() == self@.workers,
    {
    }

    fn zero_table64(n: usize) -> (v: Vec<u64>)
        ensures
            v@ == zeros64(n as nat),
    {
        let mut v: Vec<u64> = Vec::new();
        let mut k: usize = 0;
        while k < n
            invariant
                k <= n,
                v@ == zeros64(k as nat),
            decreases n - k,
        {
            v.push(0);
            proof {
                assert(v@ =~= zeros64((k + 1) as nat));
            }
            k = k + 1;
        }
        v
    }

    fn zero_table(n: usize) -> (v: Vec<usize>)
        ensures
            v@ == zeros(n as nat),
    {
        let mut v: Vec<usize> = Vec::new();
        let mut k: usize = 0;
        while k < n
            invariant
                k <= n,
                v@ == zeros(k as nat),
            decreases n - k,
        {
            v.push(0);
            proof {
                assert(v@ =~= zeros((k + 1) as nat));
            }
            k = k + 1;
        }
        v
    }

    /// A collector for `num_workers` workers with nothing counted.
    pub fn new(num_workers: usize) -> (m: Self)
        ensures
            m.wf(),
            m@ == cleared(num_workers, None),
    {
        let m = Metrics {
            total_tasks_executed: 0,
            total_tasks_failed: 0,
            total_execution_time_ns: 0,
            task_timings: HashMap::new(),
            timed_ids: Vec::new(),
            task_start_times: HashMap::new(),
            num_workers,
            worker_busy_time_ns: Self::zero_table64(num_workers),
            worker_idle_time_ns: Self::zero_table64(num_workers),
            worker_tasks_executed: Self::zero_table(num_workers),
            peak_memory_bytes: 0,
            current_memory_bytes: 0,
            start_time: None,
        };
        proof {
            assert(m@.timings =~= Map::<usize, u64>::empty());
            assert(m@.starts =~= Map::<usize, u128>::empty());
            assert(m@ == cleared(num_workers, None));
        }
        m
    }

    /// Marks the start of collection at `now_ns`.
    pub fn start(&mut self, now_ns: u128)
        requires
            old(self).wf(),
        ensures
            final(self).wf(),
            final(self)@ == (MetricsView { start: Some(now_ns), ..old(self)@ }),
    {
        self.start_time = Some(now_ns);
    }

    /// Notes that `task_id` started at `now_ns`.
    pub fn record_task_start(&mut self, task_id: usize, now_ns: u128)
        requires
            old(self).wf(),
        ensures
            final(self).wf(),
            final(self)@ == (MetricsView { starts: old(self)@.starts.insert(task_id, now_ns), ..old(self)@ }),
    {
        self.task_start_times.insert(task_id, now_ns);
    }

    /// Counts the completion of `task_id` on `worker_id` at `now_ns`: its
    /// time runs from its recorded start (zero without one) and is kept as
    /// the task's timing, added to the total and, for a known worker, to
    /// that worker's busy time and task count.
    pub fn record_task_completion(&mut self, task_id: usize, worker_id: usize, now_ns: u128)
        requires
            old(self).wf(),
        ensures
            final(self).wf(),
            final(self)@ == completed(old(self)@, task_id, worker_id, now_ns),
    {
        let ghost m = self@;
        let d: u64 = match self.task_start_times.remove(&task_id) {
            Some(start) => {
                if now_ns > start {
                    ((now_ns - start) % 0x1_0000_0000_0000_0000u128) as u64
                } else {
                    0
                }
            },
            None => 0,
        };
        let ghost ids = self.timed_ids@;
        let prev = self.task_timings.insert(task_id, d);
        if prev.is_none() {
            self.timed_ids.push(task_id);
            proof {
                assert(!ids.contains(task_id));
                assert forall|i: int, j: int|
                    0 <= i < self.timed_ids@.len() && 0 <= j < self.timed_ids@.len() && i != j implies
                    self.timed_ids@[i] != self.timed_ids@[j] by {
                    if i < ids.len() && j < ids.len() {
                        assert(ids[i] != ids[j]);
                    } else if i < ids.len() {
                        assert(ids.contains(ids[i]));
                    } else {
                        assert(ids.contains(ids[j]));
                    }
                };
                assert forall|k: usize| self.task_timings@.contains_key(k) <==> self.timed_ids@.contains(k) by {
                    if self.timed_ids@.contains(k) && k != task_id {
                        let i = choose|i: int| 0 <= i < self.timed_ids@.len() && self.timed_ids@[i] == k;
                        assert(ids[i] == k);
                    }
                    if ids.contains(k) {
                        let i = choose|i: int| 0 <= i < ids.len() && ids[i] == k;
                        assert(self.timed_ids@[i] == k);
                    }
                    if k == task_id {
                        assert(self.timed_ids@[ids.len() as int] == k);
                    }
                };
            }
        }
        self.total_tasks_executed = self.total_tasks_executed.wrapping_add(1);
        self.total_execution_time_ns = self.total_execution_time_ns.wrapping_add(d);
        if worker_id < self.num_workers {
            let b = self.worker_busy_time_ns[worker_id].wrapping_add(d);
            self.worker_busy_time_ns.set(worker_id, b);
            let t = self.worker_tasks_executed[worker_id].wrapping_add(1);
            self.worker_tasks_executed.set(worker_id, t);
        }
        proof {
            assert(self@.timings =~= m.timings.insert(task_id, d));
            assert(self@.starts =~= m.starts.remove(task_id));
            assert(self@ == completed(m, task_id, worker_id, now_ns));
        }
    }

    /// Counts a failure of `task_id` and forgets its start.
    pub fn record_task_failure(&mut self, task_id: usize)
        requires
            old(self).wf(),
        ensures
            final(self).wf(),
            final(self)@ == (MetricsView {
                failed: winc(old(self)@.failed),
                starts: old(self)@.starts.remove(task_id),
                ..old(self)@
            }),
    {
        self.task_start_times.remove(&task_id);
        self.total_tasks_failed = self.total_tasks_failed.wrapping_add(1);
        proof {
            assert(self@.starts =~= old(self)@.starts.remove(task_id));
        }
    }

    /// Adds idle time to a worker; other worker ids are ignored.
    pub fn record_worker_idle(&mut self, worker_id: usize, duration_ns: u64)
        requires
            old(self).wf(),
        ensures
            final(self).wf(),
            final(self)@ == (MetricsView { idle_ns: add_at(old(self)@.idle_ns, worker_id, duration_ns), ..old(self)@ }),
    {
        if worker_id < self.num_workers {
            let v = self.worker_idle_time_ns[worker_id].wrapping_add(duration_ns);
            self.worker_idle_time_ns.set(worker_id, v);
        }
    }

    /// Records a memory reading; the peak is the largest reading since the
    /// last reset.
    pub fn record_memory_usage(&mut self, bytes: u64)
        requires
            old(self).wf(),
        ensures
            final(self).wf(),
            final(self)@ == (MetricsView {
                current_memory: bytes,
                peak_memory: if bytes > old(self)@.peak_memory { bytes } else { old(self)@.peak_memory },
                ..old(self)@
            }),
    {
        self.current_memory_bytes = bytes;
        if bytes > self.peak_memory_bytes {
            self.peak_memory_bytes = bytes;
        }
    }

    /// Tasks completed.
    pub fn total_tasks_executed(&self) -> (n: usize)
        ensures
            n == self@.executed,
    {
        self.total_tasks_executed
    }

    /// Tasks failed.
    pub fn total_tasks_failed(&self) -> (n: usize)
        ensures
            n == self@.failed,
    {
        self.total_tasks_failed
    }

    /// The number of workers counted.
    pub fn num_workers(&self) -> (n: usize)
        ensures
            n == self@.workers,
    {
        self.num_workers
    }

    /// When collection started, if it was marked.
    pub fn start_time(&self) -> (t: Option<u128>)
        ensures
            t == self@.start,
    {
        self.start_time
    }

    /// The mean time of a completed task in nanoseconds, rounded down;
    /// zero when none completed.
    pub fn average_task_duration(&self) -> (d: u64)
        ensures
            self@.executed == 0 ==> d == 0,
            self@.executed > 0 ==> d == self@.execution_ns / (self@.executed as u64),
    {
        if self.total_tasks_executed == 0 {
            return 0;
        }
        self.total_execution_time_ns / (self.total_tasks_executed as u64)
    }

    /// Busy and idle time of a worker, zero for other worker ids.
    pub fn worker_times(&self, worker_id: usize) -> (t: (u64, u64))
        requires
            self.wf(),
        ensures
            worker_id < self@.workers ==> t == (self@.busy_ns[worker_id as int], self@.idle_ns[worker_id as int]),
            worker_id >= self@.workers ==> t == (0u64, 0u64),
    {
        if worker_id < self.num_workers {
            (self.worker_busy_time_ns[worker_id], self.worker_idle_time_ns[worker_id])
        } else {
            (0, 0)
        }
    }

    /// Tasks completed by a worker, zero for other worker ids.
    pub fn worker_task_count(&self, worker_id: usize) -> (n: usize)
        requires
            self.wf(),
        ensures
            worker_id < self@.workers ==> n == self@.worker_tasks[worker_id as int],
            worker_id >= self@.workers ==> n == 0,
    {
        if worker_id < self.num_workers {
            self.worker_tasks_executed[worker_id]
        } else {
            0
        }
    }

    /// The last memory reading.
    pub fn current_memory_bytes(&self) -> (n: u64)
        ensures
            n == self@.current_memory,
    {
        self.current_memory_bytes
    }

    /// The largest memory reading since the last reset.
    pub fn peak_memory_bytes(&self) -> (n: u64)
        ensures
            n == self@.peak_memory,
    {
        self.peak_memory_bytes
    }

    /// The task times in 100-microsecond buckets: each non-empty bucket's
    /// lower bound in nanoseconds with the number of tasks in it, in
    /// ascending order.
    pub fn task_timing_histogram(&self) -> (r: Vec<(u64, usize)>)
        requires
            self.wf(),
        ensures
            is_histogram(self@.timings, r@),
    {
        let ghost tm = self.task_timings@;
        let ghost ids = self.timed_ids@;
        let mut r: Vec<(u64, usize)> = Vec::new();
        let mut i: usize = 0;
        while i < self.timed_ids.len()
            invariant
                self.wf(),
                tm == self.task_timings@,
                ids == self.timed_ids@,
                i <= ids.len(),
                r@.len() <= i,
                ascending_buckets(r@),
                forall|j: int| 0 <= j < r@.len() ==> (#[trigger] r@[j]).1 == count_in(ids.take(i as int), tm, r@[j].0),
                forall|j: int| 0 <= j < r@.len() ==> (#[trigger] r@[j]).1 > 0,
                forall|t: int|
                    0 <= t < i ==> exists|j: int| 0 <= j < r@.len() && (#[trigger] r@[j]).0 == bucket_of(tm[#[trigger] ids[t]]),
            decreases ids.len() - i,
        {
            let id = self.timed_ids[i];
            proof {
                assert(ids.contains(id));
            }
            let d: u64 = match self.task_timings.get(&id) {
                Some(v) => *v,
                None => 0,
            };
            assert(d == tm[id]);
            let b: u64 = (d / BUCKET_NS) * BUCKET_NS;
            let p = bucket_position(&r, b);
            let ghost old_r = r@;
            proof {
                assert(ids.take(i + 1) =~= ids.take(i as int).push(id));
                assert forall|bb: u64| count_in(ids.take(i + 1), tm, bb)
                    == count_in(ids.take(i as int), tm, bb) + if bucket_of(tm[id]) == bb { 1nat } else { 0nat } by {
                    lemma_count_in_push(ids.take(i as int), id, tm, bb);
                };
            }
            if p < r.len() && r[p].0 == b {
                let c = r[p].1;
                proof {
                    lemma_count_le(ids.take(i as int), tm, b);
                }
                r.set(p, (b, c + 1));
                proof {
                    assert forall|j: int| 0 <= j < r@.len() implies (#[trigger] r@[j]).1 == count_in(ids.take(i + 1), tm, r@[j].0) by {
                        if j != p {
                            assert(old_r[j].0 != b);
                        }
                    };
                    assert forall|t: int| 0 <= t < i + 1 implies exists|j: int|
                        0 <= j < r@.len() && (#[trigger] r@[j]).0 == bucket_of(tm[#[trigger] ids[t]]) by {
                        if t < i {
                            let j = choose|j: int| 0 <= j < old_r.len() && (#[trigger] old_r[j]).0 == bucket_of(tm[ids[t]]);
                            assert(r@[j].0 == old_r[j].0);
                        } else {
                            assert(r@[p as int].0 == bucket_of(tm[ids[t]]));
                        }
                    };
                    assert(ascending_buckets(r@)) by {
                        assert forall|a: int, c: int| 0 <= a < c < r@.len() implies (#[trigger] r@[a]).0 < (#[trigger] r@[c]).0 by {
                            assert(old_r[a].0 < old_r[c].0);
                        };
                    };
                }
            } else {
                r.insert(p, (b, 1));
                proof {
                    assert forall|j: int| 0 <= j < r@.len() implies (#[trigger] r@[j]).1 == count_in(ids.take(i + 1), tm, r@[j].0) by {
                        if j < p {
                            assert(r@[j] == old_r[j]);
                            assert(old_r[j].0 < b);
                        } else if j > p {
                            assert(r@[j] == old_r[j - 1]);
                            assert(old_r[j - 1].0 >= b);
                            assert(old_r[j - 1].0 != b) by {
                                if j - 1 > p {
                                    assert(old_r[p as int].0 < old_r[j - 1].0);
                                }
                            };
                        } else {
                            assert(count_in(ids.take(i as int), tm, b) == 0) by {
                                if count_in(ids.take(i as int), tm, b) > 0 {
                                    lemma_count_positive(ids.take(i as int), tm, b);
                                    let t = choose|t: int| 0 <= t < i && bucket_of(tm[ids.take(i as int)[t]]) == b;
                                    assert(ids.take(i as int)[t] == ids[t]);
                                    let jj = choose|jj: int| 0 <= jj < old_r.len() && (#[trigger] old_r[jj]).0 == bucket_of(tm[ids[t]]);
                                    if jj < p {
                                    } else if jj > p {
                                        assert(old_r[p as int].0 < old_r[jj].0);
                                    }
                                }
                            };
                        }
                    };
                    assert forall|j: int| 0 <= j < r@.len() implies (#[trigger] r@[j]).1 > 0 by {
                        if j < p {
                            assert(r@[j] == old_r[j]);
                        } else if j > p {
                            assert(r@[j] == old_r[j - 1]);
                        }
                    };
                    assert forall|t: int| 0 <= t < i + 1 implies exists|j: int|
                        0 <= j < r@.len() && (#[trigger] r@[j]).0 == bucket_of(tm[#[trigger] ids[t]]) by {
                        if t < i {
                            let j = choose|j: int| 0 <= j < old_r.len() && (#[trigger] old_r[j]).0 == bucket_of(tm[ids[t]]);
                            if j < p {
                                assert(r@[j] == old_r[j]);
                            } else {
                                assert(r@[j + 1] == old_r[j]);
                            }
                        } else {
                            assert(r@[p as int].0 == bucket_of(tm[ids[t]]));
                        }
                    };
                    assert(ascending_buckets(r@)) by {
                        assert forall|a: int, c: int| 0 <= a < c < r@.len() implies (#[trigger] r@[a]).0 < (#[trigger] r@[c]).0 by {
                            if c < p {
                                assert(old_r[a].0 < old_r[c].0);
                            } else if c == p {
                                assert(r@[a] == old_r[a]);
                            } else if a < p {
                                assert(r@[c] == old_r[c - 1]);
                                assert(r@[a] == old_r[a]);
                                assert(old_r[a].0 < b);
                                assert(old_r[c - 1].0 >= b);
                            } else if a == p {
                                assert(r@[c] == old_r[c - 1]);
                                assert(old_r[c - 1].0 != b) by {
                                    if c - 1 > p {
                                        assert(old_r[p as int].0 < old_r[c - 1].0);
                                    }
                                };
                            } else {
                                assert(old_r[a - 1].0 < old_r[c - 1].0);
                            }
                        };
                    };
                }
            }
            i = i + 1;
        }
        proof {
            assert(ids.take(ids.len() as int) =~= ids);
            assert forall|j: int| 0 <= j < r@.len() implies (#[trigger] r@[j]).1 == bucket_count(tm, r@[j].0) by {
                lemma_count_in_set(ids, tm.dom(), tm, r@[j].0);
            };
            assert forall|k: usize| #[trigger] tm.contains_key(k) implies exists|j: int|
                0 <= j < r@.len() && (#[trigger] r@[j]).0 == bucket_of(tm[k]) by {
                assert(ids.contains(k));
                let t = choose|t: int| 0 <= t < ids.len() && ids[t] == k;
                assert(bucket_of(tm[ids[t]]) == bucket_of(tm[k]));
            };
        }
        r
    }

    /// Sets everything back to zero and marks a new start at `now_ns`.
    pub fn reset(&mut self, now_ns: u128)
        requires
            old(self).wf(),
        ensures
            final(self).wf(),
            final(self)@ == cleared(old(self)@.workers, Some(now_ns)),
    {
        self.total_tasks_executed = 0;
        self.total_tasks_failed = 0;
        self.total_execution_time_ns = 0;
        self.task_timings.clear();
        self.timed_ids.clear();
        self.task_start_times.clear();
        let n = self.num_workers;
        self.worker_busy_time_ns = Self::zero_table64(n);
        self.worker_idle_time_ns = Self::zero_table64(n);
        self.worker_tasks_executed = Self::zero_table(n);
        self.peak_memory_bytes = 0;
        self.current_memory_bytes = 0;
        self.start_time = Some(now_ns);
        proof {
            assert(self@.timings =~= Map::<usize, u64>::empty());
            assert(self@.starts =~= Map::<usize, u128>::empty());
        }
    }
}

/// A count is at most the number of ids counted.
proof fn lemma_count_le(s: Seq<usize>, timings: Map<usize, u64>, b: u64)
    ensures
        count_in(s, timings, b) <= s.len(),
    decreases s.len(),
{
    if s.len() > 0 {
        lemma_count_le(s.drop_last(), timings, b);
    }
}

/// A positive count names an id in the bucket.
proof fn lemma_count_positive(s: Seq<usize>, timings: Map<usize, u64>, b: u64)
    requires
        count_in(s, timings, b) > 0,
    ensures
        exists|t: int| 0 <= t < s.len() && bucket_of(timings[s[t]]) == b,
    decreases s.len(),
{
    if bucket_of(timings[s.last()]) == b {
        assert(bucket_of(timings[s[s.len() - 1]]) == b);
    } else {
        lemma_count_positive(s.drop_last(), timings, b);
        let t = choose|t: int| 0 <= t < s.drop_last().len() && bucket_of(timings[s.drop_last()[t]]) == b;
        assert(s[t] == s.drop_last()[t]);
    }
}

} // verus!
